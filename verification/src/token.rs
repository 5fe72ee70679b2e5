//! The reference token: `((`, a name, `))`, with optional white space around
//! the name. A name is a run of characters that are neither white space nor
//! `)`; it may be empty.

use vstd::prelude::*;

verus! {

/// White space: the characters with the Unicode property `White_Space`.
pub open spec fn is_space(c: char) -> bool {
    let n = c as int;
    (0x09 <= n <= 0x0D) || n == 0x20 || n == 0x85 || n == 0xA0 || n == 0x1680 || (0x2000 <= n
        <= 0x200A) || n == 0x2028 || n == 0x2029 || n == 0x202F || n == 0x205F || n == 0x3000
}

/// A character that may stand in a name.
pub open spec fn is_name_char(c: char) -> bool {
    !is_space(c) && c != ')'
}

/// The first position at or after `i` that holds no white space; the length
/// of `s` if there is none.
pub open spec fn skip_spaces(s: Seq<char>, i: int) -> int
    decreases s.len() - i,
{
    if 0 <= i < s.len() && is_space(s[i]) {
        skip_spaces(s, i + 1)
    } else {
        i
    }
}

/// The first position at or after `i` that holds no name character; the length
/// of `s` if there is none.
pub open spec fn skip_name(s: Seq<char>, i: int) -> int
    decreases s.len() - i,
{
    if 0 <= i < s.len() && is_name_char(s[i]) {
        skip_name(s, i + 1)
    } else {
        i
    }
}

/// A token found in a text: where it starts, where it ends, and its name.
pub struct Token {
    pub start: int,
    pub end: int,
    pub name: Seq<char>,
}

/// The token that starts at position `i`, if one does.
pub open spec fn token_at(s: Seq<char>, i: int) -> Option<Token> {
    if 0 <= i && i + 1 < s.len() && s[i] == '(' && s[i + 1] == '(' {
        let a = skip_spaces(s, i + 2);
        let b = skip_name(s, a);
        let c = skip_spaces(s, b);
        if c + 1 < s.len() && s[c] == ')' && s[c + 1] == ')' {
            Some(Token { start: i, end: c + 2, name: s.subrange(a, b) })
        } else {
            None
        }
    } else {
        None
    }
}

/// The leftmost token that starts at or after `from`.
pub open spec fn next_token(s: Seq<char>, from: int) -> Option<Token>
    decreases s.len() - from,
{
    if from < 0 || from >= s.len() {
        None
    } else {
        match token_at(s, from) {
            Some(t) => Some(t),
            None => next_token(s, from + 1),
        }
    }
}

/// The name of the token that, with white space around it, is all of `s`.
pub open spec fn whole_token(s: Seq<char>) -> Option<Seq<char>> {
    match token_at(s, skip_spaces(s, 0)) {
        Some(t) => if skip_spaces(s, t.end) == s.len() {
            Some(t.name)
        } else {
            None
        },
        None => None,
    }
}

/// `s` holds no token at all.
pub open spec fn token_free(s: Seq<char>) -> bool {
    forall|i: int| 0 <= i < s.len() ==> (#[trigger] token_at(s, i)) is None
}

/// `skip_spaces` stays within the text, passes only white space, and stops
/// at the end or on a character that is not white space.
pub proof fn lemma_skip_spaces(s: Seq<char>, i: int)
    requires
        0 <= i <= s.len(),
    ensures
        i <= skip_spaces(s, i) <= s.len(),
        forall|j: int| i <= j < skip_spaces(s, i) ==> is_space(s[j]),
        skip_spaces(s, i) < s.len() ==> !is_space(s[skip_spaces(s, i)]),
    decreases s.len() - i,
{
    if i < s.len() && is_space(s[i]) {
        lemma_skip_spaces(s, i + 1);
    }
}

/// `skip_name` stays within the text, passes only name characters, and stops
/// at the end or on a character that is none.
pub proof fn lemma_skip_name(s: Seq<char>, i: int)
    requires
        0 <= i <= s.len(),
    ensures
        i <= skip_name(s, i) <= s.len(),
        forall|j: int| i <= j < skip_name(s, i) ==> is_name_char(s[j]),
        skip_name(s, i) < s.len() ==> !is_name_char(s[skip_name(s, i)]),
    decreases s.len() - i,
{
    if i < s.len() && is_name_char(s[i]) {
        lemma_skip_name(s, i + 1);
    }
}

/// The shape of a token that starts at `i`: `((`, white space up to `a`, name
/// characters up to `b`, white space up to `c`, and `))`.
pub open spec fn has_shape(s: Seq<char>, i: int, a: int, b: int, c: int) -> bool {
    &&& 0 <= i && i + 2 <= a <= b <= c && c + 2 <= s.len()
    &&& s[i] == '(' && s[i + 1] == '('
    &&& forall|j: int| i + 2 <= j < a ==> is_space(s[j])
    &&& forall|j: int| a <= j < b ==> is_name_char(s[j])
    &&& forall|j: int| b <= j < c ==> is_space(s[j])
    &&& s[c] == ')' && s[c + 1] == ')'
}

/// White space that ends at `to`, on a character that is none, is skipped up
/// to `to`.
pub proof fn lemma_skip_spaces_to(s: Seq<char>, from: int, to: int)
    requires
        0 <= from <= to < s.len(),
        forall|j: int| from <= j < to ==> is_space(s[j]),
        !is_space(s[to]),
    ensures
        skip_spaces(s, from) == to,
    decreases to - from,
{
    if from < to {
        lemma_skip_spaces_to(s, from + 1, to);
    }
}

/// Name characters that end at `to`, on a character that is none, are skipped
/// up to `to`.
pub proof fn lemma_skip_name_to(s: Seq<char>, from: int, to: int)
    requires
        0 <= from <= to < s.len(),
        forall|j: int| from <= j < to ==> is_name_char(s[j]),
        !is_name_char(s[to]),
    ensures
        skip_name(s, from) == to,
    decreases to - from,
{
    if from < to {
        lemma_skip_name_to(s, from + 1, to);
    }
}

/// A token that is found has the shape of a token.
pub proof fn lemma_token_has_shape(s: Seq<char>, i: int)
    ensures
        token_at(s, i) matches Some(t) ==> has_shape(
            s,
            i,
            skip_spaces(s, i + 2),
            skip_name(s, skip_spaces(s, i + 2)),
            t.end - 2,
        ) && t.name == s.subrange(skip_spaces(s, i + 2), skip_name(s, skip_spaces(s, i + 2))),
{
    if 0 <= i && i + 1 < s.len() {
        lemma_skip_spaces(s, i + 2);
        let a = skip_spaces(s, i + 2);
        lemma_skip_name(s, a);
        let b = skip_name(s, a);
        lemma_skip_spaces(s, b);
    }
}

/// Wherever a text has the shape of a token, the token is found, with that
/// end and that name, however the white space was divided.
pub proof fn lemma_shape_is_found(s: Seq<char>, i: int, a: int, b: int, c: int)
    requires
        has_shape(s, i, a, b, c),
    ensures
        token_at(s, i) == Some(Token { start: i, end: c + 2, name: s.subrange(a, b) }),
{
    if a < b {
        lemma_skip_spaces_to(s, i + 2, a);
        lemma_skip_name_to(s, a, b);
        lemma_skip_spaces_to(s, b, c);
    } else {
        // The name is empty: all of `i + 2..c` is white space.
        lemma_skip_spaces_to(s, i + 2, c);
        lemma_skip_name_to(s, c, c);
        lemma_skip_spaces_to(s, c, c);
        assert(s.subrange(a, b) =~= s.subrange(c, c));
    }
}

/// A token lies within the text and is at least four characters long.
pub proof fn lemma_token_at(s: Seq<char>, i: int)
    ensures
        token_at(s, i) matches Some(t) ==> t.start == i && 0 <= i && i + 4 <= t.end <= s.len(),
{
    if 0 <= i && i + 1 < s.len() {
        lemma_skip_spaces(s, i + 2);
        let a = skip_spaces(s, i + 2);
        lemma_skip_name(s, a);
        let b = skip_name(s, a);
        lemma_skip_spaces(s, b);
    }
}

/// The leftmost token at or after `from` lies at or after `from`, and no token
/// starts between `from` and it; where there is none, no token starts at or
/// after `from`.
pub proof fn lemma_next_token(s: Seq<char>, from: int)
    requires
        0 <= from,
    ensures
        match next_token(s, from) {
            Some(t) => from <= t.start && t.start + 4 <= t.end <= s.len() && token_at(s, t.start)
                == Some(t) && forall|j: int| from <= j < t.start ==> (#[trigger] token_at(s, j))
                is None,
            None => forall|j: int| from <= j < s.len() ==> (#[trigger] token_at(s, j)) is None,
        },
    decreases s.len() - from,
{
    if from < s.len() {
        lemma_token_at(s, from);
        if token_at(s, from) is None {
            lemma_next_token(s, from + 1);
        }
    }
}

/// Where a token was found in a vector of characters.
#[derive(Clone, Copy, PartialEq, Eq, Structural, Debug)]
pub struct TokenSpan {
    pub start: usize,
    pub name_start: usize,
    pub name_end: usize,
    pub end: usize,
}

impl TokenSpan {
    /// The token that the span marks in `s`.
    pub open spec fn token(self, s: Seq<char>) -> Token {
        Token {
            start: self.start as int,
            end: self.end as int,
            name: s.subrange(self.name_start as int, self.name_end as int),
        }
    }

    /// The span lies within a text of length `len`.
    pub open spec fn within(self, len: nat) -> bool {
        self.start + 2 <= self.name_start <= self.name_end && self.name_end + 2 <= self.end
            <= len
    }
}

/// Whether a character is white space.
pub fn char_is_space(c: char) -> (r: bool)
    ensures
        r == is_space(c),
{
    let n: u32 = c as u32;
    (0x09 <= n && n <= 0x0D) || n == 0x20 || n == 0x85 || n == 0xA0 || n == 0x1680 || (0x2000
        <= n && n <= 0x200A) || n == 0x2028 || n == 0x2029 || n == 0x202F || n == 0x205F || n
        == 0x3000
}

/// The first position at or after `i` without white space.
pub(crate) fn after_spaces(s: &Vec<char>, i: usize) -> (r: usize)
    requires
        i <= s.len(),
    ensures
        r == skip_spaces(s@, i as int),
        i <= r <= s.len(),
{
    let mut j: usize = i;
    while j < s.len() && char_is_space(s[j])
        invariant
            i <= j <= s.len(),
            skip_spaces(s@, i as int) == skip_spaces(s@, j as int),
        decreases s.len() - j,
    {
        j += 1;
    }
    j
}

/// The first position at or after `i` without a name character.
pub(crate) fn after_name(s: &Vec<char>, i: usize) -> (r: usize)
    requires
        i <= s.len(),
    ensures
        r == skip_name(s@, i as int),
        i <= r <= s.len(),
{
    let mut j: usize = i;
    while j < s.len() && !char_is_space(s[j]) && s[j] != ')'
        invariant
            i <= j <= s.len(),
            skip_name(s@, i as int) == skip_name(s@, j as int),
        decreases s.len() - j,
    {
        j += 1;
    }
    j
}

/// The token that starts at position `i`.
pub fn scan_token_at(s: &Vec<char>, i: usize) -> (r: Option<TokenSpan>)
    ensures
        match token_at(s@, i as int) {
            Some(t) => r matches Some(span) && span.token(s@) == t && span.within(s@.len()),
            None => r is None,
        },
{
    if s.len() < 4 || i > s.len() - 4 {
        proof {
            lemma_token_at(s@, i as int);
        }
        return None;
    }
    if s[i] != '(' || s[i + 1] != '(' {
        return None;
    }
    let a = after_spaces(s, i + 2);
    let b = after_name(s, a);
    let c = after_spaces(s, b);
    if c < s.len() - 1 && s[c] == ')' && s[c + 1] == ')' {
        Some(TokenSpan { start: i, name_start: a, name_end: b, end: c + 2 })
    } else {
        None
    }
}

/// The leftmost token that starts at or after `from`.
pub fn find_token(s: &Vec<char>, from: usize) -> (r: Option<TokenSpan>)
    ensures
        match next_token(s@, from as int) {
            Some(t) => r matches Some(span) && span.token(s@) == t && span.within(s@.len())
                && from <= span.start,
            None => r is None,
        },
{
    let mut i: usize = from;
    while i < s.len()
        invariant
            from <= i,
            next_token(s@, from as int) == next_token(s@, i as int),
        decreases s.len() - i,
    {
        match scan_token_at(s, i) {
            Some(span) => {
                return Some(span);
            },
            None => {},
        }
        i += 1;
    }
    None
}

/// The span of the token that, with white space around it, is all of `s`.
pub fn scan_whole_token(s: &Vec<char>) -> (r: Option<TokenSpan>)
    ensures
        match whole_token(s@) {
            Some(name) => r matches Some(span) && span.token(s@).name == name && span.within(
                s@.len(),
            ),
            None => r is None,
        },
{
    let i = after_spaces(s, 0);
    match scan_token_at(s, i) {
        Some(span) => {
            if after_spaces(s, span.end) == s.len() {
                Some(span)
            } else {
                None
            }
        },
        None => None,
    }
}

} // verus!
