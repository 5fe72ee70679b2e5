//! What a render is given: named definitions, the edits declared for the
//! templates, and the prefixes of the references that are left for run time.

use crate::mutation::{edits_of, Mutation, TargetedEdit};
use crate::text::{
    chars_of, ends_with, extend_chars, has_prefix, has_suffix, last_index_of, last_position,
    lemma_last_index_of, starts_with, string_of, texts_of,
};
use crate::tree::{tree_of, Node, Tree};
use vstd::prelude::*;

verus! {

/// Named values. A name that is defined again takes the later value.
#[derive(Debug, PartialEq)]
pub struct Definitions {
    pub entries: Vec<(String, Node)>,
}

/// The definitions and the edits that come from one source.
#[derive(Debug, PartialEq)]
pub struct VariableSource {
    pub definitions: Definitions,
    pub mutations: Vec<Mutation>,
}

/// The definition source, and the prefixes of the reference names that are
/// expected to be supplied at run time.
#[derive(Debug, PartialEq)]
pub struct Environment {
    pub definitions: VariableSource,
    pub expected_runtime_lookup_prefixes: Vec<String>,
}

/// The mathematical model of an environment: what its names are defined
/// as, the prefixes of the references that are left for run time, and the
/// edits that it declares.
pub struct Scope {
    pub definitions: Map<Seq<char>, Tree>,
    pub deferred: Seq<Seq<char>>,
    pub edits: Seq<TargetedEdit>,
}

/// The names and trees of a vector of definitions, in order.
pub open spec fn pairs_of(entries: Vec<(String, Node)>) -> Seq<(Seq<char>, Tree)> {
    Seq::new(entries@.len(), |i: int| (entries@[i].0@, tree_of(entries@[i].1)))
}

/// The map that a sequence of definitions amounts to: later ones win.
pub open spec fn bound(pairs: Seq<(Seq<char>, Tree)>) -> Map<Seq<char>, Tree>
    decreases pairs.len(),
{
    if pairs.len() == 0 {
        Map::empty()
    } else {
        bound(pairs.drop_last()).insert(pairs.last().0, pairs.last().1)
    }
}

impl View for Definitions {
    type V = Map<Seq<char>, Tree>;

    open spec fn view(&self) -> Map<Seq<char>, Tree> {
        bound(pairs_of(self.entries))
    }
}

impl View for Environment {
    type V = Scope;

    open spec fn view(&self) -> Scope {
        Scope {
            definitions: self.definitions.definitions@,
            deferred: texts_of(self.expected_runtime_lookup_prefixes),
            edits: edits_of(self.definitions.mutations),
        }
    }
}

/// A name is bound to the tree of the last definition that carries it.
pub proof fn lemma_bound_found(pairs: Seq<(Seq<char>, Tree)>, name: Seq<char>, k: int)
    requires
        0 <= k < pairs.len(),
        pairs[k].0 == name,
        forall|j: int| k < j < pairs.len() ==> (#[trigger] pairs[j]).0 != name,
    ensures
        bound(pairs).contains_key(name),
        bound(pairs)[name] == pairs[k].1,
    decreases pairs.len(),
{
    if k < pairs.len() - 1 {
        let head = pairs.drop_last();
        assert(head[k] == pairs[k]);
        assert(forall|j: int| k < j < head.len() ==> head[j] == pairs[j]);
        lemma_bound_found(head, name, k);
        assert(pairs.last() == pairs[pairs.len() - 1]);
    }
}

/// A name that no definition carries is not bound.
pub proof fn lemma_bound_absent(pairs: Seq<(Seq<char>, Tree)>, name: Seq<char>)
    requires
        forall|j: int| 0 <= j < pairs.len() ==> (#[trigger] pairs[j]).0 != name,
    ensures
        !bound(pairs).contains_key(name),
    decreases pairs.len(),
{
    if pairs.len() > 0 {
        let head = pairs.drop_last();
        assert(forall|j: int| 0 <= j < head.len() ==> head[j] == pairs[j]);
        lemma_bound_absent(head, name);
        assert(pairs.last() == pairs[pairs.len() - 1]);
    }
}

/// The wildcard terminal segment.
pub open spec fn wildcard() -> Seq<char> {
    seq!['/', '*']
}

/// The suffix that asks for canonical JSON.
pub open spec fn json_suffix() -> Seq<char> {
    seq!['/', 'j', 's', 'o', 'n']
}

/// The wider name that stands in for `name`: the last two characters are cut
/// off, and what precedes the right-most `/` of the rest is given the wildcard
/// as its terminal segment. There is none where the rest holds no `/`.
pub open spec fn generalized(name: Seq<char>) -> Option<Seq<char>> {
    if name.len() < 2 {
        None
    } else {
        match last_index_of(name.subrange(0, name.len() - 2), '/') {
            Some(p) => Some(name.subrange(0, p) + wildcard()),
            None => None,
        }
    }
}

/// A wider name is shorter than the name that it stands in for.
pub proof fn lemma_generalized_shorter(name: Seq<char>)
    ensures
        generalized(name) matches Some(wider) ==> wider.len() < name.len(),
{
    if name.len() >= 2 {
        lemma_last_index_of(name.subrange(0, name.len() - 2), '/');
    }
}

/// The definition that answers `name`: its own, or else that of its wider
/// name, and so on.
pub open spec fn definition_of(definitions: Map<Seq<char>, Tree>, name: Seq<char>) -> Option<
    Tree,
>
    decreases name.len(),
    via definition_of_decreases
{
    if definitions.contains_key(name) {
        Some(definitions[name])
    } else {
        match generalized(name) {
            Some(wider) => definition_of(definitions, wider),
            None => None,
        }
    }
}

#[via_fn]
proof fn definition_of_decreases(definitions: Map<Seq<char>, Tree>, name: Seq<char>) {
    lemma_generalized_shorter(name);
}

/// The defined name whose definition answers `name`: `name` itself, or else
/// the one that answers its wider name.
pub open spec fn answering_name(definitions: Map<Seq<char>, Tree>, name: Seq<char>) -> Option<
    Seq<char>,
>
    decreases name.len(),
    via answering_name_decreases
{
    if definitions.contains_key(name) {
        Some(name)
    } else {
        match generalized(name) {
            Some(wider) => answering_name(definitions, wider),
            None => None,
        }
    }
}

#[via_fn]
proof fn answering_name_decreases(definitions: Map<Seq<char>, Tree>, name: Seq<char>) {
    lemma_generalized_shorter(name);
}

/// The definition that answers a name is the definition of the name that
/// answers it, which is a defined name.
pub proof fn lemma_answering_name(definitions: Map<Seq<char>, Tree>, name: Seq<char>)
    ensures
        match answering_name(definitions, name) {
            Some(key) => definitions.contains_key(key) && definition_of(definitions, name) == Some(
                definitions[key],
            ),
            None => definition_of(definitions, name) is None,
        },
    decreases name.len(),
{
    if !definitions.contains_key(name) {
        if let Some(wider) = generalized(name) {
            lemma_generalized_shorter(name);
            lemma_answering_name(definitions, wider);
        }
    }
}

/// There are no more defined names than definitions were made.
pub proof fn lemma_bound_size(pairs: Seq<(Seq<char>, Tree)>)
    ensures
        bound(pairs).dom().finite(),
        bound(pairs).dom().len() <= pairs.len(),
    decreases pairs.len(),
{
    if pairs.len() > 0 {
        lemma_bound_size(pairs.drop_last());
        let head = bound(pairs.drop_last());
        assert(bound(pairs).dom() =~= head.dom().insert(pairs.last().0));
    }
}

/// A name without a definition of its own is answered by the definition of
/// its wider name.
pub proof fn lemma_wildcard_fallback(definitions: Map<Seq<char>, Tree>, name: Seq<char>)
    requires
        !definitions.contains_key(name),
        generalized(name) matches Some(wider) && definitions.contains_key(wider),
    ensures
        definition_of(definitions, name) == Some(definitions[generalized(name)->0]),
{
    let wider = generalized(name)->0;
    assert(definition_of(definitions, wider) == Some(definitions[wider]));
}

/// A name whose terminal segment has two characters or more is widened to the
/// wildcard beside it.
pub proof fn lemma_generalized_terminal(head: Seq<char>, terminal: Seq<char>)
    requires
        terminal.len() >= 2,
        !terminal.contains('/'),
    ensures
        generalized(head + seq!['/'] + terminal) == Some(head + wildcard()),
{
    let name = head + seq!['/'] + terminal;
    let rest = name.subrange(0, name.len() - 2);
    lemma_last_index_of(rest, '/');
    let p = head.len() as int;
    assert(rest[p] == '/');
    assert forall|j: int| p < j < rest.len() implies rest[j] != '/' by {
        assert(rest[j] == terminal[j - p - 1]);
        assert(terminal.contains(terminal[j - p - 1]));
    }
    assert(last_index_of(rest, '/') == Some(p));
    assert(name.subrange(0, p) =~= head);
}

/// A name that ends in `/` and one more character, behind a first part that
/// itself has a `/`, is widened to what precedes the last `/` of that first
/// part, with the wildcard as terminal segment.
pub proof fn lemma_generalized_single(head: Seq<char>, middle: Seq<char>, last: char)
    requires
        !middle.contains('/'),
    ensures
        generalized(head + seq!['/'] + middle + seq!['/', last]) == Some(head + wildcard()),
{
    let name = head + seq!['/'] + middle + seq!['/', last];
    let rest = name.subrange(0, name.len() - 2);
    assert(rest =~= head + seq!['/'] + middle);
    lemma_last_index_of(rest, '/');
    let p = head.len() as int;
    assert(rest[p] == '/');
    assert forall|j: int| p < j < rest.len() implies rest[j] != '/' by {
        assert(rest[j] == middle[j - p - 1]);
        assert(middle.contains(middle[j - p - 1]));
    }
    assert(last_index_of(rest, '/') == Some(p));
    assert(name.subrange(0, p) =~= head);
}

/// The name begins with one of the prefixes.
pub open spec fn runtime_deferred(name: Seq<char>, prefixes: Seq<Seq<char>>) -> bool {
    exists|i: int| 0 <= i < prefixes.len() && starts_with(name, #[trigger] prefixes[i])
}

/// The name asks for canonical JSON.
pub open spec fn wants_json(name: Seq<char>) -> bool {
    ends_with(name, json_suffix())
}

impl Definitions {
    /// No definitions: no name is defined, and none was made.
    pub fn new() -> (d: Definitions)
        ensures
            d@ == Map::<Seq<char>, Tree>::empty(),
            d.entries@.len() == 0,
    {
        let d = Definitions { entries: Vec::new() };
        assert(pairs_of(d.entries) =~= Seq::<(Seq<char>, Tree)>::empty());
        d
    }

    /// The number of definitions made, repeated names included.
    pub fn len(&self) -> (n: usize)
        ensures
            n == self.entries@.len(),
    {
        self.entries.len()
    }

    /// Defines `name` as `value`: one more definition is made, and the name
    /// takes the value.
    pub fn define(&mut self, name: String, value: Node)
        ensures
            final(self)@ == old(self)@.insert(name@, value@),
            final(self).entries@.len() == old(self).entries@.len() + 1,
    {
        let ghost before = pairs_of(self.entries);
        self.entries.push((name, value));
        assert(pairs_of(self.entries).drop_last() =~= before);
    }

    /// The value that `name` is defined as.
    pub fn get(&self, name: &str) -> (r: Option<&Node>)
        ensures
            match r {
                Some(n) => self@.contains_key(name@) && self@[name@] == n@,
                None => !self@.contains_key(name@),
            },
    {
        let ghost pairs = pairs_of(self.entries);
        let wanted: String = name.to_owned();
        let mut i: usize = self.entries.len();
        while i > 0
            invariant
                i <= self.entries.len(),
                wanted@ == name@,
                pairs == pairs_of(self.entries),
                forall|j: int| i <= j < pairs.len() ==> (#[trigger] pairs[j]).0 != name@,
            decreases i,
        {
            if self.entries[i - 1].0 == wanted {
                proof {
                    lemma_bound_found(pairs, name@, i - 1);
                }
                return Some(&self.entries[i - 1].1);
            }
            i -= 1;
        }
        proof {
            lemma_bound_absent(pairs, name@);
        }
        None
    }
}

/// The number of nested references that an environment allows by itself: one
/// for each definition made. No chain of references that comes to an end is
/// longer.
pub open spec fn reference_depth(environment: Environment) -> nat {
    environment.definitions.definitions.entries@.len()
}

impl Environment {
    /// The number of nested references that the environment allows by itself.
    pub fn reference_depth(&self) -> (depth: usize)
        ensures
            depth == reference_depth(*self),
    {
        self.definitions.definitions.len()
    }
}

/// The definition that answers `name`, by its own name or by a wider one.
pub fn find_definition<'a>(definitions: &'a Definitions, name: &str) -> (r: Option<&'a Node>)
    ensures
        match definition_of(definitions@, name@) {
            Some(t) => r matches Some(n) && n@ == t,
            None => r is None,
        },
{
    match definitions.get(name) {
        Some(v) => {
            return Some(v);
        },
        None => {},
    }
    let mut current: Vec<char> = chars_of(name);
    loop
        invariant
            !definitions@.contains_key(current@),
            definition_of(definitions@, name@) == definition_of(definitions@, current@),
        decreases current@.len(),
    {
        if current.len() < 2 {
            return None;
        }
        proof {
            lemma_generalized_shorter(current@);
        }
        match last_position(&current, current.len() - 2, '/') {
            None => {
                return None;
            },
            Some(p) => {
                let mut wider: Vec<char> = Vec::new();
                extend_chars(&mut wider, &current, 0, p);
                wider.push('/');
                wider.push('*');
                assert(wider@ =~= current@.subrange(0, p as int) + wildcard());
                let wider_name = string_of(&wider, 0, wider.len());
                assert(wider_name@ =~= wider@);
                assert(generalized(current@) == Some(wider@));
                assert(definition_of(definitions@, current@) == definition_of(
                    definitions@,
                    wider@,
                ));
                match definitions.get(wider_name.as_str()) {
                    Some(v) => {
                        return Some(v);
                    },
                    None => {},
                }
                current = wider;
            },
        }
    }
}

/// Whether the name begins with one of the prefixes.
pub fn is_runtime_deferred(name: &Vec<char>, prefixes: &Vec<String>) -> (r: bool)
    ensures
        r == runtime_deferred(name@, texts_of(*prefixes)),
{
    let mut i: usize = 0;
    while i < prefixes.len()
        invariant
            i <= prefixes.len(),
            forall|j: int| 0 <= j < i ==> !starts_with(name@, #[trigger] texts_of(*prefixes)[j]),
        decreases prefixes.len() - i,
    {
        let prefix = chars_of(prefixes[i].as_str());
        assert(texts_of(*prefixes)[i as int] == prefix@);
        if has_prefix(name, &prefix) {
            return true;
        }
        i += 1;
    }
    false
}

/// Whether the name asks for canonical JSON.
pub fn name_wants_json(name: &Vec<char>) -> (r: bool)
    ensures
        r == wants_json(name@),
{
    let mut suffix: Vec<char> = Vec::new();
    suffix.push('/');
    suffix.push('j');
    suffix.push('s');
    suffix.push('o');
    suffix.push('n');
    assert(suffix@ =~= json_suffix());
    has_suffix(name, &suffix)
}

} // verus!
