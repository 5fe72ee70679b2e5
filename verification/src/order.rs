//! The order in which the entries of an expanded mapping are written: by the
//! text of their keys, keys that are not strings first, entries with equal keys
//! in the order in which they stood.

use crate::tree::Tree;
use vstd::prelude::*;

verus! {

/// The text by which a key is ordered. Only a string has one.
pub open spec fn sort_key(key: Tree) -> Option<Seq<char>> {
    match key {
        Tree::String(s) => Some(s),
        _ => None,
    }
}

/// `a` does not come after `b`: the texts are compared character by character,
/// by code point, and a text comes before its extensions.
pub open spec fn text_le(a: Seq<char>, b: Seq<char>) -> bool
    decreases a.len(),
{
    if a.len() == 0 {
        true
    } else if b.len() == 0 {
        false
    } else if a[0] != b[0] {
        a[0] < b[0]
    } else {
        text_le(a.drop_first(), b.drop_first())
    }
}

/// `a` does not come after `b`. A missing text comes before every text.
pub open spec fn key_le(a: Option<Seq<char>>, b: Option<Seq<char>>) -> bool {
    match (a, b) {
        (None, _) => true,
        (Some(_), None) => false,
        (Some(x), Some(y)) => text_le(x, y),
    }
}

/// Where the item `k` goes into `order`: behind the last item that does not
/// come after it.
pub open spec fn insertion_point(keys: Seq<Option<Seq<char>>>, order: Seq<int>, k: int) -> int
    decreases order.len(),
{
    if order.len() == 0 {
        0
    } else if key_le(keys[order.last()], keys[k]) {
        order.len() as int
    } else {
        insertion_point(keys, order.drop_last(), k)
    }
}

/// The positions `0..keys.len()` in sorted order: ascending by key, positions
/// with equal keys ascending.
pub open spec fn stable_order(keys: Seq<Option<Seq<char>>>) -> Seq<int>
    decreases keys.len(),
{
    if keys.len() == 0 {
        Seq::empty()
    } else {
        let head = stable_order(keys.drop_last());
        let k = keys.len() - 1;
        head.insert(insertion_point(keys, head, k), k)
    }
}

/// Any two texts are comparable.
pub proof fn lemma_text_le_total(a: Seq<char>, b: Seq<char>)
    ensures
        text_le(a, b) || text_le(b, a),
    decreases a.len(),
{
    if a.len() > 0 && b.len() > 0 {
        if a[0] == b[0] {
            lemma_text_le_total(a.drop_first(), b.drop_first());
        }
    }
}

/// The order of texts is transitive.
pub proof fn lemma_text_le_transitive(a: Seq<char>, b: Seq<char>, c: Seq<char>)
    requires
        text_le(a, b),
        text_le(b, c),
    ensures
        text_le(a, c),
    decreases a.len(),
{
    if a.len() > 0 && b.len() > 0 && c.len() > 0 {
        if a[0] == b[0] && b[0] == c[0] {
            lemma_text_le_transitive(a.drop_first(), b.drop_first(), c.drop_first());
        }
    }
}

/// Texts that do not come after each other are the same text.
pub proof fn lemma_text_le_antisymmetric(a: Seq<char>, b: Seq<char>)
    requires
        text_le(a, b),
        text_le(b, a),
    ensures
        a == b,
    decreases a.len(),
{
    if a.len() > 0 && b.len() > 0 {
        lemma_text_le_antisymmetric(a.drop_first(), b.drop_first());
        assert(a =~= seq![a[0]] + a.drop_first());
        assert(b =~= seq![b[0]] + b.drop_first());
    } else {
        assert(a =~= b);
    }
}

/// Any two keys are comparable.
pub proof fn lemma_key_le_total(a: Option<Seq<char>>, b: Option<Seq<char>>)
    ensures
        key_le(a, b) || key_le(b, a),
{
    if a is Some && b is Some {
        lemma_text_le_total(a->0, b->0);
    }
}

/// The order of keys is transitive.
pub proof fn lemma_key_le_transitive(
    a: Option<Seq<char>>,
    b: Option<Seq<char>>,
    c: Option<Seq<char>>,
)
    requires
        key_le(a, b),
        key_le(b, c),
    ensures
        key_le(a, c),
{
    if a is Some && b is Some && c is Some {
        lemma_text_le_transitive(a->0, b->0, c->0);
    }
}

/// The insertion point lies within the order; every item before it does not
/// come after the new item, and every item from it on comes after the new
/// item.
pub proof fn lemma_insertion_point(keys: Seq<Option<Seq<char>>>, order: Seq<int>, k: int)
    requires
        forall|a: int, b: int|
            0 <= a < b < order.len() ==> key_le(keys[order[a]], keys[order[b]]),
    ensures
        0 <= insertion_point(keys, order, k) <= order.len(),
        forall|a: int|
            0 <= a < insertion_point(keys, order, k) ==> key_le(
                keys[#[trigger] order[a]],
                keys[k],
            ),
        forall|a: int|
            insertion_point(keys, order, k) <= a < order.len() ==> !key_le(
                keys[#[trigger] order[a]],
                keys[k],
            ),
    decreases order.len(),
{
    if order.len() > 0 {
        let head = order.drop_last();
        assert(forall|a: int| 0 <= a < head.len() ==> head[a] == order[a]);
        if key_le(keys[order.last()], keys[k]) {
            assert forall|a: int| 0 <= a < order.len() implies key_le(
                keys[#[trigger] order[a]],
                keys[k],
            ) by {
                if a < order.len() - 1 {
                    lemma_key_le_transitive(keys[order[a]], keys[order.last()], keys[k]);
                }
            }
        } else {
            lemma_insertion_point(keys, head, k);
        }
    }
}

/// The sorted order holds every position once, in ascending order of keys,
/// and positions with equal keys in ascending order.
pub proof fn lemma_stable_order(keys: Seq<Option<Seq<char>>>)
    ensures
        stable_order(keys).len() == keys.len(),
        forall|a: int|
            0 <= a < keys.len() ==> 0 <= #[trigger] stable_order(keys)[a] < keys.len(),
        forall|a: int, b: int|
            0 <= a < b < keys.len() ==> stable_order(keys)[a] != stable_order(keys)[b],
        forall|a: int, b: int|
            0 <= a < b < keys.len() ==> key_le(
                keys[stable_order(keys)[a]],
                keys[stable_order(keys)[b]],
            ),
        forall|a: int, b: int|
            0 <= a < b < keys.len() && key_le(
                keys[stable_order(keys)[b]],
                keys[stable_order(keys)[a]],
            ) ==> stable_order(keys)[a] < stable_order(keys)[b],
    decreases keys.len(),
{
    if keys.len() > 0 {
        let front = keys.drop_last();
        let head = stable_order(front);
        let k = keys.len() - 1;
        lemma_stable_order(front);
        assert(forall|a: int| 0 <= a < head.len() ==> front[head[a]] == keys[head[a]]);
        assert forall|a: int, b: int| 0 <= a < b < head.len() implies key_le(
            keys[head[a]],
            keys[head[b]],
        ) by {
            assert(key_le(front[head[a]], front[head[b]]));
        }
        lemma_insertion_point(keys, head, k);
        let p = insertion_point(keys, head, k);
        let all = stable_order(keys);
        assert(all == head.insert(p, k));
        assert(forall|a: int| 0 <= a < p ==> all[a] == head[a]);
        assert(all[p] == k);
        assert(forall|a: int| p < a < all.len() ==> all[a] == head[a - 1]);
        assert forall|a: int, b: int| 0 <= a < b < keys.len() implies key_le(
            keys[all[a]],
            keys[all[b]],
        ) by {
            if b == p {
                assert(key_le(keys[head[a]], keys[k]));
            } else if a == p {
                assert(!key_le(keys[head[b - 1]], keys[k]));
                lemma_key_le_total(keys[head[b - 1]], keys[k]);
            } else if a < p && p < b {
                assert(key_le(keys[head[a]], keys[head[b - 1]]));
            } else if b < p {
                assert(key_le(keys[head[a]], keys[head[b]]));
            } else {
                assert(key_le(keys[head[a - 1]], keys[head[b - 1]]));
            }
        }
        assert forall|a: int, b: int|
            0 <= a < b < keys.len() && key_le(keys[all[b]], keys[all[a]]) implies all[a]
            < all[b] by {
            if b == p {
                assert(all[a] == head[a]);
            } else if a == p {
                assert(!key_le(keys[head[b - 1]], keys[k]));
            } else if a < p && p < b {
                assert(key_le(front[head[b - 1]], front[head[a]]));
            } else if b < p {
                assert(key_le(front[head[b]], front[head[a]]));
            } else {
                assert(key_le(front[head[b - 1]], front[head[a - 1]]));
            }
        }
    }
}

/// The texts of a vector of keys.
pub open spec fn key_texts(keys: Vec<Option<Vec<char>>>) -> Seq<Option<Seq<char>>> {
    Seq::new(
        keys@.len(),
        |i: int|
            match keys@[i] {
                Some(text) => Some(text@),
                None => None,
            },
    )
}

/// The positions of a vector as integers.
pub open spec fn positions(order: Seq<usize>) -> Seq<int> {
    Seq::new(order.len(), |i: int| order[i] as int)
}

/// Whether the text `a` does not come after the text `b`.
pub fn text_precedes(a: &Vec<char>, b: &Vec<char>) -> (r: bool)
    ensures
        r == text_le(a@, b@),
{
    let mut i: usize = 0;
    assert(a@.subrange(0, a@.len() as int) =~= a@);
    assert(b@.subrange(0, b@.len() as int) =~= b@);
    while i < a.len() && i < b.len() && a[i] == b[i]
        invariant
            i <= a.len(),
            i <= b.len(),
            text_le(a@, b@) == text_le(
                a@.subrange(i as int, a@.len() as int),
                b@.subrange(i as int, b@.len() as int),
            ),
        decreases a.len() - i,
    {
        assert(a@.subrange(i as int, a@.len() as int).drop_first() =~= a@.subrange(
            i + 1,
            a@.len() as int,
        ));
        assert(b@.subrange(i as int, b@.len() as int).drop_first() =~= b@.subrange(
            i + 1,
            b@.len() as int,
        ));
        i += 1;
    }
    if i == a.len() {
        true
    } else if i == b.len() {
        false
    } else {
        a[i] < b[i]
    }
}

/// Whether the key `a` does not come after the key `b`.
pub fn key_precedes(a: &Option<Vec<char>>, b: &Option<Vec<char>>) -> (r: bool)
    ensures
        r == key_le(
            match *a {
                Some(x) => Some(x@),
                None => None,
            },
            match *b {
                Some(y) => Some(y@),
                None => None,
            },
        ),
{
    match a {
        None => true,
        Some(x) => match b {
            None => false,
            Some(y) => text_precedes(x, y),
        },
    }
}

/// The positions of `keys` in sorted order.
pub fn sorted_order(keys: &Vec<Option<Vec<char>>>) -> (order: Vec<usize>)
    ensures
        positions(order@) == stable_order(key_texts(*keys)),
{
    let ghost all = key_texts(*keys);
    let mut order: Vec<usize> = Vec::new();
    let mut k: usize = 0;
    assert(positions(order@) =~= stable_order(all.take(0)));
    while k < keys.len()
        invariant
            k <= keys.len(),
            all == key_texts(*keys),
            order@.len() == k,
            forall|a: int| 0 <= a < k ==> (#[trigger] order@[a]) < k,
            positions(order@) == stable_order(all.take(k as int)),
        decreases keys.len() - k,
    {
        let ghost upto = all.take(k + 1);
        let ghost head = positions(order@);
        assert(upto.drop_last() =~= all.take(k as int));
        let mut p: usize = order.len();
        assert(head.take(p as int) =~= head);
        while p > 0 && !key_precedes(&keys[order[p - 1]], &keys[k])
            invariant
                p <= order@.len(),
                order@.len() == k,
                k < keys.len(),
                all == key_texts(*keys),
                upto == all.take(k + 1),
                head == positions(order@),
                forall|a: int| 0 <= a < k ==> (#[trigger] order@[a]) < k,
                insertion_point(upto, head, k as int) == insertion_point(
                    upto,
                    head.take(p as int),
                    k as int,
                ),
            decreases p,
        {
            assert(head.take(p as int).last() == order@[p - 1]);
            assert(upto[order@[p - 1] as int] == all[order@[p - 1] as int]);
            assert(head.take(p as int).drop_last() =~= head.take(p - 1));
            p -= 1;
        }
        proof {
            if p > 0 {
                assert(head.take(p as int).last() == order@[p - 1]);
                assert(upto[order@[p - 1] as int] == all[order@[p - 1] as int]);
                assert(head.take(p as int).len() == p);
            }
            assert(head.take(order@.len() as int) =~= head);
        }
        order.insert(p, k);
        assert(positions(order@) =~= head.insert(p as int, k as int));
        k += 1;
    }
    assert(all.take(k as int) =~= all);
    order
}

} // verus!
