//! The shape of an expanded tree: every mapping in it has distinct keys in
//! ascending order, and no node is tagged. A tree without tokens expands to
//! itself, put into that shape.

use crate::environment::Scope;
use crate::expand::{
    collected, expanded, expanded_text, gather, item_outcomes, key_outcomes, paired, permuted,
    resolved, sort_keys, substituted, value_outcomes, Outcome,
};
use crate::failure::Fault;
use crate::order::{key_le, lemma_stable_order, sort_key, stable_order};
use crate::token::{
    lemma_next_token, lemma_skip_spaces, next_token, skip_spaces, token_at, token_free,
    whole_token,
};
use crate::tree::{distinct_keys, lemma_index_of, lemma_with_entry_distinct, well_formed, Tree};
use vstd::prelude::*;

verus! {

/// The keys are in ascending order.
pub open spec fn ascending(entries: Seq<(Tree, Tree)>) -> bool {
    forall|i: int, j: int|
        0 <= i < j < entries.len() ==> key_le(sort_key(entries[i].0), sort_key(entries[j].0))
}

/// Every mapping in the tree has distinct keys in ascending order, and no
/// node is tagged.
pub open spec fn normal(t: Tree) -> bool
    decreases t,
{
    match t {
        Tree::Sequence(items) => forall|i: int|
            0 <= i < items.len() ==> normal(#[trigger] items[i]),
        Tree::Mapping(entries) => distinct_keys(entries) && ascending(entries) && forall|i: int|
            0 <= i < entries.len() ==> normal((#[trigger] entries[i]).0) && normal(entries[i].1),
        Tree::Tagged(_, _) => false,
        _ => true,
    }
}

/// No string in the tree, key or value, holds a token, and no node is tagged.
pub open spec fn inert(t: Tree) -> bool
    decreases t,
{
    match t {
        Tree::String(s) => token_free(s),
        Tree::Sequence(items) => forall|i: int| 0 <= i < items.len() ==> inert(#[trigger] items[i]),
        Tree::Mapping(entries) => forall|i: int|
            0 <= i < entries.len() ==> inert((#[trigger] entries[i]).0) && inert(entries[i].1),
        Tree::Tagged(_, _) => false,
        _ => true,
    }
}

/// The tree with the entries of every mapping put in the order of their keys,
/// and entries under one key made one.
pub open spec fn arranged(t: Tree) -> Tree
    decreases t, 1int,
{
    match t {
        Tree::Sequence(_) => Tree::Sequence(arranged_items(t)),
        Tree::Mapping(_) => {
            let keys = arranged_keys(t);
            let order = stable_order(sort_keys(keys));
            Tree::Mapping(
                collected(paired(permuted(keys, order), permuted(arranged_values(t), order))),
            )
        },
        _ => t,
    }
}

/// The arranged items of a sequence.
pub open spec fn arranged_items(t: Tree) -> Seq<Tree>
    decreases t, 0int,
{
    match t {
        Tree::Sequence(items) => Seq::new(
            items.len(),
            |i: int|
                if 0 <= i < items.len() {
                    arranged(items[i])
                } else {
                    Tree::Null
                },
        ),
        _ => Seq::empty(),
    }
}

/// The arranged keys of a mapping, in the order in which they stand.
pub open spec fn arranged_keys(t: Tree) -> Seq<Tree>
    decreases t, 0int,
{
    match t {
        Tree::Mapping(entries) => Seq::new(
            entries.len(),
            |i: int|
                if 0 <= i < entries.len() {
                    arranged(entries[i].0)
                } else {
                    Tree::Null
                },
        ),
        _ => Seq::empty(),
    }
}

/// The arranged values of a mapping, in the order in which they stand.
pub open spec fn arranged_values(t: Tree) -> Seq<Tree>
    decreases t, 0int,
{
    match t {
        Tree::Mapping(entries) => Seq::new(
            entries.len(),
            |i: int|
                if 0 <= i < entries.len() {
                    arranged(entries[i].1)
                } else {
                    Tree::Null
                },
        ),
        _ => Seq::empty(),
    }
}

/// Where the outcomes taken together are a success, each of them is one, and
/// the items are their values.
pub proof fn lemma_gather_ok(outs: Seq<Outcome<Tree>>)
    ensures
        gather(outs).result matches Ok(items) ==> items.len() == outs.len() && forall|i: int|
            0 <= i < outs.len() ==> (#[trigger] outs[i]).result == Ok::<Tree, Fault>(
                items[i],
            ),
    decreases outs.len(),
{
    if outs.len() > 0 {
        lemma_gather_ok(outs.drop_last());
        let head = outs.drop_last();
        assert(forall|i: int| 0 <= i < head.len() ==> head[i] == outs[i]);
    }
}

/// Outcomes that are all successes without warnings are, taken together, a
/// success without warnings.
pub proof fn lemma_gather_plain(outs: Seq<Outcome<Tree>>, values: Seq<Tree>)
    requires
        outs.len() == values.len(),
        forall|i: int|
            0 <= i < outs.len() ==> #[trigger] outs[i] == (Outcome::<Tree> {
                result: Ok(values[i]),
                warnings: Seq::empty(),
            }),
    ensures
        gather(outs) == (Outcome::<Seq<Tree>> { result: Ok(values), warnings: Seq::empty() }),
    decreases outs.len(),
{
    if outs.len() > 0 {
        let head = outs.drop_last();
        assert(forall|i: int| 0 <= i < head.len() ==> head[i] == outs[i]);
        lemma_gather_plain(head, values.drop_last());
        assert(values.drop_last().push(values.last()) =~= values);
        assert(outs.last() == outs[outs.len() - 1]);
        assert(Seq::<Seq<char>>::empty() + Seq::<Seq<char>>::empty() =~= Seq::<Seq<char>>::empty());
    } else {
        assert(values =~= Seq::<Tree>::empty());
    }
}

/// What holds of every key and of every value of the pairs holds of every key
/// and every value of the mapping collected from them.
pub proof fn lemma_collected_keeps(
    pairs: Seq<(Tree, Tree)>,
    good_key: spec_fn(Tree) -> bool,
    good_value: spec_fn(Tree) -> bool,
)
    requires
        forall|j: int|
            0 <= j < pairs.len() ==> good_key((#[trigger] pairs[j]).0) && good_value(pairs[j].1),
    ensures
        forall|i: int|
            0 <= i < collected(pairs).len() ==> good_key((#[trigger] collected(pairs)[i]).0)
                && good_value(collected(pairs)[i].1),
    decreases pairs.len(),
{
    if pairs.len() > 0 {
        let front = pairs.drop_last();
        assert(forall|j: int| 0 <= j < front.len() ==> front[j] == pairs[j]);
        lemma_collected_keeps(front, good_key, good_value);
        lemma_index_of(collected(front), pairs.last().0);
        assert(pairs.last() == pairs[pairs.len() - 1]);
    }
}

/// The mapping collected from pairs has distinct keys.
pub proof fn lemma_collected_distinct(pairs: Seq<(Tree, Tree)>)
    ensures
        distinct_keys(collected(pairs)),
    decreases pairs.len(),
{
    if pairs.len() > 0 {
        lemma_collected_distinct(pairs.drop_last());
        lemma_with_entry_distinct(collected(pairs.drop_last()), pairs.last().0, pairs.last().1);
    }
}

/// The mapping collected from pairs in ascending order is in ascending order.
pub proof fn lemma_collected_ascending(pairs: Seq<(Tree, Tree)>)
    requires
        ascending(pairs),
    ensures
        ascending(collected(pairs)),
    decreases pairs.len(),
{
    if pairs.len() > 0 {
        let front = pairs.drop_last();
        let last = pairs.last();
        assert(forall|j: int| 0 <= j < front.len() ==> front[j] == pairs[j]);
        assert(last == pairs[pairs.len() - 1]);
        lemma_collected_ascending(front);
        let below = |k: Tree| key_le(sort_key(k), sort_key(last.0));
        let any = |v: Tree| true;
        assert forall|j: int| 0 <= j < front.len() implies below((#[trigger] front[j]).0) && any(
            front[j].1,
        ) by {
            assert(key_le(sort_key(pairs[j].0), sort_key(pairs[pairs.len() - 1].0)));
        }
        lemma_collected_keeps(front, below, any);
        let held = collected(front);
        lemma_index_of(held, last.0);
        let all = collected(pairs);
        assert forall|i: int, j: int| 0 <= i < j < all.len() implies key_le(
            sort_key(all[i].0),
            sort_key(all[j].0),
        ) by {
            if j < held.len() {
                assert(key_le(sort_key(held[i].0), sort_key(held[j].0)));
            } else {
                assert(below(held[i].0));
            }
        }
    }
}

/// A text without tokens is not one token, and has no first token.
pub proof fn lemma_token_free(s: Seq<char>)
    requires
        token_free(s),
    ensures
        whole_token(s) is None,
        next_token(s, 0) is None,
{
    lemma_next_token(s, 0);
    lemma_skip_spaces(s, 0);
    let i = skip_spaces(s, 0);
    if i < s.len() {
        assert(token_at(s, i) is None);
    }
    if next_token(s, 0) is Some {
        let t = next_token(s, 0)->0;
        assert(token_at(s, t.start) is None);
    }
}

/// A tree without tokens expands, whatever the environment, to itself with
/// its mappings arranged, and without warnings.
pub proof fn lemma_expanded_inert(t: Tree, scope: Scope, fuel: nat)
    requires
        inert(t),
    ensures
        expanded(t, scope, fuel) == (Outcome::<Tree> {
            result: Ok(arranged(t)),
            warnings: Seq::empty(),
        }),
    decreases t,
{
    match t {
        Tree::String(s) => {
            lemma_token_free(s);
            assert(s.subrange(0, s.len() as int) =~= s);
            assert(substituted(s, 0, scope, fuel) == (Outcome::<Seq<char>> {
                result: Ok(s),
                warnings: Seq::empty(),
            }));
            assert(expanded_text(s, scope, fuel) == (Outcome::<Tree> {
                result: Ok(Tree::String(s)),
                warnings: Seq::empty(),
            }));
        },
        Tree::Sequence(items) => {
            let outs = item_outcomes(t, scope, fuel);
            let values = arranged_items(t);
            assert forall|i: int| 0 <= i < outs.len() implies #[trigger] outs[i] == (Outcome::<
                Tree,
            > { result: Ok(values[i]), warnings: Seq::empty() }) by {
                lemma_expanded_inert(items[i], scope, fuel);
            }
            lemma_gather_plain(outs, values);
        },
        Tree::Mapping(entries) => {
            let key_outs = key_outcomes(t, scope, fuel);
            let keys = arranged_keys(t);
            assert forall|i: int| 0 <= i < key_outs.len() implies #[trigger] key_outs[i] == (
            Outcome::<Tree> { result: Ok(keys[i]), warnings: Seq::empty() }) by {
                lemma_expanded_inert(entries[i].0, scope, fuel);
            }
            lemma_gather_plain(key_outs, keys);
            let order = stable_order(sort_keys(keys));
            lemma_stable_order(sort_keys(keys));
            let outs = permuted(value_outcomes(t, scope, fuel), order);
            let values = permuted(arranged_values(t), order);
            assert forall|i: int| 0 <= i < outs.len() implies #[trigger] outs[i] == (Outcome::<
                Tree,
            > { result: Ok(values[i]), warnings: Seq::empty() }) by {
                let j = order[i];
                assert(0 <= j < entries.len());
                lemma_expanded_inert(entries[j].1, scope, fuel);
            }
            lemma_gather_plain(outs, values);
            assert(Seq::<Seq<char>>::empty() + Seq::<Seq<char>>::empty() =~= Seq::<
                Seq<char>,
            >::empty());
        },
        _ => {},
    }
}

/// A reference that resolves to a value resolves to a normal one.
pub proof fn lemma_resolved_normal(name: Seq<char>, scope: Scope, fuel: nat)
    ensures
        resolved(name, scope, fuel).result matches Ok(Some(t)) ==> normal(t),
    decreases fuel, 0int, Tree::Null, 0int,
{
    if let Some(value) = crate::environment::definition_of(scope.definitions, name) {
        if fuel > 0 {
            lemma_expanded_normal(value, scope, (fuel - 1) as nat);
        }
    }
}

/// A string that expands expands to a normal tree.
pub proof fn lemma_expanded_text_normal(s: Seq<char>, scope: Scope, fuel: nat)
    ensures
        expanded_text(s, scope, fuel).result matches Ok(t) ==> normal(t),
    decreases fuel, 2int, Tree::Null, 0int,
{
    if let Some(name) = whole_token(s) {
        lemma_resolved_normal(name, scope, fuel);
    }
}

/// A tree that expands expands to a normal tree: in every mapping of the
/// result the keys are distinct and in ascending order of their text, whatever
/// order the entries stood in before.
pub proof fn lemma_expanded_normal(t: Tree, scope: Scope, fuel: nat)
    ensures
        expanded(t, scope, fuel).result matches Ok(out) ==> normal(out),
    decreases fuel, 3int, t, 1int,
{
    match t {
        Tree::String(s) => {
            lemma_expanded_text_normal(s, scope, fuel);
        },
        Tree::Sequence(items) => {
            let outs = item_outcomes(t, scope, fuel);
            lemma_gather_ok(outs);
            if let Ok(values) = gather(outs).result {
                assert forall|i: int| 0 <= i < values.len() implies normal(#[trigger] values[i]) by {
                    lemma_expanded_normal(items[i], scope, fuel);
                    assert(outs[i].result == Ok::<Tree, Fault>(values[i]));
                }
            }
        },
        Tree::Mapping(entries) => {
            let key_outs = key_outcomes(t, scope, fuel);
            lemma_gather_ok(key_outs);
            if let Ok(keys) = gather(key_outs).result {
                assert forall|i: int| 0 <= i < keys.len() implies normal(#[trigger] keys[i]) by {
                    lemma_expanded_normal(entries[i].0, scope, fuel);
                    assert(key_outs[i].result == Ok::<Tree, Fault>(keys[i]));
                }
                let order = stable_order(sort_keys(keys));
                lemma_stable_order(sort_keys(keys));
                let outs = permuted(value_outcomes(t, scope, fuel), order);
                lemma_gather_ok(outs);
                if let Ok(values) = gather(outs).result {
                    assert forall|i: int| 0 <= i < values.len() implies normal(
                        #[trigger] values[i],
                    ) by {
                        let j = order[i];
                        assert(0 <= j < entries.len());
                        lemma_expanded_normal(entries[j].1, scope, fuel);
                        assert(outs[i].result == Ok::<Tree, Fault>(values[i]));
                    }
                    let pairs = paired(permuted(keys, order), values);
                    assert forall|i: int, j: int| 0 <= i < j < pairs.len() implies key_le(
                        sort_key(pairs[i].0),
                        sort_key(pairs[j].0),
                    ) by {
                        assert(sort_keys(keys)[order[i]] == sort_key(keys[order[i]]));
                        assert(sort_keys(keys)[order[j]] == sort_key(keys[order[j]]));
                    }
                    let is_normal = |x: Tree| normal(x);
                    assert forall|j: int| 0 <= j < pairs.len() implies is_normal(
                        (#[trigger] pairs[j]).0,
                    ) && is_normal(pairs[j].1) by {
                        assert(0 <= order[j] < keys.len());
                        assert(normal(keys[order[j]]));
                        assert(normal(values[j]));
                    }
                    lemma_collected_keeps(pairs, is_normal, is_normal);
                    lemma_collected_distinct(pairs);
                    lemma_collected_ascending(pairs);
                }
            }
        },
        _ => {},
    }
}

/// A normal tree is well formed.
pub proof fn lemma_normal_well_formed(t: Tree)
    requires
        normal(t),
    ensures
        well_formed(t),
    decreases t,
{
    match t {
        Tree::Sequence(items) => {
            assert forall|i: int| 0 <= i < items.len() implies well_formed(#[trigger] items[i]) by {
                lemma_normal_well_formed(items[i]);
            }
        },
        Tree::Mapping(entries) => {
            assert forall|i: int| 0 <= i < entries.len() implies well_formed(
                (#[trigger] entries[i]).0,
            ) && well_formed(entries[i].1) by {
                lemma_normal_well_formed(entries[i].0);
                lemma_normal_well_formed(entries[i].1);
            }
        },
        _ => {},
    }
}

/// The positions `0..n` in their own order.
pub open spec fn in_place(n: nat) -> Seq<int> {
    Seq::new(n, |i: int| i)
}

/// Keys that are in ascending order already are left in place.
pub proof fn lemma_stable_order_in_place(keys: Seq<Option<Seq<char>>>)
    requires
        forall|i: int, j: int| 0 <= i < j < keys.len() ==> key_le(keys[i], keys[j]),
    ensures
        stable_order(keys) == in_place(keys.len()),
    decreases keys.len(),
{
    if keys.len() > 0 {
        let front = keys.drop_last();
        assert(forall|i: int| 0 <= i < front.len() ==> front[i] == keys[i]);
        lemma_stable_order_in_place(front);
        let head = stable_order(front);
        let k = keys.len() - 1;
        if head.len() > 0 {
            assert(head.last() == k - 1);
            assert(key_le(keys[k - 1], keys[k]));
        }
        assert(crate::order::insertion_point(keys, head, k) == head.len());
        assert(head.insert(head.len() as int, k) =~= in_place(keys.len()));
    } else {
        assert(stable_order(keys) =~= in_place(keys.len()));
    }
}

/// Pairs with distinct keys are collected as they are.
pub proof fn lemma_collected_same(pairs: Seq<(Tree, Tree)>)
    requires
        distinct_keys(pairs),
    ensures
        collected(pairs) == pairs,
    decreases pairs.len(),
{
    if pairs.len() > 0 {
        let front = pairs.drop_last();
        assert(forall|i: int| 0 <= i < front.len() ==> front[i] == pairs[i]);
        lemma_collected_same(front);
        lemma_index_of(front, pairs.last().0);
        assert(pairs.last() == pairs[pairs.len() - 1]);
        assert(front.push(pairs.last()) =~= pairs);
    } else {
        assert(collected(pairs) =~= pairs);
    }
}

/// Arranging a normal tree changes nothing.
pub proof fn lemma_arranged_normal(t: Tree)
    requires
        normal(t),
    ensures
        arranged(t) == t,
    decreases t,
{
    match t {
        Tree::Sequence(items) => {
            assert forall|i: int| 0 <= i < items.len() implies arranged_items(t)[i]
                == items[i] by {
                lemma_arranged_normal(items[i]);
            }
            assert(arranged_items(t) =~= items);
        },
        Tree::Mapping(entries) => {
            let keys = arranged_keys(t);
            let values = arranged_values(t);
            assert forall|i: int| 0 <= i < entries.len() implies keys[i] == entries[i].0
                && values[i] == entries[i].1 by {
                lemma_arranged_normal(entries[i].0);
                lemma_arranged_normal(entries[i].1);
            }
            assert forall|i: int, j: int| 0 <= i < j < keys.len() implies key_le(
                sort_keys(keys)[i],
                sort_keys(keys)[j],
            ) by {
                assert(key_le(sort_key(entries[i].0), sort_key(entries[j].0)));
            }
            lemma_stable_order_in_place(sort_keys(keys));
            let order = stable_order(sort_keys(keys));
            assert(paired(permuted(keys, order), permuted(values, order)) =~= entries);
            lemma_collected_same(entries);
        },
        _ => {},
    }
}

/// Arranging a tree without tokens leaves it without tokens.
pub proof fn lemma_arranged_inert(t: Tree)
    requires
        inert(t),
    ensures
        inert(arranged(t)),
    decreases t,
{
    match t {
        Tree::Sequence(items) => {
            let after = arranged_items(t);
            assert forall|i: int| 0 <= i < after.len() implies inert(#[trigger] after[i]) by {
                lemma_arranged_inert(items[i]);
                assert(after[i] == arranged(items[i]));
            }
            assert(arranged(t) == Tree::Sequence(after));
        },
        Tree::Mapping(entries) => {
            let keys = arranged_keys(t);
            let values = arranged_values(t);
            let order = stable_order(sort_keys(keys));
            lemma_stable_order(sort_keys(keys));
            let pairs = paired(permuted(keys, order), permuted(values, order));
            let is_inert = |x: Tree| inert(x);
            assert forall|j: int| 0 <= j < pairs.len() implies is_inert((#[trigger] pairs[j]).0)
                && is_inert(pairs[j].1) by {
                let i = order[j];
                assert(0 <= i < entries.len());
                lemma_arranged_inert(entries[i].0);
                lemma_arranged_inert(entries[i].1);
            }
            lemma_collected_keeps(pairs, is_inert, is_inert);
        },
        _ => {},
    }
}

/// Expansion is idempotent on a tree without tokens: what such a tree expands
/// to expands to itself.
pub proof fn lemma_expansion_settles(t: Tree, scope: Scope, fuel: nat)
    requires
        inert(t),
    ensures
        expanded(t, scope, fuel).result matches Ok(out) && expanded(out, scope, fuel)
            == expanded(t, scope, fuel),
{
    lemma_expanded_inert(t, scope, fuel);
    lemma_expanded_normal(t, scope, fuel);
    lemma_arranged_inert(t);
    lemma_expanded_inert(arranged(t), scope, fuel);
    lemma_arranged_normal(arranged(t));
}

/// A normal tree without tokens expands to itself.
pub proof fn lemma_expansion_keeps(t: Tree, scope: Scope, fuel: nat)
    requires
        inert(t),
        normal(t),
    ensures
        expanded(t, scope, fuel) == (Outcome::<Tree> { result: Ok(t), warnings: Seq::empty() }),
{
    lemma_expanded_inert(t, scope, fuel);
    lemma_arranged_normal(t);
}

} // verus!
