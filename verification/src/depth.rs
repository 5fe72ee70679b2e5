//! The depth of nested references. An expansion that does not run out of
//! depth comes to the same with any greater depth, and as many levels as
//! there are defined names are as good as any number of levels.

use crate::environment::{answering_name, definition_of, lemma_answering_name, Scope};
use crate::expand::{
    expanded, expanded_text, gather, item_outcomes, key_outcomes, permuted, resolved, sort_keys,
    substituted, value_outcomes, Outcome,
};
use crate::failure::FailureKind;
use crate::normal::lemma_gather_ok;
use crate::order::{lemma_stable_order, stable_order};
use crate::token::{lemma_next_token, next_token, whole_token};
use crate::tree::Tree;
use vstd::prelude::*;
use vstd::set_lib::lemma_len_subset;

verus! {

/// The outcome is not the failure of a chain of references that went too
/// deep.
pub open spec fn within_depth<T>(outcome: Outcome<T>) -> bool {
    !(outcome.result matches Err(fault) && fault.kind == FailureKind::CyclicReference)
}

/// Outcomes that agree wherever the first ones are within depth agree when
/// taken together, if the first ones taken together are within depth.
pub proof fn lemma_gather_agrees(first: Seq<Outcome<Tree>>, second: Seq<Outcome<Tree>>)
    requires
        first.len() == second.len(),
        forall|i: int|
            0 <= i < first.len() && within_depth(#[trigger] first[i]) ==> second[i] == first[i],
        within_depth(gather(first)),
    ensures
        gather(second) == gather(first),
    decreases first.len(),
{
    if first.len() > 0 {
        let head = first.drop_last();
        let other = second.drop_last();
        assert(forall|i: int| 0 <= i < head.len() ==> head[i] == first[i]);
        assert(forall|i: int| 0 <= i < other.len() ==> other[i] == second[i]);
        assert(first.last() == first[first.len() - 1]);
        assert(second.last() == second[second.len() - 1]);
        lemma_gather_agrees(head, other);
    }
}

/// A reference that resolves within depth resolves to the same with one more
/// level.
pub proof fn lemma_resolved_deeper(name: Seq<char>, scope: Scope, fuel: nat)
    requires
        within_depth(resolved(name, scope, fuel)),
    ensures
        resolved(name, scope, fuel + 1) == resolved(name, scope, fuel),
    decreases fuel, 0int, Tree::Null, 0int,
{
    if let Some(value) = definition_of(scope.definitions, name) {
        if fuel > 0 {
            lemma_expanded_deeper(value, scope, (fuel - 1) as nat);
        }
    }
}

/// A text that is substituted within depth is substituted to the same with
/// one more level.
pub proof fn lemma_substituted_deeper(s: Seq<char>, from: int, scope: Scope, fuel: nat)
    requires
        within_depth(substituted(s, from, scope, fuel)),
    ensures
        substituted(s, from, scope, fuel + 1) == substituted(s, from, scope, fuel),
    decreases fuel, 1int, Tree::Null, s.len() - from,
{
    if let Some(token) = next_token(s, from) {
        if from >= 0 {
            lemma_next_token(s, from);
        }
        lemma_resolved_deeper(token.name, scope, fuel);
        let found = resolved(token.name, scope, fuel);
        if let Ok(value) = found.result {
            if crate::expand::replacement(
                value,
                s.subrange(token.start, token.end),
                token.name,
            ) is Ok {
                lemma_substituted_deeper(s, token.end, scope, fuel);
            }
        }
    }
}

/// A string that expands within depth expands to the same with one more
/// level.
pub proof fn lemma_expanded_text_deeper(s: Seq<char>, scope: Scope, fuel: nat)
    requires
        within_depth(expanded_text(s, scope, fuel)),
    ensures
        expanded_text(s, scope, fuel + 1) == expanded_text(s, scope, fuel),
    decreases fuel, 2int, Tree::Null, 0int,
{
    match whole_token(s) {
        Some(name) => {
            lemma_resolved_deeper(name, scope, fuel);
        },
        None => {
            lemma_substituted_deeper(s, 0, scope, fuel);
        },
    }
}

/// A tree that expands within depth expands to the same with one more level.
pub proof fn lemma_expanded_deeper(t: Tree, scope: Scope, fuel: nat)
    requires
        within_depth(expanded(t, scope, fuel)),
    ensures
        expanded(t, scope, fuel + 1) == expanded(t, scope, fuel),
    decreases fuel, 3int, t, 1int,
{
    match t {
        Tree::String(s) => {
            lemma_expanded_text_deeper(s, scope, fuel);
        },
        Tree::Sequence(items) => {
            let first = item_outcomes(t, scope, fuel);
            let second = item_outcomes(t, scope, fuel + 1);
            assert forall|i: int|
                0 <= i < first.len() && within_depth(#[trigger] first[i]) implies second[i]
                == first[i] by {
                lemma_expanded_deeper(items[i], scope, fuel);
            }
            lemma_gather_agrees(first, second);
        },
        Tree::Mapping(entries) => {
            let first = key_outcomes(t, scope, fuel);
            let second = key_outcomes(t, scope, fuel + 1);
            assert forall|i: int|
                0 <= i < first.len() && within_depth(#[trigger] first[i]) implies second[i]
                == first[i] by {
                lemma_expanded_deeper(entries[i].0, scope, fuel);
            }
            lemma_gather_agrees(first, second);
            if let Ok(keys) = gather(first).result {
                let order = stable_order(sort_keys(keys));
                lemma_stable_order(sort_keys(keys));
                lemma_gather_ok(first);
                let first = permuted(value_outcomes(t, scope, fuel), order);
                let second = permuted(value_outcomes(t, scope, fuel + 1), order);
                assert forall|i: int|
                    0 <= i < first.len() && within_depth(#[trigger] first[i]) implies second[i]
                    == first[i] by {
                    let j = order[i];
                    assert(0 <= j < entries.len());
                    lemma_expanded_deeper(entries[j].1, scope, fuel);
                }
                lemma_gather_agrees(first, second);
            }
        },
        _ => {},
    }
}

/// A tree that expands within some depth expands to the same within any
/// greater depth.
pub proof fn lemma_depth_suffices(t: Tree, scope: Scope, fuel: nat, more: nat)
    requires
        within_depth(expanded(t, scope, fuel)),
        fuel <= more,
    ensures
        expanded(t, scope, more) == expanded(t, scope, fuel),
    decreases more - fuel,
{
    if fuel < more {
        lemma_expanded_deeper(t, scope, fuel);
        lemma_depth_suffices(t, scope, fuel + 1, more);
    }
}

/// A text that expands within some depth expands to the same within any
/// greater depth.
pub proof fn lemma_text_depth_suffices(s: Seq<char>, scope: Scope, fuel: nat, more: nat)
    requires
        within_depth(expanded_text(s, scope, fuel)),
        fuel <= more,
    ensures
        expanded_text(s, scope, more) == expanded_text(s, scope, fuel),
    decreases more - fuel,
{
    if fuel < more {
        lemma_expanded_text_deeper(s, scope, fuel);
        lemma_text_depth_suffices(s, scope, fuel + 1, more);
    }
}

/// Where outcomes taken together run out of depth and, one level deeper, do
/// not, one of them runs out of depth and, one level deeper, does not.
pub proof fn lemma_blame_gather(first: Seq<Outcome<Tree>>, second: Seq<Outcome<Tree>>) -> (i: int)
    requires
        first.len() == second.len(),
        forall|j: int|
            0 <= j < first.len() && within_depth(#[trigger] first[j]) ==> second[j] == first[j],
        !within_depth(gather(first)),
        within_depth(gather(second)),
    ensures
        0 <= i < first.len(),
        !within_depth(first[i]),
        within_depth(second[i]),
    decreases first.len(),
{
    let head = first.drop_last();
    let other = second.drop_last();
    assert(forall|j: int| 0 <= j < head.len() ==> head[j] == first[j]);
    assert(forall|j: int| 0 <= j < other.len() ==> other[j] == second[j]);
    assert(first.last() == first[first.len() - 1]);
    assert(second.last() == second[second.len() - 1]);
    if !within_depth(gather(head)) {
        lemma_blame_gather(head, other)
    } else {
        lemma_gather_agrees(head, other);
        first.len() - 1
    }
}

/// Where a text runs out of depth and, one level deeper, does not, one of its
/// references does so.
pub proof fn lemma_blame_substituted(s: Seq<char>, from: int, scope: Scope, fuel: nat) -> (name:
    Seq<char>)
    requires
        !within_depth(substituted(s, from, scope, fuel)),
        within_depth(substituted(s, from, scope, fuel + 1)),
    ensures
        !within_depth(resolved(name, scope, fuel)),
        within_depth(resolved(name, scope, fuel + 1)),
    decreases s.len() - from,
{
    let token = next_token(s, from)->0;
    if from >= 0 {
        lemma_next_token(s, from);
    }
    if !within_depth(resolved(token.name, scope, fuel)) {
        token.name
    } else {
        lemma_resolved_deeper(token.name, scope, fuel);
        lemma_blame_substituted(s, token.end, scope, fuel)
    }
}

/// Where a string runs out of depth and, one level deeper, does not, one of
/// its references does so.
pub proof fn lemma_blame_text(s: Seq<char>, scope: Scope, fuel: nat) -> (name: Seq<char>)
    requires
        !within_depth(expanded_text(s, scope, fuel)),
        within_depth(expanded_text(s, scope, fuel + 1)),
    ensures
        !within_depth(resolved(name, scope, fuel)),
        within_depth(resolved(name, scope, fuel + 1)),
{
    match whole_token(s) {
        Some(name) => name,
        None => lemma_blame_substituted(s, 0, scope, fuel),
    }
}

/// Where a tree runs out of depth and, one level deeper, does not, one of its
/// references does so.
pub proof fn lemma_blame_expanded(t: Tree, scope: Scope, fuel: nat) -> (name: Seq<char>)
    requires
        !within_depth(expanded(t, scope, fuel)),
        within_depth(expanded(t, scope, fuel + 1)),
    ensures
        !within_depth(resolved(name, scope, fuel)),
        within_depth(resolved(name, scope, fuel + 1)),
    decreases t,
{
    match t {
        Tree::String(s) => lemma_blame_text(s, scope, fuel),
        Tree::Sequence(items) => {
            let first = item_outcomes(t, scope, fuel);
            let second = item_outcomes(t, scope, fuel + 1);
            assert forall|i: int|
                0 <= i < first.len() && within_depth(#[trigger] first[i]) implies second[i]
                == first[i] by {
                lemma_expanded_deeper(items[i], scope, fuel);
            }
            let i = lemma_blame_gather(first, second);
            lemma_blame_expanded(items[i], scope, fuel)
        },
        Tree::Mapping(entries) => {
            let first = key_outcomes(t, scope, fuel);
            let second = key_outcomes(t, scope, fuel + 1);
            assert forall|i: int|
                0 <= i < first.len() && within_depth(#[trigger] first[i]) implies second[i]
                == first[i] by {
                lemma_expanded_deeper(entries[i].0, scope, fuel);
            }
            if !within_depth(gather(first)) {
                let i = lemma_blame_gather(first, second);
                lemma_blame_expanded(entries[i].0, scope, fuel)
            } else {
                lemma_gather_agrees(first, second);
                let keys = gather(first).result->Ok_0;
                let order = stable_order(sort_keys(keys));
                lemma_stable_order(sort_keys(keys));
                lemma_gather_ok(first);
                let first = permuted(value_outcomes(t, scope, fuel), order);
                let second = permuted(value_outcomes(t, scope, fuel + 1), order);
                assert forall|i: int|
                    0 <= i < first.len() && within_depth(#[trigger] first[i]) implies second[i]
                    == first[i] by {
                    let j = order[i];
                    assert(0 <= j < entries.len());
                    lemma_expanded_deeper(entries[j].1, scope, fuel);
                }
                let i = lemma_blame_gather(first, second);
                let j = order[i];
                assert(0 <= j < entries.len());
                lemma_blame_expanded(entries[j].1, scope, fuel)
            }
        },
        _ => Seq::empty(),
    }
}

/// A tree that runs out of depth with `low` levels, and does not with `high`,
/// leads through more than `low` defined names, one below the other, the
/// value of each of which expands within `high - 1` levels.
pub proof fn lemma_deep_chain(t: Tree, scope: Scope, low: nat, high: nat) -> (names: Set<
    Seq<char>,
>)
    requires
        !within_depth(expanded(t, scope, low)),
        within_depth(expanded(t, scope, high)),
    ensures
        high >= 1,
        names.finite(),
        names.len() >= low + 1,
        forall|key: Seq<char>| #[trigger]
            names.contains(key) ==> scope.definitions.contains_key(key) && within_depth(
                expanded(scope.definitions[key], scope, (high - 1) as nat),
            ),
    decreases high,
{
    if high <= low {
        lemma_depth_suffices(t, scope, high, low);
    }
    let below = (high - 1) as nat;
    if within_depth(expanded(t, scope, below)) {
        let names = lemma_deep_chain(t, scope, low, below);
        assert forall|key: Seq<char>| #[trigger] names.contains(key) implies within_depth(
            expanded(scope.definitions[key], scope, below),
        ) by {
            lemma_expanded_deeper(scope.definitions[key], scope, (below - 1) as nat);
        }
        names
    } else {
        let name = lemma_blame_expanded(t, scope, below);
        lemma_answering_name(scope.definitions, name);
        let key = answering_name(scope.definitions, name)->0;
        let value = scope.definitions[key];
        if below == 0 {
            set![key]
        } else {
            let deeper = (below - 1) as nat;
            let names = lemma_deep_chain(value, scope, deeper, below);
            assert forall|other: Seq<char>| #[trigger]
                names.insert(key).contains(other) implies scope.definitions.contains_key(other)
                && within_depth(expanded(scope.definitions[other], scope, below)) by {
                if other != key {
                    lemma_expanded_deeper(scope.definitions[other], scope, deeper);
                }
            }
            names.insert(key)
        }
    }
}

/// As many levels as there are defined names are as good as any number of
/// levels: a tree that expands within some depth expands to the same within
/// that one.
pub proof fn lemma_definitions_bound_depth(t: Tree, scope: Scope, fuel: nat, limit: nat)
    requires
        scope.definitions.dom().finite(),
        scope.definitions.dom().len() <= limit,
        within_depth(expanded(t, scope, fuel)),
    ensures
        expanded(t, scope, limit) == expanded(t, scope, fuel),
{
    if fuel <= limit {
        lemma_depth_suffices(t, scope, fuel, limit);
    } else if within_depth(expanded(t, scope, limit)) {
        lemma_depth_suffices(t, scope, limit, fuel);
    } else {
        let names = lemma_deep_chain(t, scope, limit, fuel);
        assert(names.subset_of(scope.definitions.dom()));
        lemma_len_subset(names, scope.definitions.dom());
    }
}

/// The value of a defined name that expands within some depth expands to the
/// same within one level less than there are defined names: the name itself
/// is one of them.
pub proof fn lemma_definition_depth(scope: Scope, key: Seq<char>, fuel: nat, limit: nat)
    requires
        scope.definitions.dom().finite(),
        scope.definitions.dom().len() <= limit,
        scope.definitions.contains_key(key),
        within_depth(expanded(scope.definitions[key], scope, fuel)),
    ensures
        limit >= 1,
        expanded(scope.definitions[key], scope, (limit - 1) as nat) == expanded(
            scope.definitions[key],
            scope,
            fuel,
        ),
    decreases fuel,
{
    let value = scope.definitions[key];
    assert(scope.definitions.dom().contains(key));
    assert(scope.definitions.dom().len() >= 1) by {
        lemma_len_subset(set![key], scope.definitions.dom());
    }
    let below = (limit - 1) as nat;
    if within_depth(expanded(value, scope, below)) {
        if fuel <= below {
            lemma_depth_suffices(value, scope, fuel, below);
        } else {
            lemma_depth_suffices(value, scope, below, fuel);
        }
    } else {
        let names = lemma_deep_chain(value, scope, below, fuel);
        if names.contains(key) {
            lemma_definition_depth(scope, key, (fuel - 1) as nat, limit);
        } else {
            assert(names.insert(key).subset_of(scope.definitions.dom()));
            lemma_len_subset(names.insert(key), scope.definitions.dom());
        }
    }
}

/// As many levels as there are defined names are as good as any number of
/// levels for a reference too: a reference that resolves within some depth
/// resolves to the same within that one.
pub proof fn lemma_definitions_bound_reference(
    name: Seq<char>,
    scope: Scope,
    fuel: nat,
    limit: nat,
)
    requires
        scope.definitions.dom().finite(),
        scope.definitions.dom().len() <= limit,
        within_depth(resolved(name, scope, fuel)),
    ensures
        resolved(name, scope, limit) == resolved(name, scope, fuel),
{
    lemma_answering_name(scope.definitions, name);
    if let Some(key) = answering_name(scope.definitions, name) {
        lemma_definition_depth(scope, key, (fuel - 1) as nat, limit);
    }
}

} // verus!
