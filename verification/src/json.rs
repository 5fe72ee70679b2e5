//! Canonical JSON for the `/json` form of a reference. The tree is rebuilt as
//! a `serde_yaml::Value`, which `serde_json` turns into a value of its own and
//! `json_canon` then writes.

use crate::number::{number_text, number_to_text};
use crate::tree::{tree_of, trees_of, Node, Tree};
use vstd::prelude::*;

verus! {

/// `serde_yaml::Value`, carried as it is: nothing of its inside is known here.
#[verifier::external_type_specification]
#[verifier::external_body]
pub struct ExYaml(serde_yaml::Value);

/// `serde_json::Value`, carried as it is: nothing of its inside is known here.
#[verifier::external_type_specification]
#[verifier::external_body]
pub struct ExJson(serde_json::Value);

/// The `serde_yaml::Value` that is null.
pub uninterp spec fn yaml_null(unit: ()) -> serde_yaml::Value;

/// The `serde_yaml::Value` that holds the given boolean.
pub uninterp spec fn yaml_bool(flag: bool) -> serde_yaml::Value;

/// The `serde_yaml::Value` that holds the number with the given text.
pub uninterp spec fn yaml_number(text: Seq<char>) -> serde_yaml::Value;

/// The `serde_yaml::Value` that holds the given string.
pub uninterp spec fn yaml_string(text: Seq<char>) -> serde_yaml::Value;

/// The `serde_yaml::Value` that holds the given items as a sequence.
pub uninterp spec fn yaml_sequence(items: Seq<serde_yaml::Value>) -> serde_yaml::Value;

/// The `serde_yaml::Value` that holds the mapping collected from the given
/// entries.
pub uninterp spec fn yaml_mapping(
    entries: Seq<(serde_yaml::Value, serde_yaml::Value)>,
) -> serde_yaml::Value;

/// The `serde_json::Value` that `serde_json::to_value` makes of a
/// `serde_yaml::Value`, where it makes one.
pub uninterp spec fn json_value(v: serde_yaml::Value) -> Option<serde_json::Value>;

/// The text that `json_canon::to_string` writes for a `serde_json::Value`,
/// where it writes one.
pub uninterp spec fn canonical_text(j: serde_json::Value) -> Option<Seq<char>>;

/// The variant `Null` of `serde_yaml::Value`: there is one such value.
#[verifier::external_body]
fn make_null() -> (r: serde_yaml::Value)
    ensures
        r == yaml_null(()),
{
    serde_yaml::Value::Null
}

/// The variant `Bool` of `serde_yaml::Value`: the value is fixed by the
/// boolean.
#[verifier::external_body]
fn make_bool(flag: bool) -> (r: serde_yaml::Value)
    ensures
        r == yaml_bool(flag),
{
    serde_yaml::Value::Bool(flag)
}

/// The variant `Number` of `serde_yaml::Value`, around a copy of the number:
/// the value is fixed by the number, which its text identifies.
#[verifier::external_body]
fn make_number(n: &serde_yaml::Number) -> (r: serde_yaml::Value)
    ensures
        r == yaml_number(number_text(*n)),
{
    serde_yaml::Value::Number(n.clone())
}

/// The variant `String` of `serde_yaml::Value`: the value is fixed by the
/// text.
#[verifier::external_body]
fn make_string(s: &str) -> (r: serde_yaml::Value)
    ensures
        r == yaml_string(s@),
{
    serde_yaml::Value::String(s.to_owned())
}

/// The variant `Sequence` of `serde_yaml::Value`: the value is fixed by the
/// items and their order.
#[verifier::external_body]
fn make_sequence(items: Vec<serde_yaml::Value>) -> (r: serde_yaml::Value)
    ensures
        r == yaml_sequence(items@),
{
    serde_yaml::Value::Sequence(items)
}

/// `FromIterator` of `serde_yaml::Mapping`, inside the variant `Mapping`: the
/// entries are inserted in order, so the value is fixed by them and their
/// order.
#[verifier::external_body]
fn make_mapping(entries: Vec<(serde_yaml::Value, serde_yaml::Value)>) -> (r: serde_yaml::Value)
    ensures
        r == yaml_mapping(entries@),
{
    serde_yaml::Value::Mapping(entries.into_iter().collect())
}

/// `serde_json::to_value`: the result is fixed by the value; there is none
/// where the call reports an error, as it does for a mapping with a key that
/// is null, a sequence, a mapping or a number that is not finite.
#[verifier::external_body]
fn to_json_value(v: &serde_yaml::Value) -> (r: Option<serde_json::Value>)
    ensures
        r == json_value(*v),
{
    serde_json::to_value(v).ok()
}

/// `json_canon::to_string`: the text is fixed by the value; there is none
/// where the call reports an error, as it does for an integer beyond the ones
/// that JSON holds exactly. The call takes the absolute value of a negative
/// integer, which the least 64-bit integer does not have: the value must come
/// from a tree in which no number but a key is written as that integer.
#[verifier::external_body]
fn to_canonical_text(j: &serde_json::Value) -> (r: Option<String>)
    requires
        exists|t: Tree| json_safe(t) && #[trigger] yaml_form(t) is Some && json_value(
            yaml_form(t)->0,
        ) == Some(*j),
    ensures
        match r {
            Some(s) => canonical_text(*j) == Some(s@),
            None => canonical_text(*j) is None,
        },
{
    json_canon::to_string(j).ok()
}

/// The text of the least 64-bit integer.
pub open spec fn least_integer_text() -> Seq<char> {
    "-9223372036854775808"@
}

/// No number of the tree is written as the least 64-bit integer, but for
/// numbers that are themselves keys of a mapping.
pub open spec fn json_safe(t: Tree) -> bool
    decreases t, 0int,
{
    match t {
        Tree::Number(text) => text != least_integer_text(),
        Tree::Sequence(items) => {
            forall|i: int| 0 <= i < items.len() ==> json_safe(#[trigger] items[i])
        },
        Tree::Mapping(entries) => {
            forall|i: int|
                0 <= i < entries.len() ==> json_safe_key((#[trigger] entries[i]).0) && json_safe(
                    entries[i].1,
                )
        },
        Tree::Tagged(_, inner) => json_safe(*inner),
        _ => true,
    }
}

/// A key that is a number is safe, whatever it is written as; any other key
/// is safe where it is as a tree.
pub open spec fn json_safe_key(key: Tree) -> bool
    decreases key, 1int,
{
    key is Number || json_safe(key)
}

/// The `serde_yaml::Value` that a tree is rebuilt as. A tree with a tagged
/// node has none.
pub open spec fn yaml_form(t: Tree) -> Option<serde_yaml::Value>
    decreases t, 1int,
{
    match t {
        Tree::Null => Some(yaml_null(())),
        Tree::Bool(b) => Some(yaml_bool(b)),
        Tree::Number(text) => Some(yaml_number(text)),
        Tree::String(s) => Some(yaml_string(s)),
        Tree::Sequence(items) => if forall|i: int|
            0 <= i < items.len() ==> yaml_form(#[trigger] items[i]) is Some {
            Some(yaml_sequence(yaml_items(t)))
        } else {
            None
        },
        Tree::Mapping(entries) => if forall|i: int|
            0 <= i < entries.len() ==> yaml_form((#[trigger] entries[i]).0) is Some && yaml_form(
                entries[i].1,
            ) is Some {
            Some(yaml_mapping(yaml_entries(t)))
        } else {
            None
        },
        Tree::Tagged(_, _) => None,
    }
}

/// The rebuilt items of a sequence.
pub open spec fn yaml_items(t: Tree) -> Seq<serde_yaml::Value>
    decreases t, 0int,
{
    match t {
        Tree::Sequence(items) => Seq::new(
            items.len(),
            |i: int|
                if 0 <= i < items.len() {
                    yaml_form(items[i])->0
                } else {
                    yaml_null(())
                },
        ),
        _ => Seq::empty(),
    }
}

/// The rebuilt entries of a mapping.
pub open spec fn yaml_entries(t: Tree) -> Seq<(serde_yaml::Value, serde_yaml::Value)>
    decreases t, 0int,
{
    match t {
        Tree::Mapping(entries) => Seq::new(
            entries.len(),
            |i: int|
                if 0 <= i < entries.len() {
                    (yaml_form(entries[i].0)->0, yaml_form(entries[i].1)->0)
                } else {
                    (yaml_null(()), yaml_null(()))
                },
        ),
        _ => Seq::empty(),
    }
}

/// The canonical JSON text of a tree, where it has one. A tree has none where
/// it holds a tagged node, or the least 64-bit integer other than as a key,
/// or where one of the two serialisers reports an error.
pub open spec fn json_form(t: Tree) -> Option<Seq<char>> {
    if !json_safe(t) {
        None
    } else {
        match yaml_form(t) {
            None => None,
            Some(y) => match json_value(y) {
                None => None,
                Some(j) => canonical_text(j),
            },
        }
    }
}

/// In a safe sequence every item is safe; in a safe mapping every key that is
/// no number and every value is safe.
pub proof fn lemma_json_safe_part(t: Tree, i: int)
    requires
        json_safe(t),
    ensures
        t matches Tree::Sequence(items) ==> 0 <= i < items.len() ==> json_safe(items[i]),
        t matches Tree::Mapping(entries) ==> 0 <= i < entries.len() ==> json_safe_key(
            entries[i].0,
        ) && json_safe(entries[i].1),
{
    match t {
        Tree::Sequence(items) => {
            if 0 <= i < items.len() {
                assert(json_safe(items[i]));
            }
        },
        Tree::Mapping(entries) => {
            if 0 <= i < entries.len() {
                assert(json_safe_key(entries[i].0) && json_safe(entries[i].1));
            }
        },
        _ => {},
    }
}

/// Whether no number of the node is written as the least 64-bit integer, but
/// for numbers that are themselves keys of a mapping.
#[verifier::loop_isolation(false)]
pub fn is_json_safe(v: &Node) -> (r: bool)
    ensures
        r == json_safe(v@),
    decreases v,
{
    match v {
        Node::Number(n) => {
            let text = number_to_text(n);
            let least = "-9223372036854775808".to_owned();
            !(text == least)
        },
        Node::Sequence(items) => {
            let mut i: usize = 0;
            while i < items.len()
                invariant
                    i <= items.len(),
                    forall|j: int| 0 <= j < i ==> json_safe(#[trigger] trees_of(*items)[j]),
                decreases items.len() - i,
            {
                assert(trees_of(*items)[i as int] == tree_of(items@[i as int]));
                if !is_json_safe(&items[i]) {
                    assert(!json_safe(trees_of(*items)[i as int]));
                    proof {
                        if json_safe(v@) {
                            lemma_json_safe_part(v@, i as int);
                        }
                    }
                    return false;
                }
                i += 1;
            }
            true
        },
        Node::Mapping(m) => {
            let mut i: usize = 0;
            while i < m.entries.len()
                invariant
                    i <= m.entries.len(),
                    forall|j: int|
                        0 <= j < i ==> json_safe_key((#[trigger] m@[j]).0) && json_safe(m@[j].1),
                decreases m.entries.len() - i,
            {
                assert(m@[i as int] == (
                    tree_of(m.entries@[i as int].0),
                    tree_of(m.entries@[i as int].1),
                ));
                let key_is_safe = match &m.entries[i].0 {
                    Node::Number(_) => true,
                    key => is_json_safe(key),
                };
                if !key_is_safe || !is_json_safe(&m.entries[i].1) {
                    proof {
                        if json_safe(v@) {
                            lemma_json_safe_part(v@, i as int);
                        }
                    }
                    return false;
                }
                i += 1;
            }
            true
        },
        Node::Tagged(_, inner) => is_json_safe(inner),
        _ => true,
    }
}

/// Rebuilds a node as a `serde_yaml::Value`.
#[verifier::loop_isolation(false)]
pub fn to_yaml(v: &Node) -> (r: Option<serde_yaml::Value>)
    ensures
        r == yaml_form(v@),
    decreases v,
{
    match v {
        Node::Null => Some(make_null()),
        Node::Bool(b) => Some(make_bool(*b)),
        Node::Number(n) => Some(make_number(n)),
        Node::String(s) => Some(make_string(s.as_str())),
        Node::Sequence(items) => {
            let mut out: Vec<serde_yaml::Value> = Vec::new();
            let mut i: usize = 0;
            while i < items.len()
                invariant
                    i <= items.len(),
                    out.len() == i,
                    forall|j: int|
                        0 <= j < i ==> yaml_form(#[trigger] trees_of(*items)[j]) == Some(out@[j]),
                decreases items.len() - i,
            {
                assert(trees_of(*items)[i as int] == tree_of(items@[i as int]));
                match to_yaml(&items[i]) {
                    Some(y) => {
                        out.push(y);
                    },
                    None => {
                        return None;
                    },
                }
                i += 1;
            }
            let r = make_sequence(out);
            assert(out@ =~= yaml_items(v@));
            Some(r)
        },
        Node::Mapping(m) => {
            let mut out: Vec<(serde_yaml::Value, serde_yaml::Value)> = Vec::new();
            let mut i: usize = 0;
            while i < m.entries.len()
                invariant
                    i <= m.entries.len(),
                    out.len() == i,
                    forall|j: int|
                        0 <= j < i ==> yaml_form((#[trigger] m@[j]).0) == Some(out@[j].0)
                            && yaml_form(m@[j].1) == Some(out@[j].1),
                decreases m.entries.len() - i,
            {
                assert(m@[i as int] == (
                    tree_of(m.entries@[i as int].0),
                    tree_of(m.entries@[i as int].1),
                ));
                let key = match to_yaml(&m.entries[i].0) {
                    Some(y) => y,
                    None => {
                        return None;
                    },
                };
                let value = match to_yaml(&m.entries[i].1) {
                    Some(y) => y,
                    None => {
                        return None;
                    },
                };
                out.push((key, value));
                i += 1;
            }
            let r = make_mapping(out);
            assert(out@ =~= yaml_entries(v@));
            Some(r)
        },
        Node::Tagged(_, _) => None,
    }
}

/// The canonical JSON text of a node: object keys sorted, no insignificant
/// white space.
pub fn canonical_json_text(v: &Node) -> (r: Option<String>)
    ensures
        match r {
            Some(s) => json_form(v@) == Some(s@),
            None => json_form(v@) is None,
        },
{
    if !is_json_safe(v) {
        return None;
    }
    match to_yaml(v) {
        None => None,
        Some(y) => match to_json_value(&y) {
            None => None,
            Some(j) => {
                assert(json_safe(v@) && yaml_form(v@) is Some && json_value(yaml_form(v@)->0)
                    == Some(j));
                to_canonical_text(&j)
            },
        },
    }
}

} // verus!
