//! Expansion: every reference token in a tree is replaced by the value that
//! its name resolves to, and the entries of every mapping are put in the order
//! of their expanded keys.

use crate::environment::{
    definition_of, find_definition, is_runtime_deferred, name_wants_json, reference_depth,
    runtime_deferred, wants_json, Environment, Scope,
};
use crate::failure::{about, bare, Failure, FailureKind, Fault};
use crate::json::{canonical_json_text, json_form};
use crate::number::number_to_text;
use crate::order::{
    key_texts, lemma_stable_order, positions, sort_key, sorted_order, stable_order,
};
use crate::text::{chars_of, extend_chars, string_of, texts_of};
use crate::token::{find_token, lemma_next_token, next_token, scan_whole_token, whole_token};
use crate::tree::{copy_node, tree_of, trees_of, with_entry, Mapping, Node, Tree};
use vstd::prelude::*;

verus! {

/// What a step of expansion comes to: a value or the failure that stopped it,
/// and the names of the runtime-deferred references that were found defined
/// on the way, in the order in which they were met.
pub struct Outcome<T> {
    pub result: Result<T, Fault>,
    pub warnings: Seq<Seq<char>>,
}

/// The outcomes of the items of a sequence taken together: the items in order,
/// or the first failure, with the warnings up to and including the item that
/// failed.
pub open spec fn gather(outs: Seq<Outcome<Tree>>) -> Outcome<Seq<Tree>>
    decreases outs.len(),
{
    if outs.len() == 0 {
        Outcome { result: Ok(Seq::empty()), warnings: Seq::empty() }
    } else {
        let head = gather(outs.drop_last());
        match head.result {
            Err(_) => head,
            Ok(items) => Outcome {
                result: match outs.last().result {
                    Ok(t) => Ok(items.push(t)),
                    Err(e) => Err(e),
                },
                warnings: head.warnings + outs.last().warnings,
            },
        }
    }
}

/// The items at the positions that `order` lists.
pub open spec fn permuted<T>(items: Seq<T>, order: Seq<int>) -> Seq<T> {
    Seq::new(order.len(), |i: int| items[order[i]])
}

/// Keys and values, pair by pair.
pub open spec fn paired(keys: Seq<Tree>, values: Seq<Tree>) -> Seq<(Tree, Tree)> {
    Seq::new(keys.len(), |i: int| (keys[i], values[i]))
}

/// The texts by which keys are ordered.
pub open spec fn sort_keys(keys: Seq<Tree>) -> Seq<Option<Seq<char>>> {
    Seq::new(keys.len(), |i: int| sort_key(keys[i]))
}

/// The mapping that a sequence of pairs amounts to: a key that comes again
/// keeps its first place and takes the later value.
pub open spec fn collected(pairs: Seq<(Tree, Tree)>) -> Seq<(Tree, Tree)>
    decreases pairs.len(),
{
    if pairs.len() == 0 {
        Seq::empty()
    } else {
        with_entry(collected(pairs.drop_last()), pairs.last().0, pairs.last().1)
    }
}

/// What the `/json` reference `name` makes of its expanded value, given the
/// canonical JSON text of that value where it is a mapping and has one: a
/// mapping becomes its text, a string stays, anything else is a failure.
pub open spec fn json_answer(t: Tree, text: Option<Seq<char>>, name: Seq<char>) -> Result<
    Option<Tree>,
    Fault,
> {
    match t {
        Tree::Mapping(_) => match text {
            Some(written) => Ok(Some(Tree::String(written))),
            None => Err(about(FailureKind::JsonNotRepresentable, name)),
        },
        Tree::String(s) => Ok(Some(Tree::String(s))),
        _ => Err(about(FailureKind::JsonNotMappingOrString, name)),
    }
}

/// The canonical JSON text that is asked for: that of a mapping.
pub open spec fn json_text(t: Tree) -> Option<Seq<char>> {
    if t is Mapping {
        json_form(t)
    } else {
        None
    }
}

/// What the `/json` reference `name` makes of its expanded value.
pub open spec fn json_result(t: Tree, name: Seq<char>) -> Result<Option<Tree>, Fault> {
    json_answer(t, json_text(t), name)
}

/// The text that stands in for the token of the reference `name` inside a
/// larger string: the text of a string or a number, the token itself where the
/// reference is left for run time.
pub open spec fn replacement(found: Option<Tree>, token_text: Seq<char>, name: Seq<char>) -> Result<
    Seq<char>,
    Fault,
> {
    match found {
        None => Ok(token_text),
        Some(Tree::Number(text)) => Ok(text),
        Some(Tree::String(s)) => Ok(s),
        Some(_) => Err(about(FailureKind::InterpolateNonScalar, name)),
    }
}

/// What the reference `name` resolves to, with `fuel` levels of nested
/// references allowed below it.
pub open spec fn resolved(name: Seq<char>, scope: Scope, fuel: nat) -> Outcome<Option<Tree>>
    decreases fuel, 0int, Tree::Null, 0int,
{
    let deferred = runtime_deferred(name, scope.deferred);
    match definition_of(scope.definitions, name) {
        None => Outcome {
            result: if deferred {
                Ok(None)
            } else {
                Err(about(FailureKind::MissingReference, name))
            },
            warnings: Seq::empty(),
        },
        Some(value) => {
            let noted = if deferred {
                seq![name]
            } else {
                Seq::empty()
            };
            if fuel == 0 {
                Outcome {
                    result: Err(about(FailureKind::CyclicReference, name)),
                    warnings: noted,
                }
            } else {
                let inner = expanded(value, scope, (fuel - 1) as nat);
                Outcome {
                    result: match inner.result {
                        Err(e) => Err(e),
                        Ok(t) => if wants_json(name) {
                            json_result(t, name)
                        } else {
                            Ok(Some(t))
                        },
                    },
                    warnings: noted + inner.warnings,
                }
            }
        },
    }
}

/// The text of `s` from position `from` on, with every token replaced.
pub open spec fn substituted(s: Seq<char>, from: int, scope: Scope, fuel: nat) -> Outcome<
    Seq<char>,
>
    decreases fuel, 1int, Tree::Null, s.len() - from,
    via substituted_decreases
{
    match next_token(s, from) {
        None => Outcome { result: Ok(s.subrange(from, s.len() as int)), warnings: Seq::empty() },
        Some(token) => {
            let found = resolved(token.name, scope, fuel);
            match found.result {
                Err(e) => Outcome { result: Err(e), warnings: found.warnings },
                Ok(value) => match replacement(
                    value,
                    s.subrange(token.start, token.end),
                    token.name,
                ) {
                    Err(e) => Outcome { result: Err(e), warnings: found.warnings },
                    Ok(text) => {
                        let rest = substituted(s, token.end, scope, fuel);
                        Outcome {
                            result: match rest.result {
                                Err(e) => Err(e),
                                Ok(tail) => Ok(s.subrange(from, token.start) + text + tail),
                            },
                            warnings: found.warnings + rest.warnings,
                        }
                    },
                },
            }
        },
    }
}

#[via_fn]
proof fn substituted_decreases(s: Seq<char>, from: int, scope: Scope, fuel: nat) {
    if from >= 0 {
        lemma_next_token(s, from);
    }
}

/// What a string expands to. A string that is one token and nothing else
/// becomes the value that the token resolves to, whatever its kind.
pub open spec fn expanded_text(s: Seq<char>, scope: Scope, fuel: nat) -> Outcome<Tree>
    decreases fuel, 2int, Tree::Null, 0int,
{
    match whole_token(s) {
        Some(name) => {
            let found = resolved(name, scope, fuel);
            Outcome {
                result: match found.result {
                    Err(e) => Err(e),
                    Ok(Some(t)) => Ok(t),
                    Ok(None) => Ok(Tree::String(s)),
                },
                warnings: found.warnings,
            }
        },
        None => {
            let inner = substituted(s, 0, scope, fuel);
            Outcome {
                result: match inner.result {
                    Err(e) => Err(e),
                    Ok(text) => Ok(Tree::String(text)),
                },
                warnings: inner.warnings,
            }
        },
    }
}

/// The outcomes of the items of a sequence, each expanded by itself.
pub open spec fn item_outcomes(t: Tree, scope: Scope, fuel: nat) -> Seq<Outcome<Tree>>
    decreases fuel, 3int, t, 0int,
{
    match t {
        Tree::Sequence(items) => Seq::new(
            items.len(),
            |i: int|
                if 0 <= i < items.len() {
                    expanded(items[i], scope, fuel)
                } else {
                    Outcome { result: Ok(Tree::Null), warnings: Seq::empty() }
                },
        ),
        _ => Seq::empty(),
    }
}

/// The outcomes of the keys of a mapping, each expanded by itself.
pub open spec fn key_outcomes(t: Tree, scope: Scope, fuel: nat) -> Seq<Outcome<Tree>>
    decreases fuel, 3int, t, 0int,
{
    match t {
        Tree::Mapping(entries) => Seq::new(
            entries.len(),
            |i: int|
                if 0 <= i < entries.len() {
                    expanded(entries[i].0, scope, fuel)
                } else {
                    Outcome { result: Ok(Tree::Null), warnings: Seq::empty() }
                },
        ),
        _ => Seq::empty(),
    }
}

/// The outcomes of the values of a mapping, each expanded by itself.
pub open spec fn value_outcomes(t: Tree, scope: Scope, fuel: nat) -> Seq<Outcome<Tree>>
    decreases fuel, 3int, t, 0int,
{
    match t {
        Tree::Mapping(entries) => Seq::new(
            entries.len(),
            |i: int|
                if 0 <= i < entries.len() {
                    expanded(entries[i].1, scope, fuel)
                } else {
                    Outcome { result: Ok(Tree::Null), warnings: Seq::empty() }
                },
        ),
        _ => Seq::empty(),
    }
}

/// What a tree expands to. Keys are expanded first, in the order in which
/// they stand; values after them, in the sorted order of the expanded keys.
pub open spec fn expanded(t: Tree, scope: Scope, fuel: nat) -> Outcome<Tree>
    decreases fuel, 3int, t, 1int,
{
    match t {
        Tree::Null => Outcome { result: Ok(t), warnings: Seq::empty() },
        Tree::Bool(_) => Outcome { result: Ok(t), warnings: Seq::empty() },
        Tree::Number(_) => Outcome { result: Ok(t), warnings: Seq::empty() },
        Tree::String(s) => expanded_text(s, scope, fuel),
        Tree::Sequence(_) => {
            let all = gather(item_outcomes(t, scope, fuel));
            Outcome {
                result: match all.result {
                    Ok(items) => Ok(Tree::Sequence(items)),
                    Err(e) => Err(e),
                },
                warnings: all.warnings,
            }
        },
        Tree::Mapping(_) => {
            let keys = gather(key_outcomes(t, scope, fuel));
            match keys.result {
                Err(e) => Outcome { result: Err(e), warnings: keys.warnings },
                Ok(new_keys) => {
                    let order = stable_order(sort_keys(new_keys));
                    let values = gather(permuted(value_outcomes(t, scope, fuel), order));
                    Outcome {
                        result: match values.result {
                            Err(e) => Err(e),
                            Ok(new_values) => Ok(
                                Tree::Mapping(
                                    collected(paired(permuted(new_keys, order), new_values)),
                                ),
                            ),
                        },
                        warnings: keys.warnings + values.warnings,
                    }
                },
            }
        },
        Tree::Tagged(_, _) => Outcome {
            result: Err(bare(FailureKind::UnsupportedNode)),
            warnings: Seq::empty(),
        },
    }
}

/// The warnings `added` were appended to the log.
pub open spec fn logged(before: Vec<String>, after: Vec<String>, added: Seq<Seq<char>>) -> bool {
    texts_of(after) == texts_of(before) + added
}

/// Taking one more outcome into account.
pub proof fn lemma_gather_step(outs: Seq<Outcome<Tree>>, i: int)
    requires
        0 <= i < outs.len(),
    ensures
        gather(outs.take(i)).result matches Ok(items) ==> gather(outs.take(i + 1)) == (Outcome {
            result: match outs[i].result {
                Ok(t) => Ok(items.push(t)),
                Err(e) => Err(e),
            },
            warnings: gather(outs.take(i)).warnings + outs[i].warnings,
        }),
        gather(outs.take(i)).result matches Ok(items) ==> items.len() == i,
    decreases i,
{
    assert(outs.take(i + 1).drop_last() =~= outs.take(i));
    assert(outs.take(i + 1).last() == outs[i]);
    if i > 0 {
        lemma_gather_step(outs, i - 1);
        assert(outs.take(i).drop_last() =~= outs.take(i - 1));
    } else {
        assert(outs.take(0).len() == 0);
    }
}

/// Once a prefix has failed, the outcomes behind it change nothing.
pub proof fn lemma_gather_stops(outs: Seq<Outcome<Tree>>, k: int)
    requires
        0 <= k <= outs.len(),
        gather(outs.take(k)).result is Err,
    ensures
        gather(outs) == gather(outs.take(k)),
    decreases outs.len(),
{
    if k < outs.len() {
        assert(outs.drop_last().take(k) =~= outs.take(k));
        lemma_gather_stops(outs.drop_last(), k);
    } else {
        assert(outs.take(k) =~= outs);
    }
}

/// A reference that is left for run time and has no definition resolves to
/// no value, without failure and without warning.
pub proof fn lemma_deferred_without_definition(name: Seq<char>, scope: Scope, fuel: nat)
    requires
        runtime_deferred(name, scope.deferred),
        definition_of(scope.definitions, name) is None,
    ensures
        resolved(name, scope, fuel) == (Outcome::<Option<Tree>> {
            result: Ok(None),
            warnings: Seq::empty(),
        }),
{
}

/// A reference that is left for run time and yet has a definition resolves as
/// any other reference does, and its name is the first warning.
pub proof fn lemma_deferred_with_definition(name: Seq<char>, scope: Scope, fuel: nat)
    requires
        runtime_deferred(name, scope.deferred),
        definition_of(scope.definitions, name) is Some,
        fuel > 0,
    ensures
        resolved(name, scope, fuel).warnings == seq![name] + expanded(
            definition_of(scope.definitions, name)->0,
            scope,
            (fuel - 1) as nat,
        ).warnings,
        !wants_json(name) ==> resolved(name, scope, fuel).result == match expanded(
            definition_of(scope.definitions, name)->0,
            scope,
            (fuel - 1) as nat,
        ).result {
            Ok(t) => Ok::<Option<Tree>, Fault>(Some(t)),
            Err(e) => Err(e),
        },
{
}

/// A reference that has neither a definition nor a runtime-deferred prefix
/// fails, and the failure names it.
pub proof fn lemma_missing_reference(name: Seq<char>, scope: Scope, fuel: nat)
    requires
        !runtime_deferred(name, scope.deferred),
        definition_of(scope.definitions, name) is None,
    ensures
        resolved(name, scope, fuel).result == Err::<Option<Tree>, Fault>(
            about(FailureKind::MissingReference, name),
        ),
{
}

/// A string that is one token becomes the value that the token resolves to,
/// of whatever kind; where the token resolves to no value, the string stays.
pub proof fn lemma_whole_token(s: Seq<char>, scope: Scope, fuel: nat)
    requires
        whole_token(s) is Some,
    ensures
        expanded_text(s, scope, fuel).result == match resolved(
            whole_token(s)->0,
            scope,
            fuel,
        ).result {
            Ok(Some(t)) => Ok::<Tree, Fault>(t),
            Ok(None) => Ok(Tree::String(s)),
            Err(e) => Err(e),
        },
{
}

/// In a string that is more than one token, the first token is replaced by
/// the text of the string or number that it resolves to, and stays where it
/// resolves to no value; a token that resolves to anything else makes the
/// expansion fail.
pub proof fn lemma_embedded_token(s: Seq<char>, scope: Scope, fuel: nat)
    requires
        whole_token(s) is None,
        next_token(s, 0) is Some,
    ensures
        ({
            let token = next_token(s, 0)->0;
            let rest = substituted(s, token.end, scope, fuel).result;
            expanded_text(s, scope, fuel).result == match resolved(token.name, scope, fuel).result {
                Err(e) => Err::<Tree, Fault>(e),
                Ok(None) => match rest {
                    Ok(tail) => Ok(Tree::String(s.subrange(0, token.end) + tail)),
                    Err(e) => Err(e),
                },
                Ok(Some(Tree::String(text))) => match rest {
                    Ok(tail) => Ok(Tree::String(s.subrange(0, token.start) + text + tail)),
                    Err(e) => Err(e),
                },
                Ok(Some(Tree::Number(text))) => match rest {
                    Ok(tail) => Ok(Tree::String(s.subrange(0, token.start) + text + tail)),
                    Err(e) => Err(e),
                },
                Ok(Some(_)) => Err(about(FailureKind::InterpolateNonScalar, token.name)),
            }
        }),
{
    lemma_next_token(s, 0);
    let token = next_token(s, 0)->0;
    assert(s.subrange(0, token.start) + s.subrange(token.start, token.end) =~= s.subrange(
        0,
        token.end,
    ));
}

/// What the `/json` reference `reference_name` makes of its expanded value,
/// given the canonical JSON text of that value where it is a mapping and has
/// one: a mapping becomes its text, a string stays, anything else is a
/// failure that names the reference.
pub fn finish_json(value: Node, text: Option<String>, reference_name: &str) -> (r: Result<
    Option<Node>,
    Failure,
>)
    ensures
        match json_answer(
            value@,
            match text {
                Some(written) => Some(written@),
                None => None,
            },
            reference_name@,
        ) {
            Ok(Some(t)) => r matches Ok(Some(n)) && n@ == t,
            Ok(None) => r matches Ok(None),
            Err(e) => r matches Err(k) && k@ == e,
        },
{
    match value {
        Node::Mapping(_) => match text {
            Some(written) => Ok(Some(Node::String(written))),
            None => Err(Failure::about(FailureKind::JsonNotRepresentable, reference_name)),
        },
        Node::String(s) => Ok(Some(Node::String(s))),
        _ => Err(Failure::about(FailureKind::JsonNotMappingOrString, reference_name)),
    }
}

/// Resolves a reference. Gives no value for a reference that is left for run
/// time and has no definition; records the name of one that is left for run
/// time and has one. `depth` is the number of levels of nested references
/// that are allowed below this one: a defined reference needs at least one,
/// for the expansion of its value.
pub fn lookup(
    reference_name: &str,
    environment: &Environment,
    depth: usize,
    warnings: &mut Vec<String>,
) -> (r: Result<Option<Node>, Failure>)
    ensures
        logged(
            *old(warnings),
            *final(warnings),
            resolved(reference_name@, environment@, depth as nat).warnings,
        ),
        match resolved(reference_name@, environment@, depth as nat).result {
            Ok(Some(t)) => r matches Ok(Some(n)) && n@ == t,
            Ok(None) => r matches Ok(None),
            Err(e) => r matches Err(k) && k@ == e,
        },
    decreases depth, 0int, Node::Null, 0int,
{
    let name = chars_of(reference_name);
    let deferred = is_runtime_deferred(&name, &environment.expected_runtime_lookup_prefixes);
    let json = name_wants_json(&name);
    assert(texts_of(*warnings) =~= texts_of(*old(warnings)) + Seq::<Seq<char>>::empty());
    match find_definition(&environment.definitions.definitions, reference_name) {
        None => {
            if deferred {
                Ok(None)
            } else {
                Err(Failure::about(FailureKind::MissingReference, reference_name))
            }
        },
        Some(value) => {
            if deferred {
                warnings.push(reference_name.to_owned());
                assert(texts_of(*warnings) =~= texts_of(*old(warnings)) + seq![reference_name@]);
            }
            if depth == 0 {
                return Err(Failure::about(FailureKind::CyclicReference, reference_name));
            }
            let ghost noted = if deferred {
                seq![reference_name@]
            } else {
                Seq::<Seq<char>>::empty()
            };
            let ghost inner = expanded(value@, environment@, (depth - 1) as nat);
            let outcome = expand(value, environment, depth - 1, warnings);
            assert(texts_of(*warnings) =~= texts_of(*old(warnings)) + (noted + inner.warnings));
            match outcome {
                Err(e) => Err(e),
                Ok(expanded_value) => {
                    if json {
                        let text = match &expanded_value {
                            Node::Mapping(_) => canonical_json_text(&expanded_value),
                            _ => None,
                        };
                        finish_json(expanded_value, text, reference_name)
                    } else {
                        Ok(Some(expanded_value))
                    }
                },
            }
        },
    }
}

/// Expands a string. A string that is a single token becomes the value that
/// the token resolves to; in any other string each token is replaced by text.
/// `depth` is the number of levels of nested references that are allowed.
pub fn expand_string(
    string: &str,
    environment: &Environment,
    depth: usize,
    warnings: &mut Vec<String>,
) -> (r: Result<Node, Failure>)
    ensures
        logged(
            *old(warnings),
            *final(warnings),
            expanded_text(string@, environment@, depth as nat).warnings,
        ),
        match expanded_text(string@, environment@, depth as nat).result {
            Ok(t) => r matches Ok(n) && n@ == t,
            Err(e) => r matches Err(k) && k@ == e,
        },
    decreases depth, 2int, Node::Null, 0int,
{
    let chars = chars_of(string);
    match scan_whole_token(&chars) {
        Some(span) => {
            let name = string_of(&chars, span.name_start, span.name_end);
            match lookup(name.as_str(), environment, depth, warnings) {
                Err(e) => Err(e),
                Ok(Some(n)) => Ok(n),
                Ok(None) => Ok(Node::String(string.to_owned())),
            }
        },
        None => {
            match substitute(&chars, environment, depth, warnings) {
                Err(e) => Err(e),
                Ok(text) => {
                    assert(text@.subrange(0, text@.len() as int) =~= text@);
                    Ok(Node::String(string_of(&text, 0, text.len())))
                },
            }
        },
    }
}

/// Replaces every token of a text by the text that it resolves to. `depth` is
/// the number of levels of nested references that are allowed.
pub fn substitute(
    chars: &Vec<char>,
    environment: &Environment,
    depth: usize,
    warnings: &mut Vec<String>,
) -> (r: Result<Vec<char>, Failure>)
    ensures
        logged(
            *old(warnings),
            *final(warnings),
            substituted(chars@, 0, environment@, depth as nat).warnings,
        ),
        match substituted(chars@, 0, environment@, depth as nat).result {
            Ok(text) => r matches Ok(v) && v@ == text,
            Err(e) => r matches Err(k) && k@ == e,
        },
    decreases depth, 1int, Node::Null, 0int,
{
    let ghost scope = environment@;
    let ghost fuel = depth as nat;
    let ghost whole = substituted(chars@, 0, scope, fuel);
    let ghost mut noted: Seq<Seq<char>> = Seq::empty();
    let mut out: Vec<char> = Vec::new();
    let mut from: usize = 0;
    assert(texts_of(*warnings) =~= texts_of(*old(warnings)) + noted);
    assert(whole.warnings =~= noted + whole.warnings);
    proof {
        if whole.result is Ok {
            assert(whole.result->Ok_0 =~= out@ + whole.result->Ok_0);
        }
    }
    loop
        invariant
            from <= chars.len(),
            scope == environment@,
            fuel == depth as nat,
            whole == substituted(chars@, 0, scope, fuel),
            texts_of(*warnings) == texts_of(*old(warnings)) + noted,
            whole.warnings == noted + substituted(chars@, from as int, scope, fuel).warnings,
            whole.result == match substituted(chars@, from as int, scope, fuel).result {
                Err(e) => Err::<Seq<char>, Fault>(e),
                Ok(tail) => Ok(out@ + tail),
            },
        decreases chars.len() - from,
    {
        let ghost here = substituted(chars@, from as int, scope, fuel);
        proof {
            lemma_next_token(chars@, from as int);
        }
        match find_token(chars, from) {
            None => {
                extend_chars(&mut out, chars, from, chars.len());
                assert(noted + here.warnings =~= noted);
                return Ok(out);
            },
            Some(span) => {
                let ghost token = span.token(chars@);
                let ghost found = resolved(token.name, scope, fuel);
                let ghost rest = substituted(chars@, token.end, scope, fuel);
                let name = string_of(chars, span.name_start, span.name_end);
                let answer = lookup(name.as_str(), environment, depth, warnings);
                assert(texts_of(*warnings) =~= texts_of(*old(warnings)) + (noted
                    + found.warnings));
                let ghost held = out@;
                match answer {
                    Err(e) => {
                        return Err(e);
                    },
                    Ok(None) => {
                        extend_chars(&mut out, chars, from, span.end);
                        assert(out@ =~= held + chars@.subrange(from as int, token.start)
                            + chars@.subrange(token.start, token.end));
                    },
                    Ok(Some(Node::Number(n))) => {
                        extend_chars(&mut out, chars, from, span.start);
                        let digits = number_to_text(&n);
                        let text = chars_of(digits.as_str());
                        extend_chars(&mut out, &text, 0, text.len());
                        assert(text@.subrange(0, text@.len() as int) =~= text@);
                    },
                    Ok(Some(Node::String(s))) => {
                        extend_chars(&mut out, chars, from, span.start);
                        let text = chars_of(s.as_str());
                        extend_chars(&mut out, &text, 0, text.len());
                        assert(text@.subrange(0, text@.len() as int) =~= text@);
                    },
                    Ok(Some(_)) => {
                        return Err(
                            Failure::about(FailureKind::InterpolateNonScalar, name.as_str()),
                        );
                    },
                }
                proof {
                    let text = replacement(
                        found.result->Ok_0,
                        chars@.subrange(token.start, token.end),
                        token.name,
                    )->Ok_0;
                    assert(out@ =~= held + chars@.subrange(from as int, token.start) + text);
                    if rest.result is Ok {
                        let tail = rest.result->Ok_0;
                        assert(held + (chars@.subrange(from as int, token.start) + text + tail)
                            =~= out@ + tail);
                    }
                    assert(noted + (found.warnings + rest.warnings) =~= (noted + found.warnings)
                        + rest.warnings);
                    noted = noted + found.warnings;
                }
                from = span.end;
            },
        }
    }
}

/// Expands the items of a sequence, in order.
#[verifier::loop_isolation(false)]
fn expand_items(
    content: &Node,
    environment: &Environment,
    depth: usize,
    warnings: &mut Vec<String>,
) -> (r: Result<Vec<Node>, Failure>)
    requires
        content is Sequence,
    ensures
        logged(
            *old(warnings),
            *final(warnings),
            gather(item_outcomes(content@, environment@, depth as nat)).warnings,
        ),
        match gather(item_outcomes(content@, environment@, depth as nat)).result {
            Ok(items) => r matches Ok(v) && trees_of(v) == items,
            Err(e) => r matches Err(k) && k@ == e,
        },
    decreases depth, 3int, *content, 0int,
{
    let ghost scope = environment@;
    let ghost fuel = depth as nat;
    let ghost outs = item_outcomes(content@, scope, fuel);
    let mut out: Vec<Node> = Vec::new();
    match content {
        Node::Sequence(items) => {
            assert(content@ == Tree::Sequence(trees_of(*items)));
            assert(outs.len() == items.len());
            let mut i: usize = 0;
            assert(outs.take(0) =~= Seq::<Outcome<Tree>>::empty());
            assert(trees_of(out) =~= Seq::<Tree>::empty());
            assert(texts_of(*warnings) =~= texts_of(*old(warnings)) + gather(
                outs.take(0),
            ).warnings);
            while i < items.len()
                invariant
                    i <= items.len(),
                    outs.len() == items.len(),
                    gather(outs.take(i as int)).result == Ok::<Seq<Tree>, Fault>(
                        trees_of(out),
                    ),
                    texts_of(*warnings) == texts_of(*old(warnings)) + gather(
                        outs.take(i as int),
                    ).warnings,
                decreases items.len() - i,
            {
                proof {
                    lemma_gather_step(outs, i as int);
                    assert(trees_of(*items)[i as int] == tree_of(items@[i as int]));
                    assert(outs[i as int] == expanded(tree_of(items@[i as int]), scope, fuel));
                }
                let ghost held = trees_of(out);
                match expand(&items[i], environment, depth, warnings) {
                    Err(e) => {
                        proof {
                            lemma_gather_stops(outs, i + 1);
                            assert(texts_of(*warnings) =~= texts_of(*old(warnings)) + gather(
                                outs,
                            ).warnings);
                        }
                        return Err(e);
                    },
                    Ok(item) => {
                        out.push(item);
                        assert(trees_of(out) =~= held.push(outs[i as int].result->Ok_0));
                    },
                }
                assert(texts_of(*warnings) =~= texts_of(*old(warnings)) + gather(
                    outs.take(i + 1),
                ).warnings);
                i += 1;
            }
            assert(outs.take(i as int) =~= outs);
        },
        _ => {},
    }
    Ok(out)
}

/// Expands the keys of a mapping, in the order in which they stand.
#[verifier::loop_isolation(false)]
fn expand_keys(
    content: &Node,
    environment: &Environment,
    depth: usize,
    warnings: &mut Vec<String>,
) -> (r: Result<Vec<Node>, Failure>)
    requires
        content is Mapping,
    ensures
        logged(
            *old(warnings),
            *final(warnings),
            gather(key_outcomes(content@, environment@, depth as nat)).warnings,
        ),
        match gather(key_outcomes(content@, environment@, depth as nat)).result {
            Ok(keys) => r matches Ok(v) && trees_of(v) == keys && v.len()
                == content->Mapping_0.entries.len(),
            Err(e) => r matches Err(k) && k@ == e,
        },
    decreases depth, 3int, *content, 0int,
{
    let ghost scope = environment@;
    let ghost fuel = depth as nat;
    let ghost outs = key_outcomes(content@, scope, fuel);
    let mut out: Vec<Node> = Vec::new();
    match content {
        Node::Mapping(m) => {
            assert(content@ == Tree::Mapping(m@));
            assert(outs.len() == m.entries.len());
            let mut i: usize = 0;
            assert(outs.take(0) =~= Seq::<Outcome<Tree>>::empty());
            assert(trees_of(out) =~= Seq::<Tree>::empty());
            assert(texts_of(*warnings) =~= texts_of(*old(warnings)) + gather(
                outs.take(0),
            ).warnings);
            while i < m.entries.len()
                invariant
                    i <= m.entries.len(),
                    out.len() == i,
                    outs.len() == m.entries.len(),
                    gather(outs.take(i as int)).result == Ok::<Seq<Tree>, Fault>(
                        trees_of(out),
                    ),
                    texts_of(*warnings) == texts_of(*old(warnings)) + gather(
                        outs.take(i as int),
                    ).warnings,
                decreases m.entries.len() - i,
            {
                proof {
                    lemma_gather_step(outs, i as int);
                    assert(m@[i as int].0 == tree_of(m.entries@[i as int].0));
                    assert(outs[i as int] == expanded(
                        tree_of(m.entries@[i as int].0),
                        scope,
                        fuel,
                    ));
                }
                let ghost held = trees_of(out);
                match expand(&m.entries[i].0, environment, depth, warnings) {
                    Err(e) => {
                        proof {
                            lemma_gather_stops(outs, i + 1);
                            assert(texts_of(*warnings) =~= texts_of(*old(warnings)) + gather(
                                outs,
                            ).warnings);
                        }
                        return Err(e);
                    },
                    Ok(key) => {
                        out.push(key);
                        assert(trees_of(out) =~= held.push(outs[i as int].result->Ok_0));
                    },
                }
                assert(texts_of(*warnings) =~= texts_of(*old(warnings)) + gather(
                    outs.take(i + 1),
                ).warnings);
                i += 1;
            }
            assert(outs.take(i as int) =~= outs);
        },
        _ => {},
    }
    Ok(out)
}

/// The positions of expanded keys in the order in which their entries are
/// written.
pub fn key_order(keys: &Vec<Node>) -> (order: Vec<usize>)
    ensures
        positions(order@) == stable_order(sort_keys(trees_of(*keys))),
        order.len() == keys.len(),
        forall|a: int| 0 <= a < order.len() ==> (#[trigger] order@[a]) < keys.len(),
{
    let ghost key_trees = trees_of(*keys);
    let mut texts: Vec<Option<Vec<char>>> = Vec::new();
    let mut k: usize = 0;
    while k < keys.len()
        invariant
            k <= keys.len(),
            texts.len() == k,
            key_trees == trees_of(*keys),
            forall|j: int| 0 <= j < k ==> #[trigger] key_texts(texts)[j] == sort_key(key_trees[j]),
        decreases keys.len() - k,
    {
        assert(key_trees[k as int] == tree_of(keys@[k as int]));
        let text = match &keys[k] {
            Node::String(s) => Some(chars_of(s.as_str())),
            _ => None,
        };
        let ghost before = key_texts(texts);
        let ghost old_texts = texts@;
        texts.push(text);
        assert forall|j: int| 0 <= j < k + 1 implies #[trigger] key_texts(texts)[j] == sort_key(
            key_trees[j],
        ) by {
            if j < k {
                assert(texts@[j] == old_texts[j]);
                assert(before[j] == sort_key(key_trees[j]));
            }
        }
        k += 1;
    }
    assert(key_texts(texts) =~= sort_keys(key_trees));
    let order = sorted_order(&texts);
    proof {
        lemma_stable_order(sort_keys(key_trees));
        assert(positions(order@).len() == order@.len());
        assert forall|a: int| 0 <= a < order.len() implies (#[trigger] order@[a]) < keys.len() by {
            assert(positions(order@)[a] == order@[a]);
        }
    }
    order
}

/// Expands the values of a mapping in the order given, and collects each with
/// its expanded key.
#[verifier::loop_isolation(false)]
fn expand_values(
    content: &Node,
    keys: &Vec<Node>,
    order: &Vec<usize>,
    environment: &Environment,
    depth: usize,
    warnings: &mut Vec<String>,
) -> (r: Result<Mapping, Failure>)
    requires
        content is Mapping,
        keys.len() == content->Mapping_0.entries.len(),
        order.len() == keys.len(),
        forall|a: int| 0 <= a < order.len() ==> (#[trigger] order@[a]) < keys.len(),
    ensures
        logged(
            *old(warnings),
            *final(warnings),
            gather(
                permuted(
                    value_outcomes(content@, environment@, depth as nat),
                    positions(order@),
                ),
            ).warnings,
        ),
        match gather(
            permuted(value_outcomes(content@, environment@, depth as nat), positions(order@)),
        ).result {
            Ok(values) => r matches Ok(m) && m@ == collected(
                paired(permuted(trees_of(*keys), positions(order@)), values),
            ),
            Err(e) => r matches Err(k) && k@ == e,
        },
    decreases depth, 3int, *content, 0int,
{
    let ghost scope = environment@;
    let ghost fuel = depth as nat;
    let ghost places = positions(order@);
    let ghost sorted_keys = permuted(trees_of(*keys), places);
    let ghost outs = permuted(value_outcomes(content@, scope, fuel), places);
    let ghost mut values: Seq<Tree> = Seq::empty();
    let mut out = Mapping::new();
    match content {
        Node::Mapping(m) => {
            assert(content@ == Tree::Mapping(m@));
            assert(value_outcomes(content@, scope, fuel).len() == m.entries.len());
            let mut i: usize = 0;
            assert(outs.take(0) =~= Seq::<Outcome<Tree>>::empty());
            assert(paired(sorted_keys, values).take(0) =~= Seq::<(Tree, Tree)>::empty());
            assert(texts_of(*warnings) =~= texts_of(*old(warnings)) + gather(
                outs.take(0),
            ).warnings);
            while i < order.len()
                invariant
                    i <= order.len(),
                    outs.len() == order.len(),
                    gather(outs.take(i as int)).result == Ok::<Seq<Tree>, Fault>(values),
                    values.len() == i,
                    texts_of(*warnings) == texts_of(*old(warnings)) + gather(
                        outs.take(i as int),
                    ).warnings,
                    out@ == collected(paired(sorted_keys, values).take(i as int)),
                decreases order.len() - i,
            {
                let j = order[i];
                proof {
                    lemma_gather_step(outs, i as int);
                    assert(places[i as int] == j);
                    assert(m@[j as int].1 == tree_of(m.entries@[j as int].1));
                    assert(outs[i as int] == expanded(
                        tree_of(m.entries@[j as int].1),
                        scope,
                        fuel,
                    ));
                }
                match expand(&m.entries[j].1, environment, depth, warnings) {
                    Err(e) => {
                        proof {
                            lemma_gather_stops(outs, i + 1);
                            assert(texts_of(*warnings) =~= texts_of(*old(warnings)) + gather(
                                outs,
                            ).warnings);
                        }
                        return Err(e);
                    },
                    Ok(value) => {
                        let key = copy_node(&keys[j]);
                        proof {
                            let grown = values.push(value@);
                            assert(trees_of(*keys)[j as int] == tree_of(keys@[j as int]));
                            assert(sorted_keys[i as int] == key@);
                            assert(paired(sorted_keys, grown).take(i + 1).drop_last()
                                =~= paired(sorted_keys, values).take(i as int));
                            assert(paired(sorted_keys, grown).take(i + 1).last() == (
                                key@,
                                value@,
                            ));
                            values = grown;
                        }
                        out.insert(key, value);
                    },
                }
                assert(texts_of(*warnings) =~= texts_of(*old(warnings)) + gather(
                    outs.take(i + 1),
                ).warnings);
                i += 1;
            }
            assert(outs.take(i as int) =~= outs);
            assert(paired(sorted_keys, values).take(i as int) =~= paired(sorted_keys, values));
        },
        _ => {},
    }
    Ok(out)
}

/// Expands a tree: numbers, booleans and nulls stay; strings are expanded;
/// sequences are expanded item by item; mappings are expanded key by key,
/// ordered by their expanded keys, and then value by value. `depth` is the
/// number of levels of nested references that are allowed; warnings are
/// appended to `warnings`, also where the expansion fails.
pub fn expand(
    content: &Node,
    environment: &Environment,
    depth: usize,
    warnings: &mut Vec<String>,
) -> (r: Result<Node, Failure>)
    ensures
        logged(
            *old(warnings),
            *final(warnings),
            expanded(content@, environment@, depth as nat).warnings,
        ),
        match expanded(content@, environment@, depth as nat).result {
            Ok(t) => r matches Ok(n) && n@ == t,
            Err(e) => r matches Err(k) && k@ == e,
        },
    decreases depth, 3int, *content, 1int,
{
    assert(texts_of(*warnings) =~= texts_of(*old(warnings)) + Seq::<Seq<char>>::empty());
    match content {
        Node::Null => Ok(Node::Null),
        Node::Bool(a) => Ok(Node::Bool(*a)),
        Node::Number(a) => Ok(Node::Number(a.clone())),
        Node::String(s) => expand_string(s.as_str(), environment, depth, warnings),
        Node::Sequence(_) => {
            match expand_items(content, environment, depth, warnings) {
                Err(e) => Err(e),
                Ok(items) => Ok(Node::Sequence(items)),
            }
        },
        Node::Mapping(_) => {
            let keys = match expand_keys(content, environment, depth, warnings) {
                Err(e) => {
                    return Err(e);
                },
                Ok(keys) => keys,
            };
            let ghost first = gather(key_outcomes(content@, environment@, depth as nat));
            let order = key_order(&keys);
            let ghost second = gather(
                permuted(
                    value_outcomes(content@, environment@, depth as nat),
                    positions(order@),
                ),
            );
            let outcome = expand_values(content, &keys, &order, environment, depth, warnings);
            assert(texts_of(*warnings) =~= texts_of(*old(warnings)) + (first.warnings
                + second.warnings));
            match outcome {
                Err(e) => Err(e),
                Ok(m) => Ok(Node::Mapping(m)),
            }
        },
        Node::Tagged(_, _) => Err(Failure::bare(FailureKind::UnsupportedNode)),
    }
}

/// Resolves a reference with the depth that the environment allows by
/// itself, which is as good as any.
pub fn lookup_reference(
    reference_name: &str,
    environment: &Environment,
    warnings: &mut Vec<String>,
) -> (r: Result<Option<Node>, Failure>)
    ensures
        logged(
            *old(warnings),
            *final(warnings),
            resolved(reference_name@, environment@, reference_depth(*environment)).warnings,
        ),
        match resolved(reference_name@, environment@, reference_depth(*environment)).result {
            Ok(Some(t)) => r matches Ok(Some(n)) && n@ == t,
            Ok(None) => r matches Ok(None),
            Err(e) => r matches Err(k) && k@ == e,
        },
{
    lookup(reference_name, environment, environment.reference_depth(), warnings)
}

/// Expands a string with the depth that the environment allows by itself,
/// which is as good as any.
pub fn expand_text(string: &str, environment: &Environment, warnings: &mut Vec<String>) -> (r:
    Result<Node, Failure>)
    ensures
        logged(
            *old(warnings),
            *final(warnings),
            expanded_text(string@, environment@, reference_depth(*environment)).warnings,
        ),
        match expanded_text(string@, environment@, reference_depth(*environment)).result {
            Ok(t) => r matches Ok(n) && n@ == t,
            Err(e) => r matches Err(k) && k@ == e,
        },
{
    expand_string(string, environment, environment.reference_depth(), warnings)
}

/// Replaces every token of a text with the depth that the environment allows
/// by itself, which is as good as any.
pub fn substitute_text(chars: &Vec<char>, environment: &Environment, warnings: &mut Vec<String>) -> (r:
    Result<Vec<char>, Failure>)
    ensures
        logged(
            *old(warnings),
            *final(warnings),
            substituted(chars@, 0, environment@, reference_depth(*environment)).warnings,
        ),
        match substituted(chars@, 0, environment@, reference_depth(*environment)).result {
            Ok(text) => r matches Ok(v) && v@ == text,
            Err(e) => r matches Err(k) && k@ == e,
        },
{
    substitute(chars, environment, environment.reference_depth(), warnings)
}

/// Expands a tree with the depth that the environment allows by itself, which
/// is as good as any.
pub fn expand_tree(content: &Node, environment: &Environment, warnings: &mut Vec<String>) -> (r:
    Result<Node, Failure>)
    ensures
        logged(
            *old(warnings),
            *final(warnings),
            expanded(content@, environment@, reference_depth(*environment)).warnings,
        ),
        match expanded(content@, environment@, reference_depth(*environment)).result {
            Ok(t) => r matches Ok(n) && n@ == t,
            Err(e) => r matches Err(k) && k@ == e,
        },
{
    expand(content, environment, environment.reference_depth(), warnings)
}

} // verus!
