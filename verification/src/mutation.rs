//! Structural edits of a tree: adding to a mapping or a sequence, removing a
//! key, replacing the value under a key.

use crate::failure::{at, Failure, Fault, FailureKind};
use crate::path::{graft, lemma_graft_well_formed, lemma_navigate_well_formed, navigate_tree};
use crate::text::texts_of;
use crate::tree::{
    copy_node, distinct_keys, index_of, lemma_index_of, tree_of, trees_of, well_formed,
    without_index, Mapping, Node, Tree,
};
use vstd::prelude::*;

verus! {

/// One structural edit. The path is a sequence of mapping keys.
#[derive(Debug, PartialEq)]
pub enum MutationAction {
    /// Merge the entries of a mapping into the mapping at the path, or append
    /// the items of a sequence to the sequence at the path.
    Add(Vec<String>, Node),
    /// Delete the key that the path ends in from its parent mapping.
    Remove(Vec<String>),
    /// Overwrite the value under the key that the path ends in.
    Replace(Vec<String>, Node),
}

/// An edit together with the name of the file that it is meant for.
#[derive(Debug, PartialEq)]
pub struct Mutation {
    pub filename_pattern: String,
    pub action: MutationAction,
}

/// The mathematical model of a `MutationAction`.
pub enum Edit {
    Add(Seq<Seq<char>>, Tree),
    Remove(Seq<Seq<char>>),
    Replace(Seq<Seq<char>>, Tree),
}

/// The mathematical model of a `Mutation`.
pub struct TargetedEdit {
    pub pattern: Seq<char>,
    pub edit: Edit,
}

impl View for MutationAction {
    type V = Edit;

    open spec fn view(&self) -> Edit {
        match *self {
            MutationAction::Add(path, value) => Edit::Add(texts_of(path), value@),
            MutationAction::Remove(path) => Edit::Remove(texts_of(path)),
            MutationAction::Replace(path, value) => Edit::Replace(texts_of(path), value@),
        }
    }
}

impl View for Mutation {
    type V = TargetedEdit;

    open spec fn view(&self) -> TargetedEdit {
        TargetedEdit { pattern: self.filename_pattern@, edit: self.action@ }
    }
}

/// The models of a vector of mutations, in order.
pub open spec fn edits_of(mutations: Vec<Mutation>) -> Seq<TargetedEdit> {
    Seq::new(mutations@.len(), |i: int| mutations@[i]@)
}

/// `entries` followed by `additions`, or nothing where an addition's key is
/// already taken, by an entry or by an earlier addition.
pub open spec fn merged(entries: Seq<(Tree, Tree)>, additions: Seq<(Tree, Tree)>) -> Option<
    Seq<(Tree, Tree)>,
>
    decreases additions.len(),
{
    if additions.len() == 0 {
        Some(entries)
    } else {
        match merged(entries, additions.drop_last()) {
            None => None,
            Some(m) => if index_of(m, additions.last().0) is Some {
                None
            } else {
                Some(m.push(additions.last()))
            },
        }
    }
}

/// The path that an edit names.
pub open spec fn edit_path(edit: Edit) -> Seq<Seq<char>> {
    match edit {
        Edit::Add(path, _) => path,
        Edit::Remove(path) => path,
        Edit::Replace(path, _) => path,
    }
}

/// The path to the node that an edit changes: the path itself for an
/// addition, the path to the parent for a removal or a replacement.
pub open spec fn target_path(edit: Edit) -> Seq<Seq<char>> {
    match edit {
        Edit::Add(path, _) => path,
        Edit::Remove(path) => path.drop_last(),
        Edit::Replace(path, _) => path.drop_last(),
    }
}

/// An edit that can be attempted at all: an addition carries a mapping or a
/// sequence, a removal or a replacement has a path with a last segment.
pub open spec fn admissible(edit: Edit) -> Result<(), FailureKind> {
    match edit {
        Edit::Add(_, Tree::Mapping(_)) => Ok(()),
        Edit::Add(_, Tree::Sequence(_)) => Ok(()),
        Edit::Add(_, _) => Err(FailureKind::AddNotContainer),
        Edit::Remove(path) => if path.len() == 0 {
            Err(FailureKind::EmptyPath)
        } else {
            Ok(())
        },
        Edit::Replace(path, _) => if path.len() == 0 {
            Err(FailureKind::EmptyPath)
        } else {
            Ok(())
        },
    }
}

/// What an edit makes of the node at its target path.
pub open spec fn edited(edit: Edit, target: Tree) -> Result<Tree, FailureKind> {
    match edit {
        Edit::Add(_, Tree::Mapping(additions)) => match target {
            Tree::Mapping(entries) => match merged(entries, additions) {
                Some(m) => Ok(Tree::Mapping(m)),
                None => Err(FailureKind::AddCollision),
            },
            _ => Err(FailureKind::AddTargetMismatch),
        },
        Edit::Add(_, Tree::Sequence(items)) => match target {
            Tree::Sequence(current) => Ok(Tree::Sequence(current + items)),
            _ => Err(FailureKind::AddTargetMismatch),
        },
        Edit::Add(_, _) => Err(FailureKind::AddNotContainer),
        Edit::Remove(path) => match target {
            Tree::Mapping(entries) => match index_of(entries, Tree::String(path.last())) {
                Some(i) => Ok(Tree::Mapping(without_index(entries, i))),
                None => Err(FailureKind::RemoveMissing),
            },
            _ => Err(FailureKind::PathNotMapping),
        },
        Edit::Replace(path, value) => match target {
            Tree::Mapping(entries) => match index_of(entries, Tree::String(path.last())) {
                Some(i) => Ok(Tree::Mapping(entries.update(i, (entries[i].0, value)))),
                None => Err(FailureKind::ReplaceMissing),
            },
            _ => Err(FailureKind::PathNotMapping),
        },
    }
}

/// What an edit makes of a whole tree.
pub open spec fn applied(edit: Edit, t: Tree) -> Result<Tree, FailureKind> {
    match admissible(edit) {
        Err(e) => Err(e),
        Ok(_) => match navigate_tree(t, target_path(edit)) {
            Err(e) => Err(e),
            Ok(target) => match edited(edit, target) {
                Err(e) => Err(e),
                Ok(changed) => Ok(graft(t, target_path(edit), changed)),
            },
        },
    }
}

/// The outcome of applying, in order, the edits meant for `file`: the tree
/// reached, and the failure that stopped the run if one did, with the path of
/// the edit that failed. The tree is the one that the failing edit found.
pub open spec fn applied_all(edits: Seq<TargetedEdit>, file: Seq<char>, t: Tree) -> (
    Tree,
    Option<Fault>,
)
    decreases edits.len(),
{
    if edits.len() == 0 {
        (t, None)
    } else if edits[0].pattern == file {
        match applied(edits[0].edit, t) {
            Ok(next) => applied_all(edits.drop_first(), file, next),
            Err(e) => (t, Some(at(e, edit_path(edits[0].edit)))),
        }
    } else {
        applied_all(edits.drop_first(), file, t)
    }
}

/// Once a prefix of the additions collides, the whole of them does.
pub proof fn lemma_merged_prefix(
    entries: Seq<(Tree, Tree)>,
    additions: Seq<(Tree, Tree)>,
    k: int,
)
    requires
        0 <= k <= additions.len(),
        merged(entries, additions.take(k)) is None,
    ensures
        merged(entries, additions) is None,
    decreases additions.len(),
{
    if k < additions.len() {
        assert(additions.drop_last().take(k) =~= additions.take(k));
        lemma_merged_prefix(entries, additions.drop_last(), k);
    } else {
        assert(additions.take(k) =~= additions);
    }
}

/// A merge that succeeds puts the additions behind the old entries, and keeps
/// the keys distinct where they were.
pub proof fn lemma_merged_appends(entries: Seq<(Tree, Tree)>, additions: Seq<(Tree, Tree)>)
    ensures
        merged(entries, additions) matches Some(m) ==> m == entries + additions && (
        distinct_keys(entries) ==> distinct_keys(m)),
    decreases additions.len(),
{
    if additions.len() > 0 {
        lemma_merged_appends(entries, additions.drop_last());
        if let Some(head) = merged(entries, additions.drop_last()) {
            crate::tree::lemma_index_of(head, additions.last().0);
            if merged(entries, additions) is Some {
                assert(head.push(additions.last()) =~= entries + additions);
            }
        }
    } else {
        assert(entries =~= entries + additions);
    }
}

/// An addition with a key that the target already holds fails.
pub proof fn lemma_add_existing_key_fails(
    path: Seq<Seq<char>>,
    additions: Seq<(Tree, Tree)>,
    t: Tree,
    k: int,
)
    requires
        0 <= k < additions.len(),
        navigate_tree(t, path) matches Ok(Tree::Mapping(entries)) && index_of(
            entries,
            additions[k].0,
        ) is Some,
    ensures
        applied(Edit::Add(path, Tree::Mapping(additions)), t) == Err::<Tree, FailureKind>(
            FailureKind::AddCollision,
        ),
{
    let entries = navigate_tree(t, path)->Ok_0->Mapping_0;
    let key = additions[k].0;
    assert(additions.take(k + 1).drop_last() =~= additions.take(k));
    assert(additions.take(k + 1).last() == additions[k]);
    lemma_merged_appends(entries, additions.take(k));
    if let Some(head) = merged(entries, additions.take(k)) {
        crate::tree::lemma_index_of(entries, key);
        crate::tree::lemma_index_of(head, key);
        let i = index_of(entries, key)->0;
        assert(head[i] == entries[i]);
    }
    lemma_merged_prefix(entries, additions, k + 1);
}

/// A removal of a key that the parent mapping does not hold fails.
pub proof fn lemma_remove_absent_key_fails(path: Seq<Seq<char>>, t: Tree)
    requires
        path.len() > 0,
        navigate_tree(t, path.drop_last()) matches Ok(Tree::Mapping(entries)) && index_of(
            entries,
            Tree::String(path.last()),
        ) is None,
    ensures
        applied(Edit::Remove(path), t) == Err::<Tree, FailureKind>(FailureKind::RemoveMissing),
{
}

/// A replacement under a key that the parent mapping does not hold fails.
pub proof fn lemma_replace_absent_key_fails(path: Seq<Seq<char>>, value: Tree, t: Tree)
    requires
        path.len() > 0,
        navigate_tree(t, path.drop_last()) matches Ok(Tree::Mapping(entries)) && index_of(
            entries,
            Tree::String(path.last()),
        ) is None,
    ensures
        applied(Edit::Replace(path, value), t) == Err::<Tree, FailureKind>(
            FailureKind::ReplaceMissing,
        ),
{
}

/// An addition of a sequence to a mapping, or of a mapping to a sequence,
/// fails.
pub proof fn lemma_add_kind_mismatch_fails(path: Seq<Seq<char>>, value: Tree, t: Tree)
    requires
        navigate_tree(t, path) matches Ok(target) && ((value is Sequence && target is Mapping) || (
        value is Mapping && target is Sequence)),
    ensures
        applied(Edit::Add(path, value), t) == Err::<Tree, FailureKind>(
            FailureKind::AddTargetMismatch,
        ),
{
}

/// The value that an edit brings is well formed.
pub open spec fn brings_well_formed(edit: Edit) -> bool {
    match edit {
        Edit::Add(_, value) => well_formed(value),
        Edit::Remove(_) => true,
        Edit::Replace(_, value) => well_formed(value),
    }
}

/// An edit that succeeds on a well-formed node leaves a well-formed node.
pub proof fn lemma_edited_well_formed(edit: Edit, target: Tree)
    requires
        well_formed(target),
        brings_well_formed(edit),
    ensures
        edited(edit, target) matches Ok(changed) ==> well_formed(changed),
{
    if let Ok(changed) = edited(edit, target) {
        match edit {
            Edit::Add(_, Tree::Mapping(additions)) => {
                let entries = target->Mapping_0;
                lemma_merged_appends(entries, additions);
                let all = entries + additions;
                assert forall|j: int| 0 <= j < all.len() implies well_formed(
                    (#[trigger] all[j]).0,
                ) && well_formed(all[j].1) by {
                    if j < entries.len() {
                        assert(well_formed(entries[j].0) && well_formed(entries[j].1));
                    } else {
                        assert(well_formed(additions[j - entries.len()].0) && well_formed(
                            additions[j - entries.len()].1,
                        ));
                    }
                }
            },
            Edit::Add(_, Tree::Sequence(items)) => {
                let current = target->Sequence_0;
                let all = current + items;
                assert forall|j: int| 0 <= j < all.len() implies well_formed(#[trigger] all[j]) by {
                    if j < current.len() {
                        assert(well_formed(current[j]));
                    } else {
                        assert(well_formed(items[j - current.len()]));
                    }
                }
            },
            Edit::Remove(path) => {
                let entries = target->Mapping_0;
                lemma_index_of(entries, Tree::String(path.last()));
                let i = index_of(entries, Tree::String(path.last()))->0;
                let rest = without_index(entries, i);
                assert forall|j: int| 0 <= j < rest.len() implies well_formed(
                    (#[trigger] rest[j]).0,
                ) && well_formed(rest[j].1) by {
                    if j == i {
                        assert(well_formed(entries.last().0) && well_formed(entries.last().1));
                    } else {
                        assert(well_formed(entries[j].0) && well_formed(entries[j].1));
                    }
                }
            },
            Edit::Replace(path, value) => {
                let entries = target->Mapping_0;
                lemma_index_of(entries, Tree::String(path.last()));
                let i = index_of(entries, Tree::String(path.last()))->0;
                let rest = entries.update(i, (entries[i].0, value));
                assert forall|j: int| 0 <= j < rest.len() implies well_formed(
                    (#[trigger] rest[j]).0,
                ) && well_formed(rest[j].1) by {
                    assert(well_formed(entries[j].0) && well_formed(entries[j].1));
                }
                assert forall|a: int, b: int| 0 <= a < b < rest.len() implies rest[a].0
                    != rest[b].0 by {
                    assert(rest[a].0 == entries[a].0);
                    assert(rest[b].0 == entries[b].0);
                }
            },
            _ => {},
        }
    }
}

/// An edit that succeeds on a well-formed tree leaves a well-formed tree.
pub proof fn lemma_applied_well_formed(edit: Edit, t: Tree)
    requires
        well_formed(t),
        brings_well_formed(edit),
    ensures
        applied(edit, t) matches Ok(changed) ==> well_formed(changed),
{
    if let Ok(target) = navigate_tree(t, target_path(edit)) {
        lemma_navigate_well_formed(t, target_path(edit));
        lemma_edited_well_formed(edit, target);
        if let Ok(changed) = edited(edit, target) {
            lemma_graft_well_formed(t, target_path(edit), changed);
        }
    }
}

/// Adds copies of the entries of `additions` to `m`, unless one of their keys
/// is taken.
pub fn merge_into(m: &mut Mapping, additions: &Mapping) -> (r: Result<(), FailureKind>)
    ensures
        match merged(old(m)@, additions@) {
            Some(all) => r is Ok && final(m)@ == all,
            None => r == Err::<(), FailureKind>(FailureKind::AddCollision) && final(m)@ == old(
                m,
            )@,
        },
        distinct_keys(old(m)@) ==> distinct_keys(final(m)@),
{
    proof {
        lemma_merged_appends(m@, additions@);
    }
    let first_len: usize = m.entries.len();
    let mut k: usize = 0;
    assert(additions@.take(0) =~= Seq::<(Tree, Tree)>::empty());
    while k < additions.entries.len()
        invariant
            k <= additions.entries.len(),
            first_len == old(m).entries@.len(),
            first_len <= m.entries@.len(),
            m.entries@.subrange(0, first_len as int) == old(m).entries@,
            merged(old(m)@, additions@.take(k as int)) == Some(m@),
        decreases additions.entries.len() - k,
    {
        assert(additions@.take(k + 1).drop_last() =~= additions@.take(k as int));
        assert(additions@.take(k + 1).last() == additions@[k as int]);
        assert(additions@[k as int] == (
            tree_of(additions.entries@[k as int].0),
            tree_of(additions.entries@[k as int].1),
        ));
        if m.position(&additions.entries[k].0).is_some() {
            proof {
                lemma_merged_prefix(old(m)@, additions@, k + 1);
            }
            m.entries.truncate(first_len);
            assert(m.entries@ =~= old(m).entries@);
            assert(m@ =~= old(m)@);
            return Err(FailureKind::AddCollision);
        }
        let key = copy_node(&additions.entries[k].0);
        let value = copy_node(&additions.entries[k].1);
        let ghost before = m@;
        let ghost held = m.entries@;
        m.entries.push((key, value));
        assert(m.entries@.subrange(0, first_len as int) =~= held.subrange(0, first_len as int));
        assert(m@ =~= before.push(additions@[k as int]));
        k += 1;
    }
    assert(additions@.take(k as int) =~= additions@);
    Ok(())
}

/// Appends copies of `items` to `current`.
pub fn append_items(current: &mut Vec<Node>, items: &Vec<Node>)
    ensures
        trees_of(*final(current)) == trees_of(*old(current)) + trees_of(*items),
{
    let mut k: usize = 0;
    assert(trees_of(*current) =~= trees_of(*old(current)) + trees_of(*items).take(0));
    while k < items.len()
        invariant
            k <= items.len(),
            trees_of(*current) == trees_of(*old(current)) + trees_of(*items).take(k as int),
        decreases items.len() - k,
    {
        let ghost before = trees_of(*current);
        let item = copy_node(&items[k]);
        current.push(item);
        assert(trees_of(*current) =~= before.push(tree_of(items@[k as int])));
        assert(trees_of(*items).take(k + 1) =~= trees_of(*items).take(k as int).push(
            tree_of(items@[k as int]),
        ));
        assert(trees_of(*current) =~= trees_of(*old(current)) + trees_of(*items).take(k + 1));
        k += 1;
    }
    assert(trees_of(*items).take(k as int) =~= trees_of(*items));
}

/// Performs an edit on the node at its target path.
fn apply_here(node: &mut Node, action: &MutationAction) -> (r: Result<(), FailureKind>)
    requires
        admissible(action@) is Ok,
    ensures
        match edited(action@, old(node)@) {
            Ok(changed) => r is Ok && final(node)@ == changed,
            Err(e) => r == Err::<(), FailureKind>(e) && final(node)@ == old(node)@,
        },
{
    match action {
        MutationAction::Add(_, Node::Mapping(additions)) => match node {
            Node::Mapping(m) => merge_into(m, additions),
            _ => Err(FailureKind::AddTargetMismatch),
        },
        MutationAction::Add(_, Node::Sequence(items)) => match node {
            Node::Sequence(current) => {
                append_items(current, items);
                Ok(())
            },
            _ => Err(FailureKind::AddTargetMismatch),
        },
        MutationAction::Add(_, _) => Err(FailureKind::AddNotContainer),
        MutationAction::Remove(path) => {
            assert(texts_of(*path).last() == path@[path@.len() - 1]@);
            match node {
                Node::Mapping(m) => match m.remove(path[path.len() - 1].as_str()) {
                    Some(_) => Ok(()),
                    None => Err(FailureKind::RemoveMissing),
                },
                _ => Err(FailureKind::PathNotMapping),
            }
        },
        MutationAction::Replace(path, value) => {
            assert(texts_of(*path).last() == path@[path@.len() - 1]@);
            match node {
                Node::Mapping(m) => match m.position_of_text(path[path.len() - 1].as_str()) {
                    Some(i) => {
                        let ghost before = m@;
                        let ghost held = m.entries@;
                        assert(before[i as int].0 == tree_of(held[i as int].0));
                        m.entries[i].1 = copy_node(value);
                        assert(m@ =~= before.update(i as int, (before[i as int].0, value@)));
                        Ok(())
                    },
                    None => Err(FailureKind::ReplaceMissing),
                },
                _ => Err(FailureKind::PathNotMapping),
            }
        },
    }
}

/// Walks the segments `at..stop` of the path down from `node` and performs the
/// edit on the node reached.
fn apply_below(
    node: &mut Node,
    action: &MutationAction,
    path: &Vec<String>,
    at: usize,
    stop: usize,
) -> (r: Result<(), FailureKind>)
    requires
        at <= stop <= path.len(),
        admissible(action@) is Ok,
    ensures
        match navigate_tree(old(node)@, texts_of(*path).subrange(at as int, stop as int)) {
            Err(e) => r == Err::<(), FailureKind>(e) && final(node)@ == old(node)@,
            Ok(target) => match edited(action@, target) {
                Err(e) => r == Err::<(), FailureKind>(e) && final(node)@ == old(node)@,
                Ok(changed) => r is Ok && final(node)@ == graft(
                    old(node)@,
                    texts_of(*path).subrange(at as int, stop as int),
                    changed,
                ),
            },
        },
    decreases stop - at,
{
    if at == stop {
        return apply_here(node, action);
    }
    let ghost rest = texts_of(*path).subrange(at as int, stop as int);
    assert(rest[0] == path@[at as int]@);
    assert(rest.drop_first() =~= texts_of(*path).subrange(at + 1, stop as int));
    match node {
        Node::Mapping(m) => match m.position_of_text(path[at].as_str()) {
            Some(i) => {
                let ghost before = m@;
                let ghost held = m.entries@;
                assert(before[i as int] == (tree_of(held[i as int].0), tree_of(held[i as int].1)));
                let r = apply_below(&mut m.entries[i].1, action, path, at + 1, stop);
                assert(m@ =~= before.update(
                    i as int,
                    (before[i as int].0, tree_of(m.entries@[i as int].1)),
                ));
                proof {
                    if tree_of(m.entries@[i as int].1) == before[i as int].1 {
                        assert(m@ =~= before);
                    }
                }
                r
            },
            None => Err(FailureKind::PathMissing),
        },
        _ => Err(FailureKind::PathNotMapping),
    }
}

/// The path that an edit names.
pub fn action_path(mutation: &MutationAction) -> (path: &Vec<String>)
    ensures
        texts_of(*path) == edit_path(mutation@),
{
    match mutation {
        MutationAction::Add(path, _) => path,
        MutationAction::Remove(path) => path,
        MutationAction::Replace(path, _) => path,
    }
}

/// Applies one edit to `content` in place. Where it fails, `content` is left
/// as it was, and the failure carries the path of the edit.
pub fn apply_mutation(mutation: &MutationAction, content: &mut Node) -> (r: Result<(), Failure>)
    ensures
        match applied(mutation@, old(content)@) {
            Ok(t) => r is Ok && final(content)@ == t,
            Err(e) => r matches Err(f) && f@ == at(e, edit_path(mutation@)) && final(content)@
                == old(content)@,
        },
{
    match apply_edit(mutation, content) {
        Ok(_) => Ok(()),
        Err(kind) => Err(Failure::at(kind, action_path(mutation))),
    }
}

/// Applies one edit to `content` in place, and tells the kind of failure
/// where it fails.
fn apply_edit(mutation: &MutationAction, content: &mut Node) -> (r: Result<(), FailureKind>)
    ensures
        match applied(mutation@, old(content)@) {
            Ok(t) => r is Ok && final(content)@ == t,
            Err(e) => r == Err::<(), FailureKind>(e) && final(content)@ == old(content)@,
        },
{
    match mutation {
        MutationAction::Add(path, Node::Mapping(_)) => {
            assert(texts_of(*path).subrange(0, path@.len() as int) =~= texts_of(*path));
            apply_below(content, mutation, path, 0, path.len())
        },
        MutationAction::Add(path, Node::Sequence(_)) => {
            assert(texts_of(*path).subrange(0, path@.len() as int) =~= texts_of(*path));
            apply_below(content, mutation, path, 0, path.len())
        },
        MutationAction::Add(_, _) => Err(FailureKind::AddNotContainer),
        MutationAction::Remove(path) => {
            if path.len() == 0 {
                return Err(FailureKind::EmptyPath);
            }
            assert(texts_of(*path).subrange(0, path@.len() - 1) =~= texts_of(*path).drop_last());
            apply_below(content, mutation, path, 0, path.len() - 1)
        },
        MutationAction::Replace(path, _) => {
            if path.len() == 0 {
                return Err(FailureKind::EmptyPath);
            }
            assert(texts_of(*path).subrange(0, path@.len() - 1) =~= texts_of(*path).drop_last());
            apply_below(content, mutation, path, 0, path.len() - 1)
        },
    }
}

/// Applies, in order, the mutations whose file name is exactly `file_name`.
/// Stops at the first that fails; `content` then holds what that one found.
pub fn apply_mutations(mutations: &Vec<Mutation>, file_name: &str, content: &mut Node) -> (r:
    Result<(), Failure>)
    ensures
        final(content)@ == applied_all(edits_of(*mutations), file_name@, old(content)@).0,
        match applied_all(edits_of(*mutations), file_name@, old(content)@).1 {
            Some(e) => r matches Err(f) && f@ == e,
            None => r is Ok,
        },
{
    let ghost all = edits_of(*mutations);
    let file: String = file_name.to_owned();
    let mut k: usize = 0;
    assert(all.subrange(0, all.len() as int) =~= all);
    while k < mutations.len()
        invariant
            k <= mutations.len(),
            file@ == file_name@,
            all == edits_of(*mutations),
            applied_all(all, file_name@, old(content)@) == applied_all(
                all.subrange(k as int, all.len() as int),
                file_name@,
                content@,
            ),
        decreases mutations.len() - k,
    {
        let ghost rest = all.subrange(k as int, all.len() as int);
        assert(rest[0] == mutations@[k as int]@);
        assert(rest.drop_first() =~= all.subrange(k + 1, all.len() as int));
        if mutations[k].filename_pattern == file {
            match apply_mutation(&mutations[k].action, content) {
                Ok(_) => {},
                Err(e) => {
                    return Err(e);
                },
            }
        }
        k += 1;
    }
    Ok(())
}

} // verus!
