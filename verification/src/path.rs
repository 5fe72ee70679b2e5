//! Addressing a node inside a tree by a path of mapping keys.

use crate::failure::{at, Failure, FailureKind};
use crate::text::texts_of;
use crate::tree::{index_of, lemma_index_of, well_formed, Node, Tree};
use vstd::prelude::*;

verus! {

/// The node that `path` leads to from `t`. Every segment must be a key of the
/// mapping reached so far.
pub open spec fn navigate_tree(t: Tree, path: Seq<Seq<char>>) -> Result<Tree, FailureKind>
    decreases path.len(),
{
    if path.len() == 0 {
        Ok(t)
    } else {
        match t {
            Tree::Mapping(entries) => match index_of(entries, Tree::String(path[0])) {
                Some(i) => navigate_tree(entries[i].1, path.drop_first()),
                None => Err(FailureKind::PathMissing),
            },
            _ => Err(FailureKind::PathNotMapping),
        }
    }
}

/// As `navigate_tree`, but a segment that is absent from its mapping gives no
/// node instead of a failure.
pub open spec fn try_navigate_tree(t: Tree, path: Seq<Seq<char>>) -> Result<
    Option<Tree>,
    FailureKind,
>
    decreases path.len(),
{
    if path.len() == 0 {
        Ok(Some(t))
    } else {
        match t {
            Tree::Mapping(entries) => match index_of(entries, Tree::String(path[0])) {
                Some(i) => try_navigate_tree(entries[i].1, path.drop_first()),
                None => Ok(None),
            },
            _ => Err(FailureKind::PathNotMapping),
        }
    }
}

/// The tree `t` with the node that `path` leads to replaced by `sub`. Where
/// the path leads nowhere the tree is unchanged.
pub open spec fn graft(t: Tree, path: Seq<Seq<char>>, sub: Tree) -> Tree
    decreases path.len(),
{
    if path.len() == 0 {
        sub
    } else {
        match t {
            Tree::Mapping(entries) => match index_of(entries, Tree::String(path[0])) {
                Some(i) => Tree::Mapping(
                    entries.update(i, (entries[i].0, graft(entries[i].1, path.drop_first(), sub))),
                ),
                None => t,
            },
            _ => t,
        }
    }
}

/// The two traversals agree: the lenient one fails where the strict one fails
/// on a node that is not a mapping, gives nothing where the strict one misses a
/// key, and otherwise gives the same node.
pub proof fn lemma_try_navigate_agrees(t: Tree, path: Seq<Seq<char>>)
    ensures
        match navigate_tree(t, path) {
            Ok(n) => try_navigate_tree(t, path) == Ok::<Option<Tree>, FailureKind>(Some(n)),
            Err(FailureKind::PathMissing) => try_navigate_tree(t, path) == Ok::<
                Option<Tree>,
                FailureKind,
            >(None),
            Err(e) => try_navigate_tree(t, path) == Err::<Option<Tree>, FailureKind>(e),
        },
    decreases path.len(),
{
    if path.len() > 0 {
        if let Tree::Mapping(entries) = t {
            if let Some(i) = index_of(entries, Tree::String(path[0])) {
                lemma_try_navigate_agrees(entries[i].1, path.drop_first());
            }
        }
    }
}

/// Putting back the node that a path leads to changes nothing.
pub proof fn lemma_graft_same(t: Tree, path: Seq<Seq<char>>)
    ensures
        navigate_tree(t, path) matches Ok(n) ==> graft(t, path, n) == t,
    decreases path.len(),
{
    if path.len() > 0 {
        if let Tree::Mapping(entries) = t {
            if let Some(i) = index_of(entries, Tree::String(path[0])) {
                crate::tree::lemma_index_of(entries, Tree::String(path[0]));
                lemma_graft_same(entries[i].1, path.drop_first());
                if navigate_tree(t, path) is Ok {
                    assert(entries.update(i, (entries[i].0, entries[i].1)) =~= entries);
                }
            }
        }
    }
}

/// After a graft the path leads to the grafted node.
pub proof fn lemma_navigate_graft(t: Tree, path: Seq<Seq<char>>, sub: Tree)
    ensures
        navigate_tree(t, path) is Ok ==> navigate_tree(graft(t, path, sub), path) == Ok::<
            Tree,
            FailureKind,
        >(sub),
    decreases path.len(),
{
    if path.len() > 0 {
        if let Tree::Mapping(entries) = t {
            let key = Tree::String(path[0]);
            if let Some(i) = index_of(entries, key) {
                crate::tree::lemma_index_of(entries, key);
                lemma_navigate_graft(entries[i].1, path.drop_first(), sub);
                let changed = entries.update(
                    i,
                    (entries[i].0, graft(entries[i].1, path.drop_first(), sub)),
                );
                crate::tree::lemma_index_of(changed, key);
                assert(forall|j: int| 0 <= j < entries.len() ==> changed[j].0 == entries[j].0);
                assert(index_of(changed, key) == Some(i));
            }
        }
    }
}

/// A node reached in a well-formed tree is well formed.
pub proof fn lemma_navigate_well_formed(t: Tree, path: Seq<Seq<char>>)
    requires
        well_formed(t),
    ensures
        navigate_tree(t, path) matches Ok(n) ==> well_formed(n),
    decreases path.len(),
{
    if path.len() > 0 {
        if let Tree::Mapping(entries) = t {
            if let Some(i) = index_of(entries, Tree::String(path[0])) {
                lemma_index_of(entries, Tree::String(path[0]));
                lemma_navigate_well_formed(entries[i].1, path.drop_first());
            }
        }
    }
}

/// Grafting a well-formed node into a well-formed tree leaves the tree well
/// formed.
pub proof fn lemma_graft_well_formed(t: Tree, path: Seq<Seq<char>>, sub: Tree)
    requires
        well_formed(t),
        well_formed(sub),
    ensures
        well_formed(graft(t, path, sub)),
    decreases path.len(),
{
    if path.len() > 0 {
        if let Tree::Mapping(entries) = t {
            if let Some(i) = index_of(entries, Tree::String(path[0])) {
                lemma_index_of(entries, Tree::String(path[0]));
                lemma_graft_well_formed(entries[i].1, path.drop_first(), sub);
                let changed = entries.update(
                    i,
                    (entries[i].0, graft(entries[i].1, path.drop_first(), sub)),
                );
                assert forall|j: int| 0 <= j < changed.len() implies well_formed(
                    (#[trigger] changed[j]).0,
                ) && well_formed(changed[j].1) by {
                    assert(well_formed(entries[j].0) && well_formed(entries[j].1));
                }
                assert forall|a: int, b: int| 0 <= a < b < changed.len() implies changed[a].0
                    != changed[b].0 by {
                    assert(changed[a].0 == entries[a].0);
                    assert(changed[b].0 == entries[b].0);
                }
            }
        }
    }
}

/// The node that `path` leads to. Fails where a segment is absent or an
/// intermediate node is not a mapping; the failure carries the path.
pub fn navigate<'a>(root: &'a Node, path: &Vec<String>) -> (r: Result<&'a Node, Failure>)
    ensures
        match navigate_tree(root@, texts_of(*path)) {
            Ok(t) => r matches Ok(n) && n@ == t,
            Err(e) => r matches Err(f) && f@ == at(e, texts_of(*path)),
        },
{
    let ghost whole = texts_of(*path);
    let mut current: &Node = root;
    let mut i: usize = 0;
    assert(whole.subrange(0, whole.len() as int) =~= whole);
    while i < path.len()
        invariant
            i <= path.len(),
            whole == texts_of(*path),
            navigate_tree(root@, whole) == navigate_tree(
                current@,
                whole.subrange(i as int, whole.len() as int),
            ),
        decreases path.len() - i,
    {
        let ghost rest = whole.subrange(i as int, whole.len() as int);
        assert(rest[0] == path@[i as int]@);
        assert(rest.drop_first() =~= whole.subrange(i + 1, whole.len() as int));
        match current {
            Node::Mapping(m) => match m.get(path[i].as_str()) {
                Some(next) => {
                    current = next;
                },
                None => {
                    return Err(Failure::at(FailureKind::PathMissing, path));
                },
            },
            _ => {
                return Err(Failure::at(FailureKind::PathNotMapping, path));
            },
        }
        i += 1;
    }
    Ok(current)
}

/// The node that `path` leads to, or nothing where a segment is absent. Still
/// fails where an intermediate node is not a mapping; the failure carries the
/// path.
pub fn try_navigate<'a>(root: &'a Node, path: &Vec<String>) -> (r: Result<
    Option<&'a Node>,
    Failure,
>)
    ensures
        match try_navigate_tree(root@, texts_of(*path)) {
            Ok(Some(t)) => r matches Ok(Some(n)) && n@ == t,
            Ok(None) => r matches Ok(None),
            Err(e) => r matches Err(f) && f@ == at(e, texts_of(*path)),
        },
{
    let ghost whole = texts_of(*path);
    let mut current: &Node = root;
    let mut i: usize = 0;
    assert(whole.subrange(0, whole.len() as int) =~= whole);
    while i < path.len()
        invariant
            i <= path.len(),
            whole == texts_of(*path),
            try_navigate_tree(root@, whole) == try_navigate_tree(
                current@,
                whole.subrange(i as int, whole.len() as int),
            ),
        decreases path.len() - i,
    {
        let ghost rest = whole.subrange(i as int, whole.len() as int);
        assert(rest[0] == path@[i as int]@);
        assert(rest.drop_first() =~= whole.subrange(i + 1, whole.len() as int));
        match current {
            Node::Mapping(m) => match m.get(path[i].as_str()) {
                Some(next) => {
                    current = next;
                },
                None => {
                    return Ok(None);
                },
            },
            _ => {
                return Err(Failure::at(FailureKind::PathNotMapping, path));
            },
        }
        i += 1;
    }
    Ok(Some(current))
}

} // verus!
