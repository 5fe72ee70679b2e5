//! The document model. `Node` is the value that programs hold; `Tree` is the
//! mathematical tree that contracts speak of.

use crate::number::{number_text, number_to_text};
use vstd::prelude::*;

verus! {

/// A document: null, boolean, number, string, sequence or mapping.
#[derive(Debug, PartialEq)]
pub enum Node {
    Null,
    Bool(bool),
    Number(serde_yaml::Number),
    String(String),
    Sequence(Vec<Node>),
    Mapping(Mapping),
    /// A node under a format-specific tag. It can be carried and compared, but
    /// not rendered.
    Tagged(String, Box<Node>),
}

/// The entries of a mapping, in the order in which they were inserted.
#[derive(Debug, PartialEq)]
pub struct Mapping {
    pub entries: Vec<(Node, Node)>,
}

/// The mathematical model of a document. A number is modelled by its text, so
/// two numbers are the same where they are written the same: `1` and `1.0`
/// differ, and so do `0.0` and `-0.0`.
pub enum Tree {
    Null,
    Bool(bool),
    Number(Seq<char>),
    String(Seq<char>),
    Sequence(Seq<Tree>),
    Mapping(Seq<(Tree, Tree)>),
    Tagged(Seq<char>, Box<Tree>),
}

/// The tree that a node stands for.
pub open spec fn tree_of(v: Node) -> Tree
    decreases v,
{
    match v {
        Node::Null => Tree::Null,
        Node::Bool(b) => Tree::Bool(b),
        Node::Number(n) => Tree::Number(number_text(n)),
        Node::String(s) => Tree::String(s@),
        Node::Sequence(items) => Tree::Sequence(trees_of(items)),
        Node::Mapping(m) => Tree::Mapping(entries_of(m.entries)),
        Node::Tagged(tag, inner) => Tree::Tagged(tag@, Box::new(tree_of(*inner))),
    }
}

/// The trees of a vector of nodes, in order.
pub open spec fn trees_of(items: Vec<Node>) -> Seq<Tree>
    decreases items,
{
    Seq::new(
        items@.len(),
        |i: int|
            if 0 <= i < items@.len() {
                tree_of(items@[i])
            } else {
                Tree::Null
            },
    )
}

/// The key and value trees of a vector of entries, in order.
pub open spec fn entries_of(entries: Vec<(Node, Node)>) -> Seq<(Tree, Tree)>
    decreases entries,
{
    Seq::new(
        entries@.len(),
        |i: int|
            if 0 <= i < entries@.len() {
                (tree_of(entries@[i].0), tree_of(entries@[i].1))
            } else {
                (Tree::Null, Tree::Null)
            },
    )
}

impl View for Node {
    type V = Tree;

    open spec fn view(&self) -> Tree {
        tree_of(*self)
    }
}

impl View for Mapping {
    type V = Seq<(Tree, Tree)>;

    open spec fn view(&self) -> Seq<(Tree, Tree)> {
        entries_of(self.entries)
    }
}

/// No key occurs twice.
pub open spec fn distinct_keys(entries: Seq<(Tree, Tree)>) -> bool {
    forall|i: int, j: int| 0 <= i < j < entries.len() ==> entries[i].0 != entries[j].0
}

/// Every mapping in the tree has distinct keys.
pub open spec fn well_formed(t: Tree) -> bool
    decreases t,
{
    match t {
        Tree::Sequence(items) => forall|i: int|
            0 <= i < items.len() ==> well_formed(#[trigger] items[i]),
        Tree::Mapping(entries) => distinct_keys(entries) && forall|i: int|
            0 <= i < entries.len() ==> well_formed((#[trigger] entries[i]).0) && well_formed(
                entries[i].1,
            ),
        Tree::Tagged(_, inner) => well_formed(*inner),
        _ => true,
    }
}

/// The position of the first entry under `key`, if there is one.
pub open spec fn index_of(entries: Seq<(Tree, Tree)>, key: Tree) -> Option<int>
    decreases entries.len(),
{
    if entries.len() == 0 {
        None
    } else {
        match index_of(entries.drop_last(), key) {
            Some(i) => Some(i),
            None => if entries.last().0 == key {
                Some(entries.len() - 1)
            } else {
                None
            },
        }
    }
}

/// `index_of` finds the first entry under the key, and finds none only where
/// no entry has it.
pub proof fn lemma_index_of(entries: Seq<(Tree, Tree)>, key: Tree)
    ensures
        match index_of(entries, key) {
            Some(i) => 0 <= i < entries.len() && entries[i].0 == key && forall|j: int|
                0 <= j < i ==> (#[trigger] entries[j]).0 != key,
            None => forall|j: int| 0 <= j < entries.len() ==> (#[trigger] entries[j]).0 != key,
        },
    decreases entries.len(),
{
    if entries.len() > 0 {
        lemma_index_of(entries.drop_last(), key);
        let head = entries.drop_last();
        assert(forall|j: int| 0 <= j < head.len() ==> head[j] == entries[j]);
    }
}

/// The entries after `key` has been set to `value`: an entry already under the
/// key keeps its place and takes the value, otherwise a new entry goes last.
pub open spec fn with_entry(entries: Seq<(Tree, Tree)>, key: Tree, value: Tree) -> Seq<
    (Tree, Tree),
> {
    match index_of(entries, key) {
        Some(i) => entries.update(i, (entries[i].0, value)),
        None => entries.push((key, value)),
    }
}

/// The entries after the one at `i` has been taken out: the last entry moves
/// into its place.
pub open spec fn without_index(entries: Seq<(Tree, Tree)>, i: int) -> Seq<(Tree, Tree)> {
    if i == entries.len() - 1 {
        entries.drop_last()
    } else {
        entries.update(i, entries.last()).drop_last()
    }
}

/// Setting a key keeps the keys distinct.
pub proof fn lemma_with_entry_distinct(entries: Seq<(Tree, Tree)>, key: Tree, value: Tree)
    requires
        distinct_keys(entries),
    ensures
        distinct_keys(with_entry(entries, key, value)),
{
    lemma_index_of(entries, key);
}

/// Taking an entry out keeps the keys distinct.
pub proof fn lemma_without_index_distinct(entries: Seq<(Tree, Tree)>, i: int)
    requires
        distinct_keys(entries),
        0 <= i < entries.len(),
    ensures
        distinct_keys(without_index(entries, i)),
{
}

/// Whether two nodes stand for the same tree.
#[verifier::loop_isolation(false)]
pub fn node_eq(a: &Node, b: &Node) -> (r: bool)
    ensures
        r == (a@ == b@),
    decreases a,
{
    match (a, b) {
        (Node::Null, Node::Null) => true,
        (Node::Bool(x), Node::Bool(y)) => *x == *y,
        (Node::Number(x), Node::Number(y)) => number_to_text(x) == number_to_text(y),
        (Node::String(x), Node::String(y)) => *x == *y,
        (Node::Sequence(xs), Node::Sequence(ys)) => {
            if xs.len() != ys.len() {
                assert(trees_of(*xs).len() != trees_of(*ys).len());
                return false;
            }
            let mut i: usize = 0;
            while i < xs.len()
                invariant
                    i <= xs.len(),
                    xs.len() == ys.len(),
                    forall|j: int| 0 <= j < i ==> tree_of(#[trigger] xs@[j]) == tree_of(ys@[j]),
                decreases xs.len() - i,
            {
                if !node_eq(&xs[i], &ys[i]) {
                    assert(trees_of(*xs)[i as int] != trees_of(*ys)[i as int]);
                    return false;
                }
                i += 1;
            }
            assert(trees_of(*xs) =~= trees_of(*ys));
            true
        },
        (Node::Mapping(m), Node::Mapping(n)) => {
            if m.entries.len() != n.entries.len() {
                assert(entries_of(m.entries).len() != entries_of(n.entries).len());
                return false;
            }
            let mut i: usize = 0;
            while i < m.entries.len()
                invariant
                    i <= m.entries.len(),
                    m.entries.len() == n.entries.len(),
                    forall|j: int|
                        0 <= j < i ==> tree_of((#[trigger] m.entries@[j]).0) == tree_of(
                            n.entries@[j].0,
                        ) && tree_of(m.entries@[j].1) == tree_of(n.entries@[j].1),
                decreases m.entries.len() - i,
            {
                if !node_eq(&m.entries[i].0, &n.entries[i].0) || !node_eq(
                    &m.entries[i].1,
                    &n.entries[i].1,
                ) {
                    assert(entries_of(m.entries)[i as int] != entries_of(n.entries)[i as int]);
                    return false;
                }
                i += 1;
            }
            assert(entries_of(m.entries) =~= entries_of(n.entries));
            true
        },
        (Node::Tagged(s, x), Node::Tagged(t, y)) => *s == *t && node_eq(x, y),
        _ => false,
    }
}

/// A copy of a node, standing for the same tree.
#[verifier::loop_isolation(false)]
pub fn copy_node(v: &Node) -> (r: Node)
    ensures
        r@ == v@,
    decreases v,
{
    match v {
        Node::Null => Node::Null,
        Node::Bool(b) => Node::Bool(*b),
        Node::Number(n) => Node::Number(n.clone()),
        Node::String(s) => Node::String(s.clone()),
        Node::Sequence(items) => {
            let mut out: Vec<Node> = Vec::new();
            let mut i: usize = 0;
            while i < items.len()
                invariant
                    i <= items.len(),
                    out.len() == i,
                    forall|j: int| 0 <= j < i ==> tree_of(#[trigger] out@[j]) == tree_of(items@[j]),
                decreases items.len() - i,
            {
                let c = copy_node(&items[i]);
                out.push(c);
                i += 1;
            }
            assert(trees_of(out) =~= trees_of(*items));
            Node::Sequence(out)
        },
        Node::Mapping(m) => {
            let mut out: Vec<(Node, Node)> = Vec::new();
            let mut i: usize = 0;
            while i < m.entries.len()
                invariant
                    i <= m.entries.len(),
                    out.len() == i,
                    forall|j: int|
                        0 <= j < i ==> tree_of((#[trigger] out@[j]).0) == tree_of(
                            m.entries@[j].0,
                        ) && tree_of(out@[j].1) == tree_of(m.entries@[j].1),
                decreases m.entries.len() - i,
            {
                let k = copy_node(&m.entries[i].0);
                let w = copy_node(&m.entries[i].1);
                out.push((k, w));
                i += 1;
            }
            assert(entries_of(out) =~= entries_of(m.entries));
            Node::Mapping(Mapping { entries: out })
        },
        Node::Tagged(tag, inner) => Node::Tagged(tag.clone(), Box::new(copy_node(inner))),
    }
}

impl Clone for Node {
    fn clone(&self) -> (r: Self)
        ensures
            r@ == self@,
    {
        copy_node(self)
    }
}

/// The mapping inside a node, if the node is one.
pub fn mapping_value(val: &Node) -> (r: Option<&Mapping>)
    ensures
        match val@ {
            Tree::Mapping(entries) => r matches Some(m) && m@ == entries,
            _ => r is None,
        },
{
    if let Node::Mapping(m) = val {
        return Some(m);
    }
    None
}

/// The items inside a node, if the node is a sequence.
pub fn sequence_value(val: &Node) -> (r: Option<&Vec<Node>>)
    ensures
        match val@ {
            Tree::Sequence(items) => r matches Some(s) && trees_of(*s) == items,
            _ => r is None,
        },
{
    if let Node::Sequence(s) = val {
        return Some(s);
    }
    None
}

/// The text inside a node, if the node is a string.
pub fn string_value(val: &Node) -> (r: Option<String>)
    ensures
        match val@ {
            Tree::String(text) => r matches Some(s) && s@ == text,
            _ => r is None,
        },
{
    if let Node::String(s) = val {
        return Some(s.clone());
    }
    None
}

impl Mapping {
    /// A mapping without entries.
    pub fn new() -> (m: Mapping)
        ensures
            m@ == Seq::<(Tree, Tree)>::empty(),
    {
        let m = Mapping { entries: Vec::new() };
        assert(m@ =~= Seq::<(Tree, Tree)>::empty());
        m
    }

    /// The number of entries.
    pub fn len(&self) -> (n: usize)
        ensures
            n == self@.len(),
    {
        self.entries.len()
    }

    /// The position of the entry under `key`.
    pub fn position(&self, key: &Node) -> (r: Option<usize>)
        ensures
            r matches Some(i) ==> i < self.entries@.len() && index_of(self@, key@) == Some(i as int),
            r is None ==> index_of(self@, key@) is None,
    {
        let mut i: usize = 0;
        while i < self.entries.len()
            invariant
                i <= self.entries.len(),
                forall|j: int| 0 <= j < i ==> (#[trigger] self@[j]).0 != key@,
            decreases self.entries.len() - i,
        {
            assert(self@[i as int].0 == tree_of(self.entries@[i as int].0));
            if node_eq(&self.entries[i].0, key) {
                proof {
                    lemma_index_of(self@, key@);
                }
                return Some(i);
            }
            i += 1;
        }
        proof {
            lemma_index_of(self@, key@);
        }
        None
    }

    /// The position of the entry whose key is the string `key`.
    pub fn position_of_text(&self, key: &str) -> (r: Option<usize>)
        ensures
            r matches Some(i) ==> i < self.entries@.len() && index_of(self@, Tree::String(key@))
                == Some(i as int),
            r is None ==> index_of(self@, Tree::String(key@)) is None,
    {
        let wanted: String = key.to_owned();
        let mut i: usize = 0;
        while i < self.entries.len()
            invariant
                i <= self.entries.len(),
                wanted@ == key@,
                forall|j: int| 0 <= j < i ==> (#[trigger] self@[j]).0 != Tree::String(key@),
            decreases self.entries.len() - i,
        {
            let found = match &self.entries[i].0 {
                Node::String(s) => *s == wanted,
                _ => false,
            };
            assert(self@[i as int].0 == tree_of(self.entries@[i as int].0));
            assert(found == (self@[i as int].0 == Tree::String(key@)));
            if found {
                proof {
                    lemma_index_of(self@, Tree::String(key@));
                }
                return Some(i);
            }
            i += 1;
        }
        proof {
            lemma_index_of(self@, Tree::String(key@));
        }
        None
    }

    /// The value under the string `key`.
    pub fn get(&self, key: &str) -> (r: Option<&Node>)
        ensures
            match index_of(self@, Tree::String(key@)) {
                Some(i) => r matches Some(n) && n@ == self@[i].1,
                None => r is None,
            },
    {
        match self.position_of_text(key) {
            Some(i) => {
                assert(self@[i as int].1 == tree_of(self.entries@[i as int].1));
                Some(&self.entries[i].1)
            },
            None => None,
        }
    }

    /// Sets `key` to `value` and hands back the value that was there.
    pub fn insert(&mut self, key: Node, value: Node) -> (previous: Option<Node>)
        ensures
            final(self)@ == with_entry(old(self)@, key@, value@),
            match index_of(old(self)@, key@) {
                Some(i) => previous matches Some(p) && p@ == old(self)@[i].1,
                None => previous is None,
            },
            distinct_keys(old(self)@) ==> distinct_keys(final(self)@),
    {
        proof {
            if distinct_keys(self@) {
                lemma_with_entry_distinct(self@, key@, value@);
            }
        }
        match self.position(&key) {
            Some(i) => {
                let ghost before = self.entries@;
                let ghost given = value;
                assert(self@[i as int] == (tree_of(before[i as int].0), tree_of(before[i as int].1)));
                let mut held = value;
                core::mem::swap(&mut self.entries[i].1, &mut held);
                assert(held == before[i as int].1);
                assert(self.entries@.len() == before.len());
                assert(self.entries@[i as int] == (before[i as int].0, given));
                assert(forall|j: int| 0 <= j < before.len() && j != i ==> self.entries@[j] == before[j]);
                assert(index_of(old(self)@, key@) == Some(i as int));
                assert(self@ =~= with_entry(old(self)@, key@, given@));
                Some(held)
            },
            None => {
                self.entries.push((key, value));
                assert(self@ =~= with_entry(old(self)@, key@, value@));
                None
            },
        }
    }

    /// Takes out the entry under the string `key` and hands back its value.
    /// The last entry moves into the place of the one taken out.
    pub fn remove(&mut self, key: &str) -> (removed: Option<Node>)
        ensures
            match index_of(old(self)@, Tree::String(key@)) {
                Some(i) => removed matches Some(p) && p@ == old(self)@[i].1 && final(self)@
                    == without_index(old(self)@, i),
                None => removed is None && final(self)@ == old(self)@,
            },
            distinct_keys(old(self)@) ==> distinct_keys(final(self)@),
    {
        match self.position_of_text(key) {
            Some(i) => {
                proof {
                    if distinct_keys(self@) {
                        lemma_without_index_distinct(self@, i as int);
                    }
                }
                let ghost before = self.entries@;
                assert(self@[i as int].1 == tree_of(before[i as int].1));
                assert(self@.last() == (tree_of(before.last().0), tree_of(before.last().1)));
                let entry = self.entries.swap_remove(i);
                assert(entry == before[i as int]);
                assert(self@ =~= without_index(old(self)@, i as int));
                Some(entry.1)
            },
            None => None,
        }
    }
}

impl Clone for Mapping {
    fn clone(&self) -> (r: Self)
        ensures
            r@ == self@,
    {
        let mut out: Vec<(Node, Node)> = Vec::new();
        let mut i: usize = 0;
        while i < self.entries.len()
            invariant
                i <= self.entries.len(),
                out.len() == i,
                forall|j: int|
                    0 <= j < i ==> tree_of((#[trigger] out@[j]).0) == tree_of(self.entries@[j].0)
                        && tree_of(out@[j].1) == tree_of(self.entries@[j].1),
            decreases self.entries.len() - i,
        {
            let k = copy_node(&self.entries[i].0);
            let w = copy_node(&self.entries[i].1);
            out.push((k, w));
            i += 1;
        }
        assert(entries_of(out) =~= entries_of(self.entries));
        Mapping { entries: out }
    }
}

} // verus!
