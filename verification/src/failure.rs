//! The ways in which a render can fail. Every failure is fatal for the render
//! that meets it.

use crate::text::texts_of;
use vstd::prelude::*;
use vstd::string::StringExecFns;

verus! {

/// Why a render was abandoned.
#[derive(Clone, Copy, PartialEq, Eq, Structural, Debug)]
pub enum FailureKind {
    /// A reference has no definition and no runtime-deferred prefix covers it.
    MissingReference,
    /// A chain of nested references is longer than the number of definitions:
    /// the references never come to an end.
    CyclicReference,
    /// An intermediate node on a path is not a mapping.
    PathNotMapping,
    /// A path segment is absent from the mapping it addresses.
    PathMissing,
    /// A removal or replacement was given an empty path.
    EmptyPath,
    /// An addition carries a value that is neither a mapping nor a sequence.
    AddNotContainer,
    /// An addition of a mapping targets a node that is not a mapping, or an
    /// addition of a sequence targets a node that is not a sequence.
    AddTargetMismatch,
    /// An addition would overwrite a key that the target already holds.
    AddCollision,
    /// A removal names a key that its parent mapping does not hold.
    RemoveMissing,
    /// A replacement names a key that its parent mapping does not hold.
    ReplaceMissing,
    /// A reference inside a larger string resolved to something other than a
    /// string or a number.
    InterpolateNonScalar,
    /// A `/json` reference resolved to something other than a mapping or a
    /// string.
    JsonNotMappingOrString,
    /// A `/json` reference resolved to a mapping that has no canonical JSON form.
    JsonNotRepresentable,
    /// The tree holds a tagged node.
    UnsupportedNode,
    /// A text template expanded to something other than a string.
    TextNotString,
}

/// A failure: its kind, and what it is about. The subject of a failure to
/// resolve a reference is the name of the reference; the subject of a failure
/// of an edit or of a navigation is the path, segment by segment. A failure
/// that is about nothing in particular has no subject.
#[derive(Debug, PartialEq)]
pub struct Failure {
    pub kind: FailureKind,
    pub subject: Vec<String>,
}

/// The mathematical model of a `Failure`.
pub struct Fault {
    pub kind: FailureKind,
    pub subject: Seq<Seq<char>>,
}

impl View for Failure {
    type V = Fault;

    open spec fn view(&self) -> Fault {
        Fault { kind: self.kind, subject: texts_of(self.subject) }
    }
}

/// A failure without a subject.
pub open spec fn bare(kind: FailureKind) -> Fault {
    Fault { kind, subject: Seq::empty() }
}

/// A failure about the reference `name`.
pub open spec fn about(kind: FailureKind, name: Seq<char>) -> Fault {
    Fault { kind, subject: seq![name] }
}

/// A failure at `path`.
pub open spec fn at(kind: FailureKind, path: Seq<Seq<char>>) -> Fault {
    Fault { kind, subject: path }
}

/// The segments written one after the other, with `/` between them.
pub open spec fn joined(segments: Seq<Seq<char>>) -> Seq<char>
    decreases segments.len(),
{
    if segments.len() == 0 {
        Seq::empty()
    } else if segments.len() == 1 {
        segments[0]
    } else {
        joined(segments.drop_last()) + "/"@ + segments.last()
    }
}

/// What a failure says of itself: the sentence for its kind and, behind a
/// colon, its subject.
pub open spec fn described(fault: Fault) -> Seq<char> {
    if fault.subject.len() == 0 {
        reason_text(fault.kind)
    } else {
        reason_text(fault.kind) + ": "@ + joined(fault.subject)
    }
}

/// A sentence for each kind of failure.
pub open spec fn reason_text(kind: FailureKind) -> Seq<char> {
    match kind {
        FailureKind::MissingReference => "a reference has no definition"@,
        FailureKind::CyclicReference => "a definition refers back to itself"@,
        FailureKind::PathNotMapping => "a node on the path is not a mapping"@,
        FailureKind::PathMissing => "a segment of the path is missing"@,
        FailureKind::EmptyPath => "the path is empty"@,
        FailureKind::AddNotContainer => "only a mapping or a sequence can be added"@,
        FailureKind::AddTargetMismatch => "the addition and its target are of different kinds"@,
        FailureKind::AddCollision => "the addition would overwrite a key"@,
        FailureKind::RemoveMissing => "the key to remove is missing"@,
        FailureKind::ReplaceMissing => "the key to replace is missing"@,
        FailureKind::InterpolateNonScalar => "only a string or a number can stand inside a string"@,
        FailureKind::JsonNotMappingOrString => "only a mapping or a string has a JSON form here"@,
        FailureKind::JsonNotRepresentable => "the mapping has no canonical JSON form"@,
        FailureKind::UnsupportedNode => "the tree holds a tagged node"@,
        FailureKind::TextNotString => "the text expanded to something other than a string"@,
    }
}

impl FailureKind {
    /// The sentence for this kind of failure.
    pub fn reason(&self) -> (r: &'static str)
        ensures
            r@ == reason_text(*self),
    {
        match self {
            FailureKind::MissingReference => "a reference has no definition",
            FailureKind::CyclicReference => "a definition refers back to itself",
            FailureKind::PathNotMapping => "a node on the path is not a mapping",
            FailureKind::PathMissing => "a segment of the path is missing",
            FailureKind::EmptyPath => "the path is empty",
            FailureKind::AddNotContainer => "only a mapping or a sequence can be added",
            FailureKind::AddTargetMismatch => "the addition and its target are of different kinds",
            FailureKind::AddCollision => "the addition would overwrite a key",
            FailureKind::RemoveMissing => "the key to remove is missing",
            FailureKind::ReplaceMissing => "the key to replace is missing",
            FailureKind::InterpolateNonScalar => "only a string or a number can stand inside a string",
            FailureKind::JsonNotMappingOrString => "only a mapping or a string has a JSON form here",
            FailureKind::JsonNotRepresentable => "the mapping has no canonical JSON form",
            FailureKind::UnsupportedNode => "the tree holds a tagged node",
            FailureKind::TextNotString => "the text expanded to something other than a string",
        }
    }
}

impl Failure {
    /// A failure without a subject.
    pub fn bare(kind: FailureKind) -> (f: Failure)
        ensures
            f@ == bare(kind),
    {
        let f = Failure { kind, subject: Vec::new() };
        assert(texts_of(f.subject) =~= Seq::<Seq<char>>::empty());
        f
    }

    /// A failure about the reference `name`.
    pub fn about(kind: FailureKind, name: &str) -> (f: Failure)
        ensures
            f@ == about(kind, name@),
    {
        let mut subject: Vec<String> = Vec::new();
        subject.push(name.to_owned());
        let f = Failure { kind, subject };
        assert(texts_of(f.subject) =~= seq![name@]);
        f
    }

    /// A failure at `path`.
    pub fn at(kind: FailureKind, path: &Vec<String>) -> (f: Failure)
        ensures
            f@ == at(kind, texts_of(*path)),
    {
        let mut subject: Vec<String> = Vec::new();
        let mut i: usize = 0;
        while i < path.len()
            invariant
                i <= path.len(),
                subject.len() == i,
                forall|j: int| 0 <= j < i ==> (#[trigger] subject@[j])@ == path@[j]@,
            decreases path.len() - i,
        {
            subject.push(path[i].clone());
            i += 1;
        }
        let f = Failure { kind, subject };
        assert(texts_of(f.subject) =~= texts_of(*path));
        f
    }

    /// What the failure says of itself.
    pub fn describe(&self) -> (r: String)
        ensures
            r@ == described(self@),
    {
        let ghost segments = texts_of(self.subject);
        let mut r = self.kind.reason().to_owned();
        if self.subject.len() == 0 {
            return r;
        }
        r.append(": ");
        let mut i: usize = 0;
        assert(joined(segments.take(0)) =~= Seq::<char>::empty());
        assert(r@ =~= reason_text(self.kind) + ": "@ + joined(segments.take(0)));
        while i < self.subject.len()
            invariant
                i <= self.subject.len(),
                segments == texts_of(self.subject),
                r@ == reason_text(self.kind) + ": "@ + joined(segments.take(i as int)),
            decreases self.subject.len() - i,
        {
            let ghost before = r@;
            assert(segments.take(i + 1).drop_last() =~= segments.take(i as int));
            assert(segments.take(i + 1).last() == self.subject@[i as int]@);
            if i > 0 {
                r.append("/");
            }
            r.append(self.subject[i].as_str());
            proof {
                if i == 0 {
                    assert(segments.take(1)[0] == self.subject@[0]@);
                    assert(joined(segments.take(1)) == self.subject@[0]@);
                    assert(r@ =~= reason_text(self.kind) + ": "@ + joined(segments.take(1)));
                } else {
                    assert(r@ =~= reason_text(self.kind) + ": "@ + (joined(
                        segments.take(i as int),
                    ) + "/"@ + self.subject@[i as int]@));
                }
            }
            i += 1;
        }
        assert(segments.take(i as int) =~= segments);
        r
    }
}

} // verus!
