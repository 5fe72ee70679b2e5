//! The two entry operations: rendering a text template, and rendering a
//! structured template after the edits declared for it have been applied.

use crate::depth::{
    lemma_definitions_bound_depth, lemma_definitions_bound_reference, within_depth,
};
use crate::environment::{lemma_bound_size, pairs_of, reference_depth, Environment, Scope};
use crate::expand::{
    expand_text, expand_tree, expanded, expanded_text, logged, resolved, Outcome,
};
use crate::failure::{bare, described, Failure, FailureKind};
use crate::mutation::{applied_all, apply_mutations};
use crate::normal::{arranged, inert, lemma_expanded_inert};
use crate::token::token_free;
use crate::text::texts_of;
use crate::tree::{Node, Tree};
use vstd::prelude::*;
use vstd::string::StringExecFns;

verus! {

/// A render that was abandoned: why, and which output file was being
/// rendered.
#[derive(Debug, PartialEq)]
pub struct FatalRenderError {
    pub failure: Failure,
    pub output_path: String,
}

impl FatalRenderError {
    /// The notice for this failure: the output file first, then what the
    /// failure says of itself.
    pub open spec fn notice_text(self) -> Seq<char> {
        "Failed to compile \""@ + self.output_path@ + "\": "@ + described(self.failure@)
    }

    /// The notice for this failure.
    pub fn notice(&self) -> (r: String)
        ensures
            r@ == self.notice_text(),
    {
        let mut r = "Failed to compile \"".to_owned();
        r.append(self.output_path.as_str());
        r.append("\": ");
        let said = self.failure.describe();
        r.append(said.as_str());
        r
    }
}

/// What a text template renders to: the expanded text, which must be a
/// string.
pub open spec fn rendered_text(text: Seq<char>, scope: Scope, fuel: nat) -> Outcome<Seq<char>> {
    let inner = expanded_text(text, scope, fuel);
    Outcome {
        result: match inner.result {
            Err(e) => Err(e),
            Ok(Tree::String(s)) => Ok(s),
            Ok(_) => Err(bare(FailureKind::TextNotString)),
        },
        warnings: inner.warnings,
    }
}

/// What a structured template renders to: the edits that the environment
/// declares for `file` are applied in order, and the tree that they leave is
/// expanded.
pub open spec fn rendered_tree(t: Tree, file: Seq<char>, scope: Scope, fuel: nat) -> Outcome<Tree> {
    match applied_all(scope.edits, file, t).1 {
        Some(e) => Outcome { result: Err(e), warnings: Seq::empty() },
        None => expanded(applied_all(scope.edits, file, t).0, scope, fuel),
    }
}

/// The depth that a render allows is as good as any: a tree that expands
/// within some depth expands to the same within that of a render.
pub proof fn lemma_render_depth_suffices(environment: Environment, t: Tree, fuel: nat)
    requires
        within_depth(expanded(t, environment@, fuel)),
    ensures
        expanded(t, environment@, reference_depth(environment)) == expanded(
            t,
            environment@,
            fuel,
        ),
{
    lemma_bound_size(pairs_of(environment.definitions.definitions.entries));
    lemma_definitions_bound_depth(t, environment@, fuel, reference_depth(environment));
}

/// The depth that an environment allows by itself is as good as any for a
/// reference too: a reference that resolves within some depth resolves to the
/// same within that one.
pub proof fn lemma_reference_depth_suffices(environment: Environment, name: Seq<char>, fuel: nat)
    requires
        within_depth(resolved(name, environment@, fuel)),
    ensures
        resolved(name, environment@, reference_depth(environment)) == resolved(
            name,
            environment@,
            fuel,
        ),
{
    lemma_bound_size(pairs_of(environment.definitions.definitions.entries));
    lemma_definitions_bound_reference(name, environment@, fuel, reference_depth(environment));
}

/// A tree that runs out of depth in a render runs out of depth whatever depth
/// is allowed: its references never come to an end.
pub proof fn lemma_cyclic_at_every_depth(environment: Environment, t: Tree, fuel: nat)
    requires
        !within_depth(expanded(t, environment@, reference_depth(environment))),
    ensures
        !within_depth(expanded(t, environment@, fuel)),
{
    if within_depth(expanded(t, environment@, fuel)) {
        lemma_render_depth_suffices(environment, t, fuel);
    }
}

/// A text without tokens renders to itself, whatever the environment.
pub proof fn lemma_rendered_text_inert(text: Seq<char>, scope: Scope, fuel: nat)
    requires
        token_free(text),
    ensures
        rendered_text(text, scope, fuel) == (Outcome::<Seq<char>> {
            result: Ok(text),
            warnings: Seq::empty(),
        }),
{
    lemma_expanded_inert(Tree::String(text), scope, fuel);
}

/// A tree that holds no token once its edits are applied renders to itself
/// with its mappings arranged, whatever the definitions.
pub proof fn lemma_rendered_tree_inert(t: Tree, file: Seq<char>, scope: Scope, fuel: nat)
    requires
        applied_all(scope.edits, file, t).1 is None,
        inert(applied_all(scope.edits, file, t).0),
    ensures
        rendered_tree(t, file, scope, fuel) == (Outcome::<Tree> {
            result: Ok(arranged(applied_all(scope.edits, file, t).0)),
            warnings: Seq::empty(),
        }),
{
    lemma_expanded_inert(applied_all(scope.edits, file, t).0, scope, fuel);
}

/// Renders a text template: every token in `text` is replaced. Warnings are
/// appended to `warnings`; a failure carries `output_path`.
pub fn render_text(
    text: &str,
    environment: &Environment,
    output_path: &str,
    warnings: &mut Vec<String>,
) -> (r: Result<String, FatalRenderError>)
    ensures
        logged(
            *old(warnings),
            *final(warnings),
            rendered_text(text@, environment@, reference_depth(*environment)).warnings,
        ),
        match rendered_text(text@, environment@, reference_depth(*environment)).result {
            Ok(s) => r matches Ok(x) && x@ == s,
            Err(e) => r matches Err(f) && f.failure@ == e && f.output_path@ == output_path@,
        },
{
    match expand_text(text, environment, warnings) {
        Ok(Node::String(s)) => Ok(s),
        Ok(_) => Err(
            FatalRenderError {
                failure: Failure::bare(FailureKind::TextNotString),
                output_path: output_path.to_owned(),
            },
        ),
        Err(failure) => Err(FatalRenderError { failure, output_path: output_path.to_owned() }),
    }
}

/// Renders a structured template: the mutations of the environment that are
/// meant for `file_name` are applied to `content`, the tree is expanded, and
/// the result is handed to `postprocess`. Warnings are appended to
/// `warnings`; a failure carries `output_path`.
pub fn render_structured(
    content: Node,
    file_name: &str,
    environment: &Environment,
    output_path: &str,
    warnings: &mut Vec<String>,
) -> (r: Result<Node, FatalRenderError>)
    ensures
        logged(
            *old(warnings),
            *final(warnings),
            rendered_tree(
                content@,
                file_name@,
                environment@,
                reference_depth(*environment),
            ).warnings,
        ),
        match rendered_tree(
            content@,
            file_name@,
            environment@,
            reference_depth(*environment),
        ).result {
            Ok(t) => r matches Ok(n) && n@ == t,
            Err(e) => r matches Err(f) && f.failure@ == e && f.output_path@ == output_path@,
        },
{
    let mut tree = content;
    match apply_mutations(&environment.definitions.mutations, file_name, &mut tree) {
        Ok(_) => {},
        Err(failure) => {
            assert(texts_of(*warnings) =~= texts_of(*old(warnings)) + Seq::<Seq<char>>::empty());
            return Err(FatalRenderError { failure, output_path: output_path.to_owned() });
        },
    }
    match expand_tree(&tree, environment, warnings) {
        Ok(expanded_tree) => {
            let mut finished = expanded_tree;
            postprocess(&mut finished);
            Ok(finished)
        },
        Err(failure) => Err(FatalRenderError { failure, output_path: output_path.to_owned() }),
    }
}

/// The place for adjustments to a rendered tree that a particular consumer
/// needs. It makes none.
pub fn postprocess(tree: &mut Node)
    ensures
        final(tree)@ == old(tree)@,
{
}

} // verus!
