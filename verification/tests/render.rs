use config_render::environment::{Definitions, Environment, VariableSource};
use config_render::failure::{Failure, FailureKind};
use config_render::mutation::{Mutation, MutationAction};
use config_render::render::{postprocess, render_structured, render_text, FatalRenderError};
use config_render::tree::{Mapping, Node};

fn text(s: &str) -> Node {
    Node::String(s.to_string())
}

fn number(n: u64) -> Node {
    Node::Number(serde_yaml::Number::from(n))
}

fn mapping(entries: Vec<(&str, Node)>) -> Node {
    Node::Mapping(Mapping { entries: entries.into_iter().map(|(k, v)| (text(k), v)).collect() })
}

fn path(segments: &[&str]) -> Vec<String> {
    segments.iter().map(|s| s.to_string()).collect()
}

fn environment(pairs: Vec<(&str, Node)>, mutations: Vec<Mutation>, prefixes: &[&str]) -> Environment {
    let mut definitions = Definitions::new();
    for (name, value) in pairs {
        definitions.define(name.to_string(), value);
    }
    Environment {
        definitions: VariableSource { definitions, mutations },
        expected_runtime_lookup_prefixes: prefixes.iter().map(|p| p.to_string()).collect(),
    }
}

fn failure(kind: FailureKind, subject: &[&str], output_path: &str) -> FatalRenderError {
    FatalRenderError {
        failure: Failure { kind, subject: subject.iter().map(|s| s.to_string()).collect() },
        output_path: output_path.to_string(),
    }
}

#[test]
fn a_text_template_is_rendered_token_by_token() {
    let e = environment(vec![("who", text("world")), ("n", number(3))], vec![], &["runtime/"]);
    let mut warnings = Vec::new();
    assert_eq!(
        render_text("hello (( who ))\n(( n )) times (( runtime/x ))\n", &e, "out/a.txt", &mut warnings),
        Ok("hello world\n3 times (( runtime/x ))\n".to_string())
    );
    assert!(warnings.is_empty());
}

#[test]
fn a_text_template_that_is_one_token_must_resolve_to_a_string() {
    let e = environment(
        vec![("s", text("just text")), ("m", mapping(vec![])), ("n", number(1))],
        vec![],
        &["runtime/"],
    );
    let mut warnings = Vec::new();
    assert_eq!(render_text("(( s ))\n", &e, "o", &mut warnings), Ok("just text".to_string()));
    assert_eq!(
        render_text("(( m ))", &e, "o", &mut warnings),
        Err(failure(FailureKind::TextNotString, &[], "o"))
    );
    assert_eq!(
        render_text("(( n ))", &e, "o", &mut warnings),
        Err(failure(FailureKind::TextNotString, &[], "o"))
    );
    assert_eq!(
        render_text(" (( runtime/x )) ", &e, "o", &mut warnings),
        Ok(" (( runtime/x )) ".to_string())
    );
}

#[test]
fn a_failure_carries_the_output_path() {
    let e = environment(vec![], vec![], &[]);
    let mut warnings = Vec::new();
    let r = render_text("(( missing ))", &e, "target/app.conf", &mut warnings);
    assert_eq!(r, Err(failure(FailureKind::MissingReference, &["missing"], "target/app.conf")));
    assert_eq!(
        r.unwrap_err().notice(),
        "Failed to compile \"target/app.conf\": a reference has no definition: missing"
    );
}

#[test]
fn every_kind_of_failure_has_its_own_sentence() {
    let kinds = [
        FailureKind::MissingReference,
        FailureKind::CyclicReference,
        FailureKind::PathNotMapping,
        FailureKind::PathMissing,
        FailureKind::EmptyPath,
        FailureKind::AddNotContainer,
        FailureKind::AddTargetMismatch,
        FailureKind::AddCollision,
        FailureKind::RemoveMissing,
        FailureKind::ReplaceMissing,
        FailureKind::InterpolateNonScalar,
        FailureKind::JsonNotMappingOrString,
        FailureKind::JsonNotRepresentable,
        FailureKind::UnsupportedNode,
        FailureKind::TextNotString,
    ];
    for (i, a) in kinds.iter().enumerate() {
        assert!(!a.reason().is_empty());
        for b in &kinds[i + 1..] {
            assert_ne!(a.reason(), b.reason());
        }
    }
}

#[test]
fn a_structured_template_is_edited_and_then_expanded() {
    let mutations = vec![
        Mutation {
            filename_pattern: "app.yaml".to_string(),
            action: MutationAction::Add(
                path(&["server"]),
                mapping(vec![("(( key ))", text("(( runtime/cert ))"))]),
            ),
        },
        Mutation {
            filename_pattern: "other.yaml".to_string(),
            action: MutationAction::Remove(path(&["server"])),
        },
        Mutation {
            filename_pattern: "app.yaml".to_string(),
            action: MutationAction::Replace(path(&["server", "port"]), text("(( port ))")),
        },
    ];
    let e = environment(
        vec![("key", text("cert")), ("port", number(8443)), ("runtime/cert", text("inline"))],
        mutations,
        &["runtime/"],
    );
    let content = mapping(vec![
        ("server", mapping(vec![("port", number(80)), ("host", text("h-(( port ))"))])),
        ("name", text("app")),
    ]);
    let mut warnings = Vec::new();
    let r = render_structured(content, "app.yaml", &e, "out/app.yaml", &mut warnings);
    assert_eq!(
        r,
        Ok(mapping(vec![
            ("name", text("app")),
            (
                "server",
                mapping(vec![("cert", text("inline")), ("host", text("h-8443")), ("port", number(8443))])
            ),
        ]))
    );
    assert_eq!(warnings, vec!["runtime/cert"]);
}

#[test]
fn a_structured_template_without_edits_or_tokens_comes_back_sorted() {
    let e = environment(vec![], vec![], &[]);
    let content = mapping(vec![("b", number(1)), ("a", number(2))]);
    let mut warnings = Vec::new();
    let once = render_structured(content, "f.yaml", &e, "o", &mut warnings).unwrap();
    assert_eq!(once, mapping(vec![("a", number(2)), ("b", number(1))]));
    let twice = render_structured(once.clone(), "f.yaml", &e, "o", &mut warnings).unwrap();
    assert_eq!(twice, once);
}

#[test]
fn a_failing_edit_fails_the_render() {
    let mutations = vec![Mutation {
        filename_pattern: "app.yaml".to_string(),
        action: MutationAction::Remove(path(&["nothing"])),
    }];
    let e = environment(vec![("runtime/a", text("x"))], mutations, &["runtime/"]);
    let content = mapping(vec![("k", text("(( runtime/a ))"))]);
    let mut warnings = Vec::new();
    assert_eq!(
        render_structured(content.clone(), "app.yaml", &e, "o.yaml", &mut warnings),
        Err(failure(FailureKind::RemoveMissing, &["nothing"], "o.yaml"))
    );
    assert!(warnings.is_empty());
    assert_eq!(
        render_structured(content, "another.yaml", &e, "o.yaml", &mut warnings),
        Ok(mapping(vec![("k", text("x"))]))
    );
    assert_eq!(warnings, vec!["runtime/a"]);
}

#[test]
fn a_failing_expansion_fails_the_render() {
    let e = environment(vec![("a", text("(( a ))"))], vec![], &[]);
    let mut warnings = Vec::new();
    assert_eq!(
        render_structured(text("(( a ))"), "f", &e, "o", &mut warnings),
        Err(failure(FailureKind::CyclicReference, &["a"], "o"))
    );
    assert_eq!(
        render_structured(
            Node::Tagged("t".to_string(), Box::new(Node::Null)),
            "f",
            &e,
            "o",
            &mut warnings
        ),
        Err(failure(FailureKind::UnsupportedNode, &[], "o"))
    );
}

#[test]
fn postprocessing_changes_nothing() {
    let mut tree = mapping(vec![(
        "spring",
        mapping(vec![("profiles", mapping(vec![("active", Node::Sequence(vec![text("a")]))]))]),
    )]);
    let before = tree.clone();
    postprocess(&mut tree);
    assert_eq!(tree, before);
}

#[test]
fn a_failure_says_its_kind_and_its_subject() {
    assert_eq!(
        Failure::bare(FailureKind::TextNotString).describe(),
        "the text expanded to something other than a string"
    );
    assert_eq!(
        Failure::about(FailureKind::CyclicReference, "a/b").describe(),
        "a definition refers back to itself: a/b"
    );
    let path = vec!["server".to_string(), "tls".to_string(), "cert".to_string()];
    let failure = Failure::at(FailureKind::PathMissing, &path);
    assert_eq!(failure, Failure { kind: FailureKind::PathMissing, subject: path });
    assert_eq!(failure.describe(), "a segment of the path is missing: server/tls/cert");
    assert_eq!(
        Failure::at(FailureKind::EmptyPath, &Vec::new()).describe(),
        "the path is empty"
    );
    let error = FatalRenderError { failure, output_path: "out.yaml".to_string() };
    assert_eq!(
        error.notice(),
        "Failed to compile \"out.yaml\": a segment of the path is missing: server/tls/cert"
    );
}
