use config_render::environment::{Definitions, Environment, VariableSource};
use config_render::expand::{
    expand, expand_string, expand_text, expand_tree, substitute, substitute_text,
};
use config_render::failure::{Failure, FailureKind};
use config_render::text::chars_of;
use config_render::tree::{Mapping, Node};

fn text(s: &str) -> Node {
    Node::String(s.to_string())
}

fn number(n: u64) -> Node {
    Node::Number(serde_yaml::Number::from(n))
}

fn mapping(entries: Vec<(&str, Node)>) -> Node {
    Node::Mapping(Mapping { entries: entries.into_iter().map(|(k, v)| (text(k), v)).collect() })
}

fn environment(pairs: Vec<(&str, Node)>, prefixes: &[&str]) -> Environment {
    let mut definitions = Definitions::new();
    for (name, value) in pairs {
        definitions.define(name.to_string(), value);
    }
    Environment {
        definitions: VariableSource { definitions, mutations: Vec::new() },
        expected_runtime_lookup_prefixes: prefixes.iter().map(|p| p.to_string()).collect(),
    }
}

fn run(content: &Node, env: &Environment) -> (Result<Node, FailureKind>, Vec<String>) {
    let mut warnings = Vec::new();
    let r = expand_tree(content, env, &mut warnings).map_err(|failure| failure.kind);
    (r, warnings)
}

fn run_text(content: &str, env: &Environment) -> Result<Node, FailureKind> {
    let mut warnings = Vec::new();
    expand_text(content, env, &mut warnings).map_err(|failure| failure.kind)
}

#[test]
fn nulls_booleans_and_numbers_pass_through() {
    let e = environment(vec![], &[]);
    for node in [
        Node::Null,
        Node::Bool(true),
        Node::Bool(false),
        number(0),
        Node::Number(serde_yaml::Number::from(-5i64)),
        Node::Number(serde_yaml::Number::from(2.5f64)),
    ] {
        assert_eq!(run(&node, &e), (Ok(node.clone()), vec![]));
    }
}

#[test]
fn keys_are_ordered_by_their_expanded_text() {
    let e = environment(vec![("b", text("zeta")), ("a", text("alpha"))], &[]);
    let input = mapping(vec![("(( b ))", number(1)), ("(( a ))", number(2))]);
    assert_eq!(run(&input, &e).0, Ok(mapping(vec![("alpha", number(2)), ("zeta", number(1))])));
}

#[test]
fn the_order_of_the_source_does_not_show_in_the_result() {
    let e = environment(vec![("x", text("m"))], &[]);
    let one = mapping(vec![("z", number(1)), ("(( x ))", number(2)), ("a", number(3))]);
    let other = mapping(vec![("a", number(3)), ("z", number(1)), ("(( x ))", number(2))]);
    let expected = mapping(vec![("a", number(3)), ("m", number(2)), ("z", number(1))]);
    assert_eq!(run(&one, &e).0, Ok(expected.clone()));
    assert_eq!(run(&other, &e).0, Ok(expected));
}

#[test]
fn keys_that_are_not_strings_come_first_and_keep_their_order() {
    let e = environment(vec![], &[]);
    let input = Node::Mapping(Mapping {
        entries: vec![
            (text("b"), number(1)),
            (number(2), number(2)),
            (text("a"), number(3)),
            (Node::Bool(true), number(4)),
            (number(1), number(5)),
        ],
    });
    let expected = Node::Mapping(Mapping {
        entries: vec![
            (number(2), number(2)),
            (Node::Bool(true), number(4)),
            (number(1), number(5)),
            (text("a"), number(3)),
            (text("b"), number(1)),
        ],
    });
    assert_eq!(run(&input, &e).0, Ok(expected));
}

#[test]
fn keys_that_expand_to_the_same_text_become_one_entry_with_the_later_value() {
    let e = environment(vec![("a", text("x"))], &[]);
    let input = mapping(vec![("(( a ))", number(1)), ("b", number(0)), ("x", number(2))]);
    assert_eq!(run(&input, &e).0, Ok(mapping(vec![("b", number(0)), ("x", number(2))])));
}

#[test]
fn nested_mappings_are_ordered_too() {
    let e = environment(vec![], &[]);
    let input = mapping(vec![
        ("b", Node::Sequence(vec![mapping(vec![("z", Node::Null), ("y", Node::Null)])])),
        ("a", mapping(vec![("d", Node::Null), ("c", Node::Null)])),
    ]);
    let expected = mapping(vec![
        ("a", mapping(vec![("c", Node::Null), ("d", Node::Null)])),
        ("b", Node::Sequence(vec![mapping(vec![("y", Node::Null), ("z", Node::Null)])])),
    ]);
    assert_eq!(run(&input, &e).0, Ok(expected));
}

#[test]
fn a_tree_without_tokens_expands_to_itself_with_sorted_keys() {
    let e = environment(vec![("unused", text("x"))], &["runtime/"]);
    let input = mapping(vec![
        ("b", number(1)),
        ("a", Node::Sequence(vec![Node::Bool(true), Node::Null, text("( not a token )")])),
    ]);
    let expected = mapping(vec![
        ("a", Node::Sequence(vec![Node::Bool(true), Node::Null, text("( not a token )")])),
        ("b", number(1)),
    ]);
    let (first, warnings) = run(&input, &e);
    assert_eq!(first, Ok(expected.clone()));
    assert!(warnings.is_empty());
    assert_eq!(run(&expected, &e), (Ok(expected), vec![]));
}

#[test]
fn sequences_keep_their_order() {
    let e = environment(vec![("a", text("1")), ("b", text("2"))], &[]);
    let input = Node::Sequence(vec![text("(( b ))"), text("z"), text("(( a ))")]);
    assert_eq!(run(&input, &e).0, Ok(Node::Sequence(vec![text("2"), text("z"), text("1")])));
}

#[test]
fn a_whole_token_takes_the_kind_of_its_value() {
    let value = mapping(vec![("k", text("v"))]);
    let e = environment(
        vec![
            ("a/b", value.clone()),
            ("list", Node::Sequence(vec![number(1)])),
            ("flag", Node::Bool(true)),
            ("none", Node::Null),
            ("n", number(3)),
        ],
        &[],
    );
    assert_eq!(run_text("(( a/b ))", &e), Ok(value.clone()));
    assert_eq!(run_text("  (( a/b ))\n", &e), Ok(value));
    assert_eq!(run_text("(( list ))", &e), Ok(Node::Sequence(vec![number(1)])));
    assert_eq!(run_text("(( flag ))", &e), Ok(Node::Bool(true)));
    assert_eq!(run_text("(( none ))", &e), Ok(Node::Null));
    assert_eq!(run_text("(( n ))", &e), Ok(number(3)));
}

#[test]
fn an_embedded_token_that_resolves_to_a_mapping_fails() {
    let e = environment(vec![("a/b", mapping(vec![("k", text("v"))]))], &[]);
    assert_eq!(run_text("x (( a/b )) y", &e), Err(FailureKind::InterpolateNonScalar));
}

#[test]
fn an_embedded_token_that_resolves_to_a_string_or_a_number_becomes_text() {
    let e = environment(vec![("a/b", text("str"))], &[]);
    assert_eq!(run_text("x (( a/b )) y", &e), Ok(text("x str y")));
    let e = environment(vec![("a/b", number(42))], &[]);
    assert_eq!(run_text("x (( a/b )) y", &e), Ok(text("x 42 y")));
}

#[test]
fn numbers_are_written_as_the_document_format_writes_them() {
    let e = environment(
        vec![
            ("pos", number(18446744073709551615)),
            ("neg", Node::Number(serde_yaml::Number::from(-17i64))),
            ("half", Node::Number(serde_yaml::Number::from(0.5f64))),
            ("whole", Node::Number(serde_yaml::Number::from(3.0f64))),
            ("inf", Node::Number(serde_yaml::Number::from(f64::INFINITY))),
        ],
        &[],
    );
    assert_eq!(
        run_text("(( pos ))|(( neg ))|(( half ))|(( whole ))|(( inf ))", &e),
        Ok(text("18446744073709551615|-17|0.5|3.0|.inf"))
    );
}

#[test]
fn an_embedded_token_that_resolves_to_anything_else_fails() {
    for value in [Node::Null, Node::Bool(true), Node::Sequence(vec![])] {
        let e = environment(vec![("v", value)], &[]);
        assert_eq!(run_text("x (( v ))", &e), Err(FailureKind::InterpolateNonScalar));
    }
}

#[test]
fn every_token_of_a_string_is_replaced() {
    let e = environment(
        vec![("db/host", text("h")), ("db/port", number(5432)), ("db/name", text("n"))],
        &[],
    );
    assert_eq!(
        run_text("jdbc:postgresql://(( db/host )):((db/port))/((  db/name  ))?x=((db/host))", &e),
        Ok(text("jdbc:postgresql://h:5432/n?x=h"))
    );
}

#[test]
fn what_a_token_is_replaced_by_is_not_scanned_again() {
    let e = environment(vec![("a", text("((")), ("b", text("x ))"))], &[]);
    assert_eq!(run_text("(( a ))(( b ))", &e), Ok(text("((x ))")));
}

#[test]
fn a_deferred_token_stays_as_it_was_written() {
    let e = environment(vec![("a", text("x"))], &["runtime/"]);
    assert_eq!(
        run_text("pre ((   runtime/key)) (( a )) post", &e),
        Ok(text("pre ((   runtime/key)) x post"))
    );
    assert_eq!(run_text(" ((runtime/key))  ", &e), Ok(text(" ((runtime/key))  ")));
    let mut warnings = Vec::new();
    assert_eq!(
        substitute(&chars_of("(( runtime/a ))(( runtime/b ))"), &e, 1, &mut warnings),
        Ok(chars_of("(( runtime/a ))(( runtime/b ))"))
    );
    assert!(warnings.is_empty());
}

#[test]
fn a_missing_reference_fails_the_expansion() {
    let e = environment(vec![("a", text("x"))], &["runtime/"]);
    assert_eq!(run_text("(( b ))", &e), Err(FailureKind::MissingReference));
    assert_eq!(run_text("x (( a )) (( b ))", &e), Err(FailureKind::MissingReference));
    let input = Node::Sequence(vec![text("(( a ))"), mapping(vec![("k", text("(( c ))"))])]);
    assert_eq!(run(&input, &e).0, Err(FailureKind::MissingReference));
}

#[test]
fn a_tagged_node_fails_the_expansion() {
    let e = environment(vec![], &[]);
    let tagged = Node::Tagged("custom".to_string(), Box::new(text("x")));
    assert_eq!(run(&tagged, &e).0, Err(FailureKind::UnsupportedNode));
    let inside = mapping(vec![("a", Node::Sequence(vec![tagged]))]);
    assert_eq!(run(&inside, &e).0, Err(FailureKind::UnsupportedNode));
    let e = environment(
        vec![("t", Node::Tagged("custom".to_string(), Box::new(text("x"))))],
        &[],
    );
    assert_eq!(run_text("(( t ))", &e), Err(FailureKind::UnsupportedNode));
}

#[test]
fn the_first_failure_is_the_one_reported() {
    let e = environment(vec![("m", mapping(vec![]))], &[]);
    let input = Node::Sequence(vec![text("x (( m ))"), text("(( missing ))")]);
    assert_eq!(run(&input, &e).0, Err(FailureKind::InterpolateNonScalar));
    let input = Node::Sequence(vec![text("(( missing ))"), text("x (( m ))")]);
    assert_eq!(run(&input, &e).0, Err(FailureKind::MissingReference));
    let input = mapping(vec![("b", text("(( missing ))")), ("x (( m ))", Node::Null)]);
    assert_eq!(run(&input, &e).0, Err(FailureKind::InterpolateNonScalar));
    let input = mapping(vec![("b", text("(( missing ))")), ("a", text("x (( m ))"))]);
    assert_eq!(run(&input, &e).0, Err(FailureKind::InterpolateNonScalar));
}

#[test]
fn warnings_come_in_the_order_in_which_references_are_resolved() {
    let e = environment(
        vec![
            ("runtime/k1", text("b")),
            ("runtime/k2", text("a")),
            ("runtime/v1", text("one")),
            ("runtime/v2", text("two (( runtime/inner ))")),
            ("runtime/inner", text("!")),
        ],
        &["runtime/"],
    );
    let input = mapping(vec![
        ("(( runtime/k1 ))", text("(( runtime/v1 ))")),
        ("(( runtime/k2 ))", text("(( runtime/v2 ))")),
    ]);
    let (result, warnings) = run(&input, &e);
    assert_eq!(result, Ok(mapping(vec![("a", text("two !")), ("b", text("one"))])));
    assert_eq!(
        warnings,
        vec!["runtime/k1", "runtime/k2", "runtime/v2", "runtime/inner", "runtime/v1"]
    );
}

#[test]
fn warnings_are_kept_when_the_expansion_fails_later() {
    let e = environment(vec![("runtime/a", text("x"))], &["runtime/"]);
    let input = Node::Sequence(vec![text("(( runtime/a ))"), text("(( missing ))"), text("(( runtime/a ))")]);
    let (result, warnings) = run(&input, &e);
    assert_eq!(result, Err(FailureKind::MissingReference));
    assert_eq!(warnings, vec!["runtime/a"]);
}

#[test]
fn warnings_are_appended_to_those_already_there() {
    let e = environment(vec![("runtime/a", text("x"))], &["runtime/"]);
    let mut warnings = vec!["earlier".to_string()];
    assert_eq!(expand(&text("(( runtime/a ))"), &e, 1, &mut warnings), Ok(text("x")));
    assert_eq!(warnings, vec!["earlier", "runtime/a"]);
}

#[test]
fn more_depth_than_there_are_definitions_changes_nothing() {
    let e = environment(
        vec![
            ("a", text("(( b )) and (( c ))")),
            ("b", mapping(vec![("(( c ))", text("(( runtime/d ))"))])),
            ("c", text("end")),
            ("runtime/d", number(4)),
            ("loop", text("again (( loop ))")),
        ],
        &["runtime/"],
    );
    let inputs = [
        text("(( c ))"),
        text("(( b ))"),
        text("x (( a ))"),
        text("(( loop ))"),
        mapping(vec![("(( c ))", Node::Sequence(vec![text("(( b ))"), text("(( missing ))")]))]),
    ];
    for input in &inputs {
        let expected = run(input, &e);
        for depth in [5usize, 6, 50] {
            let mut warnings = Vec::new();
            let r = expand(input, &e, depth, &mut warnings).map_err(|failure| failure.kind);
            assert_eq!((r, warnings), expected);
        }
    }
    assert_eq!(run(&inputs[3], &e).0, Err(FailureKind::CyclicReference));
    assert_eq!(run(&inputs[2], &e).0, Err(FailureKind::InterpolateNonScalar));
}

#[test]
fn a_failure_inside_a_string_names_the_reference() {
    let e = environment(vec![("m", mapping(vec![])), ("a", text("x"))], &[]);
    let mut warnings = Vec::new();
    assert_eq!(
        expand_text("(( a )) and (( m ))", &e, &mut warnings),
        Err(Failure { kind: FailureKind::InterpolateNonScalar, subject: vec!["m".to_string()] })
    );
    assert_eq!(
        substitute_text(&chars_of("(( a )) and ((gone))"), &e, &mut warnings),
        Err(Failure { kind: FailureKind::MissingReference, subject: vec!["gone".to_string()] })
    );
    let tagged = Node::Tagged("t".to_string(), Box::new(Node::Null));
    assert_eq!(
        expand_tree(&tagged, &e, &mut warnings),
        Err(Failure { kind: FailureKind::UnsupportedNode, subject: vec![] })
    );
}

#[test]
fn the_depth_of_the_environment_is_the_one_that_is_taken_by_default() {
    let e = environment(
        vec![("a", text("(( b ))")), ("b", text("(( c ))")), ("c", text("end"))],
        &[],
    );
    let mut warnings = Vec::new();
    assert_eq!(expand_text("(( a ))", &e, &mut warnings), Ok(text("end")));
    assert_eq!(expand_string("(( a ))", &e, 3, &mut warnings), Ok(text("end")));
    assert_eq!(
        expand_string("(( a ))", &e, 2, &mut warnings),
        Err(Failure { kind: FailureKind::CyclicReference, subject: vec!["c".to_string()] })
    );
    assert_eq!(
        substitute_text(&chars_of("<(( a ))>"), &e, &mut warnings),
        Ok(chars_of("<end>"))
    );
    assert_eq!(
        expand_tree(&Node::Sequence(vec![text("(( a ))")]), &e, &mut warnings),
        Ok(Node::Sequence(vec![text("end")]))
    );
}
