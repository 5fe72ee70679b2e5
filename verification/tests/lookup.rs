use config_render::environment::{
    find_definition, is_runtime_deferred, name_wants_json, Definitions, Environment, VariableSource,
};
use config_render::expand::{finish_json, lookup, lookup_reference};
use config_render::failure::{Failure, FailureKind};
use config_render::text::chars_of;
use config_render::tree::{Mapping, Node};

fn text(s: &str) -> Node {
    Node::String(s.to_string())
}

fn number(n: u64) -> Node {
    Node::Number(serde_yaml::Number::from(n))
}

fn mapping(entries: Vec<(&str, Node)>) -> Node {
    Node::Mapping(Mapping { entries: entries.into_iter().map(|(k, v)| (text(k), v)).collect() })
}

fn definitions(pairs: Vec<(&str, Node)>) -> Definitions {
    let mut d = Definitions::new();
    for (name, value) in pairs {
        d.define(name.to_string(), value);
    }
    d
}

fn environment(pairs: Vec<(&str, Node)>, prefixes: &[&str]) -> Environment {
    Environment {
        definitions: VariableSource { definitions: definitions(pairs), mutations: Vec::new() },
        expected_runtime_lookup_prefixes: prefixes.iter().map(|p| p.to_string()).collect(),
    }
}

fn resolve(name: &str, env: &Environment) -> (Result<Option<Node>, FailureKind>, Vec<String>) {
    let mut warnings = Vec::new();
    let r = lookup_reference(name, env, &mut warnings).map_err(|failure| failure.kind);
    (r, warnings)
}

#[test]
fn a_later_definition_of_a_name_wins() {
    let d = definitions(vec![("a", text("first")), ("b", text("other")), ("a", text("second"))]);
    assert_eq!(d.len(), 3);
    assert_eq!(d.get("a"), Some(&text("second")));
    assert_eq!(d.get("b"), Some(&text("other")));
    assert_eq!(d.get("c"), None);
}

#[test]
fn an_exact_definition_is_preferred_to_a_wildcard() {
    let d = definitions(vec![("svc/*", text("default")), ("svc/30", text("exact"))]);
    assert_eq!(find_definition(&d, "svc/30"), Some(&text("exact")));
    assert_eq!(find_definition(&d, "svc/31"), Some(&text("default")));
}

#[test]
fn a_terminal_segment_of_two_characters_falls_back_to_the_wildcard_beside_it() {
    let d = definitions(vec![("svc/*", text("default"))]);
    assert_eq!(find_definition(&d, "svc/30"), Some(&text("default")));
    assert_eq!(find_definition(&d, "svc/name"), Some(&text("default")));
}

#[test]
fn a_terminal_segment_of_one_character_falls_back_one_level_higher() {
    let d = definitions(vec![("svc/*", text("default"))]);
    assert_eq!(find_definition(&d, "svc/3"), None);
    assert_eq!(find_definition(&d, "svc/list/3"), Some(&text("default")));
    let e = environment(vec![("svc/*", text("default"))], &[]);
    assert_eq!(resolve("svc/3", &e).0, Err(FailureKind::MissingReference));
    assert_eq!(resolve("svc/list/3", &e).0, Ok(Some(text("default"))));
}

#[test]
fn the_fallback_climbs_level_by_level() {
    let d = definitions(vec![("a/*", text("top"))]);
    assert_eq!(find_definition(&d, "a/b/c/dd"), Some(&text("top")));
    assert_eq!(find_definition(&d, "a/bb"), Some(&text("top")));
    assert_eq!(find_definition(&d, "b/cc"), None);
    let d = definitions(vec![("a/*", text("top")), ("a/b/*", text("middle"))]);
    assert_eq!(find_definition(&d, "a/b/c/dd"), Some(&text("middle")));
}

#[test]
fn short_names_and_names_without_a_separator_have_no_fallback() {
    let d = definitions(vec![("/*", text("root")), ("*", text("star"))]);
    assert_eq!(find_definition(&d, ""), None);
    assert_eq!(find_definition(&d, "a"), None);
    assert_eq!(find_definition(&d, "ab"), None);
    assert_eq!(find_definition(&d, "abc"), None);
    assert_eq!(find_definition(&d, "/ab"), Some(&text("root")));
    assert_eq!(find_definition(&d, "/a"), None);
}

#[test]
fn names_are_cut_by_characters() {
    let d = definitions(vec![("é/*", text("accent"))]);
    assert_eq!(find_definition(&d, "é/üü"), Some(&text("accent")));
}

#[test]
fn a_missing_reference_fails() {
    let e = environment(vec![("a", text("x"))], &["runtime/"]);
    assert_eq!(resolve("b", &e), (Err(FailureKind::MissingReference), vec![]));
}

#[test]
fn a_deferred_reference_without_definition_gives_no_value() {
    let e = environment(vec![("a", text("x"))], &["other/", "runtime/"]);
    assert_eq!(resolve("runtime/secret", &e), (Ok(None), vec![]));
}

#[test]
fn a_deferred_reference_with_a_definition_gives_it_and_warns() {
    let e = environment(vec![("runtime/secret", text("hardcoded"))], &["runtime/"]);
    assert_eq!(
        resolve("runtime/secret", &e),
        (Ok(Some(text("hardcoded"))), vec!["runtime/secret".to_string()])
    );
}

#[test]
fn prefixes_are_matched_at_the_start_of_the_name_only() {
    let prefixes = vec!["runtime/".to_string(), "vault".to_string()];
    assert!(is_runtime_deferred(&chars_of("runtime/x"), &prefixes));
    assert!(is_runtime_deferred(&chars_of("vaulted"), &prefixes));
    assert!(!is_runtime_deferred(&chars_of("a/runtime/x"), &prefixes));
    assert!(!is_runtime_deferred(&chars_of("runtime"), &prefixes));
    assert!(!is_runtime_deferred(&chars_of("runtime/x"), &Vec::new()));
    assert!(is_runtime_deferred(&chars_of("anything"), &vec!["".to_string()]));
}

#[test]
fn the_json_suffix_is_the_end_of_the_name() {
    assert!(name_wants_json(&chars_of("a/json")));
    assert!(name_wants_json(&chars_of("/json")));
    assert!(!name_wants_json(&chars_of("json")));
    assert!(!name_wants_json(&chars_of("a/json/b")));
    assert!(!name_wants_json(&chars_of("a/jsonx")));
}

#[test]
fn a_resolved_value_is_expanded() {
    let e = environment(
        vec![("greeting", text("hello (( who ))")), ("who", text("world"))],
        &[],
    );
    assert_eq!(resolve("greeting", &e), (Ok(Some(text("hello world"))), vec![]));
}

#[test]
fn a_json_reference_to_a_mapping_gives_canonical_json() {
    let e = environment(vec![("cfg/json", mapping(vec![("k", number(1)), ("j", number(2))]))], &[]);
    assert_eq!(resolve("cfg/json", &e), (Ok(Some(text("{\"j\":2,\"k\":1}"))), vec![]));
}

#[test]
fn a_json_reference_expands_before_it_serialises() {
    let e = environment(
        vec![
            (
                "cfg/json",
                mapping(vec![
                    ("(( key ))", Node::Sequence(vec![text("(( item ))"), Node::Null, Node::Bool(true)])),
                    ("a", mapping(vec![("z", text("é\"\n")), ("b", number(10))])),
                ]),
            ),
            ("key", text("name")),
            ("item", number(7)),
        ],
        &[],
    );
    assert_eq!(
        resolve("cfg/json", &e).0,
        Ok(Some(text("{\"a\":{\"b\":10,\"z\":\"é\\\"\\n\"},\"name\":[7,null,true]}")))
    );
}

#[test]
fn a_json_reference_to_a_string_gives_the_string() {
    let e = environment(vec![("cfg/json", text("plain (( x ))")), ("x", text("text"))], &[]);
    assert_eq!(resolve("cfg/json", &e).0, Ok(Some(text("plain text"))));
}

#[test]
fn a_json_reference_to_anything_else_fails() {
    for value in [number(1), Node::Null, Node::Bool(true), Node::Sequence(vec![number(1)])] {
        let e = environment(vec![("cfg/json", value)], &[]);
        assert_eq!(resolve("cfg/json", &e).0, Err(FailureKind::JsonNotMappingOrString));
    }
}

#[test]
fn a_mapping_that_json_cannot_hold_fails() {
    let too_large = Node::Number(serde_yaml::Number::from(9_007_199_254_740_992u64));
    let e = environment(vec![("cfg/json", mapping(vec![("n", too_large)]))], &[]);
    assert_eq!(resolve("cfg/json", &e).0, Err(FailureKind::JsonNotRepresentable));
    let keyed_by_null = Node::Mapping(Mapping { entries: vec![(Node::Null, number(1))] });
    let e = environment(vec![("cfg/json", keyed_by_null)], &[]);
    assert_eq!(resolve("cfg/json", &e).0, Err(FailureKind::JsonNotRepresentable));
}

#[test]
fn a_definition_that_refers_to_itself_fails() {
    let e = environment(vec![("a", text("(( a ))"))], &[]);
    assert_eq!(resolve("a", &e).0, Err(FailureKind::CyclicReference));
    let e = environment(vec![("a", text("x (( b ))")), ("b", text("y (( a ))"))], &[]);
    assert_eq!(resolve("a", &e).0, Err(FailureKind::CyclicReference));
}

#[test]
fn a_chain_as_long_as_the_definitions_resolves() {
    let e = environment(
        vec![("a", text("(( b ))")), ("b", text("(( c ))")), ("c", text("end"))],
        &[],
    );
    assert_eq!(resolve("a", &e).0, Ok(Some(text("end"))));
}

#[test]
fn without_depth_a_defined_reference_fails_and_an_undefined_one_does_not() {
    let e = environment(vec![("a", text("x"))], &["runtime/"]);
    let mut warnings = Vec::new();
    assert_eq!(
        lookup("a", &e, 0, &mut warnings),
        Err(Failure { kind: FailureKind::CyclicReference, subject: vec!["a".to_string()] })
    );
    assert_eq!(lookup("runtime/x", &e, 0, &mut warnings), Ok(None));
    assert_eq!(
        lookup("b", &e, 0, &mut warnings),
        Err(Failure { kind: FailureKind::MissingReference, subject: vec!["b".to_string()] })
    );
}

#[test]
fn a_missing_reference_is_named_in_the_failure() {
    let e = environment(vec![("app/other", number(1))], &["runtime/"]);
    let mut warnings = Vec::new();
    let r = lookup_reference("app/missing", &e, &mut warnings);
    assert_eq!(
        r,
        Err(Failure {
            kind: FailureKind::MissingReference,
            subject: vec!["app/missing".to_string()],
        })
    );
    assert_eq!(r.unwrap_err().describe(), "a reference has no definition: app/missing");
    assert!(warnings.is_empty());
}

#[test]
fn a_failure_below_a_reference_names_the_reference_that_failed() {
    let e = environment(
        vec![("a", text("(( b ))")), ("b", text("x (( c/json ))")), ("c/json", number(1))],
        &[],
    );
    let mut warnings = Vec::new();
    assert_eq!(
        lookup_reference("a", &e, &mut warnings),
        Err(Failure {
            kind: FailureKind::JsonNotMappingOrString,
            subject: vec!["c/json".to_string()],
        })
    );
    let e = environment(vec![("a", text("(( b ))")), ("b", text("(( a ))"))], &[]);
    assert_eq!(
        lookup_reference("a", &e, &mut warnings),
        Err(Failure { kind: FailureKind::CyclicReference, subject: vec!["a".to_string()] })
    );
}

#[test]
fn the_least_integer_has_no_canonical_json_but_as_a_key() {
    let least = Node::Number(serde_yaml::Number::from(i64::MIN));
    let e = environment(vec![("cfg/json", mapping(vec![("k", least.clone())]))], &[]);
    assert_eq!(resolve("cfg/json", &e).0, Err(FailureKind::JsonNotRepresentable));
    let nested = mapping(vec![("k", Node::Sequence(vec![mapping(vec![("n", least.clone())])]))]);
    let e = environment(vec![("cfg/json", nested)], &[]);
    assert_eq!(resolve("cfg/json", &e).0, Err(FailureKind::JsonNotRepresentable));
    let keyed = Node::Mapping(Mapping { entries: vec![(least, number(1))] });
    let e = environment(vec![("cfg/json", keyed)], &[]);
    assert_eq!(
        resolve("cfg/json", &e).0,
        Ok(Some(text("{\"-9223372036854775808\":1}")))
    );
    let next = Node::Number(serde_yaml::Number::from(i64::MIN + 1));
    let e = environment(vec![("cfg/json", mapping(vec![("k", next)]))], &[]);
    assert_eq!(resolve("cfg/json", &e).0, Err(FailureKind::JsonNotRepresentable));
    let safe = Node::Number(serde_yaml::Number::from(-9_007_199_254_740_991i64));
    let e = environment(vec![("cfg/json", mapping(vec![("k", safe)]))], &[]);
    assert_eq!(resolve("cfg/json", &e).0, Ok(Some(text("{\"k\":-9007199254740991}"))));
}

#[test]
fn what_follows_the_json_text_depends_on_the_kind_of_the_value() {
    let m = mapping(vec![("k", number(1))]);
    assert_eq!(
        finish_json(m.clone(), Some("{\"k\":1}".to_string()), "cfg/json"),
        Ok(Some(text("{\"k\":1}")))
    );
    assert_eq!(
        finish_json(m, None, "cfg/json"),
        Err(Failure {
            kind: FailureKind::JsonNotRepresentable,
            subject: vec!["cfg/json".to_string()],
        })
    );
    assert_eq!(finish_json(text("s"), None, "cfg/json"), Ok(Some(text("s"))));
    assert_eq!(
        finish_json(text("s"), Some("ignored".to_string()), "cfg/json"),
        Ok(Some(text("s")))
    );
    assert_eq!(
        finish_json(number(1), Some("1".to_string()), "n/json"),
        Err(Failure {
            kind: FailureKind::JsonNotMappingOrString,
            subject: vec!["n/json".to_string()],
        })
    );
}

#[test]
fn the_depth_of_an_environment_is_the_number_of_definitions_made() {
    let mut d = Definitions::new();
    assert_eq!(d.len(), 0);
    d.define("a".to_string(), text("1"));
    d.define("a".to_string(), text("2"));
    assert_eq!(d.len(), 2);
    let e = Environment {
        definitions: VariableSource { definitions: d, mutations: Vec::new() },
        expected_runtime_lookup_prefixes: Vec::new(),
    };
    assert_eq!(e.reference_depth(), 2);
}
