use config_render::failure::{Failure, FailureKind};
use config_render::path::{navigate, try_navigate};
use config_render::tree::{Mapping, Node};

fn text(s: &str) -> Node {
    Node::String(s.to_string())
}

fn mapping(entries: Vec<(&str, Node)>) -> Node {
    Node::Mapping(Mapping { entries: entries.into_iter().map(|(k, v)| (text(k), v)).collect() })
}

fn path(segments: &[&str]) -> Vec<String> {
    segments.iter().map(|s| s.to_string()).collect()
}

fn failed_at(kind: FailureKind, segments: &[&str]) -> Failure {
    Failure { kind, subject: path(segments) }
}

fn sample() -> Node {
    mapping(vec![
        ("spring", mapping(vec![("profiles", mapping(vec![("active", text("dev"))]))])),
        ("list", Node::Sequence(vec![text("a")])),
        ("leaf", text("x")),
    ])
}

#[test]
fn navigate_with_an_empty_path_gives_the_root() {
    let root = sample();
    assert_eq!(navigate(&root, &path(&[])), Ok(&root));
    let leaf = text("x");
    assert_eq!(navigate(&leaf, &path(&[])), Ok(&leaf));
}

#[test]
fn navigate_follows_keys() {
    let root = sample();
    assert_eq!(navigate(&root, &path(&["spring", "profiles", "active"])), Ok(&text("dev")));
    assert_eq!(navigate(&root, &path(&["list"])), Ok(&Node::Sequence(vec![text("a")])));
}

#[test]
fn navigate_fails_on_a_missing_segment() {
    let root = sample();
    assert_eq!(navigate(&root, &path(&["spring", "nothing"])), Err(failed_at(FailureKind::PathMissing, &["spring", "nothing"])));
    assert_eq!(navigate(&root, &path(&["nothing", "at", "all"])), Err(failed_at(FailureKind::PathMissing, &["nothing", "at", "all"])));
}

#[test]
fn navigate_fails_on_an_intermediate_node_that_is_no_mapping() {
    let root = sample();
    assert_eq!(navigate(&root, &path(&["leaf", "below"])), Err(failed_at(FailureKind::PathNotMapping, &["leaf", "below"])));
    assert_eq!(navigate(&root, &path(&["list", "0"])), Err(failed_at(FailureKind::PathNotMapping, &["list", "0"])));
}

#[test]
fn try_navigate_gives_nothing_on_a_missing_segment() {
    let root = sample();
    assert_eq!(try_navigate(&root, &path(&["spring", "nothing"])), Ok(None));
    assert_eq!(try_navigate(&root, &path(&["spring", "nothing", "deeper"])), Ok(None));
    assert_eq!(
        try_navigate(&root, &path(&["spring", "profiles", "active"])),
        Ok(Some(&text("dev")))
    );
    assert_eq!(try_navigate(&root, &path(&[])), Ok(Some(&root)));
}

#[test]
fn try_navigate_still_fails_on_an_intermediate_node_that_is_no_mapping() {
    let root = sample();
    assert_eq!(try_navigate(&root, &path(&["leaf", "below"])), Err(failed_at(FailureKind::PathNotMapping, &["leaf", "below"])));
}
