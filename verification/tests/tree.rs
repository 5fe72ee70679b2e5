use config_render::tree::{copy_node, mapping_value, node_eq, sequence_value, string_value, Mapping, Node};

fn text(s: &str) -> Node {
    Node::String(s.to_string())
}

fn number(n: u64) -> Node {
    Node::Number(serde_yaml::Number::from(n))
}

fn mapping(entries: Vec<(Node, Node)>) -> Mapping {
    Mapping { entries }
}

#[test]
fn insert_appends_new_keys_in_order() {
    let mut m = Mapping::new();
    assert_eq!(m.insert(text("b"), number(1)), None);
    assert_eq!(m.insert(text("a"), number(2)), None);
    assert_eq!(m.len(), 2);
    assert_eq!(m, mapping(vec![(text("b"), number(1)), (text("a"), number(2))]));
}

#[test]
fn insert_replaces_in_place_and_returns_the_old_value() {
    let mut m = mapping(vec![(text("b"), number(1)), (text("a"), number(2))]);
    assert_eq!(m.insert(text("b"), number(3)), Some(number(1)));
    assert_eq!(m, mapping(vec![(text("b"), number(3)), (text("a"), number(2))]));
}

#[test]
fn insert_tells_keys_of_different_kinds_apart() {
    let mut m = mapping(vec![(text("1"), text("string key"))]);
    assert_eq!(m.insert(number(1), text("number key")), None);
    assert_eq!(m.insert(Node::Null, text("null key")), None);
    assert_eq!(m.insert(Node::Bool(true), text("bool key")), None);
    assert_eq!(m.len(), 4);
    assert_eq!(m.position(&number(1)), Some(1));
    assert_eq!(m.position(&Node::Bool(true)), Some(3));
    assert_eq!(m.position(&Node::Bool(false)), None);
}

#[test]
fn get_finds_string_keys_only() {
    let m = mapping(vec![(number(1), text("n")), (text("1"), text("s"))]);
    assert_eq!(m.get("1"), Some(&text("s")));
    assert_eq!(m.get("2"), None);
    assert_eq!(m.position_of_text("1"), Some(1));
}

#[test]
fn remove_moves_the_last_entry_into_the_gap() {
    let mut m = mapping(vec![
        (text("a"), number(1)),
        (text("b"), number(2)),
        (text("c"), number(3)),
        (text("d"), number(4)),
    ]);
    assert_eq!(m.remove("b"), Some(number(2)));
    assert_eq!(
        m,
        mapping(vec![(text("a"), number(1)), (text("d"), number(4)), (text("c"), number(3))])
    );
    assert_eq!(m.remove("c"), Some(number(3)));
    assert_eq!(m, mapping(vec![(text("a"), number(1)), (text("d"), number(4))]));
    assert_eq!(m.remove("zz"), None);
    assert_eq!(m.len(), 2);
}

#[test]
fn remove_agrees_with_the_document_format() {
    let mut ours = mapping(vec![
        (text("a"), number(1)),
        (text("b"), number(2)),
        (text("c"), number(3)),
    ]);
    let mut theirs = serde_yaml::Mapping::new();
    theirs.insert("a".into(), 1.into());
    theirs.insert("b".into(), 2.into());
    theirs.insert("c".into(), 3.into());
    ours.remove("a");
    theirs.remove("a");
    let their_keys: Vec<String> =
        theirs.keys().map(|k| k.as_str().unwrap().to_string()).collect();
    let our_keys: Vec<String> = ours.entries.iter().map(|e| string_value(&e.0).unwrap()).collect();
    assert_eq!(our_keys, their_keys);
}

#[test]
fn node_eq_compares_whole_trees() {
    let a = Node::Mapping(mapping(vec![(
        text("k"),
        Node::Sequence(vec![number(1), Node::Null, Node::Bool(false), text("x")]),
    )]));
    let b = Node::Mapping(mapping(vec![(
        text("k"),
        Node::Sequence(vec![number(1), Node::Null, Node::Bool(false), text("x")]),
    )]));
    let c = Node::Mapping(mapping(vec![(
        text("k"),
        Node::Sequence(vec![number(1), Node::Null, Node::Bool(true), text("x")]),
    )]));
    assert!(node_eq(&a, &b));
    assert!(!node_eq(&a, &c));
    assert!(!node_eq(&number(1), &text("1")));
    assert!(!node_eq(&number(1), &number(2)));
    assert!(!node_eq(
        &Node::Sequence(vec![number(1)]),
        &Node::Sequence(vec![number(1), number(1)])
    ));
    assert!(node_eq(
        &Node::Tagged("t".to_string(), Box::new(text("x"))),
        &Node::Tagged("t".to_string(), Box::new(text("x")))
    ));
    assert!(!node_eq(
        &Node::Tagged("t".to_string(), Box::new(text("x"))),
        &Node::Tagged("u".to_string(), Box::new(text("x")))
    ));
}

#[test]
fn node_eq_tells_an_integer_from_a_float() {
    let one = Node::Number(serde_yaml::Number::from(1u64));
    let one_point_zero = Node::Number(serde_yaml::Number::from(1.0f64));
    assert!(!node_eq(&one, &one_point_zero));
    assert!(node_eq(&one_point_zero, &Node::Number(serde_yaml::Number::from(1.0f64))));
}

#[test]
fn copies_are_equal_to_what_they_copy() {
    let a = Node::Mapping(mapping(vec![
        (text("k"), Node::Sequence(vec![number(1), Node::Null, Node::Bool(true)])),
        (number(7), Node::Tagged("tag".to_string(), Box::new(text("inner")))),
    ]));
    assert_eq!(copy_node(&a), a);
    assert_eq!(a.clone(), a);
    let m = mapping(vec![(text("k"), number(1))]);
    assert_eq!(m.clone(), m);
}

#[test]
fn accessors_give_the_inside_of_the_matching_kind_only() {
    let m = Node::Mapping(mapping(vec![(text("k"), number(1))]));
    let s = Node::Sequence(vec![number(1)]);
    let t = text("x");
    assert_eq!(mapping_value(&m), Some(&mapping(vec![(text("k"), number(1))])));
    assert_eq!(mapping_value(&s), None);
    assert_eq!(sequence_value(&s), Some(&vec![number(1)]));
    assert_eq!(sequence_value(&m), None);
    assert_eq!(string_value(&t), Some("x".to_string()));
    assert_eq!(string_value(&number(1)), None);
}
