use context_engine::dsl::parse_yaml;
use context_engine::yaml::{yaml_to_tree, YamlNode};
use context_engine::Tree;

fn scalar(s: &str) -> Tree {
    Tree::Scalar(s.as_bytes().to_vec())
}

fn mapping(pairs: Vec<(&str, Tree)>) -> Tree {
    Tree::Mapping(pairs.into_iter().map(|(k, v)| (k.as_bytes().to_vec(), v)).collect())
}

#[test]
fn parse_yaml_reads_scalars_sequences_and_null() {
    let t = parse_yaml(b"a: 1\nb: true\nc: [x, y]\nd: null\ne:\n  f: -2.5\n").unwrap();
    assert_eq!(
        t,
        mapping(vec![
            ("a", scalar("1")),
            ("b", scalar("true")),
            ("c", Tree::Sequence(vec![scalar("x"), scalar("y")])),
            ("d", Tree::Null),
            ("e", mapping(vec![("f", scalar("-2.5"))])),
        ])
    );
}

#[test]
fn parse_yaml_drops_non_string_keys() {
    let t = parse_yaml(b"1: one\nk: v\nfalse: no\n").unwrap();
    assert_eq!(t, mapping(vec![("k", scalar("v"))]));
}

#[test]
fn parse_yaml_tagged_value_is_null() {
    let t = parse_yaml(b"a: !custom x\n").unwrap();
    assert_eq!(t, mapping(vec![("a", Tree::Null)]));
}

#[test]
fn parse_yaml_invalid_utf8_is_an_error() {
    let e = parse_yaml(&[0x61, 0x3a, 0x20, 0xff]).unwrap_err();
    assert!(e.starts_with("UTF-8 error: "), "{e}");
}

#[test]
fn parse_yaml_invalid_yaml_is_an_error() {
    let e = parse_yaml(b"a: [1, 2\n").unwrap_err();
    assert!(e.starts_with("YAML parse error: "), "{e}");
}

#[test]
fn yaml_to_tree_converts_each_kind() {
    let node = YamlNode::Mapping(vec![
        (YamlNode::Str("s".to_string()), YamlNode::Bool(false)),
        (YamlNode::Number("3".to_string()), YamlNode::Str("dropped".to_string())),
        (YamlNode::Str("n".to_string()), YamlNode::Number("42".to_string())),
        (YamlNode::Str("l".to_string()), YamlNode::Sequence(vec![YamlNode::Null, YamlNode::Tagged])),
    ]);
    assert_eq!(
        yaml_to_tree(&node),
        mapping(vec![
            ("s", scalar("false")),
            ("n", scalar("42")),
            ("l", Tree::Sequence(vec![Tree::Null, Tree::Null])),
        ])
    );
}
