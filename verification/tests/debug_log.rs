use context_engine::debug_log::{format_arg, format_str_arg, message, try_format_arg};
use context_engine::Tree;

#[test]
fn message_multiple_args() {
    let result = message("State", "get", &["'cache.user'", "null"]);
    assert_eq!(result, "State::get('cache.user', null)");
}

#[test]
fn format_arg_variants() {
    assert_eq!(format_arg(&Tree::Scalar(b"text".to_vec())), "'text'");
    assert_eq!(format_arg(&Tree::Null), "null");
    assert_eq!(format_arg(&Tree::Sequence(vec![])), "[]");
    assert_eq!(format_arg(&Tree::Mapping(vec![])), "{}");
    assert_eq!(format_arg(&Tree::Sequence(vec![Tree::Null, Tree::Null, Tree::Null])), "[3 items]");
    assert_eq!(format_arg(&Tree::Mapping(vec![(b"a".to_vec(), Tree::Null)])), "{1 fields}");
}

#[test]
fn format_arg_long_string_truncated() {
    let long_str = "a".repeat(60);
    let result = format_arg(&Tree::Scalar(long_str.into_bytes()));
    assert!(result.starts_with("'aaa"));
    assert!(result.ends_with("'..."));
    assert_eq!(result.len(), 52);
}

#[test]
fn format_str_arg_short_and_long() {
    assert_eq!(format_str_arg("key"), "'key'");
    let long_str = "a".repeat(60);
    let result = format_str_arg(&long_str);
    assert!(result.starts_with("'aaa"));
    assert!(result.ends_with("'..."));
}

#[test]
fn message_without_args() {
    assert_eq!(message("Index", "traverse", &[]), "Index::traverse()");
}

#[test]
fn format_str_arg_exactly_fifty_bytes_is_kept() {
    let s = "b".repeat(50);
    assert_eq!(format_str_arg(&s), format!("'{}'", s));
    let s51 = "b".repeat(51);
    assert_eq!(format_str_arg(&s51), format!("'{}'...", "b".repeat(47)));
}

#[test]
fn format_arg_invalid_utf8_is_replaced() {
    // from_utf8_lossy gives U+FFFD for the invalid byte
    assert_eq!(format_arg(&Tree::Scalar(vec![0x61, 0xff, 0x62])), "'a\u{fffd}b'");
}

#[test]
fn try_format_arg_refuses_a_cut_inside_a_character() {
    // 46 ASCII bytes then a 3-byte character: byte 47 falls inside it
    let mut s = "c".repeat(46);
    s.push_str("\u{3042}");
    s.push_str(&"d".repeat(10));
    assert_eq!(try_format_arg(&Tree::Scalar(s.into_bytes())), None);
    assert_eq!(try_format_arg(&Tree::Null), Some(String::from("null")));
    assert_eq!(try_format_arg(&Tree::Scalar(b"x".to_vec())), Some(String::from("'x'")));
}
