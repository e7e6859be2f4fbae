use context_engine::log_format::LogFormat;
use context_engine::Tree;

#[test]
fn test_fn_multiple_args() {
    let result = LogFormat::call("State", "get", &["'cache.user'".to_string(), "null".to_string()]);
    assert_eq!(result, "State::get('cache.user', null)");
}

#[test]
fn test_format_arg_long_string() {
    let long_str = "a".repeat(60);
    let result = LogFormat::format_arg(&Tree::Scalar(long_str.into_bytes()));
    assert!(result.starts_with("'aaa"));
    assert!(result.ends_with("'..."));
    assert_eq!(result.len(), 52);
}

#[test]
fn test_format_str_arg_long_string() {
    let long_str = "a".repeat(60);
    let result = LogFormat::format_str_arg(&long_str);
    assert!(result.starts_with("'aaa"));
    assert!(result.ends_with("'..."));
}

#[test]
fn log_format_call_single_arg() {
    assert_eq!(LogFormat::call("State", "get", &["'key'".to_string()]), "State::get('key')");
}

#[test]
fn log_format_variants() {
    assert_eq!(LogFormat::format_arg(&Tree::Scalar(b"text".to_vec())), "'text'");
    assert_eq!(LogFormat::format_arg(&Tree::Null), "null");
    assert_eq!(LogFormat::format_arg(&Tree::Sequence(vec![])), "[]");
    assert_eq!(LogFormat::format_arg(&Tree::Mapping(vec![])), "{}");
    assert_eq!(LogFormat::format_arg(&Tree::Sequence(vec![Tree::Null; 12])), "[12 items]");
    assert_eq!(LogFormat::format_str_arg("key"), "'key'");
    assert_eq!(LogFormat::try_format_arg(&Tree::Null), Some(String::from("null")));
}
