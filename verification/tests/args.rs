use context_engine::provided::Tree;
use context_engine::Args;

#[test]
fn args_keep_key_order_and_replace_in_place() {
    let mut a = Args::new();
    assert!(a.is_empty());
    a.insert("key".to_string(), Tree::Scalar(b"1".to_vec()));
    a.insert("id".to_string(), Tree::Scalar(b"2".to_vec()));
    a.insert("user".to_string(), Tree::Scalar(b"3".to_vec()));
    a.insert("key".to_string(), Tree::Scalar(b"4".to_vec()));
    assert_eq!(a.len(), 3);
    let keys: Vec<&str> = (0..a.len()).map(|i| a.entry(i).0).collect();
    assert_eq!(keys, vec!["id", "key", "user"]);
    assert_eq!(a.get("key"), Some(&Tree::Scalar(b"4".to_vec())));
    assert_eq!(a.get("missing"), None);
    let c = a.copy();
    assert_eq!(c.entry(0).1, &Tree::Scalar(b"2".to_vec()));
}

#[test]
fn args_order_by_bytes_with_prefix_first() {
    let mut a = Args::new();
    a.insert("ab".to_string(), Tree::Null);
    a.insert("a".to_string(), Tree::Null);
    a.insert("B".to_string(), Tree::Null);
    let keys: Vec<&str> = (0..a.len()).map(|i| a.entry(i).0).collect();
    assert_eq!(keys, vec!["B", "a", "ab"]);
}
