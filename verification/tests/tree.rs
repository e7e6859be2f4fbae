use context_engine::tree::TAG_SCALAR;
use context_engine::Tree;

fn rt(v: &Tree) -> Tree {
    Tree::deserialize(&v.serialize()).unwrap()
}

#[test]
fn test_null() {
    assert_eq!(rt(&Tree::Null), Tree::Null);
}

#[test]
fn test_scalar() {
    assert_eq!(rt(&Tree::Scalar(b"hello".to_vec())), Tree::Scalar(b"hello".to_vec()));
}

#[test]
fn test_scalar_empty() {
    assert_eq!(rt(&Tree::Scalar(vec![])), Tree::Scalar(vec![]));
}

#[test]
fn test_sequence() {
    let v = Tree::Sequence(vec![Tree::Scalar(b"a".to_vec()), Tree::Null, Tree::Scalar(b"b".to_vec())]);
    assert_eq!(rt(&v), v);
}

#[test]
fn test_mapping() {
    let v = Tree::Mapping(vec![
        (b"id".to_vec(), Tree::Scalar(b"1".to_vec())),
        (b"name".to_vec(), Tree::Scalar(b"alice".to_vec())),
    ]);
    assert_eq!(rt(&v), v);
}

#[test]
fn test_nested() {
    let v = Tree::Mapping(vec![(
        b"user".to_vec(),
        Tree::Mapping(vec![
            (b"id".to_vec(), Tree::Scalar(b"1".to_vec())),
            (b"tags".to_vec(), Tree::Sequence(vec![Tree::Scalar(b"admin".to_vec()), Tree::Scalar(b"staff".to_vec())])),
            (b"extra".to_vec(), Tree::Null),
        ]),
    )]);
    assert_eq!(rt(&v), v);
}

#[test]
fn test_deserialize_invalid_returns_none() {
    assert_eq!(Tree::deserialize(&[0xFF]), None);
    assert_eq!(Tree::deserialize(&[TAG_SCALAR, 0x05, 0x00, 0x00, 0x00]), None);
}

#[test]
fn test_roundtrip_null_field() {
    let v = Tree::Mapping(vec![
        (b"id".to_vec(), Tree::Scalar(b"1".to_vec())),
        (b"deleted_at".to_vec(), Tree::Null),
    ]);
    assert_eq!(Tree::deserialize(&v.serialize()).unwrap(), v);
}

#[test]
fn wire_scalar_bytes_exact() {
    // tag, little-endian length, bytes
    let w = Tree::Scalar(b"hi".to_vec()).serialize();
    assert_eq!(w, vec![TAG_SCALAR, 2, 0, 0, 0, b'h', b'i']);
}

#[test]
fn wire_truncated_mapping_is_rejected() {
    let mut w = Tree::Mapping(vec![(b"k".to_vec(), Tree::Null)]).serialize();
    w.pop();
    assert_eq!(Tree::deserialize(&w), None);
}
