use context_engine::dsl::Dsl;
use context_engine::layout::{
    LEAF_GET_STORE_ID, LEAF_SET_STORE_ID, PATH_CHILD_ID_MASK, PATH_CHILD_ID_SHIFT, PATH_IS_LEAF_MASK,
    PATH_VALUE_ID_MASK, VALUE_IS_PLACEHOLDER_MASK, VALUE_WORD_ID_MASK,
};
use context_engine::{DslError, Index, List, Tree, VariableList};

type Compiled = (
    List<u64>,
    VariableList<u16>,
    VariableList<u16>,
    VariableList<u16>,
    VariableList<u8>,
    VariableList<u16>,
    VariableList<u16>,
    VariableList<u16>,
    VariableList<u16>,
);

fn scalar(s: &str) -> Tree {
    Tree::Scalar(s.as_bytes().to_vec())
}

fn mapping(pairs: Vec<(&str, Tree)>) -> Tree {
    Tree::Mapping(pairs.into_iter().map(|(k, v)| (k.as_bytes().to_vec(), v)).collect())
}

fn compile(tree: &Tree) -> Compiled {
    Dsl::compile(tree, &[]).unwrap()
}

fn compile_with_stores(tree: &Tree, store_ids: &[&str]) -> Compiled {
    Dsl::compile(tree, store_ids).unwrap()
}

#[test]
fn single_leaf() {
    let (paths, ..) = compile(&mapping(vec![("name", Tree::Null)]));
    assert_eq!(paths.data.len(), 2);
    assert!(paths.data[0] & PATH_IS_LEAF_MASK == 0);
    assert!(paths.data[1] & PATH_IS_LEAF_MASK != 0);
}

#[test]
fn nested() {
    let (paths, children, ..) = compile(&mapping(vec![("user", mapping(vec![("id", Tree::Null), ("name", Tree::Null)]))]));
    assert_eq!(paths.data.len(), 4);
    assert!(paths.data[1] & PATH_IS_LEAF_MASK == 0);
    assert!(children.data.len() >= 3);
}

#[test]
fn meta_key_excluded_from_paths() {
    let (paths, ..) = compile(&mapping(vec![(
        "user",
        mapping(vec![
            ("_get", mapping(vec![("store", scalar("Memory")), ("key", scalar("user:1"))])),
            ("id", Tree::Null),
        ]),
    )]));
    assert_eq!(paths.data.len(), 3);
}

#[test]
fn get_store_id_set_in_leaf() {
    let store_ids = &["Memory", "Kvs"];
    let (paths, _, leaves, ..) = compile_with_stores(
        &mapping(vec![(
            "user",
            mapping(vec![
                ("_get", mapping(vec![("store", scalar("Memory")), ("key", scalar("user:1"))])),
                ("id", Tree::Null),
            ]),
        )]),
        store_ids,
    );
    let id_path = paths.data[2];
    assert!(id_path & PATH_IS_LEAF_MASK != 0);
    let leaf_id = ((id_path & PATH_CHILD_ID_MASK) >> PATH_CHILD_ID_SHIFT) as usize;
    let leaf_start = leaves.identity[leaf_id * 2];
    let get_store_id = leaves.data[leaf_start + LEAF_GET_STORE_ID];
    assert_eq!(get_store_id, 1);
}

#[test]
fn store_inherited_to_child_leaf() {
    let store_ids = &["Memory", "Kvs"];
    let (paths, _, leaves, ..) = compile_with_stores(
        &mapping(vec![(
            "session",
            mapping(vec![
                ("_set", mapping(vec![("store", scalar("Kvs")), ("key", scalar("session:1"))])),
                ("user", mapping(vec![("id", Tree::Null)])),
            ]),
        )]),
        store_ids,
    );
    let id_path = paths.data[3];
    assert!(id_path & PATH_IS_LEAF_MASK != 0);
    let leaf_id = ((id_path & PATH_CHILD_ID_MASK) >> PATH_CHILD_ID_SHIFT) as usize;
    let leaf_start = leaves.identity[leaf_id * 2];
    let set_store_id = leaves.data[leaf_start + LEAF_SET_STORE_ID];
    assert_eq!(set_store_id, 2);
}

#[test]
fn intern_dedup() {
    let (_, _, _, _, words, ..) = compile(&mapping(vec![("a", scalar("hello")), ("b", scalar("hello"))]));
    let hello_count = (1..words.identity.len() / 2)
        .filter(|&i| {
            let start = words.identity[i * 2];
            let end = words.identity[i * 2 + 1];
            words.data.get(start..end) == Some(b"hello" as &[u8])
        })
        .count();
    assert_eq!(hello_count, 1);
}

#[test]
fn static_value_encoded_as_single_fragment() {
    let (paths, _, _, values, words, ..) = compile(&mapping(vec![("key", scalar("hello"))]));
    let path = paths.data[1];
    assert!(path & PATH_IS_LEAF_MASK != 0);
    let value_id = (path & PATH_VALUE_ID_MASK) as usize;
    assert!(value_id != 0);
    let vstart = values.identity[value_id * 2];
    let vend = values.identity[value_id * 2 + 1];
    let frags = &values.data[vstart..vend];
    assert_eq!(frags.len(), 1);
    assert_eq!(frags[0] & VALUE_IS_PLACEHOLDER_MASK, 0);
    let word_id = (frags[0] & VALUE_WORD_ID_MASK) as usize;
    let wstart = words.identity[word_id * 2];
    let wend = words.identity[word_id * 2 + 1];
    assert_eq!(&words.data[wstart..wend], b"hello");
}

#[test]
fn placeholder_value_encoded_as_single_fragment_is_placeholder() {
    let (paths, _, _, values, ..) = compile(&mapping(vec![("copy", scalar("${session.user.id}"))]));
    let path = paths.data[1];
    let value_id = (path & PATH_VALUE_ID_MASK) as usize;
    let vstart = values.identity[value_id * 2];
    let vend = values.identity[value_id * 2 + 1];
    let frags = &values.data[vstart..vend];
    assert_eq!(frags.len(), 1);
    assert_ne!(frags[0] & VALUE_IS_PLACEHOLDER_MASK, 0);
}

#[test]
fn template_value_encoded_as_multiple_fragments() {
    let (paths, _, _, values, ..) = compile(&mapping(vec![("key", scalar("prefix.${some.path}.suffix"))]));
    let path = paths.data[1];
    let value_id = (path & PATH_VALUE_ID_MASK) as usize;
    let vstart = values.identity[value_id * 2];
    let vend = values.identity[value_id * 2 + 1];
    let frags = &values.data[vstart..vend];
    assert_eq!(frags.len(), 3);
    assert_eq!(frags[0] & VALUE_IS_PLACEHOLDER_MASK, 0);
    assert_ne!(frags[1] & VALUE_IS_PLACEHOLDER_MASK, 0);
    assert_eq!(frags[2] & VALUE_IS_PLACEHOLDER_MASK, 0);
}

#[test]
fn local_get_overrides_inherited_store() {
    let store_ids = &["ClientA", "ClientB"];
    let (paths, _, leaves, ..) = compile_with_stores(
        &mapping(vec![(
            "parent",
            mapping(vec![
                ("_get", mapping(vec![("store", scalar("ClientA")), ("key", scalar("k"))])),
                (
                    "child",
                    mapping(vec![
                        ("_get", mapping(vec![("store", scalar("ClientB")), ("key", scalar("k"))])),
                        ("leaf", Tree::Null),
                    ]),
                ),
            ]),
        )]),
        store_ids,
    );
    let leaf_path = paths.data[3];
    assert!(leaf_path & PATH_IS_LEAF_MASK != 0);
    let leaf_id = ((leaf_path & PATH_CHILD_ID_MASK) >> PATH_CHILD_ID_SHIFT) as usize;
    let leaf_start = leaves.identity[leaf_id * 2];
    let get_store_id = leaves.data[leaf_start + LEAF_GET_STORE_ID];
    assert_eq!(get_store_id, 2);
}

#[test]
fn get_inherited_when_no_local_override() {
    let store_ids = &["Inherited"];
    let (paths, _, leaves, ..) = compile_with_stores(
        &mapping(vec![(
            "parent",
            mapping(vec![
                ("_get", mapping(vec![("store", scalar("Inherited")), ("key", scalar("k"))])),
                ("leaf", Tree::Null),
            ]),
        )]),
        store_ids,
    );
    let leaf_path = paths.data[2];
    assert!(leaf_path & PATH_IS_LEAF_MASK != 0);
    let leaf_id = ((leaf_path & PATH_CHILD_ID_MASK) >> PATH_CHILD_ID_SHIFT) as usize;
    let leaf_start = leaves.identity[leaf_id * 2];
    let get_store_id = leaves.data[leaf_start + LEAF_GET_STORE_ID];
    assert_eq!(get_store_id, 1);
}

#[test]
fn compile_doc_example_counts_root() {
    let (paths, ..) = Dsl::compile(&Tree::Mapping(vec![(b"id".to_vec(), Tree::Null)]), &[]).unwrap();
    assert_eq!(paths.data.len(), 2);
}

#[test]
fn too_many_store_ids_is_limit_exceeded() {
    let names: Vec<String> = (0..256).map(|i| format!("s{}", i)).collect();
    let refs: Vec<&str> = names.iter().map(|s| s.as_str()).collect();
    let r = Dsl::compile(&Tree::Null, &refs);
    assert!(matches!(r, Err(DslError::LimitExceeded(_))));
    let ok = Dsl::compile(&Tree::Null, &refs[..255]);
    assert!(ok.is_ok());
}

#[test]
fn unknown_store_name_gives_store_zero() {
    let (paths, _, leaves, ..) = compile_with_stores(
        &mapping(vec![("x", mapping(vec![("_get", mapping(vec![("store", scalar("Nope"))])), ("y", Tree::Null)]))]),
        &["Memory"],
    );
    let leaf_id = ((paths.data[2] & PATH_CHILD_ID_MASK) >> PATH_CHILD_ID_SHIFT) as usize;
    let leaf_start = leaves.identity[leaf_id * 2];
    assert_eq!(leaves.data[leaf_start + LEAF_GET_STORE_ID], 0);
}

#[test]
fn store_override_drops_inherited_map() {
    let tree = mapping(vec![(
        "user",
        mapping(vec![
            ("_get", mapping(vec![("store", scalar("A")), ("map", mapping(vec![("name", scalar("n"))]))])),
            (
                "inner",
                mapping(vec![("_get", mapping(vec![("store", scalar("B"))])), ("name", Tree::Null)]),
            ),
            ("plain", Tree::Null),
        ]),
    )]);
    let (p, c, l, v, w, mk, mv, ak, av) = Dsl::compile(&tree, &["A", "B"]).unwrap();
    let index = Index::new(p, c, l, v, w, mk, mv, ak, av);
    let inner = index.traverse("user.inner.name");
    let (store, args) = index.get_args(&inner[0]);
    assert_eq!(store, 2);
    assert!(args.get("map").is_none());
    let plain = index.traverse("user.plain");
    let (store, args) = index.get_args(&plain[0]);
    assert_eq!(store, 1);
    assert_eq!(args.get("map"), Some(&Tree::Mapping(vec![(b"name".to_vec(), scalar("n"))])));
}

#[test]
fn unclosed_placeholder_is_literal() {
    let tree = mapping(vec![("k", scalar("a${b"))]);
    let (p, c, l, v, w, mk, mv, ak, av) = Dsl::compile(&tree, &[]).unwrap();
    let index = Index::new(p, c, l, v, w, mk, mv, ak, av);
    let leaves = index.traverse("k");
    let frags = index.leaf_fragments(&leaves[0]);
    assert_eq!(frags, vec![(false, b"a" as &[u8]), (false, b"b" as &[u8])]);
}

#[test]
fn small_tree_compiles_and_too_many_words_is_limit_exceeded() {
    let ok = Dsl::compile(&mapping(vec![("a", scalar("x")), ("b", Tree::Null)]), &[]);
    assert!(ok.is_ok());
    let pairs: Vec<(Vec<u8>, Tree)> = (0..33000).map(|i| (format!("k{}", i).into_bytes(), Tree::Null)).collect();
    let r = Dsl::compile(&Tree::Mapping(pairs), &[]);
    assert!(matches!(r, Err(DslError::LimitExceeded(_))));
}
