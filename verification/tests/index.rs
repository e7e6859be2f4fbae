use context_engine::dsl::Dsl;
use context_engine::{Index, Tree};

fn scalar(s: &str) -> Tree {
    Tree::Scalar(s.as_bytes().to_vec())
}

fn mapping(pairs: Vec<(&str, Tree)>) -> Tree {
    Tree::Mapping(pairs.into_iter().map(|(k, v)| (k.as_bytes().to_vec(), v)).collect())
}

fn make_index(tree: &Tree) -> Index {
    let (paths, children, leaves, values, words, map_keys, map_vals, args_keys, args_vals) =
        Dsl::compile(tree, &[]).unwrap();
    Index::new(paths, children, leaves, values, words, map_keys, map_vals, args_keys, args_vals)
}

fn make_index_with_stores(tree: &Tree, store_ids: &[&str]) -> Index {
    let (paths, children, leaves, values, words, map_keys, map_vals, args_keys, args_vals) =
        Dsl::compile(tree, store_ids).unwrap();
    Index::new(paths, children, leaves, values, words, map_keys, map_vals, args_keys, args_vals)
}

#[test]
fn traverse_leaf_path() {
    let index = make_index(&mapping(vec![("session", mapping(vec![("user", mapping(vec![("id", Tree::Null)]))]))]));
    let leaves = index.traverse("session.user.id");
    assert_eq!(leaves.len(), 1);
}

#[test]
fn traverse_intermediate_collects_all_leaves() {
    let index = make_index(&mapping(vec![(
        "session",
        mapping(vec![("user", mapping(vec![("id", Tree::Null), ("name", Tree::Null)]))]),
    )]));
    let leaves = index.traverse("session.user");
    assert_eq!(leaves.len(), 2);
}

#[test]
fn traverse_nonexistent_returns_empty() {
    let index = make_index(&mapping(vec![("session", mapping(vec![("user", mapping(vec![("id", Tree::Null)]))]))]));
    let leaves = index.traverse("session.user.missing");
    assert!(leaves.is_empty());
}

#[test]
fn keyword_of_leaf() {
    let index = make_index(&mapping(vec![("user", mapping(vec![("id", Tree::Null)]))]));
    assert_eq!(index.keyword_of(2), b"id");
}

#[test]
fn keyword_of_intermediate() {
    let index = make_index(&mapping(vec![("user", mapping(vec![("id", Tree::Null)]))]));
    assert_eq!(index.keyword_of(1), b"user");
}

#[test]
fn get_args_store_id() {
    let index = make_index_with_stores(
        &mapping(vec![(
            "session",
            mapping(vec![
                ("_get", mapping(vec![("store", scalar("Memory")), ("key", scalar("session:1"))])),
                ("user", mapping(vec![("id", Tree::Null)])),
            ]),
        )]),
        &["Memory"],
    );
    let leaves = index.traverse("session.user.id");
    let (store_id, _) = index.get_args(&leaves[0]);
    assert_eq!(store_id, 1);
}

#[test]
fn get_args_key() {
    let index = make_index_with_stores(
        &mapping(vec![(
            "session",
            mapping(vec![
                ("_get", mapping(vec![("store", scalar("Memory")), ("key", scalar("session:1"))])),
                ("user", mapping(vec![("id", Tree::Null)])),
            ]),
        )]),
        &["Memory"],
    );
    let leaves = index.traverse("session.user.id");
    let (_, args) = index.get_args(&leaves[0]);
    assert_eq!(args.get("key"), Some(&Tree::Scalar(b"session:1".to_vec())));
}

#[test]
fn get_args_no_get_returns_empty() {
    let index = make_index(&mapping(vec![("user", mapping(vec![("id", Tree::Null)]))]));
    let leaves = index.traverse("user.id");
    let (store_id, args) = index.get_args(&leaves[0]);
    assert_eq!(store_id, 0);
    assert!(args.is_empty());
}

#[test]
fn leaf_fragments_static_value() {
    let index = make_index(&mapping(vec![("driver", scalar("postgres"))]));
    let leaves = index.traverse("driver");
    let frags = index.leaf_fragments(&leaves[0]);
    assert_eq!(frags.len(), 1);
    assert_eq!(frags[0], (false, b"postgres" as &[u8]));
}

#[test]
fn leaf_fragments_null_value_is_empty() {
    let index = make_index(&mapping(vec![("id", Tree::Null)]));
    let leaves = index.traverse("id");
    let frags = index.leaf_fragments(&leaves[0]);
    assert!(frags.is_empty());
}

#[test]
fn leaf_fragments_single_placeholder() {
    let index = make_index(&mapping(vec![("copy", scalar("${session.user.name}"))]));
    let leaves = index.traverse("copy");
    let frags = index.leaf_fragments(&leaves[0]);
    assert_eq!(frags.len(), 1);
    assert_eq!(frags[0], (true, b"session.user.name" as &[u8]));
}

#[test]
fn leaf_fragments_template() {
    let index = make_index(&mapping(vec![("key", scalar("prefix.${some.path}.suffix"))]));
    let leaves = index.traverse("key");
    let frags = index.leaf_fragments(&leaves[0]);
    assert_eq!(frags.len(), 3);
    assert_eq!(frags[0], (false, b"prefix." as &[u8]));
    assert_eq!(frags[1], (true, b"some.path" as &[u8]));
    assert_eq!(frags[2], (false, b".suffix" as &[u8]));
}

#[test]
fn set_args_store_id() {
    let index = make_index_with_stores(
        &mapping(vec![(
            "session",
            mapping(vec![
                ("_set", mapping(vec![("store", scalar("Kvs")), ("key", scalar("session:1"))])),
                ("user", mapping(vec![("id", Tree::Null)])),
            ]),
        )]),
        &["Memory", "Kvs"],
    );
    let leaves = index.traverse("session.user.id");
    let (store_id, _) = index.set_args(&leaves[0]);
    assert_eq!(store_id, 2);
}

#[test]
fn set_args_no_set_returns_empty() {
    let index = make_index(&mapping(vec![("user", mapping(vec![("id", Tree::Null)]))]));
    let leaves = index.traverse("user.id");
    let (store_id, args) = index.set_args(&leaves[0]);
    assert_eq!(store_id, 0);
    assert!(args.is_empty());
}

#[test]
fn traverse_doc_example() {
    let index = make_index(&Tree::Mapping(vec![(b"id".to_vec(), Tree::Null)]));
    assert_eq!(index.traverse("id").len(), 1);
    assert!(index.traverse("missing").is_empty());
    let index = make_index(&Tree::Mapping(vec![(b"name".to_vec(), Tree::Null)]));
    assert_eq!(index.keyword_of(1), b"name");
}

#[test]
fn get_args_map_and_scalar_args() {
    let index = make_index_with_stores(
        &mapping(vec![(
            "user",
            mapping(vec![
                (
                    "_get",
                    mapping(vec![
                        ("store", scalar("Db")),
                        ("key", scalar("users")),
                        ("ttl", scalar("3600")),
                        ("map", mapping(vec![("name", scalar("col_name"))])),
                    ]),
                ),
                ("name", Tree::Null),
            ]),
        )]),
        &["Db"],
    );
    let leaves = index.traverse("user.name");
    let (store_id, args) = index.get_args(&leaves[0]);
    assert_eq!(store_id, 1);
    assert_eq!(args.get("key"), Some(&scalar("users")));
    assert_eq!(args.get("ttl"), Some(&scalar("3600")));
    assert_eq!(args.get("map"), Some(&Tree::Mapping(vec![(b"name".to_vec(), scalar("col_name"))])));
    assert_eq!(args.len(), 3);
}

#[test]
fn get_meta_raw_parts() {
    let index = make_index_with_stores(
        &mapping(vec![(
            "a",
            mapping(vec![("_set", mapping(vec![("store", scalar("S"))])), ("b", scalar("v"))]),
        )]),
        &["S"],
    );
    let leaves = index.traverse("a.b");
    let (store, key, mk, mv, ak, av) = index.set_meta(&leaves[0]);
    assert_eq!(store, 1);
    assert!(key.is_empty() && mk.is_empty() && mv.is_empty() && ak.is_empty() && av.is_empty());
    let (store, ..) = index.get_meta(&leaves[0]);
    assert_eq!(store, 0);
}

#[test]
fn traverse_reads_leaf_values_and_stores_in_order() {
    let tree = mapping(vec![
        (
            "user",
            mapping(vec![
                ("_get", mapping(vec![("store", scalar("A")), ("key", scalar("u:1"))])),
                ("name", scalar("n-${x}")),
                ("inner", mapping(vec![("_get", mapping(vec![("store", scalar("B"))])), ("age", scalar("5"))])),
                ("plain", Tree::Null),
            ]),
        ),
        ("x", scalar("1")),
    ]);
    let index = make_index_with_stores(&tree, &["A", "B"]);
    let leaves = index.traverse("user");
    assert_eq!(leaves.len(), 3);
    assert_eq!(index.leaf_fragments(&leaves[0]), vec![(false, b"n-" as &[u8]), (true, b"x" as &[u8])]);
    assert_eq!(index.leaf_fragments(&leaves[1]), vec![(false, b"5" as &[u8])]);
    assert!(index.leaf_fragments(&leaves[2]).is_empty());
    let stores: Vec<(u8, u8)> = leaves.iter().map(|l| (index.get_args(l).0, index.set_args(l).0)).collect();
    assert_eq!(stores, vec![(1, 0), (2, 0), (1, 0)]);
    // the inner block overrides the store only: the key is inherited
    for l in leaves.iter() {
        assert_eq!(index.get_args(l).1.get("key"), Some(&scalar("u:1")));
    }
    assert!(index.traverse("user.missing").is_empty());
    assert_eq!(index.traverse("user.inner.age").len(), 1);
}

#[test]
fn further_arguments_inherit_and_override_by_keyword() {
    let index = make_index_with_stores(
        &mapping(vec![(
            "user",
            mapping(vec![
                (
                    "_get",
                    mapping(vec![
                        ("store", scalar("Db")),
                        ("key", scalar("users")),
                        ("ttl", scalar("10")),
                        ("conn", scalar("primary")),
                    ]),
                ),
                ("name", Tree::Null),
                ("email", mapping(vec![("_get", mapping(vec![("conn", scalar("replica"))]))])),
            ]),
        )]),
        &["Db"],
    );
    let name = index.traverse("user.name");
    let (store, args) = index.get_args(&name[0]);
    assert_eq!(store, 1);
    assert_eq!(args.get("ttl"), Some(&scalar("10")));
    assert_eq!(args.get("conn"), Some(&scalar("primary")));
    assert_eq!(args.get("key"), Some(&scalar("users")));
    let email = index.traverse("user.email");
    let (store, args) = index.get_args(&email[0]);
    assert_eq!(store, 1);
    assert_eq!(args.get("ttl"), Some(&scalar("10")));
    assert_eq!(args.get("conn"), Some(&scalar("replica")));
    assert_eq!(args.len(), 3);
}
