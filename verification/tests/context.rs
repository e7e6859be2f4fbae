use std::cell::RefCell;
use std::sync::Arc;

use context_engine::context::Context as RequestContext;
use context_engine::dsl::Dsl;
use context_engine::{
    Args, Context, ContextError, Index, LoadError, SetOutcome, Store, StoreError, Stores, Tree,
};

fn scalar(s: &str) -> Tree {
    Tree::Scalar(s.as_bytes().to_vec())
}

fn mapping(pairs: Vec<(&str, Tree)>) -> Tree {
    Tree::Mapping(pairs.into_iter().map(|(k, v)| (k.as_bytes().to_vec(), v)).collect())
}

/// An in-memory store that records what it was asked.
struct MemStore {
    data: RefCell<Vec<(Vec<u8>, Tree)>>,
    gets: RefCell<Vec<Vec<u8>>>,
}

impl MemStore {
    fn new() -> Self {
        MemStore { data: RefCell::new(Vec::new()), gets: RefCell::new(Vec::new()) }
    }

    fn with(key: &str, value: Tree) -> Self {
        let s = MemStore::new();
        s.data.borrow_mut().push((key.as_bytes().to_vec(), value));
        s
    }

    fn lookup(&self, key: &str) -> Option<Tree> {
        self.data.borrow().iter().find(|(k, _)| k.as_slice() == key.as_bytes()).map(|(_, v)| v.clone())
    }
}

impl Store for MemStore {
    fn get(&self, key: &[u8], _args: &Args) -> Option<Tree> {
        self.gets.borrow_mut().push(key.to_vec());
        self.data.borrow().iter().find(|(k, _)| k.as_slice() == key).map(|(_, v)| v.clone())
    }

    fn set(&self, key: &[u8], args: &Args) -> Option<SetOutcome> {
        let value = args.get("value")?.clone();
        let mut data = self.data.borrow_mut();
        if let Some(entry) = data.iter_mut().find(|(k, _)| k.as_slice() == key) {
            entry.1 = value;
            Some(SetOutcome::Updated)
        } else {
            data.push((key.to_vec(), value));
            Some(SetOutcome::Created(data.len()))
        }
    }

    fn delete(&self, key: &[u8], _args: &Args) -> bool {
        let mut data = self.data.borrow_mut();
        let before = data.len();
        data.retain(|(k, _)| k.as_slice() != key);
        data.len() != before
    }
}

/// Store id `n` is the `n`-th store, counting from 1.
struct Registry {
    stores: Vec<MemStore>,
}

impl Stores for Registry {
    fn store_for(&self, id: u8) -> Option<&dyn Store> {
        if id == 0 {
            return None;
        }
        self.stores.get(id as usize - 1).map(|s| s as &dyn Store)
    }
}

fn index_of(tree: &Tree, store_ids: &[&str]) -> Arc<Index> {
    let (p, c, l, v, w, mk, mv, ak, av) = Dsl::compile(tree, store_ids).unwrap();
    Arc::new(Index::new(p, c, l, v, w, mk, mv, ak, av))
}

#[test]
fn context_get_static_value() {
    let registry = Registry { stores: vec![] };
    let index = index_of(&mapping(vec![("greeting", scalar("hello"))]), &[]);
    let mut ctx = RequestContext::new(index, &registry);
    assert_eq!(ctx.get("greeting"), Ok(Some(scalar("hello"))));
}

#[test]
fn context_get_unknown_key_is_key_not_found() {
    let registry = Registry { stores: vec![] };
    let index = index_of(&mapping(vec![("greeting", scalar("hello"))]), &[]);
    let mut ctx = RequestContext::new(index, &registry);
    assert_eq!(ctx.get("nope"), Err(ContextError::KeyNotFound("nope".to_string())));
    assert_eq!(ctx.set("nope", Tree::Null), Err(ContextError::KeyNotFound("nope".to_string())));
    assert_eq!(ctx.delete("nope"), Err(ContextError::KeyNotFound("nope".to_string())));
    assert_eq!(ctx.contains("nope"), Err(ContextError::KeyNotFound("nope".to_string())));
}

#[test]
fn context_get_placeholder_copies_other_value() {
    let registry = Registry { stores: vec![] };
    let index = index_of(&mapping(vec![("a", scalar("x")), ("b", scalar("${a}"))]), &[]);
    let mut ctx = RequestContext::new(index, &registry);
    assert_eq!(ctx.get("b"), Ok(Some(scalar("x"))));
}

#[test]
fn context_get_template_concatenates() {
    let registry = Registry { stores: vec![] };
    let index = index_of(&mapping(vec![("a", scalar("x")), ("b", scalar("pre-${a}-post"))]), &[]);
    let mut ctx = RequestContext::new(index, &registry);
    assert_eq!(ctx.get("b"), Ok(Some(scalar("pre-x-post"))));
}

#[test]
fn context_get_cycle_is_recursion_limit() {
    let registry = Registry { stores: vec![] };
    let index = index_of(&mapping(vec![("a", scalar("${b}")), ("b", scalar("${a}"))]), &[]);
    let mut ctx = RequestContext::new(index, &registry);
    assert_eq!(ctx.get("a"), Err(ContextError::RecursionLimitExceeded));
}

#[test]
fn context_get_missing_placeholder_target_is_load_not_found() {
    let registry = Registry { stores: vec![] };
    let index = index_of(&mapping(vec![("a", Tree::Null), ("b", scalar("${a}"))]), &[]);
    let mut ctx = RequestContext::new(index, &registry);
    assert_eq!(ctx.get("b"), Err(ContextError::LoadFailed(LoadError::NotFound("a".to_string()))));
}

#[test]
fn context_get_leaf_without_value_or_store_is_none() {
    let registry = Registry { stores: vec![] };
    let index = index_of(&mapping(vec![("a", Tree::Null)]), &[]);
    let mut ctx = RequestContext::new(index, &registry);
    assert_eq!(ctx.get("a"), Ok(None));
}

#[test]
fn context_get_loads_through_get_store() {
    let registry = Registry { stores: vec![MemStore::with("user:1", scalar("alice"))] };
    let tree = mapping(vec![(
        "user",
        mapping(vec![
            ("_get", mapping(vec![("store", scalar("Memory")), ("key", scalar("user:1"))])),
            ("name", Tree::Null),
        ]),
    )]);
    let index = index_of(&tree, &["Memory"]);
    let mut ctx = RequestContext::new(index, &registry);
    assert_eq!(ctx.get("user.name"), Ok(Some(scalar("alice"))));
    // a second read is answered from the cache
    assert_eq!(ctx.get("user.name"), Ok(Some(scalar("alice"))));
    assert_eq!(registry.stores[0].gets.borrow().len(), 1);
}

#[test]
fn context_get_store_key_with_placeholder() {
    let registry = Registry { stores: vec![MemStore::with("user:7", scalar("bob"))] };
    let tree = mapping(vec![
        ("id", scalar("7")),
        (
            "user",
            mapping(vec![
                ("_get", mapping(vec![("store", scalar("Memory")), ("key", scalar("user:${id}"))])),
                ("name", Tree::Null),
            ]),
        ),
    ]);
    let index = index_of(&tree, &["Memory"]);
    let mut ctx = RequestContext::new(index, &registry);
    assert_eq!(ctx.get("user.name"), Ok(Some(scalar("bob"))));
    assert_eq!(registry.stores[0].gets.borrow()[0], b"user:7".to_vec());
}

#[test]
fn context_get_store_miss_is_load_not_found() {
    let registry = Registry { stores: vec![MemStore::new()] };
    let tree = mapping(vec![(
        "user",
        mapping(vec![
            ("_get", mapping(vec![("store", scalar("Memory")), ("key", scalar("user:1"))])),
            ("name", Tree::Null),
        ]),
    )]);
    let index = index_of(&tree, &["Memory"]);
    let mut ctx = RequestContext::new(index, &registry);
    assert_eq!(ctx.get("user.name"), Err(ContextError::LoadFailed(LoadError::NotFound("user:1".to_string()))));
}

#[test]
fn context_get_unregistered_store_is_load_client_not_found() {
    let registry = Registry { stores: vec![] };
    let tree = mapping(vec![(
        "user",
        mapping(vec![("_get", mapping(vec![("store", scalar("Memory"))])), ("name", Tree::Null)]),
    )]);
    let index = index_of(&tree, &["Memory"]);
    let mut ctx = RequestContext::new(index, &registry);
    assert_eq!(
        ctx.get("user.name"),
        Err(ContextError::LoadFailed(LoadError::ClientNotFound("1".to_string())))
    );
}

#[test]
fn context_get_intermediate_collects_mapping() {
    let registry = Registry { stores: vec![] };
    let tree = mapping(vec![("db", mapping(vec![("host", scalar("h")), ("port", scalar("5432")), ("none", Tree::Null)]))]);
    let index = index_of(&tree, &[]);
    let mut ctx = RequestContext::new(index, &registry);
    assert_eq!(
        ctx.get("db"),
        Ok(Some(Tree::Mapping(vec![(b"host".to_vec(), scalar("h")), (b"port".to_vec(), scalar("5432"))])))
    );
}

fn session_tree() -> Tree {
    mapping(vec![(
        "session",
        mapping(vec![
            ("_set", mapping(vec![("store", scalar("Memory")), ("key", scalar("s:1"))])),
            ("id", Tree::Null),
        ]),
    )])
}

#[test]
fn context_set_then_get_reads_back() {
    let registry = Registry { stores: vec![MemStore::new()] };
    let index = index_of(&session_tree(), &["Memory"]);
    let mut ctx = RequestContext::new(index, &registry);
    assert_eq!(ctx.set("session.id", scalar("42")), Ok(true));
    assert_eq!(registry.stores[0].lookup("s:1"), Some(scalar("42")));
    assert_eq!(ctx.get("session.id"), Ok(Some(scalar("42"))));
    assert_eq!(ctx.contains("session.id"), Ok(true));
}

#[test]
fn context_set_get_from_store_in_fresh_context() {
    let registry = Registry { stores: vec![MemStore::with("s:1", scalar("9"))] };
    let index = index_of(&session_tree(), &["Memory"]);
    let mut ctx = RequestContext::new(index, &registry);
    assert_eq!(ctx.contains("session.id"), Ok(true));
    assert_eq!(ctx.get("session.id"), Ok(Some(scalar("9"))));
}

#[test]
fn context_delete_removes_value() {
    let registry = Registry { stores: vec![MemStore::new()] };
    let index = index_of(&session_tree(), &["Memory"]);
    let mut ctx = RequestContext::new(index, &registry);
    assert_eq!(ctx.set("session.id", scalar("42")), Ok(true));
    assert_eq!(ctx.delete("session.id"), Ok(true));
    assert_eq!(registry.stores[0].lookup("s:1"), None);
    assert_eq!(ctx.contains("session.id"), Ok(false));
    assert_eq!(ctx.delete("session.id"), Ok(false));
}

#[test]
fn context_set_without_set_block_is_false() {
    let registry = Registry { stores: vec![] };
    let index = index_of(&mapping(vec![("a", Tree::Null)]), &[]);
    let mut ctx = RequestContext::new(index, &registry);
    assert_eq!(ctx.set("a", scalar("1")), Ok(false));
    assert_eq!(ctx.get("a"), Ok(None));
    assert_eq!(
        ctx.delete("a"),
        Err(ContextError::StoreFailed(StoreError::ClientNotFound("0".to_string())))
    );
    assert_eq!(ctx.contains("a"), Ok(false));
}

#[test]
fn context_get_writes_through_to_set_store() {
    let registry = Registry { stores: vec![MemStore::with("user:1", scalar("alice")), MemStore::new()] };
    let tree = mapping(vec![(
        "user",
        mapping(vec![
            ("_get", mapping(vec![("store", scalar("Db")), ("key", scalar("user:1"))])),
            ("_set", mapping(vec![("store", scalar("Cache")), ("key", scalar("c:user"))])),
            ("name", Tree::Null),
        ]),
    )]);
    let index = index_of(&tree, &["Db", "Cache"]);
    let mut ctx = RequestContext::new(index, &registry);
    assert_eq!(ctx.get("user.name"), Ok(Some(scalar("alice"))));
    assert_eq!(registry.stores[1].lookup("c:user"), Some(scalar("alice")));
}

#[test]
fn context_set_unregistered_store_is_store_client_not_found() {
    let registry = Registry { stores: vec![] };
    let index = index_of(&session_tree(), &["Memory"]);
    let mut ctx = RequestContext::new(index, &registry);
    assert_eq!(
        ctx.set("session.id", scalar("1")),
        Err(ContextError::StoreFailed(StoreError::ClientNotFound("1".to_string())))
    );
}

#[test]
fn context_set_without_key_uses_path_id() {
    let registry = Registry { stores: vec![MemStore::new()] };
    let tree = mapping(vec![(
        "session",
        mapping(vec![("_set", mapping(vec![("store", scalar("Memory"))])), ("id", Tree::Null)]),
    )]);
    let index = index_of(&tree, &["Memory"]);
    let mut ctx = RequestContext::new(index, &registry);
    assert_eq!(ctx.set("session.id", scalar("5")), Ok(true));
    // root 0, session 1, id 2
    assert_eq!(registry.stores[0].lookup("2"), Some(scalar("5")));
}

#[test]
fn context_get_map_expands_into_sibling_leaves() {
    let registry = Registry {
        stores: vec![MemStore::with(
            "users.id.1",
            mapping(vec![("name", scalar("alice")), ("email", scalar("alice@example.com")), ("hash", scalar("h"))]),
        )],
    };
    let tree = mapping(vec![(
        "user",
        mapping(vec![
            (
                "_get",
                mapping(vec![
                    ("store", scalar("Db")),
                    ("key", scalar("users.id.1")),
                    ("map", mapping(vec![("name", scalar("name")), ("email", scalar("email"))])),
                ]),
            ),
            ("name", Tree::Null),
            ("email", Tree::Null),
        ]),
    )]);
    let index = index_of(&tree, &["Db"]);
    let mut ctx = RequestContext::new(index, &registry);
    assert_eq!(ctx.get("user.name"), Ok(Some(scalar("alice"))));
    assert_eq!(ctx.get("user.email"), Ok(Some(scalar("alice@example.com"))));
    assert_eq!(registry.stores[0].gets.borrow().len(), 1);
}

#[test]
fn context_lone_placeholder_copies_mapping_unchanged() {
    let registry = Registry { stores: vec![] };
    let tree = mapping(vec![
        ("grp", mapping(vec![("x", scalar("1")), ("y", scalar("2"))])),
        ("copy", scalar("${grp}")),
    ]);
    let index = index_of(&tree, &[]);
    let mut ctx = RequestContext::new(index, &registry);
    assert_eq!(
        ctx.get("copy"),
        Ok(Some(Tree::Mapping(vec![(b"x".to_vec(), scalar("1")), (b"y".to_vec(), scalar("2"))])))
    );
}

#[test]
fn context_get_same_path_twice_does_not_recurse() {
    let registry = Registry { stores: vec![MemStore::with("k", scalar("1"))] };
    let tree = mapping(vec![(
        "id",
        mapping(vec![("_get", mapping(vec![("store", scalar("Memory")), ("key", scalar("k"))]))]),
    )]);
    let index = index_of(&tree, &["Memory"]);
    let mut ctx = RequestContext::new(index, &registry);
    assert_eq!(ctx.get("id"), Ok(Some(scalar("1"))));
    assert_eq!(ctx.get("id"), Ok(Some(scalar("1"))));
}

#[test]
fn context_failed_intermediate_get_leaves_nothing_under_way() {
    let registry = Registry { stores: vec![] };
    let tree = mapping(vec![
        ("a", mapping(vec![("b", scalar("${missing}")), ("c", scalar("x"))])),
        ("missing", Tree::Null),
    ]);
    let index = index_of(&tree, &[]);
    let mut ctx = RequestContext::new(index, &registry);
    assert!(matches!(ctx.get("a"), Err(ContextError::LoadFailed(_))));
    assert_eq!(ctx.get("a.c"), Ok(Some(scalar("x"))));
    assert!(matches!(ctx.get("a.b"), Err(ContextError::LoadFailed(_))));
}

fn read_through_tree() -> Tree {
    mapping(vec![(
        "x",
        mapping(vec![
            ("_get", mapping(vec![("store", scalar("Db")), ("key", scalar("d:x"))])),
            ("_set", mapping(vec![("store", scalar("Cache")), ("key", scalar("c:x"))])),
            ("v", scalar("static")),
            ("w", Tree::Null),
        ]),
    )])
}

#[test]
fn context_set_store_answer_wins_and_get_store_is_not_asked() {
    let registry = Registry { stores: vec![MemStore::with("d:x", scalar("loaded")), MemStore::with("c:x", scalar("cached"))] };
    let index = index_of(&read_through_tree(), &["Db", "Cache"]);
    let mut ctx = RequestContext::new(index, &registry);
    assert_eq!(ctx.get("x.v"), Ok(Some(scalar("cached"))));
    assert_eq!(registry.stores[1].gets.borrow().clone(), vec![b"c:x".to_vec()]);
    assert!(registry.stores[0].gets.borrow().is_empty());
}

#[test]
fn context_cached_read_asks_no_store() {
    let registry = Registry { stores: vec![MemStore::new(), MemStore::with("c:x", scalar("cached"))] };
    let index = index_of(&read_through_tree(), &["Db", "Cache"]);
    let mut ctx = RequestContext::new(index, &registry);
    assert_eq!(ctx.get("x.v"), Ok(Some(scalar("cached"))));
    registry.stores[1].data.borrow_mut().clear();
    assert_eq!(ctx.get("x.v"), Ok(Some(scalar("cached"))));
    assert_eq!(registry.stores[1].gets.borrow().len(), 1);
    assert!(registry.stores[0].gets.borrow().is_empty());
}

#[test]
fn context_set_store_miss_falls_back_to_dsl_value() {
    let registry = Registry { stores: vec![MemStore::with("d:x", scalar("loaded")), MemStore::new()] };
    let index = index_of(&read_through_tree(), &["Db", "Cache"]);
    let mut ctx = RequestContext::new(index, &registry);
    assert_eq!(ctx.get("x.v"), Ok(Some(scalar("static"))));
    assert!(registry.stores[0].gets.borrow().is_empty());
}

#[test]
fn context_contains_never_loads_through_get_store() {
    let registry = Registry { stores: vec![MemStore::with("d:x", scalar("loaded")), MemStore::new()] };
    let index = index_of(&read_through_tree(), &["Db", "Cache"]);
    let mut ctx = RequestContext::new(index, &registry);
    assert_eq!(ctx.contains("x.w"), Ok(false));
    assert!(registry.stores[0].gets.borrow().is_empty());
    assert_eq!(ctx.get("x.w"), Ok(Some(scalar("loaded"))));
    assert_eq!(registry.stores[1].lookup("c:x"), Some(scalar("loaded")));
    assert_eq!(ctx.contains("x.w"), Ok(true));
}
