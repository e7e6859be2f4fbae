//! Types that the engine provides to its users: the value tree and the error kinds.
use vstd::prelude::*;

verus! {

/// The value type used throughout the engine's public API.
#[derive(Debug, PartialEq)]
pub enum Tree {
    Scalar(Vec<u8>),
    Sequence(Vec<Tree>),
    Mapping(Vec<(Vec<u8>, Tree)>),
    Null,
}

/// Mathematical model of a [`Tree`]: the same shape over sequences.
pub enum TreeView {
    Scalar(Seq<u8>),
    Sequence(Seq<TreeView>),
    Mapping(Seq<(Seq<u8>, TreeView)>),
    Null,
}

impl View for Tree {
    type V = TreeView;

    open spec fn view(&self) -> TreeView
        decreases self,
    {
        match self {
            Tree::Scalar(b) => TreeView::Scalar(b@),
            Tree::Sequence(items) => TreeView::Sequence(
                Seq::new(items@.len(), |i: int| if 0 <= i < items@.len() { items@[i].view() } else { TreeView::Null }),
            ),
            Tree::Mapping(pairs) => TreeView::Mapping(
                Seq::new(pairs@.len(), |i: int| (pairs@[i].0@, if 0 <= i < pairs@.len() { pairs@[i].1.view() } else { TreeView::Null })),
            ),
            Tree::Null => TreeView::Null,
        }
    }
}

/// Deep copy of a tree; the copy has the same model.
#[verifier::loop_isolation(false)]
#[verifier::spinoff_prover]
pub fn copy_tree(t: &Tree) -> (r: Tree)
    ensures
        r@ == t@,
    decreases t,
{
    match t {
        Tree::Scalar(b) => {
            let mut out: Vec<u8> = Vec::new();
            let mut i: usize = 0;
            while i < b.len()
                invariant
                    i <= b@.len(),
                    out@ == b@.subrange(0, i as int),
                decreases b@.len() - i,
            {
                out.push(b[i]);
                i = i + 1;
            }
            assert(out@ =~= b@);
            Tree::Scalar(out)
        },
        Tree::Sequence(items) => {
            assert(t@->Sequence_0.len() == items@.len());
            let mut out: Vec<Tree> = Vec::new();
            let mut i: usize = 0;
            while i < items.len()
                invariant
                    i <= items@.len(),
                    out@.len() == i,
                    forall|j: int| 0 <= j < i ==> #[trigger] out@[j]@ == items@[j]@,
                decreases items@.len() - i,
            {
                proof {
                    vstd::std_specs::vec::axiom_vec_index_decreases(*items, i as int);
                    assert(decreases_to!(*t => items@[i as int]));
                }
                let c = copy_tree(&items[i]);
                out.push(c);
                i = i + 1;
            }
            let r = Tree::Sequence(out);
            assert(r@ == t@) by {
                let a = r@->Sequence_0;
                let b = t@->Sequence_0;
                assert(a.len() == b.len());
                assert forall|j: int| 0 <= j < a.len() implies a[j] == b[j] by {
                    assert(a[j] == out@[j]@);
                    assert(b[j] == items@[j]@);
                }
                assert(a =~= b);
            }
            r
        },
        Tree::Mapping(pairs) => {
            assert(t@->Mapping_0.len() == pairs@.len());
            let mut out: Vec<(Vec<u8>, Tree)> = Vec::new();
            let mut i: usize = 0;
            while i < pairs.len()
                invariant
                    i <= pairs@.len(),
                    out@.len() == i,
                    forall|j: int| 0 <= j < i ==> #[trigger] out@[j].0@ == pairs@[j].0@ && out@[j].1@ == pairs@[j].1@,
                decreases pairs@.len() - i,
            {
                let k = copy_bytes(&pairs[i].0);
                proof {
                    vstd::std_specs::vec::axiom_vec_index_decreases(*pairs, i as int);
                    assert(decreases_to!(*t => pairs@[i as int]));
                    assert(decreases_to!(*t => pairs@[i as int].1));
                }
                let v = copy_tree(&pairs[i].1);
                let ghost before = out@;
                out.push((k, v));
                proof {
                    assert forall|j: int| 0 <= j < i + 1 implies #[trigger] out@[j].0@ == pairs@[j].0@
                        && out@[j].1@ == pairs@[j].1@ by {
                        if j < i {
                            assert(out@[j] == before[j]);
                        }
                    }
                }
                i = i + 1;
            }
            let r = Tree::Mapping(out);
            assert(r@ == t@) by {
                let a = r@->Mapping_0;
                let b = t@->Mapping_0;
                assert(*t == Tree::Mapping(*pairs));
                assert(t@ is Mapping);
                assert(b.len() == pairs@.len());
                assert(a.len() == b.len());
                assert forall|j: int| 0 <= j < a.len() implies a[j] == b[j] by {
                    assert(a[j] == (out@[j].0@, out@[j].1@));
                    assert(b[j] == (pairs@[j].0@, pairs@[j].1@));
                }
                assert(a =~= b);
            }
            r
        },
        Tree::Null => Tree::Null,
    }
}

/// Copy of a byte vector.
pub fn copy_bytes(b: &Vec<u8>) -> (r: Vec<u8>)
    ensures
        r@ == b@,
{
    let mut out: Vec<u8> = Vec::new();
    let mut i: usize = 0;
    while i < b.len()
        invariant
            i <= b@.len(),
            out@ == b@.subrange(0, i as int),
        decreases b@.len() - i,
    {
        out.push(b[i]);
        i = i + 1;
    }
    assert(out@ =~= b@);
    out
}

impl Clone for Tree {
    fn clone(&self) -> (r: Self)
        ensures
            r@ == self@,
    {
        copy_tree(self)
    }
}

// ── errors ───────────────────────────────────────────────────────────────────

/// Errors of compiling a DSL tree.
#[derive(Debug, PartialEq)]
pub enum DslError {
    FileNotFound(String),
    AmbiguousFile(String),
    ParseError(String),
    /// A compile-time limit was exceeded (path id, word id, store id or data size).
    LimitExceeded(String),
}

/// `prefix` followed by `msg`.
pub(crate) fn labelled(prefix: &str, msg: &str) -> (r: String)
    ensures
        r@ == prefix@ + msg@,
{
    let mut r = String::from_str(prefix);
    r.append(msg);
    r
}

impl DslError {
    /// The error as text: its kind, a colon and its message.
    pub fn message(&self) -> (r: String)
        ensures
            r@ == match self {
                DslError::FileNotFound(m) => "FileNotFound: "@ + m@,
                DslError::AmbiguousFile(m) => "AmbiguousFile: "@ + m@,
                DslError::ParseError(m) => "ParseError: "@ + m@,
                DslError::LimitExceeded(m) => "LimitExceeded: "@ + m@,
            },
    {
        match self {
            DslError::FileNotFound(m) => labelled("FileNotFound: ", m.as_str()),
            DslError::AmbiguousFile(m) => labelled("AmbiguousFile: ", m.as_str()),
            DslError::ParseError(m) => labelled("ParseError: ", m.as_str()),
            DslError::LimitExceeded(m) => labelled("LimitExceeded: ", m.as_str()),
        }
    }
}

/// Errors of loading a value through `_get`.
#[derive(Debug, PartialEq)]
pub enum LoadError {
    /// No store is registered under the leaf's store id.
    ClientNotFound(String),
    /// A required config key is missing.
    ConfigMissing(String),
    /// The store call succeeded but returned no data.
    NotFound(String),
    /// The store's response could not be parsed.
    ParseError(String),
}

impl LoadError {
    /// The error as text: its kind, a colon and its message.
    pub fn message(&self) -> (r: String)
        ensures
            r@ == match self {
                LoadError::ClientNotFound(m) => "ClientNotFound: "@ + m@,
                LoadError::ConfigMissing(m) => "ConfigMissing: "@ + m@,
                LoadError::NotFound(m) => "NotFound: "@ + m@,
                LoadError::ParseError(m) => "ParseError: "@ + m@,
            },
    {
        match self {
            LoadError::ClientNotFound(m) => labelled("ClientNotFound: ", m.as_str()),
            LoadError::ConfigMissing(m) => labelled("ConfigMissing: ", m.as_str()),
            LoadError::NotFound(m) => labelled("NotFound: ", m.as_str()),
            LoadError::ParseError(m) => labelled("ParseError: ", m.as_str()),
        }
    }
}

/// Errors of storing a value through `_set`.
#[derive(Debug, PartialEq)]
pub enum StoreError {
    /// No store is registered under the leaf's store id.
    ClientNotFound(String),
    /// A required config key is missing.
    ConfigMissing(String),
    /// The value could not be serialized.
    SerializeError(String),
}

impl StoreError {
    /// The error as text: its kind, a colon and its message.
    pub fn message(&self) -> (r: String)
        ensures
            r@ == match self {
                StoreError::ClientNotFound(m) => "ClientNotFound: "@ + m@,
                StoreError::ConfigMissing(m) => "ConfigMissing: "@ + m@,
                StoreError::SerializeError(m) => "SerializeError: "@ + m@,
            },
    {
        match self {
            StoreError::ClientNotFound(m) => labelled("ClientNotFound: ", m.as_str()),
            StoreError::ConfigMissing(m) => labelled("ConfigMissing: ", m.as_str()),
            StoreError::SerializeError(m) => labelled("SerializeError: ", m.as_str()),
        }
    }
}

/// Errors of the context operations.
#[derive(Debug, PartialEq)]
pub enum ContextError {
    ParseFailed(String),
    KeyNotFound(String),
    RecursionLimitExceeded,
    StoreFailed(StoreError),
    LoadFailed(LoadError),
}

impl ContextError {
    /// The error as text: its kind, a colon and its message (the inner error's text
    /// for a store or load failure).
    pub fn message(&self) -> (r: String)
        ensures
            r@ == match self {
                ContextError::ParseFailed(m) => "ParseFailed: "@ + m@,
                ContextError::KeyNotFound(m) => "KeyNotFound: "@ + m@,
                ContextError::RecursionLimitExceeded => "RecursionLimitExceeded"@,
                ContextError::StoreFailed(e) => "StoreFailed: "@ + e.message_text(),
                ContextError::LoadFailed(e) => "LoadFailed: "@ + e.message_text(),
            },
    {
        match self {
            ContextError::ParseFailed(m) => labelled("ParseFailed: ", m.as_str()),
            ContextError::KeyNotFound(m) => labelled("KeyNotFound: ", m.as_str()),
            ContextError::RecursionLimitExceeded => String::from_str("RecursionLimitExceeded"),
            ContextError::StoreFailed(e) => {
                let inner = e.message();
                labelled("StoreFailed: ", inner.as_str())
            },
            ContextError::LoadFailed(e) => {
                let inner = e.message();
                labelled("LoadFailed: ", inner.as_str())
            },
        }
    }
}

impl StoreError {
    /// What [`StoreError::message`] gives.
    pub open spec fn message_text(&self) -> Seq<char> {
        match self {
            StoreError::ClientNotFound(m) => "ClientNotFound: "@ + m@,
            StoreError::ConfigMissing(m) => "ConfigMissing: "@ + m@,
            StoreError::SerializeError(m) => "SerializeError: "@ + m@,
        }
    }
}

impl LoadError {
    /// What [`LoadError::message`] gives.
    pub open spec fn message_text(&self) -> Seq<char> {
        match self {
            LoadError::ClientNotFound(m) => "ClientNotFound: "@ + m@,
            LoadError::ConfigMissing(m) => "ConfigMissing: "@ + m@,
            LoadError::NotFound(m) => "NotFound: "@ + m@,
            LoadError::ParseError(m) => "ParseError: "@ + m@,
        }
    }
}

/// Request-scoped access to the values a DSL defines.
pub trait Context {
    /// The state the operations rely on and keep.
    spec fn valid(&self) -> bool;

    /// The value: from the instance cache, else the `_set` store, else the value
    /// defined in the DSL, else the `_get` store.
    fn get(&mut self, key: &str) -> (r: Result<Option<Tree>, ContextError>)
        requires
            old(self).valid(),
        ensures
            final(self).valid(),
    ;

    /// Writes the value to the `_set` store; `Ok(false)` when the store did not take it.
    fn set(&mut self, key: &str, value: Tree) -> (r: Result<bool, ContextError>)
        requires
            old(self).valid(),
        ensures
            final(self).valid(),
    ;

    /// Removes the value from the `_set` store.
    fn delete(&mut self, key: &str) -> (r: Result<bool, ContextError>)
        requires
            old(self).valid(),
        ensures
            final(self).valid(),
    ;

    /// Whether the value is in the cache or the `_set` store; does not load through `_get`.
    fn contains(&mut self, key: &str) -> (r: Result<bool, ContextError>)
        requires
            old(self).valid(),
        ensures
            final(self).valid(),
    ;
}

} // verus!
