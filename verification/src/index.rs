//! Read side of a compiled DSL: path lookup, leaf collection and the meta
//! (`_get` / `_set`) data of each leaf.
use vstd::prelude::*;
use crate::layout::{
    VlView, path_is_leaf, path_keyword_id, path_child_id, path_value_id, frag_is_placeholder,
    frag_word_id, PATH_IS_LEAF_MASK, PATH_KEYWORD_ID_MASK, PATH_KEYWORD_ID_SHIFT, PATH_CHILD_ID_MASK,
    PATH_CHILD_ID_SHIFT, PATH_VALUE_ID_MASK, VALUE_IS_PLACEHOLDER_MASK, VALUE_WORD_ID_MASK, LEAF_WIDTH,
    LEAF_GET_STORE_ID, LEAF_GET_KEY_ID, LEAF_SET_STORE_ID, LEAF_SET_KEY_ID, LEAF_GET_MAP_KEY_ID,
    LEAF_GET_MAP_VAL_ID, LEAF_GET_ARGS_KEY_ID, LEAF_GET_ARGS_VAL_ID, LEAF_SET_MAP_KEY_ID,
    LEAF_SET_MAP_VAL_ID, LEAF_SET_ARGS_KEY_ID, LEAF_SET_ARGS_VAL_ID, path_parent_id, PATH_PARENT_ID_MASK,
    PATH_PARENT_ID_SHIFT,
};
use crate::list::{List, VariableList};
use crate::provided::{Tree, TreeView};
use vstd::utf8::encode_utf8;
use crate::args::{Args, args_insert};
use crate::text::{utf8_str, text_or_empty, bytes_eq, str_bytes};

verus! {

// ── LeafRef ──────────────────────────────────────────────────────────────────

/// A leaf reached by a traversal: its path, its leaf data and its value.
#[derive(Clone, Copy, Debug)]
pub struct LeafRef {
    pub path_id: u16,
    pub leaf_id: u16,
    pub value_id: u16,
}

// ── model ────────────────────────────────────────────────────────────────────

/// Mathematical model of an [`Index`].
pub struct IndexView {
    pub paths: Seq<u64>,
    pub children: VlView<u16>,
    pub leaves: VlView<u16>,
    pub values: VlView<u16>,
    pub words: VlView<u8>,
    pub map_keys: VlView<u16>,
    pub map_vals: VlView<u16>,
    pub args_keys: VlView<u16>,
    pub args_vals: VlView<u16>,
}

/// Model of a variable list.
pub open spec fn vl_view<T>(vl: VariableList<T>) -> VlView<T> {
    VlView { ids: vl.identity@, data: vl.data@ }
}

/// Position of the first `.` in `s`, or -1.
pub open spec fn dot_pos(s: Seq<u8>) -> int
    decreases s.len(),
{
    if s.len() == 0 {
        -1
    } else if s[0] == 0x2eu8 {
        0
    } else {
        let p = dot_pos(s.subrange(1, s.len() as int));
        if p < 0 {
            -1
        } else {
            p + 1
        }
    }
}

/// The `.`-separated segments of a path, as `str::split('.')` gives them.
pub open spec fn split_dots(s: Seq<u8>) -> Seq<Seq<u8>>
    decreases s.len(),
{
    let d = dot_pos(s);
    if d < 0 || d >= s.len() {
        seq![s]
    } else {
        seq![s.subrange(0, d)] + split_dots(s.subrange(d + 1, s.len() as int))
    }
}

proof fn lemma_dot_pos(s: Seq<u8>)
    ensures
        -1 <= dot_pos(s) < s.len(),
        dot_pos(s) >= 0 ==> s[dot_pos(s)] == 0x2eu8,
        forall|i: int| 0 <= i < dot_pos(s) ==> s[i] != 0x2eu8,
        dot_pos(s) < 0 ==> forall|i: int| 0 <= i < s.len() ==> s[i] != 0x2eu8,
    decreases s.len(),
{
    if s.len() > 0 && s[0] != 0x2eu8 {
        let rest = s.subrange(1, s.len() as int);
        lemma_dot_pos(rest);
        assert forall|i: int| 0 < i < s.len() implies s[i] == rest[i - 1] by {}
    }
}

/// Text of fragments that are expected to be static: each word's text, in order.
pub open spec fn static_text(ix: IndexView, frags: Seq<u16>) -> Seq<char>
    decreases frags.len(),
{
    if frags.len() == 0 {
        Seq::empty()
    } else {
        static_text(ix, frags.drop_last()) + text_or_empty(ix.word(frag_word_id(frags.last()) as int))
    }
}

impl IndexView {
    /// Bytes of word `id` (empty when the id is unknown).
    pub open spec fn word(self, id: int) -> Seq<u8> {
        match self.words.entry(id) {
            Some(w) => w,
            None => Seq::empty(),
        }
    }

    /// Keyword bytes of path `p`.
    pub open spec fn keyword(self, p: int) -> Seq<u8> {
        self.word(path_keyword_id(self.paths[p]) as int)
    }

    /// Child path ids of an inner path.
    pub open spec fn kids(self, p: int) -> Option<Seq<u16>> {
        let e = self.paths[p];
        if path_is_leaf(e) || path_child_id(e) == 0 {
            None
        } else {
            self.children.entry(path_child_id(e) as int)
        }
    }

    /// The children of path `p` come after it and are paths.
    pub open spec fn kids_ok(self, p: int) -> bool {
        match self.kids(p) {
            Some(ks) => forall|k: int| 0 <= k < ks.len() ==> p < #[trigger] ks[k] < self.paths.len(),
            None => true,
        }
    }

    /// Well-formed: a root exists, path ids fit 16 bits, and children come after their parent.
    pub open spec fn wf(self) -> bool {
        &&& 1 <= self.paths.len() <= 0x10000
        &&& forall|p: int| 0 <= p < self.paths.len() ==> #[trigger] self.kids_ok(p)
    }

    /// The first of `ks` whose keyword is `kw`.
    pub open spec fn child_named(self, ks: Seq<u16>, kw: Seq<u8>) -> Option<u16>
        decreases ks.len(),
    {
        if ks.len() == 0 {
            None
        } else if self.keyword(ks[0] as int) == kw {
            Some(ks[0])
        } else {
            self.child_named(ks.subrange(1, ks.len() as int), kw)
        }
    }

    /// The child of `p` whose keyword is `kw`.
    pub open spec fn find_child(self, p: int, kw: Seq<u8>) -> Option<u16> {
        match self.kids(p) {
            Some(ks) => self.child_named(ks, kw),
            None => None,
        }
    }

    /// The path next to `p` (a child of its parent) whose keyword is `kw`.
    pub open spec fn sibling(self, p: int, kw: Seq<u8>) -> Option<u16> {
        let parent = path_parent_id(self.paths[p]);
        if parent < self.paths.len() {
            self.find_child(parent as int, kw)
        } else {
            None
        }
    }

    /// The path reached from `p` by following `segs`.
    pub open spec fn find_from(self, p: int, segs: Seq<Seq<u8>>) -> Option<u16>
        decreases segs.len(),
    {
        if segs.len() == 0 {
            Some(p as u16)
        } else {
            match self.find_child(p, segs[0]) {
                Some(c) => self.find_from(c as int, segs.subrange(1, segs.len() as int)),
                None => None,
            }
        }
    }

    /// The leaf reference of path `p`.
    pub open spec fn leaf_ref(self, p: int) -> LeafRef {
        LeafRef {
            path_id: p as u16,
            leaf_id: path_child_id(self.paths[p]) as u16,
            value_id: path_value_id(self.paths[p]) as u16,
        }
    }

    /// All leaves under path `p`, depth first, children in order.
    pub open spec fn collect(self, p: int) -> Seq<LeafRef>
        decreases self.paths.len() - p + 1, 0int,
    {
        if p < 0 || p >= self.paths.len() {
            Seq::empty()
        } else if path_is_leaf(self.paths[p]) {
            seq![self.leaf_ref(p)]
        } else {
            match self.kids(p) {
                Some(ks) => self.collect_list(ks, p),
                None => Seq::empty(),
            }
        }
    }

    /// Leaves under each of `ks` (children of `p`), concatenated.
    pub open spec fn collect_list(self, ks: Seq<u16>, p: int) -> Seq<LeafRef>
        decreases self.paths.len() - p, ks.len(),
    {
        if ks.len() == 0 {
            Seq::empty()
        } else if p < ks[0] < self.paths.len() {
            self.collect(ks[0] as int) + self.collect_list(ks.subrange(1, ks.len() as int), p)
        } else {
            self.collect_list(ks.subrange(1, ks.len() as int), p)
        }
    }

    /// What a traversal of `path` gives: the leaves under the path it names, or none.
    pub open spec fn traverse(self, path: Seq<u8>) -> Seq<LeafRef> {
        match self.find_from(0, split_dots(path)) {
            Some(p) => self.collect(p as int),
            None => Seq::empty(),
        }
    }
}

/// `key`: the argument that carries a meta block's store key.
pub open spec fn key_text() -> Seq<char> {
    seq!['k', 'e', 'y']
}

/// `map`: the argument that carries a meta block's field mapping.
pub open spec fn map_text() -> Seq<char> {
    seq!['m', 'a', 'p']
}

/// Slots of a leaf's data that hold the `_get` (or else the `_set`) meta:
/// store, key, map keys, map values, args keys, args values.
pub open spec fn meta_slots(get: bool) -> (int, int, int, int, int, int) {
    if get {
        (0, 1, 4, 5, 6, 7)
    } else {
        (2, 3, 8, 9, 10, 11)
    }
}

impl IndexView {
    /// What a leaf's fragments read as: per fragment, whether it is a placeholder, and its word.
    pub open spec fn fragments(self, leaf: LeafRef) -> Seq<(bool, Seq<u8>)> {
        if leaf.value_id == 0 {
            Seq::empty()
        } else {
            match self.values.entry(leaf.value_id as int) {
                Some(fr) => self.read_frags(fr),
                None => Seq::empty(),
            }
        }
    }

    /// What a fragment list reads as: per fragment, its placeholder flag and its word.
    pub open spec fn read_frags(self, fr: Seq<u16>) -> Seq<(bool, Seq<u8>)> {
        Seq::new(fr.len(), |i: int| (frag_is_placeholder(fr[i]), self.word(frag_word_id(fr[i]) as int)))
    }

    /// The data of a leaf, when it is there and complete.
    pub open spec fn leaf_data(self, leaf: LeafRef) -> Option<Seq<u16>> {
        if leaf.leaf_id == 0 {
            None
        } else {
            match self.leaves.entry(leaf.leaf_id as int) {
                Some(d) => if d.len() >= 12 { Some(d) } else { None },
                None => None,
            }
        }
    }

    /// `a` with the store key of values entry `key_id`, when it reads as non-empty text.
    pub open spec fn key_arg(self, a: Seq<(Seq<char>, TreeView)>, key_id: u16) -> Seq<(Seq<char>, TreeView)> {
        if key_id == 0 {
            a
        } else {
            match self.values.entry(key_id as int) {
                Some(fr) => {
                    let k = static_text(self, fr);
                    if k.len() > 0 {
                        args_insert(a, key_text(), TreeView::Scalar(encode_utf8(k)))
                    } else {
                        a
                    }
                },
                None => a,
            }
        }
    }

    /// Pairs of destination and source words, as far as both lists go.
    pub open spec fn map_pairs(self, dsts: Seq<u16>, srcs: Seq<u16>) -> Seq<(Seq<u8>, TreeView)> {
        let n = if dsts.len() < srcs.len() { dsts.len() } else { srcs.len() };
        Seq::new(n, |i: int| (self.word(dsts[i] as int), TreeView::Scalar(self.word(srcs[i] as int))))
    }

    /// `a` with the field mapping of a meta block, when it has at least one pair.
    pub open spec fn map_arg(self, a: Seq<(Seq<char>, TreeView)>, mk: u16, mv: u16) -> Seq<(Seq<char>, TreeView)> {
        if mk == 0 || mv == 0 {
            a
        } else {
            match (self.map_keys.entry(mk as int), self.map_vals.entry(mv as int)) {
                (Some(d), Some(s)) => {
                    let pairs = self.map_pairs(d, s);
                    if pairs.len() > 0 {
                        args_insert(a, map_text(), TreeView::Mapping(pairs))
                    } else {
                        a
                    }
                },
                _ => a,
            }
        }
    }

    /// Value of a scalar argument: the text of values entry `v`, or null.
    pub open spec fn arg_value(self, v: u16) -> TreeView {
        if v == 0 {
            TreeView::Null
        } else {
            match self.values.entry(v as int) {
                Some(fr) => TreeView::Scalar(encode_utf8(static_text(self, fr))),
                None => TreeView::Null,
            }
        }
    }

    /// `a` with the first `n` scalar arguments bound in order; a key that is not
    /// non-empty text is passed over.
    pub open spec fn scalar_args(
        self,
        a: Seq<(Seq<char>, TreeView)>,
        keys: Seq<u16>,
        vals: Seq<u16>,
        n: int,
    ) -> Seq<(Seq<char>, TreeView)>
        decreases n,
    {
        if n <= 0 {
            a
        } else {
            let b = self.scalar_args(a, keys, vals, n - 1);
            let k = text_or_empty(self.word(keys[n - 1] as int));
            if k.len() == 0 {
                b
            } else {
                args_insert(b, k, self.arg_value(vals[n - 1]))
            }
        }
    }

    /// `a` with the scalar arguments of a meta block.
    pub open spec fn args_arg(self, a: Seq<(Seq<char>, TreeView)>, ak: u16, av: u16) -> Seq<(Seq<char>, TreeView)> {
        if ak == 0 || av == 0 {
            a
        } else {
            match (self.args_keys.entry(ak as int), self.args_vals.entry(av as int)) {
                (Some(ks), Some(vs)) => self.scalar_args(
                    a,
                    ks,
                    vs,
                    if ks.len() < vs.len() { ks.len() as int } else { vs.len() as int },
                ),
                _ => a,
            }
        }
    }

    /// Store id and arguments of a leaf's `_get` (`get`) or `_set` meta;
    /// store 0 and no arguments when the leaf has none.
    pub open spec fn meta(self, leaf: LeafRef, get: bool) -> (u8, Seq<(Seq<char>, TreeView)>) {
        match self.leaf_data(leaf) {
            None => (0u8, Seq::empty()),
            Some(d) => {
                let (s, k, mk, mv, ak, av) = meta_slots(get);
                let store = (d[s] % 256) as u8;
                if store == 0 {
                    (0u8, Seq::empty())
                } else {
                    let a1 = self.key_arg(Seq::empty(), d[k]);
                    let a2 = self.map_arg(a1, d[mk], d[mv]);
                    (store, self.args_arg(a2, d[ak], d[av]))
                }
            },
        }
    }
}

/// The slots of a variable list's unit, or none when it does not exist.
pub open spec fn entry_or_empty<T>(v: VlView<T>, id: int) -> Seq<T> {
    match v.entry(id) {
        Some(s) => s,
        None => Seq::empty(),
    }
}

impl IndexView {
    /// The raw parts of a leaf's `_get` (`get`) or `_set` block: its store id and
    /// the key fragments, map keys, map values, argument keywords and argument
    /// values ids (each empty when absent).
    pub open spec fn raw_meta(self, leaf: LeafRef, get: bool) -> (u8, Seq<u16>, Seq<u16>, Seq<u16>, Seq<u16>, Seq<u16>) {
        match self.leaf_data(leaf) {
            None => (0u8, Seq::empty(), Seq::empty(), Seq::empty(), Seq::empty(), Seq::empty()),
            Some(d) => {
                let (s, k, mk, mv, ak, av) = meta_slots(get);
                (
                    (d[s] % 256) as u8,
                    entry_or_empty(self.values, d[k] as int),
                    entry_or_empty(self.map_keys, d[mk] as int),
                    entry_or_empty(self.map_vals, d[mv] as int),
                    entry_or_empty(self.args_keys, d[ak] as int),
                    entry_or_empty(self.args_vals, d[av] as int),
                )
            },
        }
    }
}

/// Every leaf a traversal collects names a path of the index.
pub proof fn lemma_collect_paths(ix: IndexView, p: int)
    requires
        ix.wf(),
    ensures
        forall|i: int| 0 <= i < ix.collect(p).len() ==> (#[trigger] ix.collect(p)[i]).path_id < ix.paths.len(),
    decreases ix.paths.len() - p + 1, 0int,
{
    if 0 <= p < ix.paths.len() {
        if path_is_leaf(ix.paths[p]) {
            assert(ix.collect(p) == seq![ix.leaf_ref(p)]);
            assert(ix.collect(p)[0].path_id == p as u16);
            assert((p as u16) as int == p);
            assert(ix.collect(p).len() == 1);
        } else if let Some(ks) = ix.kids(p) {
            lemma_collect_list_paths(ix, ks, p);
            assert(ix.collect(p) == ix.collect_list(ks, p));
        } else {
            assert(ix.collect(p).len() == 0);
        }
    }
}

proof fn lemma_collect_list_paths(ix: IndexView, ks: Seq<u16>, p: int)
    requires
        ix.wf(),
        0 <= p,
    ensures
        forall|i: int| 0 <= i < ix.collect_list(ks, p).len() ==> (#[trigger] ix.collect_list(ks, p)[i]).path_id
            < ix.paths.len(),
    decreases ix.paths.len() - p, ks.len(),
{
    if ks.len() > 0 {
        let rest = ks.subrange(1, ks.len() as int);
        lemma_collect_list_paths(ix, rest, p);
        if p < ks[0] < ix.paths.len() {
            lemma_collect_paths(ix, ks[0] as int);
            let a = ix.collect(ks[0] as int);
            let b = ix.collect_list(rest, p);
            assert forall|i: int| 0 <= i < (a + b).len() implies (#[trigger] (a + b)[i]).path_id < ix.paths.len() by {
                if i < a.len() {
                    assert((a + b)[i] == a[i]);
                } else {
                    assert((a + b)[i] == b[i - a.len()]);
                }
            }
        }
    }
}

proof fn lemma_kid_after_parent(ix: IndexView, p: int, ks: Seq<u16>, k: int)
    requires
        ix.wf(),
        0 <= p < ix.paths.len(),
        ix.kids(p) == Some(ks),
        0 <= k < ks.len(),
    ensures
        p < ks[k] < ix.paths.len(),
{
    assert(ix.kids_ok(p));
    let q = ix.kids(p)->0;
    assert(forall|j: int| 0 <= j < q.len() ==> p < #[trigger] q[j] < ix.paths.len());
}

proof fn lemma_collect_list_push(ix: IndexView, ks: Seq<u16>, k: u16, p: int)
    requires
        p < k < ix.paths.len(),
    ensures
        ix.collect_list(ks.push(k), p) == ix.collect_list(ks, p) + ix.collect(k as int),
    decreases ks.len(),
{
    if ks.len() == 0 {
        let one = ks.push(k);
        let e = Seq::<u16>::empty();
        assert(one.subrange(1, 1) =~= e);
        assert(ix.collect_list(e, p) == Seq::<LeafRef>::empty());
        assert(one[0] == k);
        assert(ix.collect_list(one, p) == ix.collect(k as int) + ix.collect_list(e, p));
        assert(ix.collect_list(ks, p) == Seq::<LeafRef>::empty());
        assert(ix.collect_list(one, p) =~= ix.collect_list(ks, p) + ix.collect(k as int));
    } else {
        let rest = ks.subrange(1, ks.len() as int);
        assert(ks.push(k).subrange(1, ks.len() as int + 1) =~= rest.push(k));
        lemma_collect_list_push(ix, rest, k, p);
        assert(ix.collect_list(ks.push(k), p) =~= ix.collect_list(ks, p) + ix.collect(k as int));
    }
}

proof fn lemma_child_named_take(ix: IndexView, ks: Seq<u16>, kw: Seq<u8>, j: int)
    requires
        0 <= j < ks.len(),
        forall|i: int| 0 <= i < j ==> ix.keyword(ks[i] as int) != kw,
    ensures
        ix.child_named(ks, kw) == ix.child_named(ks.subrange(j, ks.len() as int), kw),
    decreases j,
{
    if j > 0 {
        let rest = ks.subrange(1, ks.len() as int);
        assert(ix.keyword(ks[0] as int) != kw);
        assert(ix.child_named(ks, kw) == ix.child_named(rest, kw));
        assert forall|i: int| 0 <= i < j - 1 implies ix.keyword(rest[i] as int) != kw by {
            assert(rest[i] == ks[i + 1]);
        }
        lemma_child_named_take(ix, rest, kw, j - 1);
        assert(rest.subrange(j - 1, rest.len() as int) =~= ks.subrange(j, ks.len() as int));
    } else {
        assert(ks.subrange(0, ks.len() as int) =~= ks);
    }
}

proof fn lemma_child_named_none(ix: IndexView, ks: Seq<u16>, kw: Seq<u8>)
    requires
        forall|i: int| 0 <= i < ks.len() ==> ix.keyword(ks[i] as int) != kw,
    ensures
        ix.child_named(ks, kw) is None,
    decreases ks.len(),
{
    if ks.len() > 0 {
        let rest = ks.subrange(1, ks.len() as int);
        assert forall|i: int| 0 <= i < rest.len() implies ix.keyword(rest[i] as int) != kw by {
            assert(rest[i] == ks[i + 1]);
        }
        lemma_child_named_none(ix, rest, kw);
    }
}

// ── Index ────────────────────────────────────────────────────────────────────

/// A compiled DSL: the path tree with its leaves, values and interned words.
pub struct Index {
    paths: List<u64>,
    children: VariableList<u16>,
    leaves: VariableList<u16>,
    values: VariableList<u16>,
    words: VariableList<u8>,
    map_keys: VariableList<u16>,
    map_vals: VariableList<u16>,
    args_keys: VariableList<u16>,
    args_vals: VariableList<u16>,
}

impl View for Index {
    type V = IndexView;

    closed spec fn view(&self) -> IndexView {
        IndexView {
            paths: self.paths.data@,
            children: vl_view(self.children),
            leaves: vl_view(self.leaves),
            values: vl_view(self.values),
            words: vl_view(self.words),
            map_keys: vl_view(self.map_keys),
            map_vals: vl_view(self.map_vals),
            args_keys: vl_view(self.args_keys),
            args_vals: vl_view(self.args_vals),
        }
    }
}

/// The unit with identity `id` of a variable list, when its entry and range lie inside it.
fn vl_slice<'a, T>(vl: &'a VariableList<T>, id: usize) -> (r: Option<&'a [T]>)
    requires
        id <= 0x7fff_ffff,
    ensures
        match vl_view(*vl).entry(id as int) {
            Some(s) => r matches Some(x) && x@ == s,
            None => r is None,
        },
{
    let identity_start = id * 2;
    if identity_start >= vl.identity.len() || identity_start + 1 >= vl.identity.len() {
        return None;
    }
    let start = vl.identity[identity_start];
    let end = vl.identity[identity_start + 1];
    if start > end || end > vl.data.len() {
        return None;
    }
    Some(vstd::slice::slice_subrange(vl.data.as_slice(), start, end))
}

/// `Vec::into_boxed_slice`: the same elements as a boxed slice.
#[verifier::external_body]
fn into_boxed(v: Vec<LeafRef>) -> (r: Box<[LeafRef]>)
    ensures
        r@ == v@,
{
    v.into_boxed_slice()
}

impl Index {
    /// An index over compiled data.
    pub fn new(
        paths: List<u64>,
        children: VariableList<u16>,
        leaves: VariableList<u16>,
        values: VariableList<u16>,
        words: VariableList<u8>,
        map_keys: VariableList<u16>,
        map_vals: VariableList<u16>,
        args_keys: VariableList<u16>,
        args_vals: VariableList<u16>,
    ) -> (r: Self)
        ensures
            r@ == (IndexView {
                paths: paths.data@,
                children: vl_view(children),
                leaves: vl_view(leaves),
                values: vl_view(values),
                words: vl_view(words),
                map_keys: vl_view(map_keys),
                map_vals: vl_view(map_vals),
                args_keys: vl_view(args_keys),
                args_vals: vl_view(args_vals),
            }),
    {
        Self { paths, children, leaves, values, words, map_keys, map_vals, args_keys, args_vals }
    }

    fn children_slice(&self, id: usize) -> (r: Option<&[u16]>)
        requires
            id <= 0x7fff_ffff,
        ensures
            match self@.children.entry(id as int) {
                Some(s) => r matches Some(x) && x@ == s,
                None => r is None,
            },
    {
        vl_slice(&self.children, id)
    }

    fn leaves_slice(&self, id: usize) -> (r: Option<&[u16]>)
        requires
            id <= 0x7fff_ffff,
        ensures
            match self@.leaves.entry(id as int) {
                Some(s) => r matches Some(x) && x@ == s,
                None => r is None,
            },
    {
        vl_slice(&self.leaves, id)
    }

    pub(crate) fn values_slice(&self, id: usize) -> (r: Option<&[u16]>)
        requires
            id <= 0x7fff_ffff,
        ensures
            match self@.values.entry(id as int) {
                Some(s) => r matches Some(x) && x@ == s,
                None => r is None,
            },
    {
        vl_slice(&self.values, id)
    }

    fn map_keys_slice(&self, id: usize) -> (r: Option<&[u16]>)
        requires
            id <= 0x7fff_ffff,
        ensures
            match self@.map_keys.entry(id as int) {
                Some(s) => r matches Some(x) && x@ == s,
                None => r is None,
            },
    {
        vl_slice(&self.map_keys, id)
    }

    fn map_vals_slice(&self, id: usize) -> (r: Option<&[u16]>)
        requires
            id <= 0x7fff_ffff,
        ensures
            match self@.map_vals.entry(id as int) {
                Some(s) => r matches Some(x) && x@ == s,
                None => r is None,
            },
    {
        vl_slice(&self.map_vals, id)
    }

    fn args_keys_slice(&self, id: usize) -> (r: Option<&[u16]>)
        requires
            id <= 0x7fff_ffff,
        ensures
            match self@.args_keys.entry(id as int) {
                Some(s) => r matches Some(x) && x@ == s,
                None => r is None,
            },
    {
        vl_slice(&self.args_keys, id)
    }

    fn args_vals_slice(&self, id: usize) -> (r: Option<&[u16]>)
        requires
            id <= 0x7fff_ffff,
        ensures
            match self@.args_vals.entry(id as int) {
                Some(s) => r matches Some(x) && x@ == s,
                None => r is None,
            },
    {
        vl_slice(&self.args_vals, id)
    }

    /// Bytes of word `id`; empty when the id is unknown.
    pub(crate) fn word_bytes(&self, id: usize) -> (r: &[u8])
        requires
            id <= 0x7fff_ffff,
        ensures
            r@ == self@.word(id as int),
    {
        match vl_slice(&self.words, id) {
            Some(s) => s,
            None => {
                let e: &[u8] = &[];
                assert(e@ =~= Seq::<u8>::empty());
                e
            },
        }
    }

    /// The keyword bytes of a path.
    pub fn keyword_of(&self, path_id: u16) -> (r: &[u8])
        requires
            path_id < self@.paths.len(),
        ensures
            r@ == self@.keyword(path_id as int),
    {
        let path = self.paths.data[path_id as usize];
        let word_id = ((path & PATH_KEYWORD_ID_MASK) >> PATH_KEYWORD_ID_SHIFT) as usize;
        assert(((path & PATH_KEYWORD_ID_MASK) >> PATH_KEYWORD_ID_SHIFT) <= 0xffff) by (bit_vector);
        self.word_bytes(word_id)
    }

    /// The path next to `path_id` (a child of its parent) whose keyword is `keyword`.
    pub(crate) fn sibling(&self, path_id: u16, keyword: &[u8]) -> (r: Option<u16>)
        requires
            self@.wf(),
            path_id < self@.paths.len(),
        ensures
            r == self@.sibling(path_id as int, keyword@),
    {
        let path = self.paths.data[path_id as usize];
        assert(((path & PATH_PARENT_ID_MASK) >> PATH_PARENT_ID_SHIFT) <= 0xffff) by (bit_vector);
        let parent = ((path & PATH_PARENT_ID_MASK) >> PATH_PARENT_ID_SHIFT) as u16;
        if (parent as usize) < self.paths.data.len() {
            self.find_child(parent, keyword)
        } else {
            None
        }
    }

    fn find_child(&self, path_id: u16, keyword: &[u8]) -> (r: Option<u16>)
        requires
            self@.wf(),
            path_id < self@.paths.len(),
        ensures
            r == self@.find_child(path_id as int, keyword@),
            r matches Some(c) ==> path_id < c < self@.paths.len(),
    {
        let path = self.paths.data[path_id as usize];
        if path & PATH_IS_LEAF_MASK != 0 {
            return None;
        }
        let children_id = ((path & PATH_CHILD_ID_MASK) >> PATH_CHILD_ID_SHIFT) as usize;
        assert(((path & PATH_CHILD_ID_MASK) >> PATH_CHILD_ID_SHIFT) <= 0xffff) by (bit_vector);
        if children_id == 0 {
            return None;
        }
        let children = match self.children_slice(children_id) {
            Some(s) => s,
            None => return None,
        };
        assert(self@.kids_ok(path_id as int));
        let mut i: usize = 0;
        while i < children.len()
            invariant
                self@.wf(),
                path_id < self@.paths.len(),
                self@.kids(path_id as int) == Some(children@),
                i <= children@.len(),
                forall|k: int| 0 <= k < i ==> self@.keyword(children@[k] as int) != keyword@,
            decreases children@.len() - i,
        {
            assert(self@.kids_ok(path_id as int));
            let child_id = children[i];
            if bytes_eq(self.keyword_of(child_id), keyword) {
                proof {
                    lemma_child_named_take(self@, children@, keyword@, i as int);
                }
                return Some(child_id);
            }
            i = i + 1;
        }
        proof {
            lemma_child_named_none(self@, children@, keyword@);
        }
        None
    }

    fn find(&self, path: &str) -> (r: Option<u16>)
        requires
            self@.wf(),
        ensures
            r == self@.find_from(0, split_dots(encode_utf8(path@))),
            r matches Some(p) ==> p < self@.paths.len(),
    {
        let bytes = path.as_bytes();
        let ghost s = bytes@;
        assert(s == encode_utf8(path@));
        assert(s.subrange(0, s.len() as int) =~= s);
        let mut current: u16 = 0;
        let mut seg_start: usize = 0;
        let mut i: usize = 0;
        while i < bytes.len()
            invariant
                self@.wf(),
                s == bytes@,
                s == encode_utf8(path@),
                seg_start <= i <= bytes@.len(),
                current < self@.paths.len(),
                forall|k: int| seg_start <= k < i ==> bytes@[k] != 0x2eu8,
                self@.find_from(0, split_dots(s)) == self@.find_from(
                    current as int,
                    split_dots(s.subrange(seg_start as int, s.len() as int)),
                ),
            decreases bytes@.len() - i,
        {
            if bytes[i] == 0x2eu8 {
                let segment = vstd::slice::slice_subrange(bytes, seg_start, i);
                proof {
                    let rest = s.subrange(seg_start as int, s.len() as int);
                    lemma_dot_pos(rest);
                    assert(rest[i - seg_start] == 0x2eu8);
                    assert forall|k: int| 0 <= k < i - seg_start implies rest[k] != 0x2eu8 by {
                        assert(rest[k] == s[seg_start + k]);
                    }
                    assert(dot_pos(rest) == i - seg_start);
                    assert(rest.subrange(0, i - seg_start) =~= segment@);
                    assert(rest.subrange(i - seg_start + 1, rest.len() as int) =~= s.subrange(i + 1, s.len() as int));
                    let segs = split_dots(rest);
                    assert(segs[0] == segment@);
                    assert(segs.subrange(1, segs.len() as int) =~= split_dots(s.subrange(i + 1, s.len() as int)));
                }
                current = match self.find_child(current, segment) {
                    Some(c) => c,
                    None => {
                        proof {
                            let segs = split_dots(s.subrange(seg_start as int, s.len() as int));
                            assert(segs.len() > 0);
                            assert(self@.find_child(current as int, segs[0]) is None);
                            assert(self@.find_from(current as int, segs) is None);
                            assert(self@.find_from(0, split_dots(s)) is None);
                        }
                        return None;
                    },
                };
                seg_start = i + 1;
            }
            i = i + 1;
        }
        let segment = vstd::slice::slice_subrange(bytes, seg_start, bytes.len());
        proof {
            let rest = s.subrange(seg_start as int, s.len() as int);
            lemma_dot_pos(rest);
            assert forall|k: int| 0 <= k < rest.len() implies rest[k] != 0x2eu8 by {
                assert(rest[k] == s[seg_start + k]);
            }
            assert(dot_pos(rest) < 0);
            assert(rest =~= segment@);
            assert(split_dots(rest) == seq![segment@]);
            assert(seq![segment@].subrange(1, 1) =~= Seq::<Seq<u8>>::empty());
        }
        let ghost segs = split_dots(s.subrange(seg_start as int, s.len() as int));
        match self.find_child(current, segment) {
            Some(c) => {
                assert(self@.find_from(c as int, segs.subrange(1, segs.len() as int)) == Some(c));
                Some(c)
            },
            None => None,
        }
    }

    fn collect_leaves(&self, path_id: u16, out: &mut Vec<LeafRef>)
        requires
            self@.wf(),
            path_id < self@.paths.len(),
        ensures
            final(out)@ == old(out)@ + self@.collect(path_id as int),
        decreases self@.paths.len() - path_id,
    {
        let path = self.paths.data[path_id as usize];
        if path & PATH_IS_LEAF_MASK != 0 {
            let leaf_id = ((path & PATH_CHILD_ID_MASK) >> PATH_CHILD_ID_SHIFT) as u16;
            let value_id = (path & PATH_VALUE_ID_MASK) as u16;
            out.push(LeafRef { path_id, leaf_id, value_id });
            assert(final(out)@ =~= old(out)@ + self@.collect(path_id as int));
            return;
        }
        let children_id = ((path & PATH_CHILD_ID_MASK) >> PATH_CHILD_ID_SHIFT) as usize;
        assert(((path & PATH_CHILD_ID_MASK) >> PATH_CHILD_ID_SHIFT) <= 0xffff) by (bit_vector);
        if children_id == 0 {
            assert(out@ =~= old(out)@ + self@.collect(path_id as int));
            return;
        }
        let children = match self.children_slice(children_id) {
            Some(s) => s,
            None => {
                assert(out@ =~= old(out)@ + self@.collect(path_id as int));
                return;
            },
        };
        let ghost start = out@;
        assert(self@.kids(path_id as int) == Some(children@));
        assert(self@.kids_ok(path_id as int));
        assert(children@.take(0) =~= Seq::<u16>::empty());
        let mut i: usize = 0;
        while i < children.len()
            invariant
                self@.wf(),
                path_id < self@.paths.len(),
                self@.kids(path_id as int) == Some(children@),
                i <= children@.len(),
                out@ == start + self@.collect_list(children@.take(i as int), path_id as int),
            decreases children@.len() - i,
        {
            let child_id = children[i];
            proof {
                lemma_kid_after_parent(self@, path_id as int, children@, i as int);
            }
            self.collect_leaves(child_id, out);
            proof {
                lemma_collect_list_push(self@, children@.take(i as int), child_id, path_id as int);
                assert(children@.take(i as int).push(child_id) =~= children@.take(i + 1));
            }
            i = i + 1;
        }
        assert(children@.take(children@.len() as int) =~= children@);
        assert(out@ =~= old(out)@ + self@.collect(path_id as int));
    }

    /// Goes to the path named by `path` (dot-separated keywords) and collects
    /// every leaf under it; empty when no such path exists.
    pub fn traverse(&self, path: &str) -> (r: Box<[LeafRef]>)
        requires
            self@.wf(),
        ensures
            r@ == self@.traverse(encode_utf8(path@)),
    {
        into_boxed(self.leaves_of(path))
    }
}

proof fn lemma_static_text_step(ix: IndexView, fr: Seq<u16>, i: int)
    requires
        0 <= i < fr.len(),
    ensures
        static_text(ix, fr.take(i + 1)) == static_text(ix, fr.take(i)) + text_or_empty(
            ix.word(frag_word_id(fr[i]) as int),
        ),
{
    assert(fr.take(i + 1).drop_last() =~= fr.take(i));
}

impl Index {
    /// The value fragments of a leaf: per fragment, whether it is a `${path}`
    /// placeholder, and its bytes (the path, or the literal text). Empty for a
    /// null value.
    pub fn leaf_fragments(&self, leaf: &LeafRef) -> (r: Vec<(bool, &[u8])>)
        ensures
            r@.len() == self@.fragments(*leaf).len(),
            forall|i: int|
                0 <= i < r@.len() ==> #[trigger] r@[i].0 == self@.fragments(*leaf)[i].0
                    && r@[i].1@ == self@.fragments(*leaf)[i].1,
    {
        let value_id = leaf.value_id as usize;
        let mut result: Vec<(bool, &[u8])> = Vec::new();
        if value_id == 0 {
            return result;
        }
        let frags = match self.values_slice(value_id) {
            Some(s) => s,
            None => return result,
        };
        let mut i: usize = 0;
        while i < frags.len()
            invariant
                self@.values.entry(leaf.value_id as int) == Some(frags@),
                leaf.value_id != 0,
                i <= frags@.len(),
                result@.len() == i,
                forall|j: int|
                    0 <= j < i ==> #[trigger] result@[j].0 == self@.fragments(*leaf)[j].0
                        && result@[j].1@ == self@.fragments(*leaf)[j].1,
            decreases frags@.len() - i,
        {
            let f = frags[i];
            let is_ph = (f & VALUE_IS_PLACEHOLDER_MASK) != 0;
            let word_id = (f & VALUE_WORD_ID_MASK) as usize;
            result.push((is_ph, self.word_bytes(word_id)));
            i = i + 1;
        }
        result
    }

    /// Text of a fragment list expected to be static: each word's text in turn.
    fn resolve_static_frags(&self, frags: &[u16]) -> (r: String)
        ensures
            r@ == static_text(self@, frags@),
    {
        let mut buf = String::new();
        let mut i: usize = 0;
        assert(frags@.take(0) =~= Seq::<u16>::empty());
        while i < frags.len()
            invariant
                i <= frags@.len(),
                buf@ == static_text(self@, frags@.take(i as int)),
            decreases frags@.len() - i,
        {
            let word_id = (frags[i] & VALUE_WORD_ID_MASK) as usize;
            proof {
                lemma_static_text_step(self@, frags@, i as int);
            }
            match utf8_str(self.word_bytes(word_id)) {
                Some(s) => buf.append(s),
                None => {
                    assert(text_or_empty(self@.word(word_id as int)) =~= Seq::<char>::empty());
                },
            }
            assert(buf@ =~= static_text(self@, frags@.take(i + 1)));
            i = i + 1;
        }
        assert(frags@.take(frags@.len() as int) =~= frags@);
        buf
    }

    /// The `key` argument of a meta block.
    fn add_key_arg(&self, args: &mut Args, key_id: u16)
        ensures
            final(args)@ == self@.key_arg(old(args)@, key_id),
    {
        if key_id == 0 {
            return;
        }
        if let Some(frags) = self.values_slice(key_id as usize) {
            let key_str = self.resolve_static_frags(frags);
            if !key_str.as_str().is_empty() {
                proof {
                    reveal_strlit("key");
                }
                let name = String::from_str("key");
                assert(name@ =~= key_text());
                args.insert(name, Tree::Scalar(str_bytes(key_str.as_str())));
            }
        }
    }

    /// The `map` argument of a meta block.
    fn add_map_arg(&self, args: &mut Args, mk: u16, mv: u16)
        ensures
            final(args)@ == self@.map_arg(old(args)@, mk, mv),
    {
        if mk == 0 || mv == 0 {
            return;
        }
        let dsts = match self.map_keys_slice(mk as usize) {
            Some(s) => s,
            None => return,
        };
        let srcs = match self.map_vals_slice(mv as usize) {
            Some(s) => s,
            None => return,
        };
        let n = if dsts.len() < srcs.len() { dsts.len() } else { srcs.len() };
        let ghost want = self@.map_pairs(dsts@, srcs@);
        let mut pairs: Vec<(Vec<u8>, Tree)> = Vec::new();
        let mut i: usize = 0;
        while i < n
            invariant
                n == want.len(),
                n <= dsts@.len(),
                n <= srcs@.len(),
                want == self@.map_pairs(dsts@, srcs@),
                i <= n,
                pairs@.len() == i,
                forall|j: int|
                    0 <= j < i ==> #[trigger] pairs@[j].0@ == want[j].0 && pairs@[j].1@ == want[j].1,
            decreases n - i,
        {
            let dst = vstd::slice::slice_to_vec(self.word_bytes(dsts[i] as usize));
            let src = vstd::slice::slice_to_vec(self.word_bytes(srcs[i] as usize));
            let ghost before = pairs@;
            pairs.push((dst, Tree::Scalar(src)));
            proof {
                assert forall|j: int| 0 <= j < i + 1 implies #[trigger] pairs@[j].0@ == want[j].0 && pairs@[j].1@
                    == want[j].1 by {
                    if j < i {
                        assert(pairs@[j] == before[j]);
                    }
                }
            }
            i = i + 1;
        }
        if n > 0 {
            proof {
                reveal_strlit("map");
            }
            let name = String::from_str("map");
            assert(name@ =~= map_text());
            let value = Tree::Mapping(pairs);
            assert(value@ == TreeView::Mapping(want)) by {
                if let TreeView::Mapping(got) = value@ {
                    assert(got =~= want);
                }
            }
            args.insert(name, value);
        }
    }

    /// A scalar argument's value: the text of values entry `v`, or null.
    fn arg_value(&self, v: u16) -> (r: Tree)
        ensures
            r@ == self@.arg_value(v),
    {
        if v == 0 {
            return Tree::Null;
        }
        match self.values_slice(v as usize) {
            Some(frags) => {
                let text = self.resolve_static_frags(frags);
                Tree::Scalar(str_bytes(text.as_str()))
            },
            None => Tree::Null,
        }
    }

    /// The scalar arguments of a meta block.
    fn add_scalar_args(&self, args: &mut Args, ak: u16, av: u16)
        ensures
            final(args)@ == self@.args_arg(old(args)@, ak, av),
    {
        if ak == 0 || av == 0 {
            return;
        }
        let keys = match self.args_keys_slice(ak as usize) {
            Some(s) => s,
            None => return,
        };
        let vals = match self.args_vals_slice(av as usize) {
            Some(s) => s,
            None => return,
        };
        let n = if keys.len() < vals.len() { keys.len() } else { vals.len() };
        let ghost start = args@;
        let mut i: usize = 0;
        while i < n
            invariant
                n <= keys@.len(),
                n <= vals@.len(),
                i <= n,
                args@ == self@.scalar_args(start, keys@, vals@, i as int),
            decreases n - i,
        {
            let k = match utf8_str(self.word_bytes(keys[i] as usize)) {
                Some(s) => s,
                None => "",
            };
            proof {
                reveal_strlit("");
            }
            assert(k@ == text_or_empty(self@.word(keys@[i as int] as int)));
            if !k.is_empty() {
                let v = self.arg_value(vals[i]);
                args.insert(String::from_str(k), v);
            }
            i = i + 1;
        }
    }

    fn decode_meta(&self, leaf: &LeafRef, get: bool) -> (r: (u8, Args))
        ensures
            r.0 == self@.meta(*leaf, get).0,
            r.1@ == self@.meta(*leaf, get).1,
    {
        let leaf_id = leaf.leaf_id as usize;
        if leaf_id == 0 {
            return (0, Args::new());
        }
        let leaf_data = match self.leaves_slice(leaf_id) {
            Some(d) => d,
            None => return (0, Args::new()),
        };
        if leaf_data.len() < LEAF_WIDTH {
            return (0, Args::new());
        }
        let (store_raw, key_id, map_key_id, map_val_id, args_key_id, args_val_id) = if get {
            (
                leaf_data[LEAF_GET_STORE_ID],
                leaf_data[LEAF_GET_KEY_ID],
                leaf_data[LEAF_GET_MAP_KEY_ID],
                leaf_data[LEAF_GET_MAP_VAL_ID],
                leaf_data[LEAF_GET_ARGS_KEY_ID],
                leaf_data[LEAF_GET_ARGS_VAL_ID],
            )
        } else {
            (
                leaf_data[LEAF_SET_STORE_ID],
                leaf_data[LEAF_SET_KEY_ID],
                leaf_data[LEAF_SET_MAP_KEY_ID],
                leaf_data[LEAF_SET_MAP_VAL_ID],
                leaf_data[LEAF_SET_ARGS_KEY_ID],
                leaf_data[LEAF_SET_ARGS_VAL_ID],
            )
        };
        let store_id = (store_raw % 256) as u8;
        if store_id == 0 {
            return (0, Args::new());
        }
        let mut args = Args::new();
        self.add_key_arg(&mut args, key_id);
        self.add_map_arg(&mut args, map_key_id, map_val_id);
        self.add_scalar_args(&mut args, args_key_id, args_val_id);
        (store_id, args)
    }

    /// Store id and arguments of the leaf's `_get`; `(0, no arguments)` when it has none.
    pub fn get_args(&self, leaf: &LeafRef) -> (r: (u8, Args))
        ensures
            r.0 == self@.meta(*leaf, true).0,
            r.1@ == self@.meta(*leaf, true).1,
    {
        self.decode_meta(leaf, true)
    }

    /// Store id and arguments of the leaf's `_set`; `(0, no arguments)` when it has none.
    pub fn set_args(&self, leaf: &LeafRef) -> (r: (u8, Args))
        ensures
            r.0 == self@.meta(*leaf, false).0,
            r.1@ == self@.meta(*leaf, false).1,
    {
        self.decode_meta(leaf, false)
    }
}

fn or_empty<'a>(s: Option<&'a [u16]>) -> (r: &'a [u16])
    ensures
        r@ == match s {
            Some(x) => x@,
            None => Seq::<u16>::empty(),
        },
{
    match s {
        Some(x) => x,
        None => {
            let e: &[u16] = &[];
            assert(e@ =~= Seq::<u16>::empty());
            e
        },
    }
}

impl Index {
    /// The raw parts of a leaf's `_get` (`get`) or `_set` block (see [`IndexView::raw_meta`]).
    pub(crate) fn raw_meta(&self, leaf: &LeafRef, get: bool) -> (r: (u8, &[u16], &[u16], &[u16], &[u16], &[u16]))
        ensures
            r.0 == self@.raw_meta(*leaf, get).0,
            r.1@ == self@.raw_meta(*leaf, get).1,
            r.2@ == self@.raw_meta(*leaf, get).2,
            r.3@ == self@.raw_meta(*leaf, get).3,
            r.4@ == self@.raw_meta(*leaf, get).4,
            r.5@ == self@.raw_meta(*leaf, get).5,
    {
        let e: &[u16] = &[];
        assert(e@ =~= Seq::<u16>::empty());
        let leaf_id = leaf.leaf_id as usize;
        if leaf_id == 0 {
            return (0, e, e, e, e, e);
        }
        let d = match self.leaves_slice(leaf_id) {
            Some(d) => d,
            None => return (0, e, e, e, e, e),
        };
        if d.len() < LEAF_WIDTH {
            return (0, e, e, e, e, e);
        }
        let (s, k, mk, mv, ak, av) = if get {
            (d[LEAF_GET_STORE_ID], d[LEAF_GET_KEY_ID], d[LEAF_GET_MAP_KEY_ID], d[LEAF_GET_MAP_VAL_ID],
                d[LEAF_GET_ARGS_KEY_ID], d[LEAF_GET_ARGS_VAL_ID])
        } else {
            (d[LEAF_SET_STORE_ID], d[LEAF_SET_KEY_ID], d[LEAF_SET_MAP_KEY_ID], d[LEAF_SET_MAP_VAL_ID],
                d[LEAF_SET_ARGS_KEY_ID], d[LEAF_SET_ARGS_VAL_ID])
        };
        (
            (s % 256) as u8,
            or_empty(self.values_slice(k as usize)),
            or_empty(self.map_keys_slice(mk as usize)),
            or_empty(self.map_vals_slice(mv as usize)),
            or_empty(self.args_keys_slice(ak as usize)),
            or_empty(self.args_vals_slice(av as usize)),
        )
    }

    /// The raw parts of a leaf's `_get` block.
    pub fn get_meta(&self, leaf: &LeafRef) -> (r: (u8, &[u16], &[u16], &[u16], &[u16], &[u16]))
        ensures
            r.0 == self@.raw_meta(*leaf, true).0,
            r.1@ == self@.raw_meta(*leaf, true).1,
            r.2@ == self@.raw_meta(*leaf, true).2,
            r.3@ == self@.raw_meta(*leaf, true).3,
            r.4@ == self@.raw_meta(*leaf, true).4,
            r.5@ == self@.raw_meta(*leaf, true).5,
    {
        self.raw_meta(leaf, true)
    }

    /// The raw parts of a leaf's `_set` block.
    pub fn set_meta(&self, leaf: &LeafRef) -> (r: (u8, &[u16], &[u16], &[u16], &[u16], &[u16]))
        ensures
            r.0 == self@.raw_meta(*leaf, false).0,
            r.1@ == self@.raw_meta(*leaf, false).1,
            r.2@ == self@.raw_meta(*leaf, false).2,
            r.3@ == self@.raw_meta(*leaf, false).3,
            r.4@ == self@.raw_meta(*leaf, false).4,
            r.5@ == self@.raw_meta(*leaf, false).5,
    {
        self.raw_meta(leaf, false)
    }

    /// The leaves under the path named by `path`, in a vector (see [`Index::traverse`]).
    pub(crate) fn leaves_of(&self, path: &str) -> (r: Vec<LeafRef>)
        requires
            self@.wf(),
        ensures
            r@ == self@.traverse(encode_utf8(path@)),
    {
        let mut result: Vec<LeafRef> = Vec::new();
        let path_id = match self.find(path) {
            Some(p) => p,
            None => {
                assert(result@ =~= self@.traverse(encode_utf8(path@)));
                return result;
            },
        };
        self.collect_leaves(path_id, &mut result);
        assert(result@ =~= self@.traverse(encode_utf8(path@)));
        result
    }
}

} // verus!
