//! What a compiled index says of the DSL tree it was compiled from: each field
//! key of the tree is a path of the index, and a traversal reads the tree's
//! leaf values back as fragments.
use vstd::prelude::*;
use crate::provided::TreeView;
use crate::layout::{
    path_is_leaf, path_child_id, path_value_id, path_keyword_id, frag_word_id, meta_get_word, meta_set_word,
};
use crate::index::{IndexView, LeafRef, split_dots, map_text, key_text, meta_slots};
use crate::layout::prop_map_word;
use crate::args::{args_lookup, law_lookup_after_insert};
use crate::text::text_or_empty;
use crate::dsl::is_arg_word;
use vstd::utf8::{encode_utf8, valid_utf8};
use crate::dsl::{fields, is_field, value_segments, lookup, props_store, last_key, last_map, store_given, map_words, props_args};

verus! {

/// A node of the tree that compiles to an inner path: a mapping with a field key.
pub open spec fn is_inner(v: TreeView) -> bool {
    match v {
        TreeView::Mapping(pairs) => fields(pairs).len() > 0,
        _ => false,
    }
}

/// The value a node that compiles to a leaf holds: a mapping without field
/// keys holds null.
pub open spec fn leaf_value(v: TreeView) -> TreeView {
    match v {
        TreeView::Mapping(_) => TreeView::Null,
        _ => v,
    }
}

/// Path entry `e` is a leaf whose value holds the fragments of `v`, each of
/// their words interned.
pub open spec fn leaf_holds(ix: IndexView, e: u64, v: TreeView) -> bool {
    &&& path_is_leaf(e)
    &&& if path_value_id(e) == 0 {
        value_segments(v).len() == 0
    } else {
        &&& ix.values.entry(path_value_id(e) as int) matches Some(fr)
        &&& ix.read_frags(fr) == value_segments(v)
        &&& forall|i: int| 0 <= i < fr.len() ==> (#[trigger] ix.words.entry(frag_word_id(fr[i]) as int)) is Some
    }
}

/// The keyword of path `p` is the interned word `kw`.
pub open spec fn key_holds(ix: IndexView, p: int, kw: Seq<u8>) -> bool {
    ix.words.entry(path_keyword_id(ix.paths[p]) as int) == Some(kw)
}

/// The `_get` and `_set` blocks in force at a node: each one's store id, the
/// fragments of its store key (empty without a key), its field mapping
/// (destination and source words; empty without one) and its further
/// arguments (each non-empty keyword with the fragments of its value).
pub struct InForce {
    pub get_store: u8,
    pub get_key: Seq<(bool, Seq<u8>)>,
    pub get_map: Seq<(Seq<u8>, Seq<u8>)>,
    pub get_args: Map<Seq<u8>, Seq<(bool, Seq<u8>)>>,
    pub set_store: u8,
    pub set_key: Seq<(bool, Seq<u8>)>,
    pub set_map: Seq<(Seq<u8>, Seq<u8>)>,
    pub set_args: Map<Seq<u8>, Seq<(bool, Seq<u8>)>>,
}

/// No block in force: store 0, no key, no mapping, no arguments.
pub open spec fn no_blocks() -> InForce {
    InForce {
        get_store: 0,
        get_key: Seq::empty(),
        get_map: Seq::empty(),
        get_args: Map::empty(),
        set_store: 0,
        set_key: Seq::empty(),
        set_map: Seq::empty(),
        set_args: Map::empty(),
    }
}

/// Keyword-and-fragments pairs as a map: a later pair overrides an earlier one
/// of the same keyword, and an empty keyword names no argument.
pub open spec fn args_map(s: Seq<(Seq<u8>, Seq<(bool, Seq<u8>)>)>) -> Map<Seq<u8>, Seq<(bool, Seq<u8>)>>
    decreases s.len(),
{
    if s.len() == 0 {
        Map::empty()
    } else {
        let m = args_map(s.drop_last());
        if s.last().0.len() > 0 {
            m.insert(s.last().0, s.last().1)
        } else {
            m
        }
    }
}

/// The store id of a node's `_get` (or `_set`, by `meta_key`) block: the
/// block's `store` when the node has the block, else the one it inherits.
pub open spec fn block_store(pairs: Seq<(Seq<u8>, TreeView)>, meta_key: Seq<u8>, inh: u8, ids: Seq<&str>) -> u8 {
    match lookup(pairs, meta_key) {
        Some(TreeView::Mapping(props)) => props_store(props, inh, ids),
        _ => inh,
    }
}

/// The store key fragments of a node's `_get` (or `_set`) block: the block's
/// `key` when it has one, else the one it inherits.
pub open spec fn block_key(
    pairs: Seq<(Seq<u8>, TreeView)>,
    meta_key: Seq<u8>,
    inh: Seq<(bool, Seq<u8>)>,
) -> Seq<(bool, Seq<u8>)> {
    match lookup(pairs, meta_key) {
        Some(TreeView::Mapping(props)) => match last_key(props) {
            Some(v) => value_segments(v),
            None => inh,
        },
        _ => inh,
    }
}

/// The field mapping of a node's `_get` (or `_set`) block: the block's `map`
/// when it has one; else none when the block names a `store` (a new store drops
/// the inherited mapping); else the inherited one.
pub open spec fn block_map(
    pairs: Seq<(Seq<u8>, TreeView)>,
    meta_key: Seq<u8>,
    inh: Seq<(Seq<u8>, Seq<u8>)>,
) -> Seq<(Seq<u8>, Seq<u8>)> {
    match lookup(pairs, meta_key) {
        Some(TreeView::Mapping(props)) => match last_map(props) {
            Some(mp) => map_words(mp),
            None => if store_given(props) {
                Seq::empty()
            } else {
                inh
            },
        },
        _ => inh,
    }
}

/// The further arguments of a node's `_get` (or `_set`) block: the inherited
/// ones, each overridden by the block's own argument of the same keyword.
pub open spec fn block_args(
    pairs: Seq<(Seq<u8>, TreeView)>,
    meta_key: Seq<u8>,
    inh: Map<Seq<u8>, Seq<(bool, Seq<u8>)>>,
) -> Map<Seq<u8>, Seq<(bool, Seq<u8>)>> {
    match lookup(pairs, meta_key) {
        Some(TreeView::Mapping(props)) => props_args(props, inh),
        _ => inh,
    }
}

/// The blocks in force at a mapping node, given those it inherits: its own
/// `_get` and `_set` fields override the inherited ones.
pub open spec fn own_blocks(pairs: Seq<(Seq<u8>, TreeView)>, st: InForce, ids: Seq<&str>) -> InForce {
    InForce {
        get_store: block_store(pairs, meta_get_word(), st.get_store, ids),
        get_key: block_key(pairs, meta_get_word(), st.get_key),
        get_map: block_map(pairs, meta_get_word(), st.get_map),
        get_args: block_args(pairs, meta_get_word(), st.get_args),
        set_store: block_store(pairs, meta_set_word(), st.set_store, ids),
        set_key: block_key(pairs, meta_set_word(), st.set_key),
        set_map: block_map(pairs, meta_set_word(), st.set_map),
        set_args: block_args(pairs, meta_set_word(), st.set_args),
    }
}

/// The store key fragments that a leaf's key slot refers to (none for 0).
pub open spec fn key_read(ix: IndexView, slot: u16) -> Seq<(bool, Seq<u8>)> {
    if slot == 0 {
        Seq::empty()
    } else {
        match ix.values.entry(slot as int) {
            Some(fr) => ix.read_frags(fr),
            None => Seq::empty(),
        }
    }
}

/// A leaf's key slot refers to fragments whose words are all interned.
pub open spec fn key_known(ix: IndexView, slot: u16) -> bool {
    slot != 0 ==> {
        &&& ix.values.entry(slot as int) matches Some(fr)
        &&& forall|i: int| 0 <= i < fr.len() ==> (#[trigger] ix.words.entry(frag_word_id(fr[i]) as int)) is Some
    }
}

/// The field mapping that a leaf's map slots refer to (none when either is 0):
/// destination and source words, as far as both go.
pub open spec fn map_read(ix: IndexView, mk: u16, mv: u16) -> Seq<(Seq<u8>, Seq<u8>)> {
    if mk == 0 || mv == 0 {
        Seq::empty()
    } else {
        match (ix.map_keys.entry(mk as int), ix.map_vals.entry(mv as int)) {
            (Some(d), Some(sr)) => Seq::new(
                if d.len() < sr.len() { d.len() } else { sr.len() },
                |i: int| (ix.word(d[i] as int), ix.word(sr[i] as int)),
            ),
            _ => Seq::empty(),
        }
    }
}

/// A leaf's map slots refer to units whose words are all interned.
pub open spec fn map_known(ix: IndexView, mk: u16, mv: u16) -> bool {
    mk != 0 && mv != 0 ==> {
        &&& ix.map_keys.entry(mk as int) matches Some(d)
        &&& ix.map_vals.entry(mv as int) matches Some(sr)
        &&& forall|i: int| 0 <= i < d.len() ==> (#[trigger] ix.words.entry(d[i] as int)) is Some
        &&& forall|i: int| 0 <= i < sr.len() ==> (#[trigger] ix.words.entry(sr[i] as int)) is Some
    }
}

/// The further arguments that a leaf's args slots refer to (none when either is
/// 0): each keyword with the fragments of its value, as far as both go.
pub open spec fn args_read(ix: IndexView, ak: u16, av: u16) -> Seq<(Seq<u8>, Seq<(bool, Seq<u8>)>)> {
    if ak == 0 || av == 0 {
        Seq::empty()
    } else {
        match (ix.args_keys.entry(ak as int), ix.args_vals.entry(av as int)) {
            (Some(ks), Some(vs)) => Seq::new(
                if ks.len() < vs.len() { ks.len() } else { vs.len() },
                |i: int| (ix.word(ks[i] as int), key_read(ix, vs[i])),
            ),
            _ => Seq::empty(),
        }
    }
}

/// A leaf's args slots refer to units whose words and values are all there.
pub open spec fn args_known(ix: IndexView, ak: u16, av: u16) -> bool {
    ak != 0 && av != 0 ==> {
        &&& ix.args_keys.entry(ak as int) matches Some(ks)
        &&& ix.args_vals.entry(av as int) matches Some(vs)
        &&& forall|i: int| 0 <= i < ks.len() ==> (#[trigger] ix.words.entry(ks[i] as int)) is Some
        &&& forall|i: int| 0 <= i < vs.len() ==> key_known(ix, #[trigger] vs[i])
    }
}

/// Leaf path entry `e` records the blocks `st`: their store ids, key fragments,
/// field mappings and further arguments.
pub open spec fn leaf_blocks(ix: IndexView, e: u64, st: InForce) -> bool {
    &&& path_child_id(e) != 0
    &&& ix.leaves.entry(path_child_id(e) as int) matches Some(d)
    &&& d.len() == 12
    &&& d[0] == st.get_store as u16
    &&& d[2] == st.set_store as u16
    &&& key_known(ix, d[1]) && key_read(ix, d[1]) == st.get_key
    &&& key_known(ix, d[3]) && key_read(ix, d[3]) == st.set_key
    &&& map_known(ix, d[4], d[5]) && map_read(ix, d[4], d[5]) == st.get_map
    &&& map_known(ix, d[8], d[9]) && map_read(ix, d[8], d[9]) == st.set_map
    &&& args_known(ix, d[6], d[7]) && args_map(args_read(ix, d[6], d[7])) == st.get_args
    &&& args_known(ix, d[10], d[11]) && args_map(args_read(ix, d[10], d[11])) == st.set_args
}

/// Path `q` holds node `v`, which inherits blocks `st`: a leaf with its value
/// and the blocks in force, or an inner path whose children hold its field keys.
pub open spec fn holds(ix: IndexView, q: int, v: TreeView, st: InForce, ids: Seq<&str>) -> bool
    decreases v, 0int,
{
    &&& 0 <= q < ix.paths.len()
    &&& match v {
        TreeView::Mapping(pairs) => if fields(pairs).len() > 0 {
            &&& !path_is_leaf(ix.paths[q])
            &&& ix.kids(q) matches Some(ks)
            &&& holds_fields(ix, q, ks, pairs, own_blocks(pairs, st, ids), ids)
        } else {
            &&& leaf_holds(ix, ix.paths[q], TreeView::Null)
            &&& leaf_blocks(ix, ix.paths[q], own_blocks(pairs, st, ids))
        },
        _ => leaf_holds(ix, ix.paths[q], v) && leaf_blocks(ix, ix.paths[q], st),
    }
}

/// Children `ks` of path `q` hold the field keys among `pairs`, in order, each
/// inheriting blocks `st`: each comes after `q`, is named by the key and
/// holds its value.
pub open spec fn holds_fields(
    ix: IndexView,
    q: int,
    ks: Seq<u16>,
    pairs: Seq<(Seq<u8>, TreeView)>,
    st: InForce,
    ids: Seq<&str>,
) -> bool
    decreases pairs, 1int,
{
    if pairs.len() == 0 {
        ks.len() == 0
    } else {
        let last = pairs[pairs.len() - 1];
        let rest = pairs.subrange(0, pairs.len() - 1);
        if is_field(last.0) {
            &&& ks.len() > 0
            &&& q < ks[ks.len() - 1] < ix.paths.len()
            &&& key_holds(ix, ks[ks.len() - 1] as int, last.0)
            &&& holds(ix, ks[ks.len() - 1] as int, last.1, st, ids)
            &&& holds_fields(ix, q, ks.subrange(0, ks.len() - 1), rest, st, ids)
        } else {
            holds_fields(ix, q, ks, rest, st, ids)
        }
    }
}

/// The index was compiled from tree `t` with the stores named `ids`: the root's
/// children hold the field keys of `t`, inheriting no block (a tree without
/// field keys gives a root without children).
pub open spec fn compiled_from(ix: IndexView, t: TreeView, ids: Seq<&str>) -> bool {
    if is_inner(t) {
        ix.kids(0) matches Some(ks) && holds_fields(ix, 0, ks, t->Mapping_0, no_blocks(), ids)
    } else {
        ix.kids(0) is None
    }
}

/// `b` keeps what `a` holds from path `p0` on: those paths, the children units
/// from `c0` on that they refer to, and every leaf, value, map unit and word `a` has.
pub open spec fn keeps(a: IndexView, b: IndexView, p0: int, c0: int) -> bool {
    &&& a.paths.len() <= b.paths.len()
    &&& forall|p: int| p0 <= p < a.paths.len() ==> #[trigger] b.paths[p] == a.paths[p]
    &&& forall|p: int| p0 <= p < a.paths.len() ==> path_is_leaf(#[trigger] a.paths[p]) || path_child_id(a.paths[p]) >= c0
    &&& forall|c: int| c >= c0 && (#[trigger] a.children.entry(c)) is Some ==> b.children.entry(c) == a.children.entry(c)
    &&& forall|k: int| (#[trigger] a.leaves.entry(k)) is Some ==> b.leaves.entry(k) == a.leaves.entry(k)
    &&& forall|k: int| (#[trigger] a.map_keys.entry(k)) is Some ==> b.map_keys.entry(k) == a.map_keys.entry(k)
    &&& forall|k: int| (#[trigger] a.map_vals.entry(k)) is Some ==> b.map_vals.entry(k) == a.map_vals.entry(k)
    &&& forall|k: int| (#[trigger] a.values.entry(k)) is Some ==> b.values.entry(k) == a.values.entry(k)
    &&& forall|k: int| (#[trigger] a.words.entry(k)) is Some ==> b.words.entry(k) == a.words.entry(k)
    &&& forall|k: int| (#[trigger] a.args_keys.entry(k)) is Some ==> b.args_keys.entry(k) == a.args_keys.entry(k)
    &&& forall|k: int| (#[trigger] a.args_vals.entry(k)) is Some ==> b.args_vals.entry(k) == a.args_vals.entry(k)
}

proof fn lemma_leaf_holds_keep(a: IndexView, b: IndexView, e: u64, v: TreeView)
    requires
        leaf_holds(a, e, v),
        forall|k: int| (#[trigger] a.values.entry(k)) is Some ==> b.values.entry(k) == a.values.entry(k),
        forall|k: int| (#[trigger] a.words.entry(k)) is Some ==> b.words.entry(k) == a.words.entry(k),
    ensures
        leaf_holds(b, e, v),
{
    if path_value_id(e) != 0 {
        let fr = a.values.entry(path_value_id(e) as int)->0;
        assert(b.values.entry(path_value_id(e) as int) == Some(fr));
        assert forall|i: int| 0 <= i < fr.len() implies (#[trigger] b.words.entry(frag_word_id(fr[i]) as int)) is Some
            && b.word(frag_word_id(fr[i]) as int) == a.word(frag_word_id(fr[i]) as int) by {
            assert(a.words.entry(frag_word_id(fr[i]) as int) is Some);
        }
        assert(b.read_frags(fr) =~= a.read_frags(fr));
    }
}

proof fn lemma_key_read_keep(a: IndexView, b: IndexView, slot: u16)
    requires
        key_known(a, slot),
        forall|k: int| (#[trigger] a.values.entry(k)) is Some ==> b.values.entry(k) == a.values.entry(k),
        forall|k: int| (#[trigger] a.words.entry(k)) is Some ==> b.words.entry(k) == a.words.entry(k),
    ensures
        key_known(b, slot),
        key_read(b, slot) == key_read(a, slot),
{
    if slot != 0 {
        let fr = a.values.entry(slot as int)->0;
        assert(b.values.entry(slot as int) == Some(fr));
        assert forall|i: int| 0 <= i < fr.len() implies (#[trigger] b.words.entry(frag_word_id(fr[i]) as int)) is Some
            && b.word(frag_word_id(fr[i]) as int) == a.word(frag_word_id(fr[i]) as int) by {
            assert(a.words.entry(frag_word_id(fr[i]) as int) is Some);
        }
        assert(b.read_frags(fr) =~= a.read_frags(fr));
    }
}

proof fn lemma_map_read_keep(a: IndexView, b: IndexView, mk: u16, mv: u16)
    requires
        map_known(a, mk, mv),
        forall|k: int| (#[trigger] a.map_keys.entry(k)) is Some ==> b.map_keys.entry(k) == a.map_keys.entry(k),
        forall|k: int| (#[trigger] a.map_vals.entry(k)) is Some ==> b.map_vals.entry(k) == a.map_vals.entry(k),
        forall|k: int| (#[trigger] a.words.entry(k)) is Some ==> b.words.entry(k) == a.words.entry(k),
    ensures
        map_known(b, mk, mv),
        map_read(b, mk, mv) == map_read(a, mk, mv),
{
    if mk != 0 && mv != 0 {
        let d = a.map_keys.entry(mk as int)->0;
        let sr = a.map_vals.entry(mv as int)->0;
        assert(b.map_keys.entry(mk as int) == Some(d));
        assert(b.map_vals.entry(mv as int) == Some(sr));
        assert forall|i: int| 0 <= i < d.len() implies (#[trigger] b.words.entry(d[i] as int)) is Some && b.word(
            d[i] as int,
        ) == a.word(d[i] as int) by {
            assert(a.words.entry(d[i] as int) is Some);
        }
        assert forall|i: int| 0 <= i < sr.len() implies (#[trigger] b.words.entry(sr[i] as int)) is Some && b.word(
            sr[i] as int,
        ) == a.word(sr[i] as int) by {
            assert(a.words.entry(sr[i] as int) is Some);
        }
        assert(map_read(b, mk, mv) =~= map_read(a, mk, mv));
    }
}

proof fn lemma_args_read_keep(a: IndexView, b: IndexView, ak: u16, av: u16)
    requires
        args_known(a, ak, av),
        forall|k: int| (#[trigger] a.args_keys.entry(k)) is Some ==> b.args_keys.entry(k) == a.args_keys.entry(k),
        forall|k: int| (#[trigger] a.args_vals.entry(k)) is Some ==> b.args_vals.entry(k) == a.args_vals.entry(k),
        forall|k: int| (#[trigger] a.values.entry(k)) is Some ==> b.values.entry(k) == a.values.entry(k),
        forall|k: int| (#[trigger] a.words.entry(k)) is Some ==> b.words.entry(k) == a.words.entry(k),
    ensures
        args_known(b, ak, av),
        args_read(b, ak, av) == args_read(a, ak, av),
{
    if ak != 0 && av != 0 {
        let ks = a.args_keys.entry(ak as int)->0;
        let vs = a.args_vals.entry(av as int)->0;
        assert(b.args_keys.entry(ak as int) == Some(ks));
        assert(b.args_vals.entry(av as int) == Some(vs));
        assert forall|i: int| 0 <= i < ks.len() implies (#[trigger] b.words.entry(ks[i] as int)) is Some && b.word(
            ks[i] as int,
        ) == a.word(ks[i] as int) by {
            assert(a.words.entry(ks[i] as int) is Some);
        }
        assert forall|i: int| 0 <= i < vs.len() implies key_known(b, #[trigger] vs[i]) && key_read(b, vs[i]) == key_read(
            a,
            vs[i],
        ) by {
            lemma_key_read_keep(a, b, vs[i]);
        }
        assert(args_read(b, ak, av) =~= args_read(a, ak, av));
    }
}

proof fn lemma_leaf_blocks_keep(a: IndexView, b: IndexView, e: u64, st: InForce)
    requires
        leaf_blocks(a, e, st),
        forall|k: int| (#[trigger] a.leaves.entry(k)) is Some ==> b.leaves.entry(k) == a.leaves.entry(k),
        forall|k: int| (#[trigger] a.map_keys.entry(k)) is Some ==> b.map_keys.entry(k) == a.map_keys.entry(k),
        forall|k: int| (#[trigger] a.map_vals.entry(k)) is Some ==> b.map_vals.entry(k) == a.map_vals.entry(k),
        forall|k: int| (#[trigger] a.values.entry(k)) is Some ==> b.values.entry(k) == a.values.entry(k),
        forall|k: int| (#[trigger] a.words.entry(k)) is Some ==> b.words.entry(k) == a.words.entry(k),
        forall|k: int| (#[trigger] a.args_keys.entry(k)) is Some ==> b.args_keys.entry(k) == a.args_keys.entry(k),
        forall|k: int| (#[trigger] a.args_vals.entry(k)) is Some ==> b.args_vals.entry(k) == a.args_vals.entry(k),
    ensures
        leaf_blocks(b, e, st),
{
    let d = a.leaves.entry(path_child_id(e) as int)->0;
    assert(b.leaves.entry(path_child_id(e) as int) == Some(d));
    lemma_key_read_keep(a, b, d[1]);
    lemma_key_read_keep(a, b, d[3]);
    lemma_map_read_keep(a, b, d[4], d[5]);
    lemma_map_read_keep(a, b, d[8], d[9]);
    lemma_args_read_keep(a, b, d[6], d[7]);
    lemma_args_read_keep(a, b, d[10], d[11]);
}

/// What path `q` holds is kept by an index that keeps `q` and what follows it.
pub proof fn lemma_holds_keep(
    a: IndexView,
    b: IndexView,
    q: int,
    v: TreeView,
    st: InForce,
    ids: Seq<&str>,
    p0: int,
    c0: int,
)
    requires
        holds(a, q, v, st, ids),
        p0 <= q,
        keeps(a, b, p0, c0),
    ensures
        holds(b, q, v, st, ids),
    decreases v, 0int,
{
    assert(b.paths[q] == a.paths[q]);
    let e = a.paths[q];
    match v {
        TreeView::Mapping(pairs) => {
            if fields(pairs).len() > 0 {
                let ks = a.kids(q)->0;
                assert(path_child_id(a.paths[q]) >= c0);
                assert(a.children.entry(path_child_id(a.paths[q]) as int) is Some);
                assert(b.kids(q) == Some(ks));
                lemma_holds_fields_keep(a, b, q, ks, pairs, own_blocks(pairs, st, ids), ids, p0, c0);
            } else {
                lemma_leaf_holds_keep(a, b, e, TreeView::Null);
                lemma_leaf_blocks_keep(a, b, e, own_blocks(pairs, st, ids));
            }
        },
        _ => {
            lemma_leaf_holds_keep(a, b, e, v);
            lemma_leaf_blocks_keep(a, b, e, st);
        },
    }
}

/// What children hold is kept likewise.
pub proof fn lemma_holds_fields_keep(
    a: IndexView,
    b: IndexView,
    q: int,
    ks: Seq<u16>,
    pairs: Seq<(Seq<u8>, TreeView)>,
    st: InForce,
    ids: Seq<&str>,
    p0: int,
    c0: int,
)
    requires
        holds_fields(a, q, ks, pairs, st, ids),
        p0 <= q + 1,
        keeps(a, b, p0, c0),
    ensures
        holds_fields(b, q, ks, pairs, st, ids),
    decreases pairs, 1int,
{
    if pairs.len() > 0 {
        let last = pairs[pairs.len() - 1];
        let rest = pairs.subrange(0, pairs.len() - 1);
        if is_field(last.0) {
            let k = ks[ks.len() - 1] as int;
            assert(b.paths[k] == a.paths[k]);
            assert(a.words.entry(path_keyword_id(a.paths[k]) as int) is Some);
            lemma_holds_keep(a, b, k, last.1, st, ids, p0, c0);
            lemma_holds_fields_keep(a, b, q, ks.subrange(0, ks.len() - 1), rest, st, ids, p0, c0);
        } else {
            lemma_holds_fields_keep(a, b, q, ks, rest, st, ids, p0, c0);
        }
    }
}

/// Position of the first of `fs` keyed `k`, or -1.
pub open spec fn first_pos(fs: Seq<(Seq<u8>, TreeView)>, k: Seq<u8>) -> int
    decreases fs.len(),
{
    if fs.len() == 0 {
        -1
    } else if fs[0].0 == k {
        0
    } else {
        let p = first_pos(fs.subrange(1, fs.len() as int), k);
        if p < 0 {
            -1
        } else {
            p + 1
        }
    }
}

proof fn lemma_first_pos(fs: Seq<(Seq<u8>, TreeView)>, k: Seq<u8>)
    ensures
        -1 <= first_pos(fs, k) < fs.len(),
        first_pos(fs, k) >= 0 ==> fs[first_pos(fs, k)].0 == k,
    decreases fs.len(),
{
    if fs.len() > 0 && fs[0].0 != k {
        lemma_first_pos(fs.subrange(1, fs.len() as int), k);
    }
}

/// The value of the first field key of `v` named `k` (none when `v` is not a mapping).
pub open spec fn field_named(v: TreeView, k: Seq<u8>) -> Option<TreeView> {
    match v {
        TreeView::Mapping(pairs) => {
            let p = first_pos(fields(pairs), k);
            if p < 0 {
                None
            } else {
                Some(fields(pairs)[p].1)
            }
        },
        _ => None,
    }
}

/// The node that `segs` names below `v`, each segment a field key.
pub open spec fn node_at(v: TreeView, segs: Seq<Seq<u8>>) -> Option<TreeView>
    decreases segs.len(),
{
    if segs.len() == 0 {
        Some(v)
    } else {
        match field_named(v, segs[0]) {
            Some(c) => node_at(c, segs.subrange(1, segs.len() as int)),
            None => None,
        }
    }
}

/// The leaf values under a node, depth first, field keys in order.
pub open spec fn leaves_of(v: TreeView) -> Seq<TreeView>
    decreases v, 0int,
{
    match v {
        TreeView::Mapping(pairs) => if fields(pairs).len() > 0 {
            leaves_fields(pairs)
        } else {
            seq![TreeView::Null]
        },
        _ => seq![v],
    }
}

/// The leaf values under the field keys among `pairs`, in order.
pub open spec fn leaves_fields(pairs: Seq<(Seq<u8>, TreeView)>) -> Seq<TreeView>
    decreases pairs, 1int,
{
    if pairs.len() == 0 {
        Seq::empty()
    } else {
        let last = pairs[pairs.len() - 1];
        let rest = pairs.subrange(0, pairs.len() - 1);
        if is_field(last.0) {
            leaves_fields(rest) + leaves_of(last.1)
        } else {
            leaves_fields(rest)
        }
    }
}

/// The blocks inherited by the node that `segs` names below `v`, where `v`
/// inherits `st`: each mapping on the way passes on its own.
pub open spec fn blocks_along(v: TreeView, segs: Seq<Seq<u8>>, st: InForce, ids: Seq<&str>) -> InForce
    decreases segs.len(),
{
    if segs.len() == 0 {
        st
    } else {
        match v {
            TreeView::Mapping(pairs) => match field_named(v, segs[0]) {
                Some(c) => blocks_along(c, segs.subrange(1, segs.len() as int), own_blocks(pairs, st, ids), ids),
                None => st,
            },
            _ => st,
        }
    }
}

/// The blocks in force at the leaves under a node that inherits `st`, in the
/// order of [`leaves_of`].
pub open spec fn blocks_of_leaves(v: TreeView, st: InForce, ids: Seq<&str>) -> Seq<InForce>
    decreases v, 0int,
{
    match v {
        TreeView::Mapping(pairs) => if fields(pairs).len() > 0 {
            blocks_fields(pairs, own_blocks(pairs, st, ids), ids)
        } else {
            seq![own_blocks(pairs, st, ids)]
        },
        _ => seq![st],
    }
}

/// The blocks in force at the leaves under the field keys among `pairs`, which inherit `st`.
pub open spec fn blocks_fields(pairs: Seq<(Seq<u8>, TreeView)>, st: InForce, ids: Seq<&str>) -> Seq<InForce>
    decreases pairs, 1int,
{
    if pairs.len() == 0 {
        Seq::empty()
    } else {
        let last = pairs[pairs.len() - 1];
        let rest = pairs.subrange(0, pairs.len() - 1);
        if is_field(last.0) {
            blocks_fields(rest, st, ids) + blocks_of_leaves(last.1, st, ids)
        } else {
            blocks_fields(rest, st, ids)
        }
    }
}

/// The leaf values under the node that the key path `segs` names in tree `t`;
/// none when it names no node.
pub open spec fn source_leaves(t: TreeView, segs: Seq<Seq<u8>>) -> Seq<TreeView> {
    if segs.len() == 0 {
        Seq::empty()
    } else {
        match field_named(t, segs[0]) {
            Some(c) => match node_at(c, segs.subrange(1, segs.len() as int)) {
                Some(n) => leaves_of(n),
                None => Seq::empty(),
            },
            None => Seq::empty(),
        }
    }
}

/// The blocks in force at the leaves under the node that the key path `segs`
/// names in tree `t` (compiled with the stores named `ids`); none when it names
/// no node.
pub open spec fn source_blocks(t: TreeView, segs: Seq<Seq<u8>>, ids: Seq<&str>) -> Seq<InForce> {
    if segs.len() == 0 {
        Seq::empty()
    } else {
        match field_named(t, segs[0]) {
            Some(c) => {
                let rest = segs.subrange(1, segs.len() as int);
                match node_at(c, rest) {
                    Some(n) => blocks_of_leaves(n, blocks_along(c, rest, no_blocks(), ids), ids),
                    None => Seq::empty(),
                }
            },
            None => Seq::empty(),
        }
    }
}

/// The key fragments that slot `k` of a leaf's data refers to.
pub open spec fn leaf_key(ix: IndexView, l: LeafRef, k: int) -> Seq<(bool, Seq<u8>)> {
    match ix.leaf_data(l) {
        Some(d) => key_read(ix, d[k]),
        None => Seq::empty(),
    }
}

/// The field mapping that slots `k` and `k + 1` of a leaf's data refer to.
pub open spec fn leaf_map(ix: IndexView, l: LeafRef, k: int) -> Seq<(Seq<u8>, Seq<u8>)> {
    match ix.leaf_data(l) {
        Some(d) => map_read(ix, d[k], d[k + 1]),
        None => Seq::empty(),
    }
}

/// The further arguments that slots `k` and `k + 1` of a leaf's data refer to, as a map.
pub open spec fn leaf_args(ix: IndexView, l: LeafRef, k: int) -> Map<Seq<u8>, Seq<(bool, Seq<u8>)>> {
    match ix.leaf_data(l) {
        Some(d) => args_map(args_read(ix, d[k], d[k + 1])),
        None => Map::empty(),
    }
}

/// The blocks each leaf reads: its `_get` and `_set` store ids (as the
/// arguments for a store call give them), key fragments, field mappings and
/// further arguments.
pub open spec fn blocks_read(ix: IndexView, ls: Seq<LeafRef>) -> Seq<InForce> {
    Seq::new(
        ls.len(),
        |i: int|
            InForce {
                get_store: ix.meta(ls[i], true).0,
                get_key: leaf_key(ix, ls[i], 1),
                get_map: leaf_map(ix, ls[i], 4),
                get_args: leaf_args(ix, ls[i], 6),
                set_store: ix.meta(ls[i], false).0,
                set_key: leaf_key(ix, ls[i], 3),
                set_map: leaf_map(ix, ls[i], 8),
                set_args: leaf_args(ix, ls[i], 10),
            },
    )
}

proof fn lemma_blocks_read_add(ix: IndexView, a: Seq<LeafRef>, b: Seq<LeafRef>)
    ensures
        blocks_read(ix, a + b) == blocks_read(ix, a) + blocks_read(ix, b),
{
    assert(blocks_read(ix, a + b) =~= blocks_read(ix, a) + blocks_read(ix, b));
}

/// The fragments of each leaf.
pub open spec fn frags_of(ix: IndexView, ls: Seq<LeafRef>) -> Seq<Seq<(bool, Seq<u8>)>> {
    Seq::new(ls.len(), |i: int| ix.fragments(ls[i]))
}

/// The fragments of each value.
pub open spec fn segs_of(vs: Seq<TreeView>) -> Seq<Seq<(bool, Seq<u8>)>> {
    Seq::new(vs.len(), |i: int| value_segments(vs[i]))
}

proof fn lemma_frags_of_add(ix: IndexView, a: Seq<LeafRef>, b: Seq<LeafRef>)
    ensures
        frags_of(ix, a + b) == frags_of(ix, a) + frags_of(ix, b),
{
    assert(frags_of(ix, a + b) =~= frags_of(ix, a) + frags_of(ix, b));
}

proof fn lemma_segs_of_add(a: Seq<TreeView>, b: Seq<TreeView>)
    ensures
        segs_of(a + b) == segs_of(a) + segs_of(b),
{
    assert(segs_of(a + b) =~= segs_of(a) + segs_of(b));
}

/// Children that hold the field keys of `pairs`, one by one.
proof fn lemma_holds_fields_each(
    ix: IndexView,
    q: int,
    ks: Seq<u16>,
    pairs: Seq<(Seq<u8>, TreeView)>,
    st: InForce,
    ids: Seq<&str>,
)
    requires
        holds_fields(ix, q, ks, pairs, st, ids),
    ensures
        ks.len() == fields(pairs).len(),
        forall|j: int|
            0 <= j < ks.len() ==> q < #[trigger] ks[j] < ix.paths.len() && key_holds(ix, ks[j] as int, fields(pairs)[j].0)
                && holds(ix, ks[j] as int, fields(pairs)[j].1, st, ids),
    decreases pairs.len(),
{
    if pairs.len() > 0 {
        let last = pairs[pairs.len() - 1];
        let rest = pairs.subrange(0, pairs.len() - 1);
        assert(pairs.drop_last() == rest);
        if is_field(last.0) {
            let kr = ks.subrange(0, ks.len() - 1);
            lemma_holds_fields_each(ix, q, kr, rest, st, ids);
            assert forall|j: int| 0 <= j < ks.len() implies q < #[trigger] ks[j] < ix.paths.len() && key_holds(
                ix,
                ks[j] as int,
                fields(pairs)[j].0,
            ) && holds(ix, ks[j] as int, fields(pairs)[j].1, st, ids) by {
                if j < kr.len() {
                    assert(ks[j] == kr[j]);
                }
            }
        } else {
            lemma_holds_fields_each(ix, q, ks, rest, st, ids);
        }
    }
}

/// Looking a child up by name finds the child at the first field key of that name.
proof fn lemma_child_named(ix: IndexView, ks: Seq<u16>, fs: Seq<(Seq<u8>, TreeView)>, k: Seq<u8>)
    requires
        ks.len() == fs.len(),
        forall|j: int| 0 <= j < ks.len() ==> key_holds(ix, #[trigger] ks[j] as int, fs[j].0),
    ensures
        ix.child_named(ks, k) == (if first_pos(fs, k) < 0 {
            None
        } else {
            Some(ks[first_pos(fs, k)])
        }),
    decreases ks.len(),
{
    if ks.len() > 0 {
        assert(key_holds(ix, ks[0] as int, fs[0].0));
        assert(ix.keyword(ks[0] as int) == fs[0].0);
        if fs[0].0 != k {
            let kr = ks.subrange(1, ks.len() as int);
            let fr = fs.subrange(1, fs.len() as int);
            assert forall|j: int| 0 <= j < kr.len() implies key_holds(ix, #[trigger] kr[j] as int, fr[j].0) by {
                assert(kr[j] == ks[j + 1]);
                assert(key_holds(ix, ks[j + 1] as int, fs[j + 1].0));
            }
            lemma_child_named(ix, kr, fr, k);
            lemma_first_pos(fr, k);
            let pr = first_pos(fr, k);
            if pr >= 0 {
                assert(kr[pr] == ks[pr + 1]);
            }
        }
    }
}

/// Following key segments from a path that holds `v` leads to the path that
/// holds the node they name, and nowhere when they name none.
pub proof fn lemma_find_holds(ix: IndexView, q: int, v: TreeView, st: InForce, ids: Seq<&str>, segs: Seq<Seq<u8>>)
    requires
        ix.wf(),
        holds(ix, q, v, st, ids),
    ensures
        match node_at(v, segs) {
            Some(n) => ix.find_from(q, segs) matches Some(p) && holds(ix, p as int, n, blocks_along(v, segs, st, ids), ids),
            None => ix.find_from(q, segs) is None,
        },
    decreases segs.len(),
{
    if segs.len() == 0 {
        assert((q as u16) as int == q);
    } else {
        let rest = segs.subrange(1, segs.len() as int);
        match v {
            TreeView::Mapping(pairs) => {
                if fields(pairs).len() > 0 {
                    let ks = ix.kids(q)->0;
                    let fs = fields(pairs);
                    lemma_holds_fields_each(ix, q, ks, pairs, own_blocks(pairs, st, ids), ids);
                    lemma_child_named(ix, ks, fs, segs[0]);
                    lemma_first_pos(fs, segs[0]);
                    let p = first_pos(fs, segs[0]);
                    if p >= 0 {
                        lemma_find_holds(ix, ks[p] as int, fs[p].1, own_blocks(pairs, st, ids), ids, rest);
                    }
                } else {
                    assert(first_pos(fields(pairs), segs[0]) == -1);
                }
            },
            _ => {},
        }
    }
}

/// The leaves under the first `n` children, then those of the last.
proof fn lemma_collect_list_last(ix: IndexView, ks: Seq<u16>, q: int)
    requires
        ks.len() > 0,
        q < ks[ks.len() - 1] < ix.paths.len(),
    ensures
        ix.collect_list(ks, q) == ix.collect_list(ks.subrange(0, ks.len() - 1), q) + ix.collect(
            ks[ks.len() - 1] as int,
        ),
    decreases ks.len(),
{
    let kd = ks.subrange(0, ks.len() - 1);
    if ks.len() == 1 {
        assert(kd.len() == 0);
        assert(ks.subrange(1, 1).len() == 0);
        assert(ix.collect_list(ks.subrange(1, 1), q) == Seq::<LeafRef>::empty());
        assert(ix.collect_list(ks, q) =~= ix.collect(ks[0] as int));
    } else {
        let kr = ks.subrange(1, ks.len() as int);
        lemma_collect_list_last(ix, kr, q);
        assert(kr.subrange(0, kr.len() - 1) =~= kd.subrange(1, kd.len() as int));
        assert(kd[0] == ks[0]);
        let head = if q < ks[0] < ix.paths.len() {
            ix.collect(ks[0] as int)
        } else {
            Seq::empty()
        };
        assert(ix.collect_list(ks, q) == head + ix.collect_list(kr, q));
        assert(ix.collect_list(kd, q) == head + ix.collect_list(kd.subrange(1, kd.len() as int), q));
        assert(head + (ix.collect_list(kd.subrange(1, kd.len() as int), q) + ix.collect(ks[ks.len() - 1] as int))
            =~= (head + ix.collect_list(kd.subrange(1, kd.len() as int), q)) + ix.collect(ks[ks.len() - 1] as int));
    }
}

/// A path that holds a node collects its leaf values' fragments.
pub proof fn lemma_collect_holds(ix: IndexView, q: int, v: TreeView, st: InForce, ids: Seq<&str>)
    requires
        ix.wf(),
        holds(ix, q, v, st, ids),
    ensures
        frags_of(ix, ix.collect(q)) == segs_of(leaves_of(v)),
        blocks_read(ix, ix.collect(q)) == blocks_of_leaves(v, st, ids),
    decreases v, 0int,
{
    let e = ix.paths[q];
    if is_inner(v) {
        let pairs = v->Mapping_0;
        let ks = ix.kids(q)->0;
        lemma_collect_fields(ix, q, ks, pairs, own_blocks(pairs, st, ids), ids);
    } else {
        assert(path_is_leaf(e));
        lemma_value_id_fits(e);
        lemma_child_id_fits(e);
        let lv = leaf_value(v);
        let ls = match v {
            TreeView::Mapping(pairs) => own_blocks(pairs, st, ids),
            _ => st,
        };
        assert(leaf_holds(ix, e, lv));
        assert(leaf_blocks(ix, e, ls));
        let l = ix.leaf_ref(q);
        assert(ix.collect(q) == seq![l]);
        assert(ix.fragments(l) == value_segments(lv));
        assert(leaves_of(v) == seq![lv]);
        assert(frags_of(ix, ix.collect(q)) =~= segs_of(leaves_of(v)));
        let d = ix.leaves.entry(path_child_id(e) as int)->0;
        assert(ix.leaf_data(l) == Some(d));
        assert(ix.meta(l, true).0 == ls.get_store);
        assert(ix.meta(l, false).0 == ls.set_store);
        assert(leaf_key(ix, l, 1) == ls.get_key);
        assert(leaf_key(ix, l, 3) == ls.set_key);
        assert(leaf_map(ix, l, 4) == ls.get_map);
        assert(leaf_map(ix, l, 8) == ls.set_map);
        assert(leaf_args(ix, l, 6) == ls.get_args);
        assert(leaf_args(ix, l, 10) == ls.set_args);
        assert(blocks_of_leaves(v, st, ids) == seq![ls]);
        assert(blocks_read(ix, ix.collect(q)) =~= blocks_of_leaves(v, st, ids));
    }
}

/// Children that hold field keys collect the fragments of their leaf values, in order.
pub proof fn lemma_collect_fields(
    ix: IndexView,
    q: int,
    ks: Seq<u16>,
    pairs: Seq<(Seq<u8>, TreeView)>,
    st: InForce,
    ids: Seq<&str>,
)
    requires
        ix.wf(),
        holds_fields(ix, q, ks, pairs, st, ids),
    ensures
        frags_of(ix, ix.collect_list(ks, q)) == segs_of(leaves_fields(pairs)),
        blocks_read(ix, ix.collect_list(ks, q)) == blocks_fields(pairs, st, ids),
    decreases pairs, 1int,
{
    if pairs.len() == 0 {
        assert(frags_of(ix, ix.collect_list(ks, q)) =~= segs_of(leaves_fields(pairs)));
        assert(blocks_read(ix, ix.collect_list(ks, q)) =~= blocks_fields(pairs, st, ids));
    } else {
        let last = pairs[pairs.len() - 1];
        let rest = pairs.subrange(0, pairs.len() - 1);
        if is_field(last.0) {
            let kd = ks.subrange(0, ks.len() - 1);
            let k = ks[ks.len() - 1] as int;
            lemma_collect_list_last(ix, ks, q);
            lemma_collect_fields(ix, q, kd, rest, st, ids);
            lemma_collect_holds(ix, k, last.1, st, ids);
            lemma_frags_of_add(ix, ix.collect_list(kd, q), ix.collect(k));
            lemma_segs_of_add(leaves_fields(rest), leaves_of(last.1));
            lemma_blocks_read_add(ix, ix.collect_list(kd, q), ix.collect(k));
        } else {
            lemma_collect_fields(ix, q, ks, rest, st, ids);
        }
    }
}

proof fn lemma_value_id_fits(e: u64)
    ensures
        path_value_id(e) < 0x10000,
{
    assert(e & 0xffffu64 < 0x10000u64) by (bit_vector);
}

proof fn lemma_child_id_fits(e: u64)
    ensures
        path_child_id(e) < 0x10000,
{
    assert((e & 0x0000_0000_ffff_0000u64) >> 16u64 < 0x10000u64) by (bit_vector);
}

/// Reading back a compiled DSL: traversing a dotted `path` gives one leaf per
/// leaf value under the node that `path` names in the source tree, depth first
/// and field keys in order, each reading as the fragments of that value (its
/// text, with `${...}` placeholders) and carrying the `_get` and `_set` blocks in
/// force there: each field (`store`, `key`, `map`) as the nearest block on the
/// way sets it, a node's own block first, unset fields inherited, except that a
/// block naming a `store` without a `map` drops the inherited mapping; each
/// further argument likewise, keyword by keyword; it gives nothing when `path`
/// names no node.
pub proof fn law_traverse_reads_source(ix: IndexView, t: TreeView, ids: Seq<&str>, path: Seq<u8>)
    requires
        ix.wf(),
        compiled_from(ix, t, ids),
    ensures
        frags_of(ix, ix.traverse(path)) == segs_of(source_leaves(t, split_dots(path))),
        blocks_read(ix, ix.traverse(path)) == source_blocks(t, split_dots(path), ids),
{
    let segs = split_dots(path);
    assert(segs.len() > 0);
    let rest = segs.subrange(1, segs.len() as int);
    assert(ix.find_from(0, segs) == match ix.find_child(0, segs[0]) {
        Some(c) => ix.find_from(c as int, rest),
        None => None,
    });
    if is_inner(t) {
        let pairs = t->Mapping_0;
        let ks = ix.kids(0)->0;
        let fs = fields(pairs);
        let st0 = no_blocks();
        lemma_holds_fields_each(ix, 0, ks, pairs, st0, ids);
        lemma_child_named(ix, ks, fs, segs[0]);
        lemma_first_pos(fs, segs[0]);
        let p = first_pos(fs, segs[0]);
        if p >= 0 {
            lemma_find_holds(ix, ks[p] as int, fs[p].1, st0, ids, rest);
            match node_at(fs[p].1, rest) {
                Some(n) => {
                    let r = ix.find_from(ks[p] as int, rest)->0;
                    lemma_collect_holds(ix, r as int, n, blocks_along(fs[p].1, rest, st0, ids), ids);
                },
                None => {
                    assert(frags_of(ix, ix.traverse(path)) =~= segs_of(source_leaves(t, segs)));
                    assert(blocks_read(ix, ix.traverse(path)) =~= source_blocks(t, segs, ids));
                },
            }
        } else {
            assert(frags_of(ix, ix.traverse(path)) =~= segs_of(source_leaves(t, segs)));
            assert(blocks_read(ix, ix.traverse(path)) =~= source_blocks(t, segs, ids));
        }
    } else {
        if t is Mapping {
            assert(first_pos(fields(t->Mapping_0), segs[0]) == -1);
        }
        assert(frags_of(ix, ix.traverse(path)) =~= segs_of(source_leaves(t, segs)));
        assert(blocks_read(ix, ix.traverse(path)) =~= source_blocks(t, segs, ids));
    }
}

/// Children holding field keys, extended by one more field key held by `k`.
pub proof fn lemma_holds_fields_push(
    ix: IndexView,
    q: int,
    ks: Seq<u16>,
    pairs: Seq<(Seq<u8>, TreeView)>,
    kv: (Seq<u8>, TreeView),
    k: u16,
    st: InForce,
    ids: Seq<&str>,
)
    requires
        holds_fields(ix, q, ks, pairs, st, ids),
        is_field(kv.0),
        q < k < ix.paths.len(),
        key_holds(ix, k as int, kv.0),
        holds(ix, k as int, kv.1, st, ids),
    ensures
        holds_fields(ix, q, ks.push(k), pairs.push(kv), st, ids),
{
    assert(pairs.push(kv).subrange(0, pairs.len() as int) =~= pairs);
    assert(ks.push(k).subrange(0, ks.len() as int) =~= ks);
}

/// Children holding field keys, past a key that is not a field key.
pub proof fn lemma_holds_fields_skip(
    ix: IndexView,
    q: int,
    ks: Seq<u16>,
    pairs: Seq<(Seq<u8>, TreeView)>,
    kv: (Seq<u8>, TreeView),
    st: InForce,
    ids: Seq<&str>,
)
    requires
        holds_fields(ix, q, ks, pairs, st, ids),
        !is_field(kv.0),
    ensures
        holds_fields(ix, q, ks, pairs.push(kv), st, ids),
{
    assert(pairs.push(kv).subrange(0, pairs.len() as int) =~= pairs);
}

// ── the field mapping a store call gets ─────────────────────────────────────

/// A field mapping as the `map` argument of a store call: each destination
/// word with its source word as text, in order; none for an empty mapping.
pub open spec fn map_value(m: Seq<(Seq<u8>, Seq<u8>)>) -> Option<TreeView> {
    if m.len() == 0 {
        None
    } else {
        Some(TreeView::Mapping(Seq::new(m.len(), |i: int| (m[i].0, TreeView::Scalar(m[i].1)))))
    }
}

/// A word that reads as the text `map` is the word `map`.
proof fn lemma_map_text_word(w: Seq<u8>)
    requires
        text_or_empty(w) == map_text(),
    ensures
        w == prop_map_word(),
{
    if !valid_utf8(w) {
        assert(text_or_empty(w).len() == 0);
        assert(map_text().len() == 3);
    }
    vstd::utf8::decode_utf8_encode_utf8(w);
    assert(encode_utf8(map_text()) == prop_map_word()) by {
        let c = map_text();
        assert(('m' as u32) == 0x6du32);
        assert(('a' as u32) == 0x61u32);
        assert(('p' as u32) == 0x70u32);
        assert(vstd::utf8::encode_scalar(0x6du32) =~= seq![0x6du8]) by {
            assert((0x6du32 & 0x7Fu32) as u8 == 0x6du8) by (bit_vector);
        }
        assert(vstd::utf8::encode_scalar(0x61u32) =~= seq![0x61u8]) by {
            assert((0x61u32 & 0x7Fu32) as u8 == 0x61u8) by (bit_vector);
        }
        assert(vstd::utf8::encode_scalar(0x70u32) =~= seq![0x70u8]) by {
            assert((0x70u32 & 0x7Fu32) as u8 == 0x70u8) by (bit_vector);
        }
        assert(c.drop_first() =~= seq!['a', 'p']);
        assert(seq!['a', 'p'].drop_first() =~= seq!['p']);
        assert(seq!['p'].drop_first() =~= Seq::<char>::empty());
        assert(encode_utf8(Seq::<char>::empty()) =~= Seq::<u8>::empty());
        assert(encode_utf8(seq!['p']) =~= seq![0x70u8]);
        assert(encode_utf8(seq!['a', 'p']) =~= seq![0x61u8, 0x70u8]);
        assert(encode_utf8(c) =~= seq![0x6du8, 0x61u8, 0x70u8]);
    }
}

/// Every non-empty keyword of `s` is bound in its map.
proof fn lemma_args_map_dom(s: Seq<(Seq<u8>, Seq<(bool, Seq<u8>)>)>, j: int)
    requires
        0 <= j < s.len(),
        s[j].0.len() > 0,
    ensures
        args_map(s).dom().contains(s[j].0),
    decreases s.len(),
{
    if j < s.len() - 1 {
        assert(s.drop_last()[j] == s[j]);
        lemma_args_map_dom(s.drop_last(), j);
    }
}

/// Further arguments none of whose keywords reads as `k` leave `k` as it was.
proof fn lemma_scalar_args_keep(
    ix: IndexView,
    a: Seq<(Seq<char>, TreeView)>,
    keys: Seq<u16>,
    vals: Seq<u16>,
    n: int,
    k: Seq<char>,
)
    requires
        k.len() > 0,
        forall|j: int| 0 <= j < n ==> text_or_empty(ix.word(#[trigger] keys[j] as int)) != k,
    ensures
        args_lookup(ix.scalar_args(a, keys, vals, n), k) == args_lookup(a, k),
    decreases n,
{
    if n > 0 {
        lemma_scalar_args_keep(ix, a, keys, vals, n - 1, k);
        let b = ix.scalar_args(a, keys, vals, n - 1);
        let kw = text_or_empty(ix.word(keys[n - 1] as int));
        assert(kw != k);
        if kw.len() != 0 {
            law_lookup_after_insert(b, kw, ix.arg_value(vals[n - 1]), k);
        }
    }
}

/// The store key argument is never `map`.
proof fn lemma_key_arg_no_map(ix: IndexView, kid: u16)
    ensures
        args_lookup(ix.key_arg(Seq::empty(), kid), map_text()) is None,
{
    assert(key_text() != map_text()) by {
        assert(key_text()[0] != map_text()[0]);
    }
    if kid != 0 {
        if let Some(fr) = ix.values.entry(kid as int) {
            let k = crate::index::static_text(ix, fr);
            if k.len() > 0 {
                law_lookup_after_insert(
                    Seq::empty(),
                    key_text(),
                    TreeView::Scalar(encode_utf8(k)),
                    map_text(),
                );
            }
        }
    }
}

/// Adding a block's field mapping binds `map` to it (see [`map_value`]).
proof fn lemma_map_arg(ix: IndexView, a: Seq<(Seq<char>, TreeView)>, mk: u16, mv: u16)
    requires
        args_lookup(a, map_text()) is None,
    ensures
        args_lookup(ix.map_arg(a, mk, mv), map_text()) == map_value(map_read(ix, mk, mv)),
{
    if mk != 0 && mv != 0 {
        match (ix.map_keys.entry(mk as int), ix.map_vals.entry(mv as int)) {
            (Some(d), Some(sr)) => {
                let pairs = ix.map_pairs(d, sr);
                let m = map_read(ix, mk, mv);
                if pairs.len() > 0 {
                    law_lookup_after_insert(a, map_text(), TreeView::Mapping(pairs), map_text());
                    assert(pairs =~= Seq::new(m.len(), |i: int| (m[i].0, TreeView::Scalar(m[i].1))));
                }
            },
            _ => {},
        }
    }
}

/// The `map` argument a leaf's `_get` (`get`) or `_set` block hands its store
/// is the block's field mapping, pair by pair in order (see [`map_value`]),
/// unless a further argument of the block is itself named `map`.
pub proof fn law_meta_map(ix: IndexView, l: LeafRef, get: bool)
    requires
        ix.meta(l, get).0 != 0,
        !leaf_args(ix, l, if get { 6 } else { 10 }).dom().contains(prop_map_word()),
    ensures
        args_lookup(ix.meta(l, get).1, map_text()) == map_value(leaf_map(ix, l, if get { 4 } else { 8 })),
{
    let d = ix.leaf_data(l)->0;
    let (s, k, mk, mv, ak, av) = meta_slots(get);
    let a1 = ix.key_arg(Seq::empty(), d[k]);
    lemma_key_arg_no_map(ix, d[k]);
    let a2 = ix.map_arg(a1, d[mk], d[mv]);
    lemma_map_arg(ix, a1, d[mk], d[mv]);
    if d[ak] != 0 && d[av] != 0 {
        match (ix.args_keys.entry(d[ak] as int), ix.args_vals.entry(d[av] as int)) {
            (Some(ks), Some(vs)) => {
                let n = if ks.len() < vs.len() { ks.len() as int } else { vs.len() as int };
                let rd = args_read(ix, d[ak], d[av]);
                assert forall|j: int| 0 <= j < n implies text_or_empty(ix.word(#[trigger] ks[j] as int)) != map_text() by {
                    if text_or_empty(ix.word(ks[j] as int)) == map_text() {
                        lemma_map_text_word(ix.word(ks[j] as int));
                        assert(rd[j].0 == ix.word(ks[j] as int));
                        lemma_args_map_dom(rd, j);
                    }
                }
                lemma_scalar_args_keep(ix, a2, ks, vs, n, map_text());
            },
            _ => {},
        }
    }
}

/// The blocks `st` pass on no further argument named `map`.
pub open spec fn args_free_of_map(st: InForce) -> bool {
    &&& !st.get_args.dom().contains(prop_map_word())
    &&& !st.set_args.dom().contains(prop_map_word())
}

proof fn lemma_props_args_no_map(props: Seq<(Seq<u8>, TreeView)>, base: Map<Seq<u8>, Seq<(bool, Seq<u8>)>>)
    requires
        !base.dom().contains(prop_map_word()),
    ensures
        !props_args(props, base).dom().contains(prop_map_word()),
    decreases props.len(),
{
    if props.len() > 0 {
        lemma_props_args_no_map(props.drop_last(), base);
    }
}

proof fn lemma_own_blocks_no_map(pairs: Seq<(Seq<u8>, TreeView)>, st: InForce, ids: Seq<&str>)
    requires
        args_free_of_map(st),
    ensures
        args_free_of_map(own_blocks(pairs, st, ids)),
{
    match lookup(pairs, meta_get_word()) {
        Some(TreeView::Mapping(props)) => lemma_props_args_no_map(props, st.get_args),
        _ => {},
    }
    match lookup(pairs, meta_set_word()) {
        Some(TreeView::Mapping(props)) => lemma_props_args_no_map(props, st.set_args),
        _ => {},
    }
}

proof fn lemma_blocks_along_no_map(v: TreeView, segs: Seq<Seq<u8>>, st: InForce, ids: Seq<&str>)
    requires
        args_free_of_map(st),
    ensures
        args_free_of_map(blocks_along(v, segs, st, ids)),
    decreases segs.len(),
{
    if segs.len() > 0 {
        if let TreeView::Mapping(pairs) = v {
            if let Some(c) = field_named(v, segs[0]) {
                lemma_own_blocks_no_map(pairs, st, ids);
                lemma_blocks_along_no_map(c, segs.subrange(1, segs.len() as int), own_blocks(pairs, st, ids), ids);
            }
        }
    }
}

proof fn lemma_blocks_of_leaves_no_map(v: TreeView, st: InForce, ids: Seq<&str>)
    requires
        args_free_of_map(st),
    ensures
        forall|j: int| 0 <= j < blocks_of_leaves(v, st, ids).len() ==> args_free_of_map(#[trigger] blocks_of_leaves(v, st, ids)[j]),
    decreases v, 0int,
{
    let r = blocks_of_leaves(v, st, ids);
    match v {
        TreeView::Mapping(pairs) => {
            let o = own_blocks(pairs, st, ids);
            lemma_own_blocks_no_map(pairs, st, ids);
            if fields(pairs).len() > 0 {
                lemma_blocks_fields_no_map(pairs, o, ids);
                assert(r == blocks_fields(pairs, o, ids));
                assert forall|j: int| 0 <= j < r.len() implies args_free_of_map(#[trigger] r[j]) by {
                    assert(args_free_of_map(blocks_fields(pairs, o, ids)[j]));
                }
            } else {
                assert(r == seq![o]);
                assert forall|j: int| 0 <= j < r.len() implies args_free_of_map(#[trigger] r[j]) by {
                    assert(r[j] == o);
                }
            }
        },
        _ => {
            assert(r == seq![st]);
            assert forall|j: int| 0 <= j < r.len() implies args_free_of_map(#[trigger] r[j]) by {
                assert(r[j] == st);
            }
        },
    }
}

proof fn lemma_blocks_fields_no_map(pairs: Seq<(Seq<u8>, TreeView)>, st: InForce, ids: Seq<&str>)
    requires
        args_free_of_map(st),
    ensures
        forall|j: int| 0 <= j < blocks_fields(pairs, st, ids).len() ==> args_free_of_map(#[trigger] blocks_fields(pairs, st, ids)[j]),
    decreases pairs, 1int,
{
    if pairs.len() > 0 {
        let last = pairs[pairs.len() - 1];
        let rest = pairs.subrange(0, pairs.len() - 1);
        lemma_blocks_fields_no_map(rest, st, ids);
        if !is_field(last.0) {
            let a = blocks_fields(rest, st, ids);
            assert(blocks_fields(pairs, st, ids) == a);
            assert forall|j: int| 0 <= j < a.len() implies args_free_of_map(#[trigger] blocks_fields(pairs, st, ids)[j]) by {
                assert(args_free_of_map(a[j]));
            }
        }
        if is_field(last.0) {
            lemma_blocks_of_leaves_no_map(last.1, st, ids);
            let a = blocks_fields(rest, st, ids);
            let b = blocks_of_leaves(last.1, st, ids);
            assert(blocks_fields(pairs, st, ids) == a + b);
            assert forall|j: int| 0 <= j < (a + b).len() implies args_free_of_map(#[trigger] (a + b)[j]) by {
                if j < a.len() {
                    assert((a + b)[j] == a[j]);
                    assert(args_free_of_map(a[j]));
                } else {
                    assert((a + b)[j] == b[j - a.len()]);
                    assert(args_free_of_map(b[j - a.len()]));
                }
            }
        }
    }
}

/// A store call gets the field mapping of the block in force as its `map`
/// argument: over an index compiled from tree `t`, each leaf under `path`
/// whose `_get` (or `_set`) block names a store hands that store, under `map`,
/// every pair of the `map` of that block in the source, in order, each
/// destination with its source text; no `map` when the block has no mapping.
pub proof fn law_store_args_carry_map(ix: IndexView, t: TreeView, ids: Seq<&str>, path: Seq<u8>, i: int)
    requires
        ix.wf(),
        compiled_from(ix, t, ids),
        0 <= i < ix.traverse(path).len(),
    ensures
        ix.meta(ix.traverse(path)[i], true).0 != 0 ==> args_lookup(ix.meta(ix.traverse(path)[i], true).1, map_text())
            == map_value(source_blocks(t, split_dots(path), ids)[i].get_map),
        ix.meta(ix.traverse(path)[i], false).0 != 0 ==> args_lookup(ix.meta(ix.traverse(path)[i], false).1, map_text())
            == map_value(source_blocks(t, split_dots(path), ids)[i].set_map),
{
    law_traverse_reads_source(ix, t, ids, path);
    let ls = ix.traverse(path);
    let segs = split_dots(path);
    let bs = source_blocks(t, segs, ids);
    assert(blocks_read(ix, ls)[i] == bs[i]);
    assert(bs.len() == ls.len());
    if segs.len() > 0 {
        if let Some(c) = field_named(t, segs[0]) {
            let rest = segs.subrange(1, segs.len() as int);
            if let Some(n) = node_at(c, rest) {
                lemma_blocks_along_no_map(c, rest, no_blocks(), ids);
                let b0 = blocks_along(c, rest, no_blocks(), ids);
                lemma_blocks_of_leaves_no_map(n, b0, ids);
                assert(bs == blocks_of_leaves(n, b0, ids));
                assert(bs.len() == ls.len());
                assert(args_free_of_map(blocks_of_leaves(n, b0, ids)[i]));
            }
        }
    }
    assert(args_free_of_map(bs[i]));
    if ix.meta(ls[i], true).0 != 0 {
        law_meta_map(ix, ls[i], true);
    }
    if ix.meta(ls[i], false).0 != 0 {
        law_meta_map(ix, ls[i], false);
    }
}

} // verus!
