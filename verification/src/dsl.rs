//! Compiles a DSL tree into the flat lists that an [`Index`](crate::index::Index) reads.
use vstd::prelude::*;
use crate::layout::{
    prop_store_word, prop_key_word, prop_map_word, meta_get_word, meta_set_word, meta_state_word,
    prop_store, prop_key, prop_map, meta_get, meta_set, meta_state,
    lemma_inner_entry, lemma_leaf_entry, lemma_empty_entry, lemma_fragment,
    VlView, path_is_leaf, path_keyword_id, path_parent_id, path_child_id, path_value_id,
    frag_is_placeholder, frag_word_id, PATH_IS_LEAF_MASK, PATH_KEYWORD_ID_SHIFT, PATH_PARENT_ID_SHIFT,
    PATH_CHILD_ID_SHIFT, VALUE_IS_PLACEHOLDER_MASK, VALUE_WORD_ID_MASK, LEAF_WIDTH,
};
use crate::list::{List, VariableList, Slot, entry_ok, nulls};
use crate::required::SetOutcome;
use crate::provided::{Tree, TreeView, DslError};
use crate::index::{IndexView, vl_view};
use vstd::utf8::encode_utf8;
use crate::text::bytes_eq;
pub use crate::yaml::parse_yaml;
use crate::yaml::{yaml_document, yaml_tree};
use crate::emit::{render_tables, tables_text, fits16};
use crate::reading::{
    keeps, holds, holds_fields, key_holds, leaf_holds, leaf_blocks, block_store, block_key, own_blocks, no_blocks, InForce,
    key_read, key_known, block_map, map_read, compiled_from, lemma_holds_fields_keep, lemma_holds_fields_push,
    lemma_holds_fields_skip, args_map, args_read, args_known, block_args,
};
use vstd::utf8::{valid_utf8, decode_utf8};

verus! {

/// Largest path id (16 bits).
pub const MAX_PATH_ID: usize = 0xffff;

/// Largest word id (15 bits; bit 15 of a fragment marks a placeholder).
pub const MAX_WORD_ID: usize = 0x7fff;

/// Largest store id (8 bits).
pub const MAX_STORE_ID: usize = 0xff;

/// Largest data length of a variable list (offsets are emitted as 16 bits).
pub const MAX_VL_DATA: usize = 0xffff;

/// A variable list the compiler can keep appending to: well formed, with the
/// sentinel, its data within the emitted offset range and its ids within 16 bits.
pub open spec fn vl_ok<T>(vl: VariableList<T>) -> bool {
    &&& vl.wf()
    &&& 2 <= vl.identity@.len() <= 0x20000
    &&& vl.data@.len() <= MAX_VL_DATA
}

/// `b` extends `a`: both its identity line and its data start with those of `a`.
pub open spec fn vl_extends<T>(a: VariableList<T>, b: VariableList<T>) -> bool {
    &&& a.identity@.len() <= b.identity@.len()
    &&& b.identity@.subrange(0, a.identity@.len() as int) == a.identity@
    &&& a.data@.len() <= b.data@.len()
    &&& b.data@.subrange(0, a.data@.len() as int) == a.data@
}

/// Units are laid out one after the other: each starts where the previous ended,
/// and the last ends at the end of the data.
pub open spec fn contiguous<T>(vl: VariableList<T>) -> bool {
    let ids = vl.identity@;
    &&& ids.len() >= 2
    &&& ids[0] == 0
    &&& ids[1] == 0
    &&& forall|k: int| 1 <= k < ids.len() / 2 ==> #[trigger] ids[2 * k] == ids[2 * k - 1]
    &&& ids[ids.len() - 1] == vl.data@.len()
}

pub struct Dsl;

proof fn lemma_extends_entry<T>(a: VariableList<T>, b: VariableList<T>, k: int)
    requires
        vl_extends(a, b),
        a.wf(),
        0 <= k < a.identity@.len() / 2,
    ensures
        vl_view(b).entry(k) == vl_view(a).entry(k),
{
    assert(entry_ok(a.identity@, a.data@.len(), k));
    assert(b.identity@[2 * k] == a.identity@[2 * k]);
    assert(b.identity@[2 * k + 1] == a.identity@[2 * k + 1]);
    let s = a.identity@[2 * k] as int;
    let e = a.identity@[2 * k + 1] as int;
    assert(b.data@.subrange(s, e) =~= a.data@.subrange(s, e)) by {
        assert forall|j: int| s <= j < e implies b.data@[j] == a.data@[j] by {
            assert(b.data@.subrange(0, a.data@.len() as int)[j] == a.data@[j]);
        }
    }
}

/// Appends a unit to a variable list: `LimitExceeded` when the data would pass
/// the emitted offset range or the new id 16 bits.
fn push_unit<T: Slot>(vl: &mut VariableList<T>, value: &[T]) -> (r: Result<u16, DslError>)
    requires
        vl_ok(*old(vl)),
        contiguous(*old(vl)),
    ensures
        r is Err <==> (old(vl).data@.len() + value@.len() > MAX_VL_DATA || old(vl).identity@.len() / 2
            > MAX_PATH_ID),
        r matches Err(e) ==> e is LimitExceeded,
        r matches Ok(id) ==> {
            &&& vl_ok(*final(vl))
            &&& contiguous(*final(vl))
            &&& vl_extends(*old(vl), *final(vl))
            &&& final(vl).identity@ == old(vl).identity@ + seq![
                old(vl).data@.len() as usize,
                (old(vl).data@.len() + value@.len()) as usize,
            ]
            &&& final(vl).data@ == old(vl).data@ + value@
            &&& id == old(vl).identity@.len() / 2
            &&& id >= 1
            &&& vl_view(*final(vl)).entry(id as int) == Some(value@)
        },
{
    if value.len() > MAX_VL_DATA - vl.data.len() {
        return Err(DslError::LimitExceeded(String::from_str("variable list data exceeds max 65535")));
    }
    let count = vl.identity.len() / 2;
    if count > MAX_PATH_ID {
        return Err(DslError::LimitExceeded(String::from_str("variable list id exceeds max 65535")));
    }
    let ghost ids = vl.identity@;
    let ghost data = vl.data@;
    let outcome = vl.set(&0, &mut (), value, false);
    match outcome {
        Ok(SetOutcome::Created(id)) => {
            proof {
                let ni = vl.identity@;
                assert(ni == ids + seq![data.len() as usize, (data.len() + value@.len()) as usize]);
                assert(ni.subrange(0, ids.len() as int) =~= ids);
                assert(vl.data@.subrange(0, data.len() as int) =~= data);
                assert(vl.data@.subrange(data.len() as int, vl.data@.len() as int) =~= value@);
                assert forall|k: int| 1 <= k < ni.len() / 2 implies #[trigger] ni[2 * k] == ni[2 * k - 1] by {
                    if k < ids.len() / 2 {
                        assert(ni[2 * k] == ids[2 * k]);
                        assert(ni[2 * k - 1] == ids[2 * k - 1]);
                    }
                }
            }
            Ok(id as u16)
        },
        _ => {
            proof {
                assert(false);
            }
            Err(DslError::LimitExceeded(String::from_str("variable list allocation failed")))
        },
    }
}

/// The limit on the size of what a compilation builds (see `Compiler::load`):
/// within it, every list is within its own limits.
pub open spec fn load_limit() -> int {
    0x7fff
}

/// Data slots and units of a variable list.
pub open spec fn vl_load<T>(v: VariableList<T>) -> int {
    v.data@.len() + (v.identity@.len() / 2) as int
}

/// No two units of a word list hold the same non-empty word.
pub open spec fn words_distinct(w: VlView<u8>) -> bool {
    forall|i: int, j: int|
        0 <= i < j && (#[trigger] w.entry(i)) is Some && (#[trigger] w.entry(j)) is Some && w.entry(i)->0.len() > 0
            ==> w.entry(i) != w.entry(j)
}

/// A non-empty word held by a unit of a contiguous list is one interning finds.
proof fn lemma_word_interned(words: VariableList<u8>, i: int, s: Seq<u8>)
    requires
        vl_ok(words),
        contiguous(words),
        vl_view(words).entry(i) == Some(s),
        s.len() > 0,
    ensures
        crate::list::interned(words.identity@, words.data@, i, s),
{
    let ids = words.identity@;
    assert(i != 0) by {
        if i == 0 {
            assert(words.data@.subrange(0, 0).len() == 0);
        }
    }
}

/// Interns a word: the id of the first unit that holds it, else of a new unit.
/// `LimitExceeded` when the id passes 15 bits or the data the emitted offset range.
fn intern(words: &mut VariableList<u8>, s: &[u8]) -> (r: Result<u16, DslError>)
    requires
        vl_ok(*old(words)),
        contiguous(*old(words)),
    ensures
        r matches Err(e) ==> e is LimitExceeded,
        old(words).data@.len() + s@.len() <= MAX_VL_DATA && old(words).identity@.len() / 2 <= MAX_WORD_ID ==> r is Ok,
        r matches Ok(id) ==> {
            &&& vl_ok(*final(words))
            &&& contiguous(*final(words))
            &&& vl_extends(*old(words), *final(words))
            &&& 1 <= id <= MAX_WORD_ID
            &&& vl_view(*final(words)).entry(id as int) == Some(s@)
            &&& words_distinct(vl_view(*old(words))) ==> words_distinct(vl_view(*final(words)))
            &&& final(words).data@.len() <= old(words).data@.len() + s@.len()
            &&& final(words).identity@.len() <= old(words).identity@.len() + 2
        },
{
    if s.len() > MAX_VL_DATA {
        return Err(DslError::LimitExceeded(String::from_str("word data exceeds max 65535")));
    }
    let ghost ids = words.identity@;
    let ghost data = words.data@;
    let outcome = words.set(&0, &mut (), s, true);
    match outcome {
        Ok(SetOutcome::Created(id)) => {
            if id > MAX_WORD_ID {
                return Err(DslError::LimitExceeded(String::from_str("word_id exceeds max 32767 (15-bit limit)")));
            }
            if words.data.len() > MAX_VL_DATA {
                return Err(DslError::LimitExceeded(String::from_str("words data exceeds max 65535")));
            }
            proof {
                let ni = words.identity@;
                assert(ni.subrange(0, ids.len() as int) =~= ids);
                assert(words.data@.subrange(0, data.len() as int) =~= data);
                if ni != ids {
                    assert forall|k: int| 1 <= k < ni.len() / 2 implies #[trigger] ni[2 * k] == ni[2 * k - 1] by {
                        if k < ids.len() / 2 {
                            assert(ni[2 * k] == ids[2 * k]);
                            assert(ni[2 * k - 1] == ids[2 * k - 1]);
                        }
                    }
                }
                assert(entry_ok(ni, words.data@.len(), id as int));
                let old_w = *old(words);
                if ni != ids && words_distinct(vl_view(old_w)) {
                    let w0 = VlView { ids: ids, data: data };
                    let w1 = vl_view(*words);
                    let n = ids.len() / 2;
                    assert(ni.len() == ids.len() + 2);
                    assert(vl_extends(old_w, *words));
                    assert forall|i: int| 0 <= i < n implies #[trigger] w1.entry(i) == w0.entry(i) by {
                        lemma_extends_entry(old_w, *words, i);
                    }
                    assert forall|i: int, j: int|
                        0 <= i < j && (#[trigger] w1.entry(i)) is Some && (#[trigger] w1.entry(j)) is Some && w1.entry(
                            i,
                        )->0.len() > 0 implies w1.entry(i) != w1.entry(j) by {
                        if j < n {
                            assert(w1.entry(i) == w0.entry(i) && w1.entry(j) == w0.entry(j));
                        } else {
                            assert(j == n);
                            assert(w1.entry(i) == w0.entry(i));
                            if w1.entry(i) == w1.entry(j) {
                                assert(w1.entry(j) == Some(s@));
                                lemma_word_interned(old_w, i, s@);
                            }
                        }
                    }
                }
            }
            Ok(id as u16)
        },
        _ => {
            proof {
                assert(false);
            }
            Err(DslError::LimitExceeded(String::from_str("word interning failed")))
        },
    }
}

proof fn lemma_sorted<T>(vl: VariableList<T>, i: int, j: int)
    requires
        vl.wf(),
        contiguous(vl),
        0 <= i <= j < vl.identity@.len(),
    ensures
        vl.identity@[i] <= vl.identity@[j],
    decreases j - i,
{
    if i < j {
        lemma_sorted(vl, i + 1, j);
        let ids = vl.identity@;
        if i % 2 == 0 {
            assert(entry_ok(ids, vl.data@.len(), i / 2));
        } else {
            assert(ids[2 * ((i + 1) / 2)] == ids[2 * ((i + 1) / 2) - 1]);
        }
    }
}

proof fn lemma_extends_self<T>(a: VariableList<T>)
    ensures
        vl_extends(a, a),
{
    assert(a.identity@.subrange(0, a.identity@.len() as int) =~= a.identity@);
    assert(a.data@.subrange(0, a.data@.len() as int) =~= a.data@);
}

proof fn lemma_extends_trans<T>(a: VariableList<T>, b: VariableList<T>, c: VariableList<T>)
    requires
        vl_extends(a, b),
        vl_extends(b, c),
    ensures
        vl_extends(a, c),
{
    assert(c.identity@.subrange(0, a.identity@.len() as int) =~= a.identity@) by {
        assert forall|j: int| 0 <= j < a.identity@.len() implies c.identity@[j] == a.identity@[j] by {
            assert(c.identity@.subrange(0, b.identity@.len() as int)[j] == b.identity@[j]);
            assert(b.identity@.subrange(0, a.identity@.len() as int)[j] == a.identity@[j]);
        }
    }
    assert(c.data@.subrange(0, a.data@.len() as int) =~= a.data@) by {
        assert forall|j: int| 0 <= j < a.data@.len() implies c.data@[j] == a.data@[j] by {
            assert(c.data@.subrange(0, b.data@.len() as int)[j] == b.data@[j]);
            assert(b.data@.subrange(0, a.data@.len() as int)[j] == a.data@[j]);
        }
    }
}

/// Writing inside unit `c` of a contiguous list leaves every other unit as it was.
proof fn lemma_write_inside<T>(a: VariableList<T>, b: VariableList<T>, c: int, k: int)
    requires
        a.wf(),
        contiguous(a),
        b.identity@ == a.identity@,
        b.data@.len() == a.data@.len(),
        0 <= c < a.identity@.len() / 2,
        0 <= k < a.identity@.len() / 2,
        k != c,
        forall|j: int|
            0 <= j < a.data@.len() && !(a.identity@[2 * c] <= j < a.identity@[2 * c + 1]) ==> b.data@[j]
                == a.data@[j],
    ensures
        vl_view(b).entry(k) == vl_view(a).entry(k),
{
    let ids = a.identity@;
    assert(entry_ok(ids, a.data@.len(), k));
    assert(entry_ok(ids, a.data@.len(), c));
    if k < c {
        lemma_sorted(a, 2 * k + 1, 2 * c);
    } else {
        lemma_sorted(a, 2 * c + 1, 2 * k);
    }
    assert(b.data@.subrange(ids[2 * k] as int, ids[2 * k + 1] as int) =~= a.data@.subrange(
        ids[2 * k] as int,
        ids[2 * k + 1] as int,
    ));
}

/// Position of the first `${` in `s`, or -1.
pub open spec fn open_pos(s: Seq<u8>) -> int
    decreases s.len(),
{
    if s.len() < 2 {
        -1
    } else if s[0] == 0x24u8 && s[1] == 0x7bu8 {
        0
    } else {
        let p = open_pos(s.drop_first());
        if p < 0 {
            -1
        } else {
            p + 1
        }
    }
}

/// Position of the first `}` in `s`, or -1.
pub open spec fn close_pos(s: Seq<u8>) -> int
    decreases s.len(),
{
    if s.len() == 0 {
        -1
    } else if s[0] == 0x7du8 {
        0
    } else {
        let p = close_pos(s.drop_first());
        if p < 0 {
            -1
        } else {
            p + 1
        }
    }
}

/// `${` starts at `i`.
pub open spec fn opens_at(s: Seq<u8>, i: int) -> bool {
    0 <= i && i + 1 < s.len() && s[i] == 0x24u8 && s[i + 1] == 0x7bu8
}

pub proof fn lemma_open_pos(s: Seq<u8>)
    ensures
        -1 <= open_pos(s),
        open_pos(s) >= 0 ==> opens_at(s, open_pos(s)),
        forall|j: int| 0 <= j < open_pos(s) ==> !opens_at(s, j),
        open_pos(s) < 0 ==> forall|j: int| 0 <= j < s.len() ==> !opens_at(s, j),
    decreases s.len(),
{
    if s.len() >= 2 && !(s[0] == 0x24u8 && s[1] == 0x7bu8) {
        let r = s.drop_first();
        lemma_open_pos(r);
        assert forall|j: int| 1 <= j < s.len() implies opens_at(s, j) == opens_at(r, j - 1) by {}
    }
}

pub proof fn lemma_close_pos(s: Seq<u8>)
    ensures
        -1 <= close_pos(s) < s.len(),
        close_pos(s) >= 0 ==> s[close_pos(s)] == 0x7du8,
        forall|j: int| 0 <= j < close_pos(s) ==> s[j] != 0x7du8,
        close_pos(s) < 0 ==> forall|j: int| 0 <= j < s.len() ==> s[j] != 0x7du8,
    decreases s.len(),
{
    if s.len() > 0 && s[0] != 0x7du8 {
        let r = s.drop_first();
        lemma_close_pos(r);
        assert forall|j: int| 1 <= j < s.len() implies s[j] == r[j - 1] by {}
    }
}

/// The fragments of a scalar value, in order: literal text (`false`) and
/// `${path}` placeholders (`true`, with the path). An unclosed `${` makes the
/// rest of the value literal text.
pub open spec fn segments(s: Seq<u8>) -> Seq<(bool, Seq<u8>)>
    decreases s.len(),
{
    if s.len() == 0 {
        Seq::empty()
    } else {
        let o = open_pos(s);
        if o < 0 {
            seq![(false, s)]
        } else {
            proof {
                lemma_open_pos(s);
            }
            let pre: Seq<(bool, Seq<u8>)> = if o > 0 {
                seq![(false, s.take(o))]
            } else {
                Seq::empty()
            };
            let r = s.skip(o + 2);
            let c = close_pos(r);
            if c < 0 {
                pre.push((false, r))
            } else {
                proof {
                    lemma_close_pos(r);
                }
                pre.push((true, r.take(c))) + segments(r.skip(c + 1))
            }
        }
    }
}

/// A field key: one whose keyword does not start with `_`.
pub open spec fn is_field(k: Seq<u8>) -> bool {
    !(k.len() > 0 && k[0] == 0x5fu8)
}

/// The field keys among `pairs`, in order.
pub open spec fn fields(pairs: Seq<(Seq<u8>, TreeView)>) -> Seq<(Seq<u8>, TreeView)>
    decreases pairs.len(),
{
    if pairs.len() == 0 {
        Seq::empty()
    } else {
        let rest = fields(pairs.drop_last());
        if is_field(pairs.last().0) {
            rest.push(pairs.last())
        } else {
            rest
        }
    }
}

/// A path entry refers to an existing children unit (or is a leaf).
pub open spec fn refs_ok(e: u64, children: VariableList<u16>) -> bool {
    path_is_leaf(e) || path_child_id(e) < children.identity@.len() / 2
}

/// The compiler's state: the lists under construction.
struct Compiler<'s> {
    store_ids: &'s [&'s str],
    paths: List<u64>,
    children: VariableList<u16>,
    leaves: VariableList<u16>,
    values: VariableList<u16>,
    words: VariableList<u8>,
    map_keys: VariableList<u16>,
    map_vals: VariableList<u16>,
    args_keys: VariableList<u16>,
    args_vals: VariableList<u16>,
}

impl<'s> Compiler<'s> {
    /// The index that the lists built so far make up.
    spec fn view_index(&self) -> IndexView {
        IndexView {
            paths: self.paths.data@,
            children: vl_view(self.children),
            leaves: vl_view(self.leaves),
            values: vl_view(self.values),
            words: vl_view(self.words),
            map_keys: vl_view(self.map_keys),
            map_vals: vl_view(self.map_vals),
            args_keys: vl_view(self.args_keys),
            args_vals: vl_view(self.args_vals),
        }
    }

    /// Every list can still be appended to, and the index built so far is well formed.
    spec fn inv(&self) -> bool {
        &&& self.store_ids@.len() <= MAX_STORE_ID
        &&& vl_ok(self.children) && contiguous(self.children)
        &&& vl_ok(self.leaves) && contiguous(self.leaves)
        &&& vl_ok(self.values) && contiguous(self.values)
        &&& vl_ok(self.words) && contiguous(self.words)
        &&& vl_ok(self.map_keys) && contiguous(self.map_keys)
        &&& vl_ok(self.map_vals) && contiguous(self.map_vals)
        &&& vl_ok(self.args_keys) && contiguous(self.args_keys)
        &&& vl_ok(self.args_vals) && contiguous(self.args_vals)
        &&& words_distinct(vl_view(self.words))
        &&& self.view_index().wf()
        &&& forall|p: int|
            0 <= p < self.paths.data@.len() ==> #[trigger] refs_ok(self.paths.data@[p], self.children)
    }

    /// No path refers to children unit `cid`: it may still be filled in.
    spec fn unreferenced(&self, cid: int) -> bool {
        forall|p: int|
            0 <= p < self.paths.data@.len() ==> path_is_leaf(#[trigger] self.paths.data@[p])
                || path_child_id(self.paths.data@[p]) != cid
    }

    /// `b` grew from `a` by appending only: what `a` built is still there in `b`.
    spec fn grown(a: &Self, b: &Self) -> bool {
        &&& b.store_ids@ == a.store_ids@
        &&& a.paths.data@.len() <= b.paths.data@.len()
        &&& b.paths.data@.subrange(0, a.paths.data@.len() as int) == a.paths.data@
        &&& vl_extends(a.children, b.children)
        &&& vl_extends(a.leaves, b.leaves)
        &&& vl_extends(a.values, b.values)
        &&& vl_extends(a.words, b.words)
        &&& vl_extends(a.map_keys, b.map_keys)
        &&& vl_extends(a.map_vals, b.map_vals)
        &&& vl_extends(a.args_keys, b.args_keys)
        &&& vl_extends(a.args_vals, b.args_vals)
    }

    fn new(store_ids: &'s [&'s str]) -> (r: Self)
        requires
            store_ids@.len() <= MAX_STORE_ID,
        ensures
            r.inv(),
            r.store_ids@ == store_ids@,
            r.paths.data@ == seq![0u64],
            r.children.identity@ == seq![0usize, 0usize],
            r.words.identity@ == seq![0usize, 0usize],
            r.words.data@.len() == 0,
            r.load() == 9,
    {
        let r = Self {
            store_ids,
            paths: List::new(1),
            children: VariableList::new(),
            leaves: VariableList::new(),
            values: VariableList::new(),
            words: VariableList::new(),
            map_keys: VariableList::new(),
            map_vals: VariableList::new(),
            args_keys: VariableList::new(),
            args_vals: VariableList::new(),
        };
        assert(r.paths.data@ =~= seq![0u64]);
        proof {
            let ix = r.view_index();
            lemma_empty_entry();
            assert forall|p: int| 0 <= p < ix.paths.len() implies #[trigger] ix.kids_ok(p) by {
                assert(p == 0);
            }
            assert(refs_ok(r.paths.data@[0], r.children));
        }
        r
    }
}

impl<'s> Compiler<'s> {
    proof fn lemma_grown_keeps(a: &Self, b: &Self, p: int)
        requires
            a.inv(),
            Self::grown(a, b),
            0 <= p < a.paths.data@.len(),
        ensures
            b.paths.data@[p] == a.paths.data@[p],
            b.view_index().kids(p) == a.view_index().kids(p),
            refs_ok(b.paths.data@[p], b.children),
            b.view_index().kids_ok(p),
    {
        assert(b.paths.data@[p] == b.paths.data@.subrange(0, a.paths.data@.len() as int)[p]);
        let e = a.paths.data@[p];
        assert(refs_ok(e, a.children));
        assert(a.view_index().kids_ok(p));
        if !path_is_leaf(e) && path_child_id(e) != 0 {
            lemma_extends_entry(a.children, b.children, path_child_id(e) as int);
        }
    }

    /// After appending only, with the new paths well formed, the invariant holds again.
    proof fn lemma_grown_inv(a: &Self, b: &Self)
        requires
            a.inv(),
            Self::grown(a, b),
            b.paths.data@.len() <= 0x10000,
            vl_ok(b.children) && contiguous(b.children),
            vl_ok(b.leaves) && contiguous(b.leaves),
            vl_ok(b.values) && contiguous(b.values),
            vl_ok(b.words) && contiguous(b.words),
            vl_ok(b.map_keys) && contiguous(b.map_keys),
            vl_ok(b.map_vals) && contiguous(b.map_vals),
            vl_ok(b.args_keys) && contiguous(b.args_keys),
            vl_ok(b.args_vals) && contiguous(b.args_vals),
            words_distinct(vl_view(b.words)),
            forall|p: int|
                a.paths.data@.len() <= p < b.paths.data@.len() ==> #[trigger] refs_ok(b.paths.data@[p], b.children)
                    && b.view_index().kids_ok(p),
        ensures
            b.inv(),
    {
        assert forall|p: int| 0 <= p < b.paths.data@.len() implies #[trigger] b.view_index().kids_ok(p) by {
            if p < a.paths.data@.len() {
                Self::lemma_grown_keeps(a, b, p);
            } else {
                assert(refs_ok(b.paths.data@[p], b.children));
            }
        }
        assert forall|p: int| 0 <= p < b.paths.data@.len() implies #[trigger] refs_ok(b.paths.data@[p], b.children) by {
            if p < a.paths.data@.len() {
                Self::lemma_grown_keeps(a, b, p);
            }
        }
    }

    proof fn lemma_grown_trans(a: &Self, b: &Self, c: &Self)
        requires
            Self::grown(a, b),
            Self::grown(b, c),
        ensures
            Self::grown(a, c),
    {
        lemma_extends_trans(a.children, b.children, c.children);
        lemma_extends_trans(a.leaves, b.leaves, c.leaves);
        lemma_extends_trans(a.values, b.values, c.values);
        lemma_extends_trans(a.words, b.words, c.words);
        lemma_extends_trans(a.map_keys, b.map_keys, c.map_keys);
        lemma_extends_trans(a.map_vals, b.map_vals, c.map_vals);
        lemma_extends_trans(a.args_keys, b.args_keys, c.args_keys);
        lemma_extends_trans(a.args_vals, b.args_vals, c.args_vals);
        assert(c.paths.data@.subrange(0, a.paths.data@.len() as int) =~= a.paths.data@) by {
            assert forall|j: int| 0 <= j < a.paths.data@.len() implies c.paths.data@[j] == a.paths.data@[j] by {
                assert(c.paths.data@.subrange(0, b.paths.data@.len() as int)[j] == b.paths.data@[j]);
                assert(b.paths.data@.subrange(0, a.paths.data@.len() as int)[j] == a.paths.data@[j]);
            }
        }
    }

    proof fn lemma_grown_refl(a: &Self)
        ensures
            Self::grown(a, a),
    {
        lemma_extends_self(a.children);
        lemma_extends_self(a.leaves);
        lemma_extends_self(a.values);
        lemma_extends_self(a.words);
        lemma_extends_self(a.map_keys);
        lemma_extends_self(a.map_vals);
        lemma_extends_self(a.args_keys);
        lemma_extends_self(a.args_vals);
        assert(a.paths.data@.subrange(0, a.paths.data@.len() as int) =~= a.paths.data@);
    }
}

impl<'s> Compiler<'s> {
    /// Appends a path entry; `LimitExceeded` past 16-bit path ids.
    fn push_path(&mut self) -> (r: Result<u16, DslError>)
        requires
            old(self).inv(),
        ensures
            r is Err <==> old(self).paths.data@.len() > MAX_PATH_ID,
            r matches Err(e) ==> e is LimitExceeded,
            r is Ok ==> final(self).load() == old(self).load() + 1,
            r matches Ok(idx) ==> {
                &&& final(self).inv()
                &&& Self::grown(old(self), final(self))
                &&& idx == old(self).paths.data@.len()
                &&& final(self).paths.data@ == old(self).paths.data@.push(0u64)
                &&& final(self).children == old(self).children
                &&& final(self).words == old(self).words
            },
    {
        let idx = self.paths.data.len();
        if idx > MAX_PATH_ID {
            return Err(DslError::LimitExceeded(String::from_str("path_id exceeds max 65535")));
        }
        let ghost before = *self;
        self.paths.data.push(0u64);
        proof {
            lemma_empty_entry();
            assert(self.paths.data@.subrange(0, idx as int) =~= before.paths.data@);
            lemma_extends_self(self.children);
            lemma_extends_self(self.leaves);
            lemma_extends_self(self.values);
            lemma_extends_self(self.words);
            lemma_extends_self(self.map_keys);
            lemma_extends_self(self.map_vals);
            lemma_extends_self(self.args_keys);
            lemma_extends_self(self.args_vals);
            assert(Self::grown(&before, self));
            Self::lemma_grown_inv(&before, self);
        }
        Ok(idx as u16)
    }
}

impl<'s> Compiler<'s> {
    /// Reserves a children unit of `count` empty slots; 0 when there are none.
    fn alloc_children_slots(&mut self, count: usize) -> (r: Result<usize, DslError>)
        requires
            old(self).inv(),
        ensures
            r matches Err(e) ==> e is LimitExceeded,
            old(self).load() + count + 1 <= load_limit() ==> r is Ok,
            r is Ok ==> final(self).load() <= old(self).load() + count + 1,
            r matches Ok(cid) ==> {
                &&& final(self).inv()
                &&& Self::grown(old(self), final(self))
                &&& final(self).paths == old(self).paths
                &&& final(self).words == old(self).words
                &&& (count == 0 ==> cid == 0 && final(self).children == old(self).children)
                &&& (count > 0 ==> {
                    &&& cid == old(self).children.identity@.len() / 2
                    &&& 1 <= cid <= MAX_PATH_ID
                    &&& vl_view(final(self).children).entry(cid as int) == Some(nulls::<u16>(count as nat))
                    &&& final(self).children.identity@[2 * cid] == old(self).children.data@.len()
                    &&& final(self).unreferenced(cid as int)
                })
            },
    {
        if count == 0 {
            proof {
                Self::lemma_grown_refl(self);
            }
            return Ok(0);
        }
        let mut zeros: Vec<u16> = Vec::new();
        let mut k: usize = 0;
        while k < count
            invariant
                k <= count,
                zeros@ == nulls::<u16>(k as nat),
            decreases count - k,
        {
            zeros.push(0u16);
            k = k + 1;
            assert(zeros@ =~= nulls::<u16>(k as nat));
        }
        let ghost before = *self;
        let cid = push_unit(&mut self.children, zeros.as_slice())?;
        proof {
            lemma_extends_self(self.leaves);
            lemma_extends_self(self.values);
            lemma_extends_self(self.words);
            lemma_extends_self(self.map_keys);
            lemma_extends_self(self.map_vals);
            lemma_extends_self(self.args_keys);
            lemma_extends_self(self.args_vals);
            assert(self.paths.data@.subrange(0, self.paths.data@.len() as int) =~= self.paths.data@);
            assert(Self::grown(&before, self));
            Self::lemma_grown_inv(&before, self);
            assert forall|p: int| 0 <= p < self.paths.data@.len() implies path_is_leaf(#[trigger] self.paths.data@[p])
                || path_child_id(self.paths.data@[p]) != cid by {
                assert(refs_ok(before.paths.data@[p], before.children));
            }
        }
        Ok(cid as usize)
    }

    /// Puts path `path_idx` into slot `slot` of children unit `cid`.
    fn set_child(&mut self, cid: usize, slot: usize, path_idx: u16)
        requires
            old(self).inv(),
            1 <= cid < old(self).children.identity@.len() / 2,
            slot < old(self).children.identity@[2 * cid + 1] - old(self).children.identity@[2 * cid],
            old(self).unreferenced(cid as int),
        ensures
            final(self).inv(),
            final(self).unreferenced(cid as int),
            final(self).paths == old(self).paths,
            final(self).children.identity@ == old(self).children.identity@,
            final(self).children.data@ == old(self).children.data@.update(
                old(self).children.identity@[2 * cid] + slot,
                path_idx,
            ),
            final(self).store_ids@ == old(self).store_ids@,
            final(self).leaves == old(self).leaves,
            final(self).values == old(self).values,
            final(self).words == old(self).words,
            final(self).map_keys == old(self).map_keys,
            final(self).map_vals == old(self).map_vals,
            final(self).args_keys == old(self).args_keys,
            final(self).args_vals == old(self).args_vals,
            final(self).load() == old(self).load(),
    {
        let ghost before = *self;
        proof {
            assert(entry_ok(before.children.identity@, before.children.data@.len(), cid as int));
        }
        let start = self.children.identity[cid * 2];
        self.children.data.set(start + slot, path_idx);
        proof {
            let a = before.view_index();
            let b = self.view_index();
            assert forall|k: int| 0 <= k < self.children.identity@.len() / 2 implies #[trigger] entry_ok(
                self.children.identity@,
                self.children.data@.len(),
                k,
            ) by {
                assert(entry_ok(before.children.identity@, before.children.data@.len(), k));
            }
            assert forall|p: int| 0 <= p < b.paths.len() implies #[trigger] b.kids_ok(p) by {
                assert(a.kids_ok(p));
                assert(refs_ok(before.paths.data@[p], before.children));
                let e = a.paths[p];
                if !path_is_leaf(e) && path_child_id(e) != 0 {
                    lemma_write_inside(before.children, self.children, cid as int, path_child_id(e) as int);
                }
            }
            assert forall|p: int| 0 <= p < self.paths.data@.len() implies #[trigger] refs_ok(self.paths.data@[p], self.children) by {
                assert(refs_ok(before.paths.data@[p], before.children));
            }
        }
    }
}

impl<'s> Compiler<'s> {
    /// Appending to lists other than the paths and children keeps the invariant.
    proof fn lemma_appended(a: &Self, b: &Self)
        requires
            a.inv(),
            b.store_ids@ == a.store_ids@,
            b.paths == a.paths,
            b.children == a.children,
            vl_extends(a.leaves, b.leaves) && vl_ok(b.leaves) && contiguous(b.leaves),
            vl_extends(a.values, b.values) && vl_ok(b.values) && contiguous(b.values),
            vl_extends(a.words, b.words) && vl_ok(b.words) && contiguous(b.words),
            vl_extends(a.map_keys, b.map_keys) && vl_ok(b.map_keys) && contiguous(b.map_keys),
            vl_extends(a.map_vals, b.map_vals) && vl_ok(b.map_vals) && contiguous(b.map_vals),
            vl_extends(a.args_keys, b.args_keys) && vl_ok(b.args_keys) && contiguous(b.args_keys),
            vl_extends(a.args_vals, b.args_vals) && vl_ok(b.args_vals) && contiguous(b.args_vals),
            words_distinct(vl_view(b.words)),
        ensures
            b.inv(),
            Self::grown(a, b),
    {
        lemma_extends_self(a.children);
        assert(a.paths.data@.subrange(0, a.paths.data@.len() as int) =~= a.paths.data@);
        Self::lemma_grown_inv(a, b);
    }

    /// The size of what is built: path entries, and the data slots and units of
    /// each variable list.
    spec fn load(&self) -> int {
        self.paths.data@.len() + vl_load(self.children) + vl_load(self.leaves) + vl_load(self.values) + vl_load(
            self.words,
        ) + vl_load(self.map_keys) + vl_load(self.map_vals) + vl_load(self.args_keys) + vl_load(self.args_vals)
    }

    /// Within the load limit every list is within its own.
    proof fn lemma_load_room(&self, d: int, n: int)
        requires
            0 <= d,
            0 <= n,
            self.load() + d + n <= load_limit(),
        ensures
            self.words_room(d, n),
            self.paths.data@.len() + n <= load_limit(),
    {
    }

    /// Growing only the words grows the load by as much.
    proof fn lemma_words_load(a: &Self, b: &Self, d: int, n: int)
        requires
            Self::words_only(a, b),
            Self::words_grew(a, b, d, n),
        ensures
            b.load() <= a.load() + d + n,
    {
    }

    /// Only the words changed from `a` to `b`.
    spec fn words_only(a: &Self, b: &Self) -> bool {
        &&& b.store_ids == a.store_ids
        &&& b.paths == a.paths
        &&& b.children == a.children
        &&& b.leaves == a.leaves
        &&& b.values == a.values
        &&& b.map_keys == a.map_keys
        &&& b.map_vals == a.map_vals
        &&& b.args_keys == a.args_keys
        &&& b.args_vals == a.args_vals
    }

    /// From `a` to `b` the word data grew by at most `d` and the word units by at most `n`.
    spec fn words_grew(a: &Self, b: &Self, d: int, n: int) -> bool {
        &&& b.words.data@.len() <= a.words.data@.len() + d
        &&& b.words.identity@.len() / 2 <= a.words.identity@.len() / 2 + n
    }

    /// The words have room for `d` more bytes in `n` more units.
    spec fn words_room(&self, d: int, n: int) -> bool {
        &&& self.words.data@.len() + d <= MAX_VL_DATA
        &&& self.words.identity@.len() / 2 + n <= MAX_WORD_ID
    }

    /// Interns a word (see [`intern`]).
    fn intern_word(&mut self, s: &[u8]) -> (r: Result<u16, DslError>)
        requires
            old(self).inv(),
        ensures
            r matches Err(e) ==> e is LimitExceeded,
            old(self).words.data@.len() + s@.len() <= MAX_VL_DATA && old(self).words.identity@.len() / 2 <= MAX_WORD_ID
                ==> r is Ok,
            old(self).load() + s@.len() + 1 <= load_limit() ==> r is Ok,
            r is Ok ==> final(self).load() <= old(self).load() + s@.len() + 1,
            r matches Ok(id) ==> {
                &&& final(self).inv()
                &&& Self::grown(old(self), final(self))
                &&& final(self).paths == old(self).paths
                &&& final(self).children == old(self).children
                &&& 1 <= id <= MAX_WORD_ID
                &&& vl_view(final(self).words).entry(id as int) == Some(s@)
                &&& Self::words_only(old(self), final(self))
                &&& Self::words_grew(old(self), final(self), s@.len() as int, 1)
            },
    {
        let ghost before = *self;
        let id = intern(&mut self.words, s)?;
        proof {
            lemma_extends_self(self.leaves);
            lemma_extends_self(self.values);
            lemma_extends_self(self.map_keys);
            lemma_extends_self(self.map_vals);
            lemma_extends_self(self.args_keys);
            lemma_extends_self(self.args_vals);
            Self::lemma_appended(&before, self);
        }
        Ok(id)
    }

    /// Appends a fragment list to the values.
    fn push_values(&mut self, frags: &[u16]) -> (r: Result<u16, DslError>)
        requires
            old(self).inv(),
        ensures
            r matches Err(e) ==> e is LimitExceeded,
            r is Ok <==> old(self).values.data@.len() + frags@.len() <= MAX_VL_DATA && old(self).values.identity@.len() / 2 <= MAX_PATH_ID,
            r is Ok ==> final(self).load() == old(self).load() + frags@.len() + 1,
            r matches Ok(id) ==> {
                &&& final(self).inv()
                &&& Self::grown(old(self), final(self))
                &&& final(self).paths == old(self).paths
                &&& final(self).children == old(self).children
                &&& final(self).words == old(self).words
                &&& 1 <= id <= MAX_PATH_ID
                &&& vl_view(final(self).values).entry(id as int) == Some(frags@)
            },
    {
        let ghost before = *self;
        let id = push_unit(&mut self.values, frags)?;
        proof {
            lemma_extends_self(self.leaves);
            lemma_extends_self(self.words);
            lemma_extends_self(self.map_keys);
            lemma_extends_self(self.map_vals);
            lemma_extends_self(self.args_keys);
            lemma_extends_self(self.args_vals);
            Self::lemma_appended(&before, self);
        }
        Ok(id)
    }

    /// Appends a list of destination words of a field mapping.
    fn push_map_keys(&mut self, data: &[u16]) -> (r: Result<u16, DslError>)
        requires
            old(self).inv(),
        ensures
            r matches Err(e) ==> e is LimitExceeded,
            r is Ok <==> old(self).map_keys.data@.len() + data@.len() <= MAX_VL_DATA && old(self).map_keys.identity@.len() / 2 <= MAX_PATH_ID,
            r is Ok ==> final(self).load() == old(self).load() + data@.len() + 1,
            r matches Ok(id) ==> {
                &&& final(self).inv()
                &&& Self::grown(old(self), final(self))
                &&& final(self).paths == old(self).paths
                &&& final(self).children == old(self).children
                &&& final(self).words == old(self).words
                &&& 1 <= id <= MAX_PATH_ID
                &&& vl_view(final(self).map_keys).entry(id as int) == Some(data@)
            },
    {
        let ghost before = *self;
        let id = push_unit(&mut self.map_keys, data)?;
        proof {
            lemma_extends_self(self.leaves);
            lemma_extends_self(self.words);
            lemma_extends_self(self.values);
            lemma_extends_self(self.map_vals);
            lemma_extends_self(self.args_keys);
            lemma_extends_self(self.args_vals);
            Self::lemma_appended(&before, self);
        }
        Ok(id)
    }

    /// Appends a list of source words of a field mapping.
    fn push_map_vals(&mut self, data: &[u16]) -> (r: Result<u16, DslError>)
        requires
            old(self).inv(),
        ensures
            r matches Err(e) ==> e is LimitExceeded,
            r is Ok <==> old(self).map_vals.data@.len() + data@.len() <= MAX_VL_DATA && old(self).map_vals.identity@.len() / 2 <= MAX_PATH_ID,
            r is Ok ==> final(self).load() == old(self).load() + data@.len() + 1,
            r matches Ok(id) ==> {
                &&& final(self).inv()
                &&& Self::grown(old(self), final(self))
                &&& final(self).paths == old(self).paths
                &&& final(self).children == old(self).children
                &&& final(self).words == old(self).words
                &&& 1 <= id <= MAX_PATH_ID
                &&& vl_view(final(self).map_vals).entry(id as int) == Some(data@)
            },
    {
        let ghost before = *self;
        let id = push_unit(&mut self.map_vals, data)?;
        proof {
            lemma_extends_self(self.leaves);
            lemma_extends_self(self.words);
            lemma_extends_self(self.values);
            lemma_extends_self(self.map_keys);
            lemma_extends_self(self.args_keys);
            lemma_extends_self(self.args_vals);
            Self::lemma_appended(&before, self);
        }
        Ok(id)
    }

    /// Appends a list of argument keywords.
    fn push_args_keys(&mut self, data: &[u16]) -> (r: Result<u16, DslError>)
        requires
            old(self).inv(),
        ensures
            r matches Err(e) ==> e is LimitExceeded,
            r is Ok <==> old(self).args_keys.data@.len() + data@.len() <= MAX_VL_DATA && old(self).args_keys.identity@.len() / 2 <= MAX_PATH_ID,
            r is Ok ==> final(self).load() == old(self).load() + data@.len() + 1,
            r matches Ok(id) ==> {
                &&& final(self).inv()
                &&& Self::grown(old(self), final(self))
                &&& final(self).paths == old(self).paths
                &&& final(self).children == old(self).children
                &&& final(self).words == old(self).words
                &&& 1 <= id <= MAX_PATH_ID
                &&& vl_view(final(self).args_keys).entry(id as int) == Some(data@)
            },
    {
        let ghost before = *self;
        let id = push_unit(&mut self.args_keys, data)?;
        proof {
            lemma_extends_self(self.leaves);
            lemma_extends_self(self.words);
            lemma_extends_self(self.values);
            lemma_extends_self(self.map_keys);
            lemma_extends_self(self.map_vals);
            lemma_extends_self(self.args_vals);
            Self::lemma_appended(&before, self);
        }
        Ok(id)
    }

    /// Appends a list of argument values (values ids).
    fn push_args_vals(&mut self, data: &[u16]) -> (r: Result<u16, DslError>)
        requires
            old(self).inv(),
        ensures
            r matches Err(e) ==> e is LimitExceeded,
            r is Ok <==> old(self).args_vals.data@.len() + data@.len() <= MAX_VL_DATA && old(self).args_vals.identity@.len() / 2 <= MAX_PATH_ID,
            r is Ok ==> final(self).load() == old(self).load() + data@.len() + 1,
            r matches Ok(id) ==> {
                &&& final(self).inv()
                &&& Self::grown(old(self), final(self))
                &&& final(self).paths == old(self).paths
                &&& final(self).children == old(self).children
                &&& final(self).words == old(self).words
                &&& 1 <= id <= MAX_PATH_ID
                &&& vl_view(final(self).args_vals).entry(id as int) == Some(data@)
            },
    {
        let ghost before = *self;
        let id = push_unit(&mut self.args_vals, data)?;
        proof {
            lemma_extends_self(self.leaves);
            lemma_extends_self(self.words);
            lemma_extends_self(self.values);
            lemma_extends_self(self.map_keys);
            lemma_extends_self(self.map_vals);
            lemma_extends_self(self.args_keys);
            Self::lemma_appended(&before, self);
        }
        Ok(id)
    }

    /// Appends a leaf's data.
    fn push_leaf(&mut self, data: &[u16]) -> (r: Result<u16, DslError>)
        requires
            old(self).inv(),
        ensures
            r matches Err(e) ==> e is LimitExceeded,
            r is Ok <==> old(self).leaves.data@.len() + data@.len() <= MAX_VL_DATA && old(self).leaves.identity@.len() / 2 <= MAX_PATH_ID,
            r is Ok ==> final(self).load() == old(self).load() + data@.len() + 1,
            r matches Ok(id) ==> {
                &&& final(self).inv()
                &&& Self::grown(old(self), final(self))
                &&& final(self).paths == old(self).paths
                &&& final(self).children == old(self).children
                &&& final(self).words == old(self).words
                &&& 1 <= id <= MAX_PATH_ID
                &&& vl_view(final(self).leaves).entry(id as int) == Some(data@)
            },
    {
        let ghost before = *self;
        let id = push_unit(&mut self.leaves, data)?;
        proof {
            lemma_extends_self(self.args_vals);
            lemma_extends_self(self.words);
            lemma_extends_self(self.values);
            lemma_extends_self(self.map_keys);
            lemma_extends_self(self.map_vals);
            lemma_extends_self(self.args_keys);
            Self::lemma_appended(&before, self);
        }
        Ok(id)
    }
}

/// Absolute position of the first `${` at or after `from`.
fn find_open(b: &[u8], from: usize) -> (r: Option<usize>)
    requires
        from <= b@.len(),
    ensures
        match r {
            Some(i) => from <= i && i + 2 <= b@.len() && open_pos(b@.skip(from as int)) == i - from,
            None => open_pos(b@.skip(from as int)) < 0,
        },
{
    let ghost s = b@.skip(from as int);
    proof {
        lemma_open_pos(s);
        assert forall|k: int| 0 <= k < s.len() implies opens_at(s, k) == opens_at(b@, from + k) by {}
    }
    let mut i: usize = from;
    while i < b.len()
        invariant
            from <= i <= b@.len(),
            s == b@.skip(from as int),
            forall|k: int| 0 <= k < s.len() ==> opens_at(s, k) == opens_at(b@, from + k),
            forall|j: int| from <= j < i ==> !opens_at(b@, j),
        decreases b@.len() - i,
    {
        if i + 1 < b.len() && b[i] == 0x24u8 && b[i + 1] == 0x7bu8 {
            proof {
                lemma_open_pos(s);
                assert(opens_at(s, i - from));
                if open_pos(s) < i - from {
                    assert(opens_at(b@, from + open_pos(s)));
                }
            }
            return Some(i);
        }
        i = i + 1;
    }
    proof {
        lemma_open_pos(s);
        if open_pos(s) >= 0 {
            assert(opens_at(b@, from + open_pos(s)));
        }
    }
    None
}

/// Absolute position of the first `}` at or after `from`.
fn find_close(b: &[u8], from: usize) -> (r: Option<usize>)
    requires
        from <= b@.len(),
    ensures
        match r {
            Some(i) => from <= i < b@.len() && close_pos(b@.skip(from as int)) == i - from,
            None => close_pos(b@.skip(from as int)) < 0,
        },
{
    let ghost s = b@.skip(from as int);
    let mut i: usize = from;
    while i < b.len()
        invariant
            from <= i <= b@.len(),
            s == b@.skip(from as int),
            forall|j: int| from <= j < i ==> b@[j] != 0x7du8,
        decreases b@.len() - i,
    {
        if b[i] == 0x7du8 {
            proof {
                lemma_close_pos(s);
                assert(s[i - from] == 0x7du8);
                if close_pos(s) < i - from {
                    assert(s[close_pos(s)] == b@[from + close_pos(s)]);
                }
            }
            return Some(i);
        }
        i = i + 1;
    }
    proof {
        lemma_close_pos(s);
        if close_pos(s) >= 0 {
            assert(s[close_pos(s)] == b@[from + close_pos(s)]);
        }
    }
    None
}

impl<'s> Compiler<'s> {
    /// Every fragment's word is an interned word.
    spec fn words_known(&self, fr: Seq<u16>) -> bool {
        forall|i: int| 0 <= i < fr.len() ==> (#[trigger] vl_view(self.words).entry(frag_word_id(fr[i]) as int)) is Some
    }

    proof fn lemma_frags_keep(a: &Self, b: &Self, fr: Seq<u16>)
        requires
            a.inv(),
            Self::grown(a, b),
            a.words_known(fr),
        ensures
            b.words_known(fr),
            b.view_index().read_frags(fr) == a.view_index().read_frags(fr),
    {
        assert forall|i: int| 0 <= i < fr.len() implies vl_view(b.words).entry(frag_word_id(fr[i]) as int)
            == vl_view(a.words).entry(frag_word_id(fr[i]) as int) by {
            let id = frag_word_id(fr[i]) as int;
            assert(vl_view(a.words).entry(id) is Some);
            lemma_extends_entry(a.words, b.words, id);
        }
        assert(b.view_index().read_frags(fr) =~= a.view_index().read_frags(fr));
    }

    /// Fragments whose words are interned read the same while the words grow.
    proof fn lemma_frags_words(a: &Self, b: &Self, fr: Seq<u16>)
        requires
            a.inv(),
            vl_extends(a.words, b.words),
            a.words_known(fr),
        ensures
            b.words_known(fr),
            b.view_index().read_frags(fr) == a.view_index().read_frags(fr),
    {
        assert forall|i: int| 0 <= i < fr.len() implies vl_view(b.words).entry(frag_word_id(fr[i]) as int)
            == vl_view(a.words).entry(frag_word_id(fr[i]) as int) by {
            let id = frag_word_id(fr[i]) as int;
            assert(vl_view(a.words).entry(id) is Some);
            lemma_extends_entry(a.words, b.words, id);
        }
        assert(b.view_index().read_frags(fr) =~= a.view_index().read_frags(fr));
    }

    /// A field mapping whose words are interned reads the same while the words grow.
    proof fn lemma_map_words(a: &Self, b: &Self, m: Seq<(u16, u16)>)
        requires
            a.inv(),
            vl_extends(a.words, b.words),
            a.map_known(m),
        ensures
            b.map_known(m),
            read_map(b.view_index(), m) == read_map(a.view_index(), m),
    {
        assert forall|i: int| 0 <= i < m.len() implies b.word_known(#[trigger] m[i].0) && b.word_known(m[i].1)
            && vl_view(b.words).entry(m[i].0 as int) == vl_view(a.words).entry(m[i].0 as int)
            && vl_view(b.words).entry(m[i].1 as int) == vl_view(a.words).entry(m[i].1 as int) by {
            assert(a.word_known(m[i].0) && a.word_known(m[i].1));
            lemma_extends_entry(a.words, b.words, m[i].0 as int);
            lemma_extends_entry(a.words, b.words, m[i].1 as int);
        }
        assert(read_map(b.view_index(), m) =~= read_map(a.view_index(), m));
    }

    /// Further arguments whose words are interned read the same while the words grow.
    proof fn lemma_args_words(a: &Self, b: &Self, m: Seq<(u16, Seq<u16>)>)
        requires
            a.inv(),
            vl_extends(a.words, b.words),
            forall|i: int| 0 <= i < m.len() ==> a.word_known(#[trigger] m[i].0) && a.words_known(m[i].1),
        ensures
            forall|i: int| 0 <= i < m.len() ==> b.word_known(#[trigger] m[i].0) && b.words_known(m[i].1),
            read_args(b.view_index(), m) == read_args(a.view_index(), m),
    {
        assert forall|i: int| 0 <= i < m.len() implies b.word_known(#[trigger] m[i].0) && b.words_known(m[i].1)
            && vl_view(b.words).entry(m[i].0 as int) == vl_view(a.words).entry(m[i].0 as int)
            && b.view_index().read_frags(m[i].1) == a.view_index().read_frags(m[i].1) by {
            assert(a.word_known(m[i].0) && a.words_known(m[i].1));
            lemma_extends_entry(a.words, b.words, m[i].0 as int);
            Self::lemma_frags_words(a, b, m[i].1);
        }
        assert(read_args(b.view_index(), m) =~= read_args(a.view_index(), m));
    }

    /// The blocks in force at a mapping node are what its `_get` (resolved at
    /// `s3`) and `_set` (resolved at `s4`) blocks make, read at a later `c`.
    proof fn lemma_own_blocks(
        s0: &Self,
        s3: &Self,
        s4: &Self,
        c: &Self,
        pv: Seq<(Seq<u8>, TreeView)>,
        ig: Option<MetaView>,
        is: Option<MetaView>,
        g: Option<MetaView>,
        st: Option<MetaView>,
    )
        requires
            s0.inv(),
            s3.inv(),
            s4.inv(),
            Self::grown(s0, s3),
            Self::grown(s3, s4),
            vl_extends(s4.words, c.words),
            ig matches Some(b) ==> s0.meta_known(b),
            is matches Some(b) ==> s0.meta_known(b),
            g matches Some(b) ==> s3.meta_known(b),
            st matches Some(b) ==> s4.meta_known(b),
            resolves_to(s3.view_index(), pv, meta_get_word(), ig, s3.store_ids@, g),
            resolves_to(s4.view_index(), pv, meta_set_word(), is, s4.store_ids@, st),
        ensures
            blocks_of(c.view_index(), g, st) == own_blocks(pv, blocks_of(s0.view_index(), ig, is), s0.store_ids@),
            g matches Some(b) ==> c.meta_known(b),
            st matches Some(b) ==> c.meta_known(b),
    {
        lemma_resolved_block(s3.view_index(), pv, meta_get_word(), ig, s3.store_ids@, g);
        lemma_resolved_block(s4.view_index(), pv, meta_set_word(), is, s4.store_ids@, st);
        Self::lemma_grown_trans(s0, s3, s4);
        lemma_extends_trans(s3.words, s4.words, c.words);
        if let Some(b) = ig {
            Self::lemma_meta_keep(s0, s3, b);
        }
        if let Some(b) = is {
            Self::lemma_meta_keep(s0, s4, b);
        }
        if let Some(b) = g {
            Self::lemma_frags_words(s3, c, b.key);
            Self::lemma_map_words(s3, c, b.map);
            Self::lemma_args_words(s3, c, b.args);
            assert(c.meta_known(b));
        }
        if let Some(b) = st {
            Self::lemma_frags_words(s4, c, b.key);
            Self::lemma_map_words(s4, c, b.map);
            Self::lemma_args_words(s4, c, b.args);
            assert(c.meta_known(b));
        }
    }

    /// Pushes the fragment for word `id` onto `frags`.
    proof fn lemma_push_frag(&self, fr: Seq<u16>, id: u16, placeholder: bool, w: Seq<u8>)
        requires
            self.words_known(fr),
            1 <= id <= MAX_WORD_ID,
            vl_view(self.words).entry(id as int) == Some(w),
        ensures
            ({
                let f = if placeholder { 0x8000u16 | (id & 0x7fffu16) } else { id & 0x7fffu16 };
                &&& self.words_known(fr.push(f))
                &&& self.view_index().read_frags(fr.push(f)) == self.view_index().read_frags(fr).push((placeholder, w))
            }),
    {
        lemma_fragment(id, placeholder);
        let f = if placeholder { 0x8000u16 | (id & 0x7fffu16) } else { id & 0x7fffu16 };
        assert(self.view_index().read_frags(fr.push(f)) =~= self.view_index().read_frags(fr).push((placeholder, w)));
        assert forall|i: int| 0 <= i < fr.push(f).len() implies (#[trigger] vl_view(self.words).entry(frag_word_id(fr.push(f)[i]) as int)) is Some by {
            if i < fr.len() {
                assert(fr.push(f)[i] == fr[i]);
            }
        }
    }
}

/// The bytes of a scalar, none for anything else.
pub open spec fn value_bytes(v: TreeView) -> Seq<u8> {
    match v {
        TreeView::Scalar(b) => b,
        _ => Seq::empty(),
    }
}

/// What a value's fragments are: the segments of a scalar, none for anything else.
pub open spec fn value_segments(v: TreeView) -> Seq<(bool, Seq<u8>)> {
    match v {
        TreeView::Scalar(b) => segments(b),
        _ => Seq::empty(),
    }
}

impl<'s> Compiler<'s> {
    /// Appends the fragment for `w` (interned) to `frags`.
    fn push_word_frag(&mut self, frags: &mut Vec<u16>, w: &[u8], placeholder: bool) -> (r: Result<(), DslError>)
        requires
            old(self).inv(),
            old(self).words_known(old(frags)@),
        ensures
            r matches Err(e) ==> e is LimitExceeded,
            old(self).words_room(w@.len() as int, 0) ==> r is Ok,
            r is Ok ==> Self::words_only(old(self), final(self)) && Self::words_grew(old(self), final(self), w@.len() as int, 1),
            r is Ok ==> final(frags)@.len() == old(frags)@.len() + 1,
            r is Ok ==> {
                &&& final(self).inv()
                &&& Self::grown(old(self), final(self))
                &&& final(self).paths == old(self).paths
                &&& final(self).children == old(self).children
                &&& final(self).words_known(final(frags)@)
                &&& final(self).view_index().read_frags(final(frags)@) == old(self).view_index().read_frags(
                    old(frags)@,
                ).push((placeholder, w@))
            },
    {
        let ghost before = *self;
        let ghost fr0 = frags@;
        let id = self.intern_word(w)?;
        proof {
            Self::lemma_frags_keep(&before, self, fr0);
            self.lemma_push_frag(fr0, id, placeholder, w@);
        }
        if placeholder {
            frags.push(VALUE_IS_PLACEHOLDER_MASK | (id & VALUE_WORD_ID_MASK));
        } else {
            frags.push(id & VALUE_WORD_ID_MASK);
        }
        Ok(())
    }

    /// Encodes the fragments of `b` from `pos` up to the end of the first
    /// placeholder (or to the end of `b`); the position after it, or `None` at the end.
    fn encode_step(&mut self, frags: &mut Vec<u16>, b: &[u8], pos: usize) -> (r: Result<Option<usize>, DslError>)
        requires
            old(self).inv(),
            old(self).words_known(old(frags)@),
            pos < b@.len(),
        ensures
            r matches Err(e) ==> e is LimitExceeded,
            old(self).words_room(b@.len() - pos, b@.len() - pos) ==> r is Ok,
            r matches Ok(next) ==> Self::words_only(old(self), final(self)) && match next {
                Some(np) => Self::words_grew(old(self), final(self), np - pos, np - pos) && final(frags)@.len()
                    <= old(frags)@.len() + np - pos,
                None => Self::words_grew(old(self), final(self), b@.len() - pos, b@.len() - pos) && final(frags)@.len()
                    <= old(frags)@.len() + b@.len() - pos,
            },
            r matches Ok(next) ==> {
                &&& final(self).inv()
                &&& Self::grown(old(self), final(self))
                &&& final(self).paths == old(self).paths
                &&& final(self).children == old(self).children
                &&& final(self).words_known(final(frags)@)
                &&& match next {
                    Some(np) => pos < np <= b@.len() && final(self).view_index().read_frags(final(frags)@)
                        + segments(b@.skip(np as int)) == old(self).view_index().read_frags(old(frags)@)
                        + segments(b@.skip(pos as int)),
                    None => final(self).view_index().read_frags(final(frags)@) == old(self).view_index().read_frags(
                        old(frags)@,
                    ) + segments(b@.skip(pos as int)),
                }
            },
    {
        let ghost bs = b@;
        let ghost s = bs.skip(pos as int);
        let ghost start = *self;
        let ghost r0 = self.view_index().read_frags(frags@);
        proof {
            lemma_open_pos(s);
        }
        assert(bs.len() == b.len());
        let found = find_open(b, pos);
        match found {
            None => {
                self.push_word_frag(frags, vstd::slice::slice_subrange(b, pos, b.len()), false)?;
                proof {
                    assert(s =~= bs.subrange(pos as int, bs.len() as int));
                    assert(segments(s) == seq![(false, s)]);
                    assert(r0.push((false, s)) =~= r0 + seq![(false, s)]);
                }
                Ok(None)
            },
            Some(o) => {
                assert(o + 2 <= bs.len() && open_pos(s) == o - pos);
                let ghost pre: Seq<(bool, Seq<u8>)> = if o > pos {
                    seq![(false, bs.subrange(pos as int, o as int))]
                } else {
                    Seq::empty()
                };
                if o > pos {
                    self.push_word_frag(frags, vstd::slice::slice_subrange(b, pos, o), false)?;
                    assert(self.view_index().read_frags(frags@) =~= r0 + pre);
                } else {
                    proof {
                        Self::lemma_grown_refl(self);
                    }
                    assert(self.view_index().read_frags(frags@) =~= r0 + pre);
                }
                let ghost mid = *self;
                let ghost r1 = self.view_index().read_frags(frags@);
                let r = o + 2;
                let ghost rs = bs.skip(r as int);
                assert(s.skip(o - pos + 2) =~= rs);
                assert(s.take(o - pos) =~= bs.subrange(pos as int, o as int));
                proof {
                    lemma_close_pos(rs);
                }
                let closing = find_close(b, r);
                match closing {
                    Some(c) => {
                        assert(c < bs.len() && close_pos(rs) == c - r);
                        self.push_word_frag(frags, vstd::slice::slice_subrange(b, r, c), true)?;
                        proof {
                            Self::lemma_grown_trans(&start, &mid, self);
                            assert(rs.take(c - r) =~= bs.subrange(r as int, c as int));
                            assert(rs.skip(c - r + 1) =~= bs.skip(c + 1));
                            assert(segments(s) == pre.push((true, rs.take(c - r))) + segments(rs.skip(c - r + 1)));
                            let rf = self.view_index().read_frags(frags@);
                            assert(rf == r1.push((true, bs.subrange(r as int, c as int))));
                            assert(rf + segments(bs.skip(c + 1)) =~= r0 + segments(s));
                        }
                        Ok(Some(c + 1))
                    },
                    None => {
                        self.push_word_frag(frags, vstd::slice::slice_subrange(b, r, b.len()), false)?;
                        proof {
                            Self::lemma_grown_trans(&start, &mid, self);
                            assert(rs =~= bs.subrange(r as int, bs.len() as int));
                            assert(segments(s) == pre.push((false, rs)));
                            let rf = self.view_index().read_frags(frags@);
                            assert(rf == r1.push((false, rs)));
                            assert(rf =~= r0 + segments(s));
                        }
                        Ok(None)
                    },
                }
            },
        }
    }

    /// Encodes a value as fragments over interned words: empty for anything but a scalar.
    fn encode_value(&mut self, value: &Tree) -> (r: Result<Vec<u16>, DslError>)
        requires
            old(self).inv(),
        ensures
            r matches Err(e) ==> e is LimitExceeded,
            !(value@ is Scalar) ==> (r matches Ok(fr) && fr@.len() == 0) && *final(self) == *old(self),
            value@ matches TreeView::Scalar(b) && old(self).words_room(b.len() as int, b.len() as int) ==> r is Ok,
            old(self).load() + 2 * value_bytes(value@).len() <= load_limit() ==> r is Ok,
            r matches Ok(fr) ==> fr@.len() <= value_bytes(value@).len() && final(self).load() <= old(self).load() + 2
                * value_bytes(value@).len(),
            r is Ok ==> Self::words_only(old(self), final(self)) && Self::words_grew(
                old(self),
                final(self),
                value_bytes(value@).len() as int,
                value_bytes(value@).len() as int,
            ),
            r matches Ok(fr) ==> {
                &&& final(self).inv()
                &&& Self::grown(old(self), final(self))
                &&& final(self).paths == old(self).paths
                &&& final(self).children == old(self).children
                &&& final(self).words_known(fr@)
                &&& final(self).view_index().read_frags(fr@) == value_segments(value@)
            },
    {
        let mut frags: Vec<u16> = Vec::new();
        let b = match value {
            Tree::Scalar(b) => b.as_slice(),
            _ => {
                proof {
                    Self::lemma_grown_refl(self);
                    assert(self.view_index().read_frags(frags@) =~= Seq::<(bool, Seq<u8>)>::empty());
                }
                return Ok(frags);
            },
        };
        let ghost bs = b@;
        let ghost start = *self;
        assert(value@ == TreeView::Scalar(bs));
        let mut pos: usize = 0;
        proof {
            if start.load() + 2 * bs.len() <= load_limit() {
                start.lemma_load_room(bs.len() as int, bs.len() as int);
            }
            Self::lemma_grown_refl(self);
            assert(bs.skip(0) =~= bs);
            assert(self.view_index().read_frags(frags@) =~= Seq::<(bool, Seq<u8>)>::empty());
            assert(self.view_index().read_frags(frags@) + segments(bs) =~= segments(bs));
        }
        while pos < b.len()
            invariant
                b@ == bs,
                value@ == TreeView::Scalar(bs),
                start == *old(self),
                start.inv(),
                self.inv(),
                Self::grown(&start, self),
                self.paths == start.paths,
                self.children == start.children,
                pos <= bs.len(),
                self.words_known(frags@),
                self.view_index().read_frags(frags@) + segments(bs.skip(pos as int)) == segments(bs),
                Self::words_only(&start, self),
                Self::words_grew(&start, self, pos as int, pos as int),
                frags@.len() <= pos,
            decreases bs.len() - pos,
        {
            let ghost before = *self;
            let ghost r0 = self.view_index().read_frags(frags@);
            let step = self.encode_step(&mut frags, b, pos)?;
            match step {
                Some(np) => {
                    proof {
                        Self::lemma_grown_trans(&start, &before, self);
                    }
                    pos = np;
                },
                None => {
                    proof {
                        Self::lemma_grown_trans(&start, &before, self);
                        assert(self.view_index().read_frags(frags@) == r0 + segments(bs.skip(pos as int)));
                        assert(value_segments(value@) == segments(bs));
                        Self::lemma_words_load(&start, self, bs.len() as int, bs.len() as int);
                    }
                    return Ok(frags);
                },
            }
        }
        proof {
            assert(bs.skip(pos as int) =~= Seq::<u8>::empty());
            assert(self.view_index().read_frags(frags@) + Seq::<(bool, Seq<u8>)>::empty() =~= self.view_index().read_frags(frags@));
            Self::lemma_words_load(&start, self, bs.len() as int, bs.len() as int);
        }
        Ok(frags)
    }
}
/// The store id that `name` selects: its 1-based position among the store ids, 0 when absent.
pub open spec fn store_index(ids: Seq<&str>, name: Seq<u8>) -> u8
    decreases ids.len(),
{
    if ids.len() == 0 {
        0u8
    } else if encode_utf8(ids.last()@) == name {
        let earlier = store_index(ids.drop_last(), name);
        if earlier != 0 {
            earlier
        } else {
            ids.len() as u8
        }
    } else {
        store_index(ids.drop_last(), name)
    }
}

/// The value of the first pair keyed `k`.
pub open spec fn lookup(pairs: Seq<(Seq<u8>, TreeView)>, k: Seq<u8>) -> Option<TreeView>
    decreases pairs.len(),
{
    if pairs.len() == 0 {
        None
    } else if pairs[0].0 == k {
        Some(pairs[0].1)
    } else {
        lookup(pairs.drop_first(), k)
    }
}

/// A `_get` / `_set` block, resolved: store id, key fragments, field mapping
/// (destination and source words) and further arguments (keyword and fragments).
pub(crate) struct MetaBlock {
    store_id: u8,
    key_value: Vec<u16>,
    map_entries: Vec<(u16, u16)>,
    arg_entries: Vec<(u16, Vec<u16>)>,
}

/// Model of a [`MetaBlock`].
pub struct MetaView {
    pub store_id: u8,
    pub key: Seq<u16>,
    pub map: Seq<(u16, u16)>,
    pub args: Seq<(u16, Seq<u16>)>,
}

impl View for MetaBlock {
    type V = MetaView;

    closed spec fn view(&self) -> MetaView {
        MetaView {
            store_id: self.store_id,
            key: self.key_value@,
            map: self.map_entries@,
            args: entries_view(self.arg_entries@),
        }
    }
}

/// The model of an optional block.
pub(crate) open spec fn meta_view(m: Option<&MetaBlock>) -> Option<MetaView> {
    match m {
        Some(b) => Some(b@),
        None => None,
    }
}

impl MetaBlock {
    fn empty() -> (r: MetaBlock)
        ensures
            r@ == (MetaView { store_id: 0, key: Seq::empty(), map: Seq::empty(), args: Seq::empty() }),
    {
        let r = MetaBlock { store_id: 0, key_value: Vec::new(), map_entries: Vec::new(), arg_entries: Vec::new() };
        assert(r@.args =~= Seq::<(u16, Seq<u16>)>::empty());
        r
    }

    fn copy(&self) -> (r: MetaBlock)
        ensures
            r@ == self@,
    {
        let key_value = vstd::slice::slice_to_vec(self.key_value.as_slice());
        let map_entries = vstd::slice::slice_to_vec(self.map_entries.as_slice());
        let mut arg_entries: Vec<(u16, Vec<u16>)> = Vec::new();
        let mut i: usize = 0;
        while i < self.arg_entries.len()
            invariant
                i <= self.arg_entries@.len(),
                arg_entries@.len() == i,
                forall|j: int|
                    0 <= j < i ==> #[trigger] arg_entries@[j].0 == self.arg_entries@[j].0 && arg_entries@[j].1@
                        == self.arg_entries@[j].1@,
            decreases self.arg_entries@.len() - i,
        {
            let v = vstd::slice::slice_to_vec(self.arg_entries[i].1.as_slice());
            arg_entries.push((self.arg_entries[i].0, v));
            i = i + 1;
        }
        let r = MetaBlock { store_id: self.store_id, key_value, map_entries, arg_entries };
        assert(r@.args =~= self@.args);
        r
    }
}

fn copy_meta(m: Option<&MetaBlock>) -> (r: Option<MetaBlock>)
    ensures
        match m {
            Some(b) => r matches Some(c) && c@ == b@,
            None => r is None,
        },
{
    match m {
        Some(b) => Some(b.copy()),
        None => None,
    }
}

proof fn lemma_store_index_none(ids: Seq<&str>, name: Seq<u8>)
    requires
        forall|j: int| 0 <= j < ids.len() ==> encode_utf8(ids[j]@) != name,
    ensures
        store_index(ids, name) == 0,
    decreases ids.len(),
{
    if ids.len() > 0 {
        assert(encode_utf8(ids.last()@) != name);
        lemma_store_index_none(ids.drop_last(), name);
    }
}

proof fn lemma_store_index_first(ids: Seq<&str>, name: Seq<u8>, i: int)
    requires
        ids.len() <= MAX_STORE_ID,
        0 <= i < ids.len(),
        encode_utf8(ids[i]@) == name,
        forall|j: int| 0 <= j < i ==> encode_utf8(ids[j]@) != name,
    ensures
        store_index(ids, name) == i + 1,
    decreases ids.len(),
{
    if i == ids.len() - 1 {
        lemma_store_index_none(ids.drop_last(), name);
    } else {
        lemma_store_index_first(ids.drop_last(), name, i);
    }
}

/// The store id a block's properties leave, starting from `base`: the last
/// `store` property with a scalar value decides.
pub open spec fn props_store(props: Seq<(Seq<u8>, TreeView)>, base: u8, ids: Seq<&str>) -> u8
    decreases props.len(),
{
    if props.len() == 0 {
        base
    } else {
        let s = props_store(props.drop_last(), base, ids);
        if props.last().0 == prop_store_word() {
            match props.last().1 {
                TreeView::Scalar(b) => store_index(ids, b),
                _ => s,
            }
        } else {
            s
        }
    }
}

/// A block's properties override the store.
pub open spec fn store_given(props: Seq<(Seq<u8>, TreeView)>) -> bool
    decreases props.len(),
{
    if props.len() == 0 {
        false
    } else {
        store_given(props.drop_last()) || (props.last().0 == prop_store_word() && props.last().1 is Scalar)
    }
}

/// The value of the last `key` property.
pub open spec fn last_key(props: Seq<(Seq<u8>, TreeView)>) -> Option<TreeView>
    decreases props.len(),
{
    if props.len() == 0 {
        None
    } else if props.last().0 == prop_key_word() {
        Some(props.last().1)
    } else {
        last_key(props.drop_last())
    }
}

/// The pairs of the last `map` property that is a mapping.
pub open spec fn last_map(props: Seq<(Seq<u8>, TreeView)>) -> Option<Seq<(Seq<u8>, TreeView)>>
    decreases props.len(),
{
    if props.len() == 0 {
        None
    } else if props.last().0 == prop_map_word() && props.last().1 is Mapping {
        Some(props.last().1->Mapping_0)
    } else {
        last_map(props.drop_last())
    }
}

/// A property of a block that is a further argument: any keyword but `store`,
/// `key`, `map` and the meta keys.
pub open spec fn is_arg_word(k: Seq<u8>) -> bool {
    &&& k != prop_store_word()
    &&& k != prop_key_word()
    &&& k != prop_map_word()
    &&& k != meta_get_word()
    &&& k != meta_set_word()
    &&& k != meta_state_word()
}

/// The further arguments a block's properties leave, starting from `base`: each
/// argument binds its keyword to the fragments of its value, a later binding of
/// the same keyword winning; an empty keyword names no argument.
pub open spec fn props_args(
    props: Seq<(Seq<u8>, TreeView)>,
    base: Map<Seq<u8>, Seq<(bool, Seq<u8>)>>,
) -> Map<Seq<u8>, Seq<(bool, Seq<u8>)>>
    decreases props.len(),
{
    if props.len() == 0 {
        base
    } else {
        let m = props_args(props.drop_last(), base);
        let k = props.last().0;
        if is_arg_word(k) && k.len() > 0 {
            m.insert(k, value_segments(props.last().1))
        } else {
            m
        }
    }
}

/// A field mapping as words: each destination with its source (empty unless a scalar).
pub open spec fn map_words(mp: Seq<(Seq<u8>, TreeView)>) -> Seq<(Seq<u8>, Seq<u8>)> {
    Seq::new(
        mp.len(),
        |i: int|
            (
                mp[i].0,
                match mp[i].1 {
                    TreeView::Scalar(b) => b,
                    _ => Seq::empty(),
                },
            ),
    )
}

/// What a field mapping reads as over the words of `ix`.
pub open spec fn read_map(ix: IndexView, m: Seq<(u16, u16)>) -> Seq<(Seq<u8>, Seq<u8>)> {
    Seq::new(m.len(), |i: int| (ix.word(m[i].0 as int), ix.word(m[i].1 as int)))
}

/// What further arguments read as over the words of `ix`: each keyword with its fragments.
pub open spec fn read_args(ix: IndexView, a: Seq<(u16, Seq<u16>)>) -> Seq<(Seq<u8>, Seq<(bool, Seq<u8>)>)> {
    Seq::new(a.len(), |i: int| (ix.word(a[i].0 as int), ix.read_frags(a[i].1)))
}

/// The block a meta key resolves to: the inherited one, unless the field has a
/// mapping under `meta_key`; then the inherited one (or an empty one) with the
/// local properties applied: `store`, `key` and `map` replace what was inherited,
/// a local `store` without a local `map` drops the inherited mapping, and each
/// further argument overrides the inherited one of the same keyword.
pub open spec fn resolves_to(
    ix: IndexView,
    pairs: Seq<(Seq<u8>, TreeView)>,
    meta_key: Seq<u8>,
    inh: Option<MetaView>,
    ids: Seq<&str>,
    r: Option<MetaView>,
) -> bool {
    match lookup(pairs, meta_key) {
        Some(TreeView::Mapping(props)) => {
            let base = match inh {
                Some(b) => b,
                None => MetaView { store_id: 0, key: Seq::empty(), map: Seq::empty(), args: Seq::empty() },
            };
            &&& r is Some
            &&& r->0.store_id == props_store(props, base.store_id, ids)
            &&& match last_key(props) {
                Some(v) => ix.read_frags(r->0.key) == value_segments(v),
                None => r->0.key == base.key,
            }
            &&& match last_map(props) {
                Some(mp) => read_map(ix, r->0.map) == map_words(mp),
                None => if store_given(props) {
                    r->0.map.len() == 0
                } else {
                    r->0.map == base.map
                },
            }
            &&& args_map(read_args(ix, r->0.args)) == props_args(props, args_map(read_args(ix, base.args)))
        },
        _ => r == inh,
    }
}

/// The store id of an optional block (0 without one).
pub open spec fn opt_store(m: Option<MetaView>) -> u8 {
    match m {
        Some(b) => b.store_id,
        None => 0,
    }
}

/// The key fragments of an optional block, as `ix` reads them (none without one).
pub open spec fn opt_key(ix: IndexView, m: Option<MetaView>) -> Seq<(bool, Seq<u8>)> {
    match m {
        Some(b) => ix.read_frags(b.key),
        None => Seq::empty(),
    }
}

/// The field mapping of an optional block, as `ix` reads it (none without one).
pub open spec fn opt_map(ix: IndexView, m: Option<MetaView>) -> Seq<(Seq<u8>, Seq<u8>)> {
    match m {
        Some(b) => read_map(ix, b.map),
        None => Seq::empty(),
    }
}

/// The further arguments of an optional block, as `ix` reads them (none without one).
pub open spec fn opt_args(ix: IndexView, m: Option<MetaView>) -> Map<Seq<u8>, Seq<(bool, Seq<u8>)>> {
    match m {
        Some(b) => args_map(read_args(ix, b.args)),
        None => Map::empty(),
    }
}

/// The blocks in force that optional `_get` and `_set` blocks make, as `ix` reads them.
pub open spec fn blocks_of(ix: IndexView, g: Option<MetaView>, s: Option<MetaView>) -> InForce {
    InForce {
        get_store: opt_store(g),
        get_key: opt_key(ix, g),
        get_map: opt_map(ix, g),
        get_args: opt_args(ix, g),
        set_store: opt_store(s),
        set_key: opt_key(ix, s),
        set_map: opt_map(ix, s),
        set_args: opt_args(ix, s),
    }
}

/// A resolved block's store id and key are the node's own, else the inherited ones.
proof fn lemma_resolved_block(
    ix: IndexView,
    pairs: Seq<(Seq<u8>, TreeView)>,
    meta_key: Seq<u8>,
    inh: Option<MetaView>,
    ids: Seq<&str>,
    r: Option<MetaView>,
)
    requires
        resolves_to(ix, pairs, meta_key, inh, ids, r),
    ensures
        opt_store(r) == block_store(pairs, meta_key, opt_store(inh), ids),
        opt_key(ix, r) == block_key(pairs, meta_key, opt_key(ix, inh)),
        opt_map(ix, r) == block_map(pairs, meta_key, opt_map(ix, inh)),
        opt_args(ix, r) == block_args(pairs, meta_key, opt_args(ix, inh)),
{
    assert(ix.read_frags(Seq::empty()) =~= Seq::<(bool, Seq<u8>)>::empty());
    assert(read_args(ix, Seq::empty()) =~= Seq::<(Seq<u8>, Seq<(bool, Seq<u8>)>)>::empty());
    assert(read_map(ix, Seq::empty()) =~= Seq::<(Seq<u8>, Seq<u8>)>::empty());
    if let Some(TreeView::Mapping(props)) = lookup(pairs, meta_key) {
        if let Some(b) = r {
            if last_map(props) is None && store_given(props) {
                assert(read_map(ix, b.map) =~= Seq::<(Seq<u8>, Seq<u8>)>::empty());
            }
        }
    }
}

/// No two further arguments share a keyword id.
pub open spec fn args_distinct(a: Seq<(u16, Seq<u16>)>) -> bool {
    forall|i: int, j: int| 0 <= i < j < a.len() ==> #[trigger] a[i].0 != #[trigger] a[j].0
}

impl<'s> Compiler<'s> {
    /// Word `id` is interned.
    spec fn word_known(&self, id: u16) -> bool {
        vl_view(self.words).entry(id as int) is Some
    }

    /// Every word of a field mapping is interned (0 reads as the empty word).
    spec fn map_known(&self, m: Seq<(u16, u16)>) -> bool {
        forall|i: int| 0 <= i < m.len() ==> self.word_known(#[trigger] m[i].0) && self.word_known(m[i].1)
    }

    /// Every word a block refers to is interned.
    spec fn meta_known(&self, m: MetaView) -> bool {
        &&& self.words_known(m.key)
        &&& self.map_known(m.map)
        &&& forall|i: int| 0 <= i < m.args.len() ==> self.word_known(#[trigger] m.args[i].0) && self.words_known(m.args[i].1)
        &&& args_distinct(m.args)
    }

    /// What a block refers to stays interned while the words are untouched.
    proof fn lemma_meta_same_words(a: &Self, b: &Self, m: MetaView)
        requires
            a.words == b.words,
            a.meta_known(m),
        ensures
            b.meta_known(m),
    {
    }

    proof fn lemma_meta_same(&self, a: MetaView, b: MetaView)
        requires
            self.meta_known(a),
            self.words_known(b.key),
            self.map_known(b.map),
            a.args == b.args,
        ensures
            self.meta_known(b),
    {
    }

    proof fn lemma_word_keep(a: &Self, b: &Self, id: u16)
        requires
            a.inv(),
            Self::grown(a, b),
            a.word_known(id),
        ensures
            b.word_known(id),
            b.view_index().word(id as int) == a.view_index().word(id as int),
    {
        lemma_extends_entry(a.words, b.words, id as int);
    }

    proof fn lemma_meta_keep(a: &Self, b: &Self, m: MetaView)
        requires
            a.inv(),
            Self::grown(a, b),
            a.meta_known(m),
        ensures
            b.meta_known(m),
            b.view_index().read_frags(m.key) == a.view_index().read_frags(m.key),
            read_map(b.view_index(), m.map) == read_map(a.view_index(), m.map),
            read_args(b.view_index(), m.args) == read_args(a.view_index(), m.args),
    {
        Self::lemma_frags_keep(a, b, m.key);
        assert forall|i: int| 0 <= i < m.map.len() implies b.word_known(#[trigger] m.map[i].0) && b.word_known(m.map[i].1)
            && b.view_index().word(m.map[i].0 as int) == a.view_index().word(m.map[i].0 as int)
            && b.view_index().word(m.map[i].1 as int) == a.view_index().word(m.map[i].1 as int) by {
            Self::lemma_word_keep(a, b, m.map[i].0);
            Self::lemma_word_keep(a, b, m.map[i].1);
        }
        assert(read_map(b.view_index(), m.map) =~= read_map(a.view_index(), m.map));
        assert forall|i: int| 0 <= i < m.args.len() implies b.word_known(#[trigger] m.args[i].0) && b.words_known(m.args[i].1)
            && b.view_index().word(m.args[i].0 as int) == a.view_index().word(m.args[i].0 as int)
            && b.view_index().read_frags(m.args[i].1) == a.view_index().read_frags(m.args[i].1) by {
            Self::lemma_word_keep(a, b, m.args[i].0);
            Self::lemma_frags_keep(a, b, m.args[i].1);
        }
        assert(read_args(b.view_index(), m.args) =~= read_args(a.view_index(), m.args));
    }

    /// The store id that `name` selects (see [`store_index`]).
    fn resolve_store_id(&self, name: &[u8]) -> (r: u8)
        requires
            self.store_ids@.len() <= MAX_STORE_ID,
        ensures
            r == store_index(self.store_ids@, name@),
    {
        let mut i: usize = 0;
        while i < self.store_ids.len()
            invariant
                self.store_ids@.len() <= MAX_STORE_ID,
                i <= self.store_ids@.len(),
                forall|j: int| 0 <= j < i ==> encode_utf8(self.store_ids@[j]@) != name@,
            decreases self.store_ids@.len() - i,
        {
            if bytes_eq(self.store_ids[i].as_bytes(), name) {
                proof {
                    lemma_store_index_first(self.store_ids@, name@, i as int);
                }
                return (i + 1) as u8;
            }
            i = i + 1;
        }
        proof {
            lemma_store_index_none(self.store_ids@, name@);
        }
        0
    }

    /// Interns a field mapping: per pair, its destination and source words.
    fn build_map(&mut self, mp: &Vec<(Vec<u8>, Tree)>) -> (r: Result<Vec<(u16, u16)>, DslError>)
        requires
            old(self).inv(),
        ensures
            r matches Err(e) ==> e is LimitExceeded,
            old(self).load() + map_cost(pairs_view(mp@)) <= load_limit() ==> r is Ok,
            r matches Ok(m) ==> final(self).load() <= old(self).load() + map_cost(pairs_view(mp@)) && m@.len() == mp@.len(),
            r matches Ok(m) ==> {
                &&& final(self).inv()
                &&& Self::grown(old(self), final(self))
                &&& final(self).paths == old(self).paths
                &&& final(self).children == old(self).children
                &&& final(self).map_known(m@)
                &&& read_map(final(self).view_index(), m@) == map_words(pairs_view(mp@))
            },
    {
        let ghost want = map_words(pairs_view(mp@));
        let ghost start = *self;
        let mut m: Vec<(u16, u16)> = Vec::new();
        proof {
            Self::lemma_grown_refl(self);
            lemma_empty_entry();
            assert(pairs_view(mp@).take(0) =~= Seq::<(Seq<u8>, TreeView)>::empty());
        }
        let mut i: usize = 0;
        while i < mp.len()
            invariant
                start == *old(self),
                start.inv(),
                self.inv(),
                Self::grown(&start, self),
                self.paths == start.paths,
                self.children == start.children,
                want == map_words(pairs_view(mp@)),
                i <= mp@.len(),
                m@.len() == i,
                self.map_known(m@),
                self.load() <= start.load() + map_cost(pairs_view(mp@).take(i as int)),
                forall|j: int| 0 <= j < i ==> #[trigger] read_map(self.view_index(), m@)[j] == want[j],
            decreases mp@.len() - i,
        {
            let ghost before = *self;
            let ghost m0 = m@;
            proof {
                lemma_map_cost(pairs_view(mp@), i as int);
                lemma_map_cost(pairs_view(mp@), i + 1);
                assert(pairs_view(mp@)[i as int] == (mp@[i as int].0@, mp@[i as int].1@));
            }
            let dst = self.intern_word(mp[i].0.as_slice())?;
            let ghost mid = *self;
            let src = match &mp[i].1 {
                Tree::Scalar(b) => {
                    assert(value_bytes(mp@[i as int].1@) == b@);
                    let s = self.intern_word(b.as_slice())?;
                    proof {
                        Self::lemma_grown_trans(&before, &mid, self);
                        Self::lemma_word_keep(&mid, self, dst);
                    }
                    s
                },
                _ => 0u16,
            };
            proof {
                assert(Self::grown(&before, self));
                Self::lemma_grown_trans(&start, &before, self);
                assert forall|j: int| 0 <= j < m0.len() implies self.word_known(#[trigger] m0[j].0) && self.word_known(m0[j].1)
                    && read_map(self.view_index(), m0)[j] == read_map(before.view_index(), m0)[j] by {
                    Self::lemma_word_keep(&before, self, m0[j].0);
                    Self::lemma_word_keep(&before, self, m0[j].1);
                }
                assert(entry_ok(self.words.identity@, self.words.data@.len(), 0));
                assert(self.words.data@.subrange(0, 0) =~= Seq::<u8>::empty());
                assert(self.view_index().word(0) =~= Seq::<u8>::empty());
            }
            m.push((dst, src));
            proof {
                assert(self.word_known(dst));
                assert(self.word_known(src));
                assert forall|j: int| 0 <= j < m@.len() implies self.word_known(#[trigger] m@[j].0) && self.word_known(m@[j].1) by {
                    if j < i {
                        assert(m@[j] == m0[j]);
                    }
                }
                assert forall|j: int| 0 <= j <= i implies #[trigger] read_map(self.view_index(), m@)[j] == want[j] by {
                    if j < i {
                        assert(m@[j] == m0[j]);
                    }
                }
            }
            i = i + 1;
        }
        assert(read_map(self.view_index(), m@) =~= want);
        assert(pairs_view(mp@).take(i as int) =~= pairs_view(mp@));
        Ok(m)
    }
}

/// The pairs of a mapping, by their models.
pub open spec fn pairs_view(p: Seq<(Vec<u8>, Tree)>) -> Seq<(Seq<u8>, TreeView)> {
    Seq::new(p.len(), |i: int| (p[i].0@, p[i].1@))
}

proof fn lemma_lookup_first(pv: Seq<(Seq<u8>, TreeView)>, k: Seq<u8>, i: int)
    requires
        0 <= i <= pv.len(),
        forall|j: int| 0 <= j < i ==> pv[j].0 != k,
    ensures
        lookup(pv, k) == lookup(pv.skip(i), k),
    decreases i,
{
    if i > 0 {
        assert(pv[0].0 != k);
        let r = pv.drop_first();
        assert forall|j: int| 0 <= j < i - 1 implies r[j].0 != k by {
            assert(r[j] == pv[j + 1]);
        }
        lemma_lookup_first(r, k, i - 1);
        assert(r.skip(i - 1) =~= pv.skip(i));
    } else {
        assert(pv.skip(0) =~= pv);
    }
}

/// The value of the first pair keyed `key`.
pub(crate) fn find_local<'p>(pairs: &'p Vec<(Vec<u8>, Tree)>, key: &[u8]) -> (r: Option<&'p Tree>)
    ensures
        match lookup(pairs_view(pairs@), key@) {
            Some(v) => r matches Some(t) && t@ == v,
            None => r is None,
        },
{
    let ghost pv = pairs_view(pairs@);
    let mut i: usize = 0;
    while i < pairs.len()
        invariant
            pv == pairs_view(pairs@),
            i <= pairs@.len(),
            forall|j: int| 0 <= j < i ==> pv[j].0 != key@,
        decreases pairs@.len() - i,
    {
        if bytes_eq(pairs[i].0.as_slice(), key) {
            proof {
                lemma_lookup_first(pv, key@, i as int);
                assert(pv.skip(i as int)[0] == pv[i as int]);
            }
            return Some(&pairs[i].1);
        }
        i = i + 1;
    }
    proof {
        lemma_lookup_first(pv, key@, i as int);
        assert(pv.skip(i as int).len() == 0);
    }
    None
}

/// The keyword ids and value fragments of argument entries.
pub open spec fn entries_view(v: Seq<(u16, Vec<u16>)>) -> Seq<(u16, Seq<u16>)> {
    Seq::new(v.len(), |i: int| (v[i].0, v[i].1@))
}

/// Rebinding the only pair of a non-empty keyword (or one of an empty keyword,
/// which names no argument) changes the map at that keyword alone.
proof fn lemma_args_map_update(s: Seq<(Seq<u8>, Seq<(bool, Seq<u8>)>)>, i: int, e: (Seq<u8>, Seq<(bool, Seq<u8>)>))
    requires
        0 <= i < s.len(),
        s[i].0 == e.0,
        e.0.len() > 0 ==> forall|j: int| 0 <= j < s.len() && j != i ==> s[j].0 != e.0,
    ensures
        args_map(s.update(i, e)) == (if e.0.len() > 0 {
            args_map(s).insert(e.0, e.1)
        } else {
            args_map(s)
        }),
    decreases s.len(),
{
    let t = s.update(i, e);
    let d = s.drop_last();
    if i == s.len() - 1 {
        assert(t.drop_last() =~= d);
        if e.0.len() > 0 {
            assert(args_map(t) =~= args_map(s).insert(e.0, e.1));
        } else {
            assert(args_map(t) =~= args_map(s));
        }
    } else {
        assert(t.drop_last() =~= d.update(i, e));
        assert(d[i] == s[i]);
        if e.0.len() > 0 {
            assert forall|j: int| 0 <= j < d.len() && j != i implies d[j].0 != e.0 by {
                assert(d[j] == s[j]);
            }
        }
        lemma_args_map_update(d, i, e);
        assert(t.last() == s.last());
        if e.0.len() > 0 {
            assert(s.last().0 != e.0);
            assert(args_map(t) =~= args_map(s).insert(e.0, e.1));
        } else {
            assert(args_map(t) =~= args_map(s));
        }
    }
}

/// Adding a pair binds its keyword, unless the keyword is empty.
proof fn lemma_args_map_push(s: Seq<(Seq<u8>, Seq<(bool, Seq<u8>)>)>, e: (Seq<u8>, Seq<(bool, Seq<u8>)>))
    ensures
        args_map(s.push(e)) == (if e.0.len() > 0 {
            args_map(s).insert(e.0, e.1)
        } else {
            args_map(s)
        }),
{
    assert(s.push(e).drop_last() =~= s);
}

impl<'s> Compiler<'s> {
    /// Binds argument `k` (interned) to the fragments of `v`, replacing an earlier
    /// binding of the same word.
    #[verifier::loop_isolation(false)]
    fn apply_arg(&mut self, args: &mut Vec<(u16, Vec<u16>)>, k: &[u8], v: &Tree) -> (r: Result<(), DslError>)
        requires
            old(self).inv(),
            forall|i: int|
                0 <= i < old(args)@.len() ==> old(self).word_known(#[trigger] old(args)@[i].0) && old(
                    self,
                ).words_known(old(args)@[i].1@),
            args_distinct(entries_view(old(args)@)),
        ensures
            r matches Err(e) ==> e is LimitExceeded,
            old(self).load() + k@.len() + 1 + 2 * value_bytes(v@).len() <= load_limit() ==> r is Ok,
            r is Ok ==> {
                &&& final(self).inv()
                &&& Self::grown(old(self), final(self))
                &&& final(self).paths == old(self).paths
                &&& final(self).children == old(self).children
                &&& forall|i: int|
                    0 <= i < final(args)@.len() ==> final(self).word_known(#[trigger] final(args)@[i].0)
                        && final(self).words_known(final(args)@[i].1@)
                &&& args_distinct(entries_view(final(args)@))
                &&& final(self).load() <= old(self).load() + k@.len() + 1 + 2 * value_bytes(v@).len()
                &&& args_frag_len(entries_view(final(args)@)) + 3 * final(args)@.len() <= args_frag_len(entries_view(old(args)@))
                    + 3 * old(args)@.len() + value_bytes(v@).len() + 3
                &&& args_map(read_args(final(self).view_index(), entries_view(final(args)@))) == (if k@.len() > 0 {
                    args_map(read_args(old(self).view_index(), entries_view(old(args)@))).insert(k@, value_segments(v@))
                } else {
                    args_map(read_args(old(self).view_index(), entries_view(old(args)@)))
                })
            },
    {
        let ghost a = *self;
        let ghost ea = entries_view(args@);
        let ak = self.intern_word(k)?;
        let ghost b = *self;
        let av = self.encode_value(v)?;
        proof {
            Self::lemma_grown_trans(&a, &b, self);
            Self::lemma_word_keep(&b, self, ak);
            assert forall|i: int| 0 <= i < args@.len() implies self.word_known(#[trigger] args@[i].0) && self.words_known(args@[i].1@) by {
                Self::lemma_word_keep(&a, self, args@[i].0);
                Self::lemma_frags_keep(&a, self, args@[i].1@);
            }
            assert forall|i: int| 0 <= i < ea.len() implies a.word_known(#[trigger] ea[i].0) && a.words_known(ea[i].1) by {
                assert(ea[i] == (args@[i].0, args@[i].1@));
            }
            Self::lemma_args_words(&a, self, ea);
        }
        let ghost ix = self.view_index();
        let ghost rd = read_args(ix, ea);
        let ghost f = value_segments(v@);
        assert(ix.word(ak as int) == k@);
        let mut i: usize = 0;
        while i < args.len()
            invariant
                i <= args@.len(),
                self.word_known(ak),
                self.words_known(av@),
                forall|j: int| 0 <= j < args@.len() ==> self.word_known(#[trigger] args@[j].0) && self.words_known(args@[j].1@),
                forall|j: int| 0 <= j < i ==> #[trigger] args@[j].0 != ak,
                args@ == old(args)@,
                ea == entries_view(old(args)@),
            decreases args@.len() - i,
        {
            if args[i].0 == ak {
                let ghost before = args@;
                args.set(i, (ak, av));
                proof {
                    assert forall|j: int| 0 <= j < args@.len() implies self.word_known(#[trigger] args@[j].0) && self.words_known(args@[j].1@) by {
                        if j != i {
                            assert(args@[j] == before[j]);
                        }
                    }
                    let eb = entries_view(args@);
                    assert forall|j: int| 0 <= j < eb.len() implies #[trigger] eb[j] == ea.update(i as int, (ak, av@))[j] by {
                        if j != i {
                            assert(args@[j] == before[j]);
                        }
                    }
                    assert(eb =~= ea.update(i as int, (ak, av@)));
                    assert(read_args(ix, eb) =~= rd.update(i as int, (k@, f)));
                    assert(rd[i as int].0 == k@);
                    if k@.len() > 0 {
                        assert forall|j: int| 0 <= j < rd.len() && j != i implies rd[j].0 != k@ by {
                            assert(ea[j].0 == before[j].0);
                            assert(ea[i as int].0 == ak);
                            if rd[j].0 == k@ {
                                assert(self.word_known(before[j].0));
                                assert(vl_view(self.words).entry(before[j].0 as int) == Some(k@));
                                assert(vl_view(self.words).entry(ak as int) == Some(k@));
                                if (before[j].0 as int) < (ak as int) {
                                    assert(vl_view(self.words).entry(before[j].0 as int) != vl_view(self.words).entry(ak as int));
                                } else if (ak as int) < (before[j].0 as int) {
                                    assert(vl_view(self.words).entry(ak as int) != vl_view(self.words).entry(before[j].0 as int));
                                }
                                assert(ea[j].0 == ea[i as int].0);
                                if j < i {
                                    assert(ea[j].0 != ea[i as int].0);
                                } else {
                                    assert(ea[i as int].0 != ea[j].0);
                                }
                            }
                        }
                    }
                    lemma_args_map_update(rd, i as int, (k@, f));
                    lemma_args_frag_len_change(ea, i as int, (ak, av@));
                    assert forall|x: int, y: int| 0 <= x < y < eb.len() implies #[trigger] eb[x].0 != #[trigger] eb[y].0 by {
                        assert(eb[x].0 == ea[x].0 && eb[y].0 == ea[y].0);
                    }
                }
                return Ok(());
            }
            i = i + 1;
        }
        let ghost before = args@;
        args.push((ak, av));
        proof {
            assert forall|j: int| 0 <= j < args@.len() implies self.word_known(#[trigger] args@[j].0) && self.words_known(args@[j].1@) by {
                if j < before.len() {
                    assert(args@[j] == before[j]);
                }
            }
            let eb = entries_view(args@);
            assert forall|j: int| 0 <= j < eb.len() implies #[trigger] eb[j] == ea.push((ak, av@))[j] by {
                if j < before.len() {
                    assert(args@[j] == before[j]);
                }
            }
            assert(eb =~= ea.push((ak, av@)));
            assert(read_args(ix, eb) =~= rd.push((k@, f)));
            lemma_args_map_push(rd, (k@, f));
            lemma_args_frag_len_change(ea, 0, (ak, av@));
            assert forall|x: int, y: int| 0 <= x < y < eb.len() implies #[trigger] eb[x].0 != #[trigger] eb[y].0 by {
                if y < ea.len() {
                    assert(eb[x].0 == ea[x].0 && eb[y].0 == ea[y].0);
                } else {
                    assert(eb[x].0 == before[x].0);
                }
            }
        }
        Ok(())
    }
}

/// The model of a resolved block, if any.
pub(crate) open spec fn opt_view(m: Option<MetaBlock>) -> Option<MetaView> {
    match m {
        Some(b) => Some(b@),
        None => None,
    }
}

proof fn lemma_mapping_view(t: Tree, pairs: Vec<(Vec<u8>, Tree)>)
    requires
        t == Tree::Mapping(pairs),
    ensures
        t@ == TreeView::Mapping(pairs_view(pairs@)),
{
    assert(t@->Mapping_0 =~= pairs_view(pairs@));
}

impl<'s> Compiler<'s> {
    /// Resolves the `meta_key` block of a field whose pairs are `pairs` against
    /// the block it inherits (see [`resolves_to`]).
    #[verifier::spinoff_prover]
    #[verifier::rlimit(100)]
    fn resolve_meta(
        &mut self,
        pairs: &Vec<(Vec<u8>, Tree)>,
        meta_key: &[u8],
        inherited: Option<&MetaBlock>,
    ) -> (r: Result<Option<MetaBlock>, DslError>)
        requires
            old(self).inv(),
            inherited matches Some(b) ==> old(self).meta_known(b@),
        ensures
            r matches Err(e) ==> e is LimitExceeded,
            old(self).load() + props_cost(meta_props(pairs_view(pairs@), meta_key@)) <= load_limit() ==> r is Ok,
            r matches Ok(m) ==> final(self).load() <= old(self).load() + props_cost(meta_props(pairs_view(pairs@), meta_key@))
                && opt_meta_cost(opt_view(m)) <= opt_meta_cost(meta_view(inherited)) + 5 + props_growth(
                meta_props(pairs_view(pairs@), meta_key@),
            ),
            r matches Ok(m) ==> {
                &&& final(self).inv()
                &&& Self::grown(old(self), final(self))
                &&& final(self).paths == old(self).paths
                &&& final(self).children == old(self).children
                &&& (m matches Some(b) ==> final(self).meta_known(b@))
                &&& resolves_to(
                    final(self).view_index(),
                    pairs_view(pairs@),
                    meta_key@,
                    meta_view(inherited),
                    final(self).store_ids@,
                    opt_view(m),
                )
            },
    {
        let local = find_local(pairs, meta_key);
        let props = match local {
            Some(Tree::Mapping(props)) => props,
            _ => {
                proof {
                    Self::lemma_grown_refl(self);
                    lemma_meta_cost_nonneg(meta_view(inherited));
                    assert(meta_props(pairs_view(pairs@), meta_key@) =~= Seq::<(Seq<u8>, TreeView)>::empty());
                }
                return Ok(copy_meta(inherited));
            },
        };
        proof {
            lemma_mapping_view(*local.unwrap(), *props);
            assert(meta_props(pairs_view(pairs@), meta_key@) == pairs_view(props@));
        }
        let ghost pv = pairs_view(props@);
        let ghost base = match inherited {
            Some(b) => b@,
            None => MetaView { store_id: 0, key: Seq::empty(), map: Seq::empty(), args: Seq::empty() },
        };
        let mut m = match inherited {
            Some(b) => b.copy(),
            None => MetaBlock::empty(),
        };
        let ghost start = *self;
        proof {
            Self::lemma_grown_refl(self);
            assert(pv.take(0) =~= Seq::<(Seq<u8>, TreeView)>::empty());
            assert(self.words_known(Seq::<u16>::empty()));
            assert(self.meta_known(m@));
            lemma_props_cost(pv, 0);
        }
        let store_w = prop_store();
        let key_w = prop_key();
        let map_w = prop_map();
        let get_w = meta_get();
        let set_w = meta_set();
        let state_w = meta_state();
        let mut store_set = false;
        let mut map_set = false;
        let mut i: usize = 0;
        while i < props.len()
            invariant
                start == *old(self),
                start.inv(),
                self.inv(),
                Self::grown(&start, self),
                self.paths == start.paths,
                self.children == start.children,
                pv == pairs_view(props@),
                store_w@ == prop_store_word(),
                key_w@ == prop_key_word(),
                map_w@ == prop_map_word(),
                get_w@ == meta_get_word(),
                set_w@ == meta_set_word(),
                state_w@ == meta_state_word(),
                i <= props@.len(),
                m@.store_id == props_store(pv.take(i as int), base.store_id, self.store_ids@),
                store_set == store_given(pv.take(i as int)),
                map_set == last_map(pv.take(i as int)) is Some,
                match last_key(pv.take(i as int)) {
                    Some(v) => self.view_index().read_frags(m@.key) == value_segments(v),
                    None => m@.key == base.key,
                },
                match last_map(pv.take(i as int)) {
                    Some(mp) => read_map(self.view_index(), m@.map) == map_words(mp),
                    None => m@.map == base.map,
                },
                args_map(read_args(self.view_index(), m@.args)) == props_args(
                    pv.take(i as int),
                    args_map(read_args(start.view_index(), base.args)),
                ),
                self.meta_known(m@),
                self.load() <= start.load() + props_cost(pv.take(i as int)),
                meta_cost(m@) <= meta_cost(base) + props_growth(pv.take(i as int)),
                meta_props(pairs_view(pairs@), meta_key@) == pv,
            decreases props@.len() - i,
        {
            let ghost before = *self;
            let ghost m0 = m@;
            let ghost args0 = args_map(read_args(start.view_index(), base.args));
            let k = props[i].0.as_slice();
            let v = &props[i].1;
            proof {
                lemma_props_cost(pv, i as int);
                lemma_props_cost(pv, i + 1);
                lemma_prop_cost(pv[i as int]);
                lemma_args_frag_len(m0.args, 0);
            }
            assert(pv.take(i + 1).drop_last() =~= pv.take(i as int));
            assert(pv.take(i + 1).last() == pv[i as int]);
            assert(pv[i as int] == (k@, v@));
            if bytes_eq(k, store_w.as_slice()) {
                if let Tree::Scalar(b) = v {
                    m.store_id = self.resolve_store_id(b.as_slice());
                    store_set = true;
                }
                proof {
                    Self::lemma_grown_refl(self);
                    assert(m@.key == m0.key && m@.map == m0.map && m@.args == m0.args);
                    self.lemma_meta_same(m0, m@);
                }
            } else if bytes_eq(k, key_w.as_slice()) {
                m.key_value = self.encode_value(v)?;
                proof {
                    Self::lemma_meta_keep(&before, self, m0);
                    assert(m@.map == m0.map && m@.args == m0.args);
                    self.lemma_meta_same(m0, m@);
                }
            } else if bytes_eq(k, map_w.as_slice()) {
                if let Tree::Mapping(mp) = v {
                    proof {
                        lemma_mapping_view(*v, *mp);
                    }
                    m.map_entries = self.build_map(mp)?;
                    map_set = true;
                    proof {
                        Self::lemma_meta_keep(&before, self, m0);
                        assert(m@.key == m0.key && m@.args == m0.args);
                        self.lemma_meta_same(m0, m@);
                    }
                } else {
                    proof {
                        Self::lemma_grown_refl(self);
                    }
                }
            } else if !bytes_eq(k, get_w.as_slice()) && !bytes_eq(k, set_w.as_slice()) && !bytes_eq(
                k,
                state_w.as_slice(),
            ) {
                proof {
                    assert forall|j: int| 0 <= j < m.arg_entries@.len() implies self.word_known(
                        #[trigger] m.arg_entries@[j].0,
                    ) && self.words_known(m.arg_entries@[j].1@) by {
                        assert(m@.args[j] == (m.arg_entries@[j].0, m.arg_entries@[j].1@));
                        assert(self.word_known(m@.args[j].0) && self.words_known(m@.args[j].1));
                    }
                }
                self.apply_arg(&mut m.arg_entries, k, v)?;
                proof {
                    Self::lemma_meta_keep(&before, self, m0);
                    assert(m@.key == m0.key && m@.map == m0.map);
                    assert(is_arg_word(k@));
                    assert(props_args(pv.take(i + 1), args0) == (if k@.len() > 0 {
                        props_args(pv.take(i as int), args0).insert(k@, value_segments(v@))
                    } else {
                        props_args(pv.take(i as int), args0)
                    }));
                    assert forall|j: int| 0 <= j < m@.args.len() implies self.word_known(#[trigger] m@.args[j].0)
                        && self.words_known(m@.args[j].1) by {
                        assert(m@.args[j] == (m.arg_entries@[j].0, m.arg_entries@[j].1@));
                    }
                }
            } else {
                proof {
                    Self::lemma_grown_refl(self);
                }
            }
            proof {
                Self::lemma_grown_trans(&start, &before, self);
                assert(self.words_known(m@.key));
                assert(self.map_known(m@.map));
                if !is_arg_word(k@) {
                    assert(props_args(pv.take(i + 1), args0) == props_args(pv.take(i as int), args0));
                    assert(m@.args == m0.args);
                    Self::lemma_meta_keep(&before, self, m0);
                }
            }
            i = i + 1;
        }
        assert(pv.take(props@.len() as int) =~= pv);
        proof {
            lemma_meta_cost_nonneg(meta_view(inherited));
        }
        let ghost mk = m@;
        if store_set && !map_set {
            m.map_entries = Vec::new();
            assert(self.map_known(m@.map));
            assert(m@.args == mk.args);
            proof {
                self.lemma_meta_same(mk, m@);
            }
        }
        proof {
            assert(lookup(pairs_view(pairs@), meta_key@) == Some(TreeView::Mapping(pv)));
            assert(self.meta_known(m@));
            if let Some(b) = inherited {
                Self::lemma_meta_keep(&start, self, b@);
            } else {
                assert(read_args(self.view_index(), base.args) =~= read_args(start.view_index(), base.args));
            }
            assert(resolves_to(self.view_index(), pairs_view(pairs@), meta_key@, meta_view(inherited), self.store_ids@, Some(m@)));
        }
        Ok(Some(m))
    }
}

/// The fragments of all further arguments, counted together.
pub open spec fn args_frag_len(a: Seq<(u16, Seq<u16>)>) -> int
    decreases a.len(),
{
    if a.len() == 0 {
        0
    } else {
        args_frag_len(a.drop_last()) + a.last().1.len()
    }
}

/// Counting fragments after one argument is replaced or added.
proof fn lemma_args_frag_len_change(a: Seq<(u16, Seq<u16>)>, i: int, e: (u16, Seq<u16>))
    requires
        0 <= i <= a.len(),
    ensures
        i < a.len() ==> args_frag_len(a.update(i, e)) == args_frag_len(a) - a[i].1.len() + e.1.len(),
        args_frag_len(a.push(e)) == args_frag_len(a) + e.1.len(),
    decreases a.len(),
{
    assert(a.push(e).drop_last() =~= a);
    if i < a.len() {
        if i == a.len() - 1 {
            assert(a.update(i, e).drop_last() =~= a.drop_last());
        } else {
            lemma_args_frag_len_change(a.drop_last(), i, e);
            assert(a.update(i, e).drop_last() =~= a.drop_last().update(i, e));
        }
    }
}

proof fn lemma_meta_cost_nonneg(m: Option<MetaView>)
    ensures
        opt_meta_cost(m) >= 0,
{
    if let Some(b) = m {
        lemma_args_frag_len(b.args, 0);
    }
}

/// What writing a leaf adds to the load, at most: its value's words and
/// fragments, its blocks and its leaf data.
pub open spec fn leaf_cost(v: TreeView, g: Option<MetaView>, s: Option<MetaView>) -> int {
    3 * value_bytes(v).len() + 1 + opt_meta_cost(g) + opt_meta_cost(s) + 13
}

/// Counting the fragments of the first arguments: never negative, never more
/// than counting them all, one argument at a time.
proof fn lemma_args_frag_len(a: Seq<(u16, Seq<u16>)>, i: int)
    requires
        0 <= i <= a.len(),
    ensures
        0 <= args_frag_len(a.take(i)) <= args_frag_len(a),
        i < a.len() ==> args_frag_len(a.take(i + 1)) == args_frag_len(a.take(i)) + a[i].1.len(),
    decreases a.len(),
{
    if a.len() > 0 {
        if i < a.len() {
            lemma_args_frag_len(a.drop_last(), i);
            assert(a.drop_last().take(i) =~= a.take(i));
            if i + 1 < a.len() {
                lemma_args_frag_len(a.drop_last(), i + 1);
                assert(a.drop_last().take(i + 1) =~= a.take(i + 1));
            } else {
                assert(a.take(i + 1) =~= a);
                assert(a.take(i + 1).drop_last() =~= a.take(i));
            }
        } else {
            assert(a.take(i) =~= a);
            lemma_args_frag_len(a.drop_last(), i - 1);
            assert(a.drop_last().take(i - 1) =~= a.drop_last());
        }
    } else {
        assert(a.take(i) =~= a);
    }
}

/// What storing a block's parts adds to the load, at most.
pub open spec fn meta_cost(b: MetaView) -> int {
    b.key.len() + 1 + 2 * b.map.len() + 2 + args_frag_len(b.args) + 3 * b.args.len() + 2
}

/// The same for an optional block (nothing without one).
pub open spec fn opt_meta_cost(m: Option<MetaView>) -> int {
    match m {
        Some(b) => meta_cost(b),
        None => 0,
    }
}

/// What interning a field mapping's words adds to the load, at most.
pub open spec fn map_cost(mp: Seq<(Seq<u8>, TreeView)>) -> int
    decreases mp.len(),
{
    if mp.len() == 0 {
        0
    } else {
        map_cost(mp.drop_last()) + mp.last().0.len() + value_bytes(mp.last().1).len() + 2
    }
}

proof fn lemma_map_cost(mp: Seq<(Seq<u8>, TreeView)>, i: int)
    requires
        0 <= i <= mp.len(),
    ensures
        0 <= map_cost(mp.take(i)) <= map_cost(mp),
        i < mp.len() ==> map_cost(mp.take(i + 1)) == map_cost(mp.take(i)) + mp[i].0.len() + value_bytes(mp[i].1).len() + 2,
    decreases mp.len(),
{
    if mp.len() > 0 {
        if i < mp.len() {
            lemma_map_cost(mp.drop_last(), i);
            assert(mp.drop_last().take(i) =~= mp.take(i));
            if i + 1 < mp.len() {
                lemma_map_cost(mp.drop_last(), i + 1);
                assert(mp.drop_last().take(i + 1) =~= mp.take(i + 1));
            } else {
                assert(mp.take(i + 1) =~= mp);
                assert(mp.take(i + 1).drop_last() =~= mp.take(i));
            }
        } else {
            assert(mp.take(i) =~= mp);
            lemma_map_cost(mp.drop_last(), i - 1);
            assert(mp.drop_last().take(i - 1) =~= mp.drop_last());
        }
    } else {
        assert(mp.take(i) =~= mp);
    }
}

/// What resolving one property of a block adds to the load, at most.
pub open spec fn prop_cost(p: (Seq<u8>, TreeView)) -> int {
    p.0.len() + 1 + 2 * value_bytes(p.1).len() + match p.1 {
        TreeView::Mapping(mp) => map_cost(mp),
        _ => 0int,
    }
}

/// How much one property can grow a block's cost, at most.
pub open spec fn prop_growth(p: (Seq<u8>, TreeView)) -> int {
    value_bytes(p.1).len() + 3 + match p.1 {
        TreeView::Mapping(mp) => 2 * mp.len() as int,
        _ => 0int,
    }
}

/// [`prop_cost`] over a block's properties.
pub open spec fn props_cost(props: Seq<(Seq<u8>, TreeView)>) -> int
    decreases props.len(),
{
    if props.len() == 0 {
        0
    } else {
        props_cost(props.drop_last()) + prop_cost(props.last())
    }
}

/// [`prop_growth`] over a block's properties.
pub open spec fn props_growth(props: Seq<(Seq<u8>, TreeView)>) -> int
    decreases props.len(),
{
    if props.len() == 0 {
        0
    } else {
        props_growth(props.drop_last()) + prop_growth(props.last())
    }
}

/// The properties of a field's `meta_key` block (none without one).
pub open spec fn meta_props(pairs: Seq<(Seq<u8>, TreeView)>, meta_key: Seq<u8>) -> Seq<(Seq<u8>, TreeView)> {
    match lookup(pairs, meta_key) {
        Some(TreeView::Mapping(props)) => props,
        _ => Seq::empty(),
    }
}

proof fn lemma_prop_cost(p: (Seq<u8>, TreeView))
    ensures
        prop_cost(p) >= p.0.len() + 1 + 2 * value_bytes(p.1).len(),
        prop_growth(p) >= value_bytes(p.1).len() + 3,
        p.1 matches TreeView::Mapping(mp) ==> prop_cost(p) >= map_cost(mp) && prop_growth(p) >= 2 * mp.len(),
{
    if let TreeView::Mapping(mp) = p.1 {
        lemma_map_cost(mp, 0);
    }
}

proof fn lemma_props_cost(props: Seq<(Seq<u8>, TreeView)>, i: int)
    requires
        0 <= i <= props.len(),
    ensures
        0 <= props_cost(props.take(i)) <= props_cost(props),
        0 <= props_growth(props.take(i)) <= props_growth(props),
        i < props.len() ==> props_cost(props.take(i + 1)) == props_cost(props.take(i)) + prop_cost(props[i]),
        i < props.len() ==> props_growth(props.take(i + 1)) == props_growth(props.take(i)) + prop_growth(props[i]),
    decreases props.len(),
{
    if props.len() > 0 {
        lemma_prop_cost(props.last());
        if i < props.len() {
            lemma_props_cost(props.drop_last(), i);
            assert(props.drop_last().take(i) =~= props.take(i));
            if i + 1 < props.len() {
                lemma_props_cost(props.drop_last(), i + 1);
                assert(props.drop_last().take(i + 1) =~= props.take(i + 1));
            } else {
                assert(props.take(i + 1) =~= props);
                assert(props.take(i + 1).drop_last() =~= props.take(i));
            }
        } else {
            assert(props.take(i) =~= props);
            lemma_props_cost(props.drop_last(), i - 1);
            assert(props.drop_last().take(i - 1) =~= props.drop_last());
        }
    } else {
        assert(props.take(i) =~= props);
    }
}

/// What walking a node adds to the load, at most, when the blocks it inherits
/// cost at most `g` and `s` (see [`meta_cost`]): a mapping resolves its own
/// blocks, then writes a leaf or its children; anything else writes a leaf.
#[verifier::opaque]
pub open spec fn node_cost(v: TreeView, g: int, s: int) -> int
    decreases v, 0int,
{
    match v {
        TreeView::Mapping(pairs) => {
            let gp = meta_props(pairs, meta_get_word());
            let sp = meta_props(pairs, meta_set_word());
            let g2 = g + 5 + props_growth(gp);
            let s2 = s + 5 + props_growth(sp);
            props_cost(gp) + props_cost(sp) + if fields(pairs).len() > 0 {
                fields(pairs).len() + 1 + fields_cost(pairs, g2, s2)
            } else {
                14 + g2 + s2
            }
        },
        _ => 3 * value_bytes(v).len() + 14 + g + s,
    }
}

/// What walking the field keys among `pairs` adds to the load, at most: each
/// its path, its keyword and its node.
pub open spec fn fields_cost(pairs: Seq<(Seq<u8>, TreeView)>, g: int, s: int) -> int
    decreases pairs, 1int,
{
    if pairs.len() == 0 {
        0
    } else {
        let last = pairs[pairs.len() - 1];
        let rest = pairs.subrange(0, pairs.len() - 1);
        fields_cost(rest, g, s) + if is_field(last.0) {
            last.0.len() + 2 + node_cost(last.1, g, s)
        } else {
            0
        }
    }
}

/// The size a compiled tree is sure to fit in (see [`tree_cost`]): the load
/// limit less what a new compiler holds.
pub open spec fn compile_budget() -> int {
    load_limit() - 9
}

/// A variable list within the offset range has its offsets in 16 bits.
proof fn lemma_fits16<T>(v: VariableList<T>)
    requires
        vl_ok(v),
    ensures
        fits16(v),
{
    assert forall|i: int| 0 <= i < v.identity@.len() implies v.identity@[i] <= 0xffff by {
        assert(entry_ok(v.identity@, v.data@.len(), i / 2));
    }
}

/// What compiling a tree adds to the load of a new compiler, at most.
pub open spec fn tree_cost(t: TreeView) -> int {
    1 + match t {
        TreeView::Mapping(pairs) => fields(pairs).len() + 1 + fields_cost(pairs, 0, 0),
        _ => 0,
    }
}

/// What walking a node costs, by its shape.
proof fn lemma_node_cost(v: TreeView, g: int, s: int)
    ensures
        node_cost(v, g, s) == match v {
            TreeView::Mapping(pairs) => {
                let gp = meta_props(pairs, meta_get_word());
                let sp = meta_props(pairs, meta_set_word());
                let g2 = g + 5 + props_growth(gp);
                let s2 = s + 5 + props_growth(sp);
                props_cost(gp) + props_cost(sp) + if fields(pairs).len() > 0 {
                    fields(pairs).len() + 1 + fields_cost(pairs, g2, s2)
                } else {
                    14 + g2 + s2
                }
            },
            _ => 3 * value_bytes(v).len() + 14 + g + s,
        },
{
    reveal(node_cost);
}

/// The cost of the first field keys, one pair at a time.
proof fn lemma_fields_cost_take(pv: Seq<(Seq<u8>, TreeView)>, i: int, g: int, s: int)
    requires
        0 <= i <= pv.len(),
        0 <= g,
        0 <= s,
    ensures
        0 <= fields_cost(pv.take(i), g, s) <= fields_cost(pv, g, s),
        i < pv.len() ==> fields_cost(pv.take(i + 1), g, s) == fields_cost(pv.take(i), g, s) + if is_field(pv[i].0) {
            pv[i].0.len() + 2 + node_cost(pv[i].1, g, s)
        } else {
            0
        },
    decreases pv.len(),
{
    reveal(node_cost);
    if pv.len() > 0 {
        let n = pv.len() - 1;
        let d = pv.subrange(0, n);
        lemma_node_cost_mono(pv[n].1, g, s, g, s);
        if i < pv.len() {
            assert(pv.take(i + 1).subrange(0, i) =~= pv.take(i));
            assert(pv.take(i + 1)[i] == pv[i]);
            lemma_node_cost_mono(pv[i].1, g, s, g, s);
            lemma_fields_cost_take(d, i, g, s);
            assert(d.take(i) =~= pv.take(i));
            if i + 1 < pv.len() {
                lemma_fields_cost_take(d, i + 1, g, s);
                assert(d.take(i + 1) =~= pv.take(i + 1));
            } else {
                assert(pv.take(i + 1) =~= pv);
                assert(pv.take(i + 1).subrange(0, i) =~= pv.take(i));
            }
        } else {
            assert(pv.take(i) =~= pv);
            lemma_fields_cost_take(d, i - 1, g, s);
            assert(d.take(i - 1) =~= d);
        }
    } else {
        assert(pv.take(i) =~= pv);
    }
}

/// Costs are not negative and grow with what the blocks cost.
proof fn lemma_node_cost_mono(v: TreeView, g: int, s: int, g2: int, s2: int)
    requires
        0 <= g <= g2,
        0 <= s <= s2,
    ensures
        0 <= node_cost(v, g, s) <= node_cost(v, g2, s2),
    decreases v, 0int,
{
    reveal(node_cost);
    if let TreeView::Mapping(pairs) = v {
        let gp = meta_props(pairs, meta_get_word());
        let sp = meta_props(pairs, meta_set_word());
        lemma_props_cost(gp, 0);
        lemma_props_cost(sp, 0);
        lemma_fields_cost_mono(
            pairs,
            g + 5 + props_growth(gp),
            s + 5 + props_growth(sp),
            g2 + 5 + props_growth(gp),
            s2 + 5 + props_growth(sp),
        );
    }
}

proof fn lemma_fields_cost_mono(pairs: Seq<(Seq<u8>, TreeView)>, g: int, s: int, g2: int, s2: int)
    requires
        0 <= g <= g2,
        0 <= s <= s2,
    ensures
        0 <= fields_cost(pairs, g, s) <= fields_cost(pairs, g2, s2),
    decreases pairs, 1int,
{
    reveal(node_cost);
    if pairs.len() > 0 {
        let last = pairs[pairs.len() - 1];
        let rest = pairs.subrange(0, pairs.len() - 1);
        lemma_fields_cost_mono(rest, g, s, g2, s2);
        lemma_node_cost_mono(last.1, g, s, g2, s2);
    }
}

/// The key slot refers to the block's key fragments (0 when there are none).
pub open spec fn key_part(ix: IndexView, key: u16, b: MetaView) -> bool {
    if b.key.len() == 0 {
        key == 0
    } else {
        ix.values.entry(key as int) == Some(b.key)
    }
}

/// The map slots refer to the destinations and sources of the block's field mapping.
pub open spec fn map_part(ix: IndexView, mk: u16, mv: u16, b: MetaView) -> bool {
    if b.map.len() == 0 {
        mk == 0 && mv == 0
    } else {
        &&& ix.map_keys.entry(mk as int) == Some(b.map.map_values(|e: (u16, u16)| e.0))
        &&& ix.map_vals.entry(mv as int) == Some(b.map.map_values(|e: (u16, u16)| e.1))
    }
}

/// The value slot of an argument refers to its fragments (0 when there are none).
pub open spec fn arg_val_part(ix: IndexView, v: u16, frags: Seq<u16>) -> bool {
    if frags.len() == 0 {
        v == 0
    } else {
        ix.values.entry(v as int) == Some(frags)
    }
}

/// The args slots refer to the keywords and the value fragments of the block's arguments.
pub open spec fn args_part(ix: IndexView, ak: u16, av: u16, b: MetaView) -> bool {
    if b.args.len() == 0 {
        ak == 0 && av == 0
    } else {
        &&& ix.args_keys.entry(ak as int) == Some(b.args.map_values(|e: (u16, Seq<u16>)| e.0))
        &&& ix.args_vals.entry(av as int) matches Some(vals)
        &&& vals.len() == b.args.len()
        &&& forall|i: int| 0 <= i < vals.len() ==> arg_val_part(ix, #[trigger] vals[i], b.args[i].1)
    }
}

/// The leaf slots `(store, key, map keys, map values, args keys, args values)`
/// hold block `m` as stored in `ix`: zeros when there is none.
pub open spec fn encodes_meta(ix: IndexView, s: (u16, u16, u16, u16, u16, u16), m: Option<MetaView>) -> bool {
    let (store, key, mk, mv, ak, av) = s;
    match m {
        None => store == 0 && key == 0 && mk == 0 && mv == 0 && ak == 0 && av == 0,
        Some(b) => {
            &&& store == b.store_id as u16
            &&& key_part(ix, key, b)
            &&& map_part(ix, mk, mv, b)
            &&& args_part(ix, ak, av, b)
        },
    }
}

impl<'s> Compiler<'s> {
    /// Entries of the value-like lists that exist stay as they are while the lists grow.
    proof fn lemma_entries_keep(a: &Self, b: &Self)
        requires
            a.inv(),
            Self::grown(a, b),
        ensures
            forall|k: int| (#[trigger] vl_view(a.values).entry(k)) is Some ==> vl_view(b.values).entry(k) == vl_view(a.values).entry(k),
            forall|k: int| (#[trigger] vl_view(a.leaves).entry(k)) is Some ==> vl_view(b.leaves).entry(k) == vl_view(a.leaves).entry(k),
            forall|k: int| (#[trigger] vl_view(a.map_keys).entry(k)) is Some ==> vl_view(b.map_keys).entry(k) == vl_view(a.map_keys).entry(k),
            forall|k: int| (#[trigger] vl_view(a.map_vals).entry(k)) is Some ==> vl_view(b.map_vals).entry(k) == vl_view(a.map_vals).entry(k),
            forall|k: int| (#[trigger] vl_view(a.args_keys).entry(k)) is Some ==> vl_view(b.args_keys).entry(k) == vl_view(a.args_keys).entry(k),
            forall|k: int| (#[trigger] vl_view(a.args_vals).entry(k)) is Some ==> vl_view(b.args_vals).entry(k) == vl_view(a.args_vals).entry(k),
    {
        assert forall|k: int| (#[trigger] vl_view(a.values).entry(k)) is Some implies vl_view(b.values).entry(k) == vl_view(a.values).entry(k) by {
            lemma_extends_entry(a.values, b.values, k);
        }
        assert forall|k: int| (#[trigger] vl_view(a.leaves).entry(k)) is Some implies vl_view(b.leaves).entry(k) == vl_view(a.leaves).entry(k) by {
            lemma_extends_entry(a.leaves, b.leaves, k);
        }
        assert forall|k: int| (#[trigger] vl_view(a.map_keys).entry(k)) is Some implies vl_view(b.map_keys).entry(k) == vl_view(a.map_keys).entry(k) by {
            lemma_extends_entry(a.map_keys, b.map_keys, k);
        }
        assert forall|k: int| (#[trigger] vl_view(a.map_vals).entry(k)) is Some implies vl_view(b.map_vals).entry(k) == vl_view(a.map_vals).entry(k) by {
            lemma_extends_entry(a.map_vals, b.map_vals, k);
        }
        assert forall|k: int| (#[trigger] vl_view(a.args_keys).entry(k)) is Some implies vl_view(b.args_keys).entry(k) == vl_view(a.args_keys).entry(k) by {
            lemma_extends_entry(a.args_keys, b.args_keys, k);
        }
        assert forall|k: int| (#[trigger] vl_view(a.args_vals).entry(k)) is Some implies vl_view(b.args_vals).entry(k) == vl_view(a.args_vals).entry(k) by {
            lemma_extends_entry(a.args_vals, b.args_vals, k);
        }
    }

    proof fn lemma_parts_keep(a: &Self, b: &Self, key: u16, mk: u16, mv: u16, ak: u16, av: u16, m: MetaView)
        requires
            a.inv(),
            Self::grown(a, b),
        ensures
            key_part(a.view_index(), key, m) ==> key_part(b.view_index(), key, m),
            map_part(a.view_index(), mk, mv, m) ==> map_part(b.view_index(), mk, mv, m),
            args_part(a.view_index(), ak, av, m) ==> args_part(b.view_index(), ak, av, m),
    {
        Self::lemma_entries_keep(a, b);
        if args_part(a.view_index(), ak, av, m) && m.args.len() != 0 {
            let vals = vl_view(a.args_vals).entry(av as int)->0;
            assert(vl_view(b.args_vals).entry(av as int) == Some(vals));
            assert forall|i: int| 0 <= i < vals.len() implies arg_val_part(b.view_index(), #[trigger] vals[i], m.args[i].1) by {
                assert(arg_val_part(a.view_index(), vals[i], m.args[i].1));
            }
        }
    }

    proof fn lemma_encodes_meta_keep(a: &Self, b: &Self, s: (u16, u16, u16, u16, u16, u16), m: Option<MetaView>)
        requires
            a.inv(),
            Self::grown(a, b),
            encodes_meta(a.view_index(), s, m),
        ensures
            encodes_meta(b.view_index(), s, m),
    {
        if let Some(bm) = m {
            let (store, key, mk, mv, ak, av) = s;
            Self::lemma_parts_keep(a, b, key, mk, mv, ak, av, bm);
        }
    }

    fn encode_key_part(&mut self, b: &MetaBlock) -> (r: Result<u16, DslError>)
        requires
            old(self).inv(),
        ensures
            r matches Err(e) ==> e is LimitExceeded,
            old(self).load() + b@.key.len() + 1 <= load_limit() ==> r is Ok,
            r is Ok ==> final(self).load() <= old(self).load() + b@.key.len() + 1,
            r matches Ok(key) ==> {
                &&& final(self).inv()
                &&& Self::grown(old(self), final(self))
                &&& final(self).paths == old(self).paths
                &&& final(self).children == old(self).children
                &&& final(self).words == old(self).words
                &&& key_part(final(self).view_index(), key, b@)
            },
    {
        if b.key_value.len() == 0 {
            proof {
                Self::lemma_grown_refl(self);
            }
            Ok(0u16)
        } else {
            self.push_values(b.key_value.as_slice())
        }
    }

    fn encode_map_part(&mut self, b: &MetaBlock) -> (r: Result<(u16, u16), DslError>)
        requires
            old(self).inv(),
        ensures
            r matches Err(e) ==> e is LimitExceeded,
            old(self).load() + 2 * b@.map.len() + 2 <= load_limit() ==> r is Ok,
            r is Ok ==> final(self).load() <= old(self).load() + 2 * b@.map.len() + 2,
            r matches Ok(p) ==> {
                &&& final(self).inv()
                &&& Self::grown(old(self), final(self))
                &&& final(self).paths == old(self).paths
                &&& final(self).children == old(self).children
                &&& final(self).words == old(self).words
                &&& map_part(final(self).view_index(), p.0, p.1, b@)
            },
    {
        if b.map_entries.len() == 0 {
            proof {
                Self::lemma_grown_refl(self);
            }
            return Ok((0u16, 0u16));
        }
        let mut dsts: Vec<u16> = Vec::new();
        let mut srcs: Vec<u16> = Vec::new();
        let mut i: usize = 0;
        while i < b.map_entries.len()
            invariant
                i <= b.map_entries@.len(),
                dsts@ == b.map_entries@.take(i as int).map_values(|e: (u16, u16)| e.0),
                srcs@ == b.map_entries@.take(i as int).map_values(|e: (u16, u16)| e.1),
            decreases b.map_entries@.len() - i,
        {
            dsts.push(b.map_entries[i].0);
            srcs.push(b.map_entries[i].1);
            proof {
                assert(b.map_entries@.take(i + 1) =~= b.map_entries@.take(i as int).push(b.map_entries@[i as int]));
            }
            i = i + 1;
            assert(dsts@ =~= b.map_entries@.take(i as int).map_values(|e: (u16, u16)| e.0));
            assert(srcs@ =~= b.map_entries@.take(i as int).map_values(|e: (u16, u16)| e.1));
        }
        assert(b.map_entries@.take(i as int) =~= b.map_entries@);
        let ghost m0 = *self;
        let mk = self.push_map_keys(dsts.as_slice())?;
        let ghost m1 = *self;
        let mv = self.push_map_vals(srcs.as_slice())?;
        proof {
            Self::lemma_grown_trans(&m0, &m1, self);
            Self::lemma_entries_keep(&m1, self);
            assert(b@.map == b.map_entries@);
        }
        Ok((mk, mv))
    }

    #[verifier::spinoff_prover]
    #[verifier::rlimit(40)]
    fn encode_args_part(&mut self, b: &MetaBlock) -> (r: Result<(u16, u16), DslError>)
        requires
            old(self).inv(),
        ensures
            r matches Err(e) ==> e is LimitExceeded,
            old(self).load() + args_frag_len(b@.args) + 3 * b@.args.len() + 2 <= load_limit() ==> r is Ok,
            r is Ok ==> final(self).load() <= old(self).load() + args_frag_len(b@.args) + 3 * b@.args.len() + 2,
            r matches Ok(p) ==> {
                &&& final(self).inv()
                &&& Self::grown(old(self), final(self))
                &&& final(self).paths == old(self).paths
                &&& final(self).children == old(self).children
                &&& final(self).words == old(self).words
                &&& args_part(final(self).view_index(), p.0, p.1, b@)
            },
    {
        if b.arg_entries.len() == 0 {
            proof {
                Self::lemma_grown_refl(self);
            }
            return Ok((0u16, 0u16));
        }
        let ghost m0 = *self;
        let mut keys: Vec<u16> = Vec::new();
        let mut val_ids: Vec<u16> = Vec::new();
        let mut i: usize = 0;
        proof {
            Self::lemma_grown_refl(self);
            assert(b@.args.take(0) =~= Seq::<(u16, Seq<u16>)>::empty());
        }
        while i < b.arg_entries.len()
            invariant
                m0 == *old(self),
                m0.inv(),
                self.inv(),
                Self::grown(&m0, self),
                self.paths == m0.paths,
                self.children == m0.children,
                self.words == m0.words,
                i <= b.arg_entries@.len(),
                keys@ == b@.args.take(i as int).map_values(|e: (u16, Seq<u16>)| e.0),
                val_ids@.len() == i,
                self.load() <= m0.load() + args_frag_len(b@.args.take(i as int)) + i,
                b@.args.len() == b.arg_entries@.len(),
                forall|j: int| 0 <= j < i ==> arg_val_part(self.view_index(), #[trigger] val_ids@[j], b@.args[j].1),
            decreases b.arg_entries@.len() - i,
        {
            let ghost before = *self;
            assert(b@.args[i as int] == (b.arg_entries@[i as int].0, b.arg_entries@[i as int].1@));
            proof {
                lemma_args_frag_len(b@.args, i as int);
                lemma_args_frag_len(b@.args, i + 1);
            }
            keys.push(b.arg_entries[i].0);
            let id = if b.arg_entries[i].1.len() == 0 {
                proof {
                    Self::lemma_grown_refl(self);
                }
                0u16
            } else {
                self.push_values(b.arg_entries[i].1.as_slice())?
            };
            proof {
                Self::lemma_entries_keep(&before, self);
                Self::lemma_grown_trans(&m0, &before, self);
                assert(b@.args.take(i + 1) =~= b@.args.take(i as int).push(b@.args[i as int]));
            }
            let ghost v0 = val_ids@;
            val_ids.push(id);
            proof {
                assert forall|j: int| 0 <= j < i + 1 implies arg_val_part(self.view_index(), #[trigger] val_ids@[j], b@.args[j].1) by {
                    if j < i {
                        assert(val_ids@[j] == v0[j]);
                        assert(arg_val_part(before.view_index(), v0[j], b@.args[j].1));
                    }
                }
            }
            i = i + 1;
            assert(keys@ =~= b@.args.take(i as int).map_values(|e: (u16, Seq<u16>)| e.0));
        }
        assert(b@.args.take(i as int) =~= b@.args);
        proof {
            lemma_args_frag_len(b@.args, i as int);
        }
        let ghost m1 = *self;
        let ak = self.push_args_keys(keys.as_slice())?;
        let ghost m2 = *self;
        let av = self.push_args_vals(val_ids.as_slice())?;
        proof {
            Self::lemma_grown_trans(&m0, &m1, &m2);
            Self::lemma_grown_trans(&m0, &m2, self);
            Self::lemma_grown_trans(&m1, &m2, self);
            Self::lemma_entries_keep(&m1, self);
            Self::lemma_entries_keep(&m2, self);
            assert forall|j: int| 0 <= j < val_ids@.len() implies arg_val_part(self.view_index(), #[trigger] val_ids@[j], b@.args[j].1) by {
                assert(arg_val_part(m1.view_index(), val_ids@[j], b@.args[j].1));
            }
        }
        Ok((ak, av))
    }

    /// Stores a block's parts in the lists; the leaf slots that refer to them.
    fn encode_meta(&mut self, meta: Option<&MetaBlock>) -> (r: Result<(u16, u16, u16, u16, u16, u16), DslError>)
        requires
            old(self).inv(),
        ensures
            r matches Err(e) ==> e is LimitExceeded,
            old(self).load() + opt_meta_cost(meta_view(meta)) <= load_limit() ==> r is Ok,
            r is Ok ==> final(self).load() <= old(self).load() + opt_meta_cost(meta_view(meta)),
            r matches Ok(s) ==> {
                &&& final(self).inv()
                &&& Self::grown(old(self), final(self))
                &&& final(self).paths == old(self).paths
                &&& final(self).children == old(self).children
                &&& final(self).words == old(self).words
                &&& encodes_meta(final(self).view_index(), s, meta_view(meta))
            },
    {
        let b = match meta {
            Some(b) => b,
            None => {
                proof {
                    Self::lemma_grown_refl(self);
                }
                return Ok((0, 0, 0, 0, 0, 0));
            },
        };
        let ghost s0 = *self;
        proof {
            lemma_args_frag_len(b@.args, 0);
        }
        let key_id = self.encode_key_part(b)?;
        let ghost s1 = *self;
        let (map_key_id, map_val_id) = self.encode_map_part(b)?;
        let ghost s2 = *self;
        let (args_key_id, args_val_id) = self.encode_args_part(b)?;
        proof {
            Self::lemma_grown_trans(&s0, &s1, &s2);
            Self::lemma_grown_trans(&s0, &s2, self);
            Self::lemma_parts_keep(&s1, &s2, key_id, map_key_id, map_val_id, args_key_id, args_val_id, b@);
            Self::lemma_parts_keep(&s2, self, key_id, map_key_id, map_val_id, args_key_id, args_val_id, b@);
        }
        Ok((b.store_id as u16, key_id, map_key_id, map_val_id, args_key_id, args_val_id))
    }
}
/// Leaf data `lid` holds blocks `get` and `set`, and values entry `vid` the fragments of `v`.
pub open spec fn leaf_parts(ix: IndexView, lid: u64, vid: u64, v: TreeView, get: Option<MetaView>, set: Option<MetaView>) -> bool {
    &&& ix.leaves.entry(lid as int) matches Some(d)
    &&& d.len() == 12
    &&& encodes_meta(ix, (d[0], d[1], d[4], d[5], d[6], d[7]), get)
    &&& encodes_meta(ix, (d[2], d[3], d[8], d[9], d[10], d[11]), set)
    &&& if vid == 0 {
        value_segments(v).len() == 0
    } else {
        &&& ix.values.entry(vid as int) matches Some(fr)
        &&& ix.read_frags(fr) == value_segments(v)
        &&& forall|i: int| 0 <= i < fr.len() ==> (#[trigger] ix.words.entry(frag_word_id(fr[i]) as int)) is Some
    }
}

/// Path entry `e` is a leaf whose data holds blocks `get` and `set` and whose
/// value holds the fragments of `v`.
pub open spec fn leaf_encodes(ix: IndexView, e: u64, v: TreeView, get: Option<MetaView>, set: Option<MetaView>) -> bool {
    path_is_leaf(e) && leaf_parts(ix, path_child_id(e), path_value_id(e), v, get, set)
}

proof fn lemma_leaf_parts_same(
    x: IndexView,
    y: IndexView,
    lid: u64,
    vid: u64,
    v: TreeView,
    get: Option<MetaView>,
    set: Option<MetaView>,
)
    requires
        x.leaves == y.leaves,
        x.values == y.values,
        x.words == y.words,
        x.map_keys == y.map_keys,
        x.map_vals == y.map_vals,
        x.args_keys == y.args_keys,
        x.args_vals == y.args_vals,
        leaf_parts(x, lid, vid, v, get, set),
    ensures
        leaf_parts(y, lid, vid, v, get, set),
{
    let d = x.leaves.entry(lid as int)->0;
    assert(encodes_meta(y, (d[0], d[1], d[4], d[5], d[6], d[7]), get));
    assert(encodes_meta(y, (d[2], d[3], d[8], d[9], d[10], d[11]), set));
    if vid != 0 {
        let fr = x.values.entry(vid as int)->0;
        assert(y.read_frags(fr) =~= x.read_frags(fr));
    }
}

impl<'s> Compiler<'s> {
    /// Stores a leaf's value fragments and its `_get` / `_set` blocks; the ids of
    /// its leaf data and of its value (0 when it has none).
    #[verifier::spinoff_prover]
    #[verifier::rlimit(80)]
    fn prepare_leaf(&mut self, value: &Tree, get: Option<&MetaBlock>, set: Option<&MetaBlock>) -> (r: Result<(u16, u16), DslError>)
        requires
            old(self).inv(),
        ensures
            r matches Err(e) ==> e is LimitExceeded,
            old(self).load() + leaf_cost(value@, meta_view(get), meta_view(set)) <= load_limit() ==> r is Ok,
            r is Ok ==> final(self).load() <= old(self).load() + leaf_cost(value@, meta_view(get), meta_view(set)),
            r matches Ok(ids) ==> {
                &&& final(self).inv()
                &&& Self::grown(old(self), final(self))
                &&& final(self).paths == old(self).paths
                &&& final(self).children == old(self).children
                &&& 1 <= ids.0
                &&& leaf_parts(final(self).view_index(), ids.0 as u64, ids.1 as u64, value@, meta_view(get), meta_view(set))
            },
    {
        let ghost s0 = *self;
        proof {
            lemma_meta_cost_nonneg(meta_view(get));
            lemma_meta_cost_nonneg(meta_view(set));
        }
        let value_frags = self.encode_value(value)?;
        let ghost s1 = *self;
        let value_id = if value_frags.len() == 0 {
            proof {
                Self::lemma_grown_refl(self);
            }
            0u16
        } else {
            self.push_values(value_frags.as_slice())?
        };
        let ghost s2 = *self;
        let g = self.encode_meta(get)?;
        let ghost s3 = *self;
        let s = self.encode_meta(set)?;
        let ghost s4 = *self;
        let mut leaf_data: Vec<u16> = Vec::new();
        leaf_data.push(g.0);
        leaf_data.push(g.1);
        leaf_data.push(s.0);
        leaf_data.push(s.1);
        leaf_data.push(g.2);
        leaf_data.push(g.3);
        leaf_data.push(g.4);
        leaf_data.push(g.5);
        leaf_data.push(s.2);
        leaf_data.push(s.3);
        leaf_data.push(s.4);
        leaf_data.push(s.5);
        let leaf_id = self.push_leaf(leaf_data.as_slice())?;
        proof {
            let s5 = *self;
            Self::lemma_grown_trans(&s0, &s1, &s2);
            Self::lemma_grown_trans(&s0, &s2, &s3);
            Self::lemma_grown_trans(&s0, &s3, &s4);
            Self::lemma_grown_trans(&s0, &s4, &s5);
            Self::lemma_grown_trans(&s1, &s2, &s3);
            Self::lemma_grown_trans(&s1, &s3, &s4);
            Self::lemma_grown_trans(&s1, &s4, &s5);
            Self::lemma_grown_trans(&s2, &s3, &s4);
            Self::lemma_grown_trans(&s2, &s4, &s5);
            Self::lemma_grown_trans(&s3, &s4, &s5);
            Self::lemma_frags_keep(&s1, &s5, value_frags@);
            Self::lemma_entries_keep(&s2, &s5);
            Self::lemma_encodes_meta_keep(&s3, &s5, g, meta_view(get));
            Self::lemma_encodes_meta_keep(&s4, &s5, s, meta_view(set));
            assert(leaf_data@ =~= seq![g.0, g.1, s.0, s.1, g.2, g.3, g.4, g.5, s.2, s.3, s.4, s.5]);
        }
        Ok((leaf_id, value_id))
    }

    /// Writes leaf `path_idx`: its value fragments, its `_get` / `_set` blocks and
    /// its path entry.
    fn write_leaf(
        &mut self,
        path_idx: u16,
        keyword_id: u16,
        parent_idx: u16,
        value: &Tree,
        get: Option<&MetaBlock>,
        set: Option<&MetaBlock>,
    ) -> (r: Result<(), DslError>)
        requires
            old(self).inv(),
            path_idx < old(self).paths.data@.len(),
            keyword_id <= MAX_WORD_ID,
        ensures
            r matches Err(e) ==> e is LimitExceeded,
            old(self).load() + leaf_cost(value@, meta_view(get), meta_view(set)) <= load_limit() ==> r is Ok,
            r is Ok ==> final(self).load() <= old(self).load() + leaf_cost(value@, meta_view(get), meta_view(set)),
            r is Ok ==> {
                let e = final(self).paths.data@[path_idx as int];
                &&& final(self).inv()
                &&& final(self).paths.data@ == old(self).paths.data@.update(path_idx as int, e)
                &&& final(self).children == old(self).children
                &&& vl_extends(old(self).leaves, final(self).leaves)
                &&& vl_extends(old(self).values, final(self).values)
                &&& vl_extends(old(self).words, final(self).words)
                &&& vl_extends(old(self).map_keys, final(self).map_keys)
                &&& vl_extends(old(self).map_vals, final(self).map_vals)
                &&& vl_extends(old(self).args_keys, final(self).args_keys)
                &&& vl_extends(old(self).args_vals, final(self).args_vals)
                &&& final(self).store_ids@ == old(self).store_ids@
                &&& path_keyword_id(e) == keyword_id
                &&& path_parent_id(e) == parent_idx
                &&& path_child_id(e) != 0
                &&& leaf_encodes(final(self).view_index(), e, value@, meta_view(get), meta_view(set))
            },
    {
        let (leaf_id, value_id) = self.prepare_leaf(value, get, set)?;
        let ghost s5 = *self;
        proof {
            lemma_leaf_entry(keyword_id as u64, parent_idx as u64, leaf_id as u64, value_id as u64);
        }
        let entry: u64 = PATH_IS_LEAF_MASK | ((keyword_id as u64) << PATH_KEYWORD_ID_SHIFT) | ((parent_idx as u64)
            << PATH_PARENT_ID_SHIFT) | ((leaf_id as u64) << PATH_CHILD_ID_SHIFT) | (value_id as u64);
        self.paths.data.set(path_idx as usize, entry);
        proof {
            let ix = self.view_index();
            let a = s5.view_index();
            assert forall|p: int| 0 <= p < ix.paths.len() implies #[trigger] ix.kids_ok(p) by {
                if p != path_idx {
                    assert(ix.paths[p] == a.paths[p]);
                    assert(a.kids_ok(p));
                }
            }
            assert forall|p: int| 0 <= p < self.paths.data@.len() implies #[trigger] refs_ok(self.paths.data@[p], self.children) by {
                if p != path_idx {
                    assert(refs_ok(s5.paths.data@[p], s5.children));
                }
            }
            assert(self.inv());
            assert(self.paths.data@ == old(self).paths.data@.update(path_idx as int, entry));
            lemma_leaf_parts_same(a, ix, leaf_id as u64, value_id as u64, value@, meta_view(get), meta_view(set));
        }
        Ok(())
    }
}
/// `b` extends `a`, except that the slots of unit `c` may have changed.
pub open spec fn kept_except<T>(a: VariableList<T>, b: VariableList<T>, c: int) -> bool {
    &&& a.identity@.len() <= b.identity@.len()
    &&& b.identity@.subrange(0, a.identity@.len() as int) == a.identity@
    &&& a.data@.len() <= b.data@.len()
    &&& forall|j: int|
        0 <= j < a.data@.len() && !(a.identity@[2 * c] <= j < a.identity@[2 * c + 1]) ==> #[trigger] b.data@[j]
            == a.data@[j]
}

proof fn lemma_kept_entry<T>(a: VariableList<T>, b: VariableList<T>, c: int, k: int)
    requires
        a.wf(),
        contiguous(a),
        kept_except(a, b, c),
        0 <= c < a.identity@.len() / 2,
        0 <= k < a.identity@.len() / 2,
        k != c,
    ensures
        vl_view(b).entry(k) == vl_view(a).entry(k),
{
    let ids = a.identity@;
    assert(entry_ok(ids, a.data@.len(), k));
    assert(entry_ok(ids, a.data@.len(), c));
    assert(b.identity@[2 * k] == ids[2 * k]);
    assert(b.identity@[2 * k + 1] == ids[2 * k + 1]);
    if k < c {
        lemma_sorted(a, 2 * k + 1, 2 * c);
    } else {
        lemma_sorted(a, 2 * c + 1, 2 * k);
    }
    assert(b.data@.subrange(ids[2 * k] as int, ids[2 * k + 1] as int) =~= a.data@.subrange(
        ids[2 * k] as int,
        ids[2 * k + 1] as int,
    ));
}

proof fn lemma_kept_trans<T>(a: VariableList<T>, b: VariableList<T>, c: VariableList<T>, u: int)
    requires
        kept_except(a, b, u),
        vl_extends(b, c),
        a.wf(),
        0 <= u < a.identity@.len() / 2,
    ensures
        kept_except(a, c, u),
{
    assert(c.identity@.subrange(0, a.identity@.len() as int) =~= a.identity@) by {
        assert forall|j: int| 0 <= j < a.identity@.len() implies c.identity@[j] == a.identity@[j] by {
            assert(c.identity@.subrange(0, b.identity@.len() as int)[j] == b.identity@[j]);
            assert(b.identity@.subrange(0, a.identity@.len() as int)[j] == a.identity@[j]);
        }
    }
    assert forall|j: int|
        0 <= j < a.data@.len() && !(a.identity@[2 * u] <= j < a.identity@[2 * u + 1]) implies #[trigger] c.data@[j]
            == a.data@[j] by {
        assert(c.data@.subrange(0, b.data@.len() as int)[j] == b.data@[j]);
    }
}

proof fn lemma_fields_prefix(pv: Seq<(Seq<u8>, TreeView)>, i: int)
    requires
        0 <= i < pv.len(),
    ensures
        fields(pv.take(i + 1)).len() == fields(pv.take(i)).len() + if is_field(pv[i].0) { 1int } else { 0int },
        fields(pv.take(i)).len() <= i,
        is_field(pv[i].0) ==> fields(pv.take(i + 1)) == fields(pv.take(i)).push(pv[i]),
        !is_field(pv[i].0) ==> fields(pv.take(i + 1)) == fields(pv.take(i)),
    decreases i,
{
    assert(pv.take(i + 1).drop_last() =~= pv.take(i));
    if i > 0 {
        lemma_fields_prefix(pv, i - 1);
    } else {
        assert(pv.take(0) =~= Seq::<(Seq<u8>, TreeView)>::empty());
    }
}

proof fn lemma_fields_len(pv: Seq<(Seq<u8>, TreeView)>, i: int)
    requires
        0 <= i <= pv.len(),
    ensures
        fields(pv.take(i)).len() <= fields(pv).len(),
    decreases pv.len() - i,
{
    if i < pv.len() {
        lemma_fields_prefix(pv, i);
        lemma_fields_len(pv, i + 1);
    } else {
        assert(pv.take(i) =~= pv);
    }
}

/// Number of field keys among `pairs`.
fn count_fields(pairs: &Vec<(Vec<u8>, Tree)>) -> (r: usize)
    ensures
        r == fields(pairs_view(pairs@)).len(),
{
    let ghost pv = pairs_view(pairs@);
    let mut n: usize = 0;
    let mut i: usize = 0;
    assert(pv.take(0) =~= Seq::<(Seq<u8>, TreeView)>::empty());
    while i < pairs.len()
        invariant
            pv == pairs_view(pairs@),
            i <= pairs@.len(),
            n == fields(pv.take(i as int)).len(),
        decreases pairs@.len() - i,
    {
        proof {
            lemma_fields_prefix(pv, i as int);
        }
        if is_field_key(pairs[i].0.as_slice()) {
            n = n + 1;
        }
        i = i + 1;
    }
    assert(pv.take(i as int) =~= pv);
    n
}

/// The keyword names a field (it does not start with `_`).
fn is_field_key(k: &[u8]) -> (r: bool)
    ensures
        r == is_field(k@),
{
    !(k.len() > 0 && k[0] == 0x5fu8)
}

impl<'s> Compiler<'s> {
    /// Path entries from `from` on refer to no children unit below `count`.
    spec fn fresh_from(&self, from: int, count: nat) -> bool {
        forall|p: int|
            from <= p < self.paths.data@.len() ==> path_is_leaf(#[trigger] self.paths.data@[p]) || path_child_id(
                self.paths.data@[p],
            ) >= count
    }

    /// What grew from `a` keeps all that `a`'s index holds.
    proof fn lemma_grown_keeps_index(a: &Self, b: &Self)
        requires
            a.inv(),
            Self::grown(a, b),
        ensures
            keeps(a.view_index(), b.view_index(), 0, 0),
    {
        let x = a.view_index();
        let y = b.view_index();
        assert forall|p: int| 0 <= p < x.paths.len() implies #[trigger] y.paths[p] == x.paths[p] by {
            assert(b.paths.data@.subrange(0, a.paths.data@.len() as int)[p] == a.paths.data@[p]);
        }
        assert forall|c: int| c >= 0 && (#[trigger] x.children.entry(c)) is Some implies y.children.entry(c)
            == x.children.entry(c) by {
            lemma_extends_entry(a.children, b.children, c);
        }
        assert forall|k: int| (#[trigger] x.leaves.entry(k)) is Some implies y.leaves.entry(k) == x.leaves.entry(k) by {
            lemma_extends_entry(a.leaves, b.leaves, k);
        }
        assert forall|k: int| (#[trigger] x.map_keys.entry(k)) is Some implies y.map_keys.entry(k) == x.map_keys.entry(k) by {
            lemma_extends_entry(a.map_keys, b.map_keys, k);
        }
        assert forall|k: int| (#[trigger] x.map_vals.entry(k)) is Some implies y.map_vals.entry(k) == x.map_vals.entry(k) by {
            lemma_extends_entry(a.map_vals, b.map_vals, k);
        }
        assert forall|k: int| (#[trigger] x.values.entry(k)) is Some implies y.values.entry(k) == x.values.entry(k) by {
            lemma_extends_entry(a.values, b.values, k);
        }
        assert forall|k: int| (#[trigger] x.words.entry(k)) is Some implies y.words.entry(k) == x.words.entry(k) by {
            lemma_extends_entry(a.words, b.words, k);
        }
        assert forall|k: int| (#[trigger] x.args_keys.entry(k)) is Some implies y.args_keys.entry(k) == x.args_keys.entry(k) by {
            lemma_extends_entry(a.args_keys, b.args_keys, k);
        }
        assert forall|k: int| (#[trigger] x.args_vals.entry(k)) is Some implies y.args_vals.entry(k) == x.args_vals.entry(k) by {
            lemma_extends_entry(a.args_vals, b.args_vals, k);
        }
    }

    /// Filling a slot of children unit `cid` keeps what the paths from `p0` on
    /// hold, when they refer to no unit below `c0 > cid`.
    proof fn lemma_slot_keeps(a: &Self, b: &Self, cid: int, p0: int, c0: nat)
        requires
            a.inv(),
            b.paths == a.paths,
            b.leaves == a.leaves,
            b.values == a.values,
            b.words == a.words,
            b.map_keys == a.map_keys,
            b.map_vals == a.map_vals,
            b.args_keys == a.args_keys,
            b.args_vals == a.args_vals,
            kept_except(a.children, b.children, cid),
            0 <= cid < c0,
            cid < a.children.identity@.len() / 2,
            a.fresh_from(p0, c0),
        ensures
            keeps(a.view_index(), b.view_index(), p0, c0 as int),
    {
        let x = a.view_index();
        let y = b.view_index();
        assert forall|p: int| p0 <= p < x.paths.len() implies path_is_leaf(#[trigger] x.paths[p]) || path_child_id(
            x.paths[p],
        ) >= c0 by {}
        assert forall|c: int| c >= c0 && (#[trigger] x.children.entry(c)) is Some implies y.children.entry(c)
            == x.children.entry(c) by {
            lemma_kept_entry(a.children, b.children, cid, c);
        }
    }

    /// `grown`, but for the children, which are left to the caller.
    spec fn grown_but_children(a: &Self, b: &Self) -> bool {
        &&& b.store_ids@ == a.store_ids@
        &&& a.paths.data@.len() <= b.paths.data@.len()
        &&& b.paths.data@.subrange(0, a.paths.data@.len() as int) == a.paths.data@
        &&& vl_extends(a.leaves, b.leaves)
        &&& vl_extends(a.values, b.values)
        &&& vl_extends(a.words, b.words)
        &&& vl_extends(a.map_keys, b.map_keys)
        &&& vl_extends(a.map_vals, b.map_vals)
        &&& vl_extends(a.args_keys, b.args_keys)
        &&& vl_extends(a.args_vals, b.args_vals)
    }

    proof fn lemma_grown_but_children_trans(a: &Self, b: &Self, c: &Self)
        requires
            Self::grown_but_children(a, b),
            Self::grown(b, c),
        ensures
            Self::grown_but_children(a, c),
    {
        let ghost b2 = Compiler { children: a.children, ..*b };
        let ghost c2 = Compiler { children: a.children, ..*c };
        lemma_extends_self(a.children);
        assert(Self::grown(a, &b2));
        assert(Self::grown(&b2, &c2)) by {
            lemma_extends_self(a.children);
        }
        Self::lemma_grown_trans(a, &b2, &c2);
    }
}

impl<'s> Compiler<'s> {
    /// Walks the field keys among `pairs` as the children of path `path_idx`,
    /// filling children unit `cid` with their path ids in order.
    #[verifier::spinoff_prover]
    #[verifier::rlimit(50)]
    fn walk_children(
        &mut self,
        pairs: &Vec<(Vec<u8>, Tree)>,
        path_idx: u16,
        cid: usize,
        get: Option<&MetaBlock>,
        set: Option<&MetaBlock>,
    ) -> (r: Result<(), DslError>)
        requires
            old(self).inv(),
            path_idx + 1 == old(self).paths.data@.len(),
            1 <= cid < old(self).children.identity@.len() / 2,
            old(self).unreferenced(cid as int),
            vl_view(old(self).children).entry(cid as int) matches Some(ks) && ks.len() == fields(
                pairs_view(pairs@),
            ).len(),
            get matches Some(b) ==> old(self).meta_known(b@),
            set matches Some(b) ==> old(self).meta_known(b@),
        ensures
            r matches Err(e) ==> e is LimitExceeded,
            old(self).load() + fields_cost(pairs_view(pairs@), opt_meta_cost(meta_view(get)), opt_meta_cost(meta_view(set)))
                <= load_limit() ==> r is Ok,
            r is Ok ==> final(self).load() <= old(self).load() + fields_cost(
                pairs_view(pairs@),
                opt_meta_cost(meta_view(get)),
                opt_meta_cost(meta_view(set)),
            ),
            r is Ok ==> {
                &&& final(self).inv()
                &&& final(self).unreferenced(cid as int)
                &&& Self::grown_but_children(old(self), final(self))
                &&& kept_except(old(self).children, final(self).children, cid as int)
                &&& final(self).fresh_from(old(self).paths.data@.len() as int, old(self).children.identity@.len() / 2)
                &&& vl_view(final(self).children).entry(cid as int) matches Some(ks)
                &&& ks.len() == fields(pairs_view(pairs@)).len()
                &&& forall|k: int| 0 <= k < ks.len() ==> path_idx < #[trigger] ks[k] < final(self).paths.data@.len()
                &&& holds_fields(
                    final(self).view_index(),
                    path_idx as int,
                    ks,
                    pairs_view(pairs@),
                    blocks_of(old(self).view_index(), meta_view(get), meta_view(set)),
                    final(self).store_ids@,
                )
            },
        decreases pairs,
    {
        let ghost pv = pairs_view(pairs@);
        let ghost n = fields(pv).len();
        let ghost s0 = *self;
        let ghost count0: nat = self.children.identity@.len() / 2;
        let ghost st = blocks_of(s0.view_index(), meta_view(get), meta_view(set));
        let ghost gc = opt_meta_cost(meta_view(get));
        let ghost sc = opt_meta_cost(meta_view(set));
        let mut slot: usize = 0;
        let mut i: usize = 0;
        proof {
            lemma_meta_cost_nonneg(meta_view(get));
            lemma_meta_cost_nonneg(meta_view(set));
            lemma_fields_cost_take(pv, 0, gc, sc);
            assert(pv.take(0) =~= Seq::<(Seq<u8>, TreeView)>::empty());
            Self::lemma_grown_refl(self);
            assert(kept_except(s0.children, self.children, cid as int));
        }
        while i < pairs.len()
            invariant
                s0 == *old(self),
                s0.inv(),
                self.inv(),
                pv == pairs_view(pairs@),
                n == fields(pv).len(),
                count0 == s0.children.identity@.len() / 2,
                path_idx < s0.paths.data@.len(),
                1 <= cid < count0,
                i <= pairs@.len(),
                slot == fields(pv.take(i as int)).len(),
                slot <= n,
                self.unreferenced(cid as int),
                Self::grown_but_children(&s0, self),
                kept_except(s0.children, self.children, cid as int),
                self.fresh_from(s0.paths.data@.len() as int, count0),
                path_idx + 1 == s0.paths.data@.len(),
                st == blocks_of(s0.view_index(), meta_view(get), meta_view(set)),
                holds_fields(
                    self.view_index(),
                    path_idx as int,
                    vl_view(self.children).entry(cid as int)->0.take(slot as int),
                    pv.take(i as int),
                    st,
                    s0.store_ids@,
                ),
                get matches Some(b) ==> self.meta_known(b@),
                set matches Some(b) ==> self.meta_known(b@),
                get matches Some(b) ==> s0.meta_known(b@),
                set matches Some(b) ==> s0.meta_known(b@),
                vl_view(self.children).entry(cid as int) matches Some(ks) && ks.len() == n && forall|k: int|
                    0 <= k < slot ==> path_idx < #[trigger] ks[k] < self.paths.data@.len(),
                self.children.identity@[2 * cid] == s0.children.identity@[2 * cid],
                self.children.identity@[2 * cid + 1] == s0.children.identity@[2 * cid + 1],
                gc == opt_meta_cost(meta_view(get)),
                sc == opt_meta_cost(meta_view(set)),
                0 <= gc,
                0 <= sc,
                self.load() <= s0.load() + fields_cost(pv.take(i as int), gc, sc),
            decreases pairs@.len() - i,
        {
            proof {
                lemma_fields_prefix(pv, i as int);
                lemma_fields_len(pv, i + 1);
                lemma_fields_cost_take(pv, i as int, gc, sc);
                lemma_fields_cost_take(pv, i + 1, gc, sc);
                assert(pv[i as int] == (pairs@[i as int].0@, pairs@[i as int].1@));
            }
            if is_field_key(pairs[i].0.as_slice()) {
                let child_len = self.paths.data.len();
                if child_len > MAX_PATH_ID {
                    return Err(DslError::LimitExceeded(String::from_str("path_id exceeds max 65535")));
                }
                let ghost a = *self;
                let ghost ks0 = vl_view(self.children).entry(cid as int)->0;
                proof {
                    assert(entry_ok(self.children.identity@, self.children.data@.len(), cid as int));
                }
                self.set_child(cid, slot, child_len as u16);
                let ghost b = *self;
                proof {
                    if let Some(g) = get {
                        Self::lemma_meta_same_words(&a, self, g@);
                    }
                    if let Some(g) = set {
                        Self::lemma_meta_same_words(&a, self, g@);
                    }
                    let ks1 = vl_view(self.children).entry(cid as int)->0;
                    assert(ks1 =~= ks0.update(slot as int, child_len as u16));
                    assert(kept_except(s0.children, self.children, cid as int)) by {
                        assert forall|j: int|
                            0 <= j < s0.children.data@.len() && !(s0.children.identity@[2 * cid] <= j
                                < s0.children.identity@[2 * cid + 1]) implies #[trigger] self.children.data@[j]
                            == s0.children.data@[j] by {
                            assert(self.children.data@[j] == a.children.data@[j]);
                        }
                    }
                }
                proof {
                    vstd::std_specs::vec::axiom_vec_index_decreases(*pairs, i as int);
                    assert(decreases_to!(*pairs => pairs@[i as int].1));
                }
                self.walk_field_key(pairs[i].0.as_slice(), &pairs[i].1, path_idx, get, set)?;
                proof {
                    if let Some(g) = get {
                        Self::lemma_meta_keep(&b, self, g@);
                    }
                    if let Some(g) = set {
                        Self::lemma_meta_keep(&b, self, g@);
                    }
                    lemma_extends_entry(b.children, self.children, cid as int);
                    lemma_kept_trans(s0.children, b.children, self.children, cid as int);
                    Self::lemma_grown_but_children_trans(&s0, &b, self);
                    assert(self.children.identity@[2 * cid] == b.children.identity@[2 * cid]);
                    assert(self.children.identity@[2 * cid + 1] == b.children.identity@[2 * cid + 1]);
                    assert forall|p: int| 0 <= p < self.paths.data@.len() implies path_is_leaf(
                        #[trigger] self.paths.data@[p],
                    ) || path_child_id(self.paths.data@[p]) != cid by {
                        if p < b.paths.data@.len() {
                            assert(self.paths.data@[p] == self.paths.data@.subrange(0, b.paths.data@.len() as int)[p]);
                        }
                    }
                    assert forall|p: int| s0.paths.data@.len() <= p < self.paths.data@.len() implies path_is_leaf(
                        #[trigger] self.paths.data@[p],
                    ) || path_child_id(self.paths.data@[p]) >= count0 by {
                        if p < b.paths.data@.len() {
                            assert(self.paths.data@[p] == self.paths.data@.subrange(0, b.paths.data@.len() as int)[p]);
                            assert(self.paths.data@[p] == b.paths.data@[p]);
                        }
                    }
                }
                proof {
                    // the children walked so far still hold their field keys, and the new one holds its own
                    let q = path_idx as int;
                    let ks1 = vl_view(b.children).entry(cid as int)->0;
                    assert(kept_except(a.children, b.children, cid as int)) by {
                        assert(b.children.identity@.subrange(0, a.children.identity@.len() as int) =~= a.children.identity@);
                        assert forall|j: int|
                            0 <= j < a.children.data@.len() && !(a.children.identity@[2 * cid] <= j
                                < a.children.identity@[2 * cid + 1]) implies #[trigger] b.children.data@[j]
                            == a.children.data@[j] by {}
                    }
                    Self::lemma_slot_keeps(&a, &b, cid as int, s0.paths.data@.len() as int, count0);
                    lemma_holds_fields_keep(
                        a.view_index(),
                        b.view_index(),
                        q,
                        ks0.take(slot as int),
                        pv.take(i as int),
                        st,
                        s0.store_ids@,
                        s0.paths.data@.len() as int,
                        count0 as int,
                    );
                    assert(ks1.take(slot as int) =~= ks0.take(slot as int));
                    Self::lemma_grown_keeps_index(&b, self);
                    lemma_extends_self(a.words);
                    if let Some(g) = get {
                        Self::lemma_frags_words(&s0, &b, g@.key);
                        Self::lemma_map_words(&s0, &b, g@.map);
                        Self::lemma_args_words(&s0, &b, g@.args);
                    }
                    if let Some(g) = set {
                        Self::lemma_frags_words(&s0, &b, g@.key);
                        Self::lemma_map_words(&s0, &b, g@.map);
                        Self::lemma_args_words(&s0, &b, g@.args);
                    }
                    assert(blocks_of(b.view_index(), meta_view(get), meta_view(set)) == st);
                    lemma_holds_fields_keep(
                        b.view_index(),
                        self.view_index(),
                        q,
                        ks1.take(slot as int),
                        pv.take(i as int),
                        st,
                        s0.store_ids@,
                        0,
                        0,
                    );
                    let ksc = vl_view(self.children).entry(cid as int)->0;
                    assert(ksc == ks1);
                    assert(ksc.take(slot + 1) =~= ks1.take(slot as int).push(child_len as u16));
                    assert(pv.take(i + 1) =~= pv.take(i as int).push(pv[i as int]));
                    assert(pv[i as int] == (pairs@[i as int].0@, pairs@[i as int].1@));
                    lemma_holds_fields_push(
                        self.view_index(),
                        q,
                        ks1.take(slot as int),
                        pv.take(i as int),
                        pv[i as int],
                        child_len as u16,
                        st,
                        s0.store_ids@,
                    );
                }
                slot = slot + 1;
            } else {
                proof {
                    assert(pv.take(i + 1) =~= pv.take(i as int).push(pv[i as int]));
                    lemma_holds_fields_skip(
                        self.view_index(),
                        path_idx as int,
                        vl_view(self.children).entry(cid as int)->0.take(slot as int),
                        pv.take(i as int),
                        pv[i as int],
                        st,
                        s0.store_ids@,
                    );
                }
            }
            i = i + 1;
        }
        proof {
            assert(pv.take(i as int) =~= pv);
            let ks = vl_view(self.children).entry(cid as int)->0;
            assert(ks.take(slot as int) =~= ks);
        }
        Ok(())
    }

    /// Walks one field key: its path, and below it its children or its leaf.
    #[verifier::spinoff_prover]
    #[verifier::rlimit(100)]
    fn walk_field_key(
        &mut self,
        keyword: &[u8],
        value: &Tree,
        parent_idx: u16,
        inh_get: Option<&MetaBlock>,
        inh_set: Option<&MetaBlock>,
    ) -> (r: Result<(), DslError>)
        requires
            old(self).inv(),
            inh_get matches Some(b) ==> old(self).meta_known(b@),
            inh_set matches Some(b) ==> old(self).meta_known(b@),
        ensures
            r matches Err(e) ==> e is LimitExceeded,
            old(self).load() + keyword@.len() + 2 + node_cost(
                value@,
                opt_meta_cost(meta_view(inh_get)),
                opt_meta_cost(meta_view(inh_set)),
            ) <= load_limit() ==> r is Ok,
            r is Ok ==> final(self).load() <= old(self).load() + keyword@.len() + 2 + node_cost(
                value@,
                opt_meta_cost(meta_view(inh_get)),
                opt_meta_cost(meta_view(inh_set)),
            ),
            r is Ok ==> {
                &&& final(self).inv()
                &&& Self::grown(old(self), final(self))
                &&& final(self).paths.data@.len() > old(self).paths.data@.len()
                &&& final(self).fresh_from(old(self).paths.data@.len() as int, old(self).children.identity@.len() / 2)
                &&& holds(
                    final(self).view_index(),
                    old(self).paths.data@.len() as int,
                    value@,
                    blocks_of(old(self).view_index(), meta_view(inh_get), meta_view(inh_set)),
                    old(self).store_ids@,
                )
                &&& key_holds(final(self).view_index(), old(self).paths.data@.len() as int, keyword@)
            },
        decreases value,
    {
        let ghost s0 = *self;
        let ghost gc = opt_meta_cost(meta_view(inh_get));
        let ghost sc = opt_meta_cost(meta_view(inh_set));
        proof {
            lemma_meta_cost_nonneg(meta_view(inh_get));
            lemma_meta_cost_nonneg(meta_view(inh_set));
            lemma_node_cost_mono(value@, gc, sc, gc, sc);
            lemma_node_cost(value@, gc, sc);
        }
        let path_idx = self.push_path()?;
        let ghost s1 = *self;
        let keyword_id = self.intern_word(keyword)?;
        let ghost s2 = *self;
        proof {
            Self::lemma_grown_trans(&s0, &s1, &s2);
            if let Some(g) = inh_get {
                Self::lemma_meta_keep(&s0, self, g@);
            }
            if let Some(g) = inh_set {
                Self::lemma_meta_keep(&s0, self, g@);
            }
        }
        match value {
            Tree::Mapping(pairs) => {
                proof {
                    lemma_mapping_view(*value, *pairs);
                    let pv = pairs_view(pairs@);
                    let gp = meta_props(pv, meta_get_word());
                    let sp = meta_props(pv, meta_set_word());
                    lemma_props_cost(gp, 0);
                    lemma_props_cost(sp, 0);
                    lemma_fields_cost_mono(
                        pv,
                        gc + 5 + props_growth(gp),
                        sc + 5 + props_growth(sp),
                        gc + 5 + props_growth(gp),
                        sc + 5 + props_growth(sp),
                    );
                }
                let get_w = meta_get();
                let set_w = meta_set();
                let get = self.resolve_meta(pairs, get_w.as_slice(), inh_get)?;
                let ghost s3 = *self;
                proof {
                    if let Some(g) = inh_set {
                        Self::lemma_meta_keep(&s2, self, g@);
                    }
                    lemma_resolved_block(
                        s3.view_index(),
                        pairs_view(pairs@),
                        meta_get_word(),
                        meta_view(inh_get),
                        s3.store_ids@,
                        opt_view(get),
                    );
                }
                let set = self.resolve_meta(pairs, set_w.as_slice(), inh_set)?;
                let ghost s4 = *self;
                proof {
                    lemma_resolved_block(
                        s4.view_index(),
                        pairs_view(pairs@),
                        meta_set_word(),
                        meta_view(inh_set),
                        s4.store_ids@,
                        opt_view(set),
                    );
                    Self::lemma_grown_trans(&s0, &s2, &s3);
                    Self::lemma_grown_trans(&s0, &s3, &s4);
                    if get is Some {
                        Self::lemma_meta_keep(&s3, self, get->0@);
                    }
                }
                let child_count = count_fields(pairs);
                if child_count == 0 {
                    let null = Tree::Null;
                    let get_ref = get.as_ref();
                    let set_ref = set.as_ref();
                    self.write_leaf(path_idx, keyword_id, parent_idx, &null, get_ref, set_ref)?;
                    proof {
                        Self::lemma_leaf_write_grown(&s0, &s4, self, path_idx as int);
                        Self::lemma_grown_trans(&s2, &s3, &s4);
                        Self::lemma_words_kept(&s2, &s4, self);
                        assert(meta_view(get_ref) == opt_view(get));
                        assert(meta_view(set_ref) == opt_view(set));
                        Self::lemma_own_blocks(
                            &s0,
                            &s3,
                            &s4,
                            self,
                            pairs_view(pairs@),
                            meta_view(inh_get),
                            meta_view(inh_set),
                            opt_view(get),
                            opt_view(set),
                        );
                        Self::lemma_leaf_field(
                            &s2,
                            self,
                            path_idx as int,
                            keyword_id,
                            keyword@,
                            TreeView::Null,
                            meta_view(get_ref),
                            meta_view(set_ref),
                        );
                        assert(meta_view(get_ref) == opt_view(get));
                        assert(meta_view(set_ref) == opt_view(set));
                        lemma_mapping_view(*value, *pairs);
                    }
                } else {
                    let cid = self.alloc_children_slots(child_count)?;
                    let ghost s5 = *self;
                    proof {
                        Self::lemma_grown_trans(&s0, &s4, &s5);
                        if get is Some {
                            Self::lemma_meta_keep(&s4, self, get->0@);
                        }
                        if set is Some {
                            Self::lemma_meta_keep(&s4, self, set->0@);
                        }
                        lemma_mapping_view(*value, *pairs);
                        assert(decreases_to!(*value => *pairs));
                    }
                    let get_ref = get.as_ref();
                    let set_ref = set.as_ref();
                    proof {
                        assert(meta_view(get_ref) == opt_view(get));
                        assert(meta_view(set_ref) == opt_view(set));
                        let pv = pairs_view(pairs@);
                        let gp = meta_props(pv, meta_get_word());
                        let sp = meta_props(pv, meta_set_word());
                        lemma_meta_cost_nonneg(opt_view(get));
                        lemma_meta_cost_nonneg(opt_view(set));
                        lemma_fields_cost_mono(
                            pv,
                            opt_meta_cost(opt_view(get)),
                            opt_meta_cost(opt_view(set)),
                            gc + 5 + props_growth(gp),
                            sc + 5 + props_growth(sp),
                        );
                    }
                    self.walk_children(pairs, path_idx, cid, get_ref, set_ref)?;
                    let ghost s6 = *self;
                    proof {
                        lemma_inner_entry(keyword_id as u64, parent_idx as u64, cid as u64);
                    }
                    let entry: u64 = ((keyword_id as u64) << PATH_KEYWORD_ID_SHIFT) | ((parent_idx as u64)
                        << PATH_PARENT_ID_SHIFT) | ((cid as u64) << PATH_CHILD_ID_SHIFT);
                    self.paths.data.set(path_idx as usize, entry);
                    proof {
                        Self::lemma_inner_write(&s0, &s5, &s6, self, path_idx as int, cid as int);
                        let q = path_idx as int;
                        let pv = pairs_view(pairs@);
                        let ks = vl_view(s6.children).entry(cid as int)->0;
                        let x = s6.view_index();
                        let y = self.view_index();
                        assert(keeps(x, y, q + 1, 0)) by {
                            assert forall|p: int| q + 1 <= p < x.paths.len() implies #[trigger] y.paths[p] == x.paths[p] by {}
                        }
                        Self::lemma_own_blocks(
                            &s0,
                            &s3,
                            &s4,
                            &s5,
                            pv,
                            meta_view(inh_get),
                            meta_view(inh_set),
                            opt_view(get),
                            opt_view(set),
                        );
                        lemma_holds_fields_keep(
                            x,
                            y,
                            q,
                            ks,
                            pv,
                            blocks_of(s5.view_index(), opt_view(get), opt_view(set)),
                            s6.store_ids@,
                            q + 1,
                            0,
                        );
                        assert(y.kids(q) == Some(ks));
                        Self::lemma_grown_trans(&s2, &s3, &s4);
                        Self::lemma_grown_trans(&s2, &s4, &s5);
                        lemma_extends_trans(s2.words, s5.words, s6.words);
                        lemma_extends_entry(s2.words, self.words, keyword_id as int);
                        assert(holds(y, q, value@, blocks_of(s0.view_index(), meta_view(inh_get), meta_view(inh_set)), s0.store_ids@));
                    }
                }
            },
            _ => {
                self.write_leaf(path_idx, keyword_id, parent_idx, value, inh_get, inh_set)?;
                proof {
                    Self::lemma_leaf_write_grown(&s0, &s2, self, path_idx as int);
                    if let Some(g) = inh_get {
                        Self::lemma_meta_keep(&s0, self, g@);
                    }
                    if let Some(g) = inh_set {
                        Self::lemma_meta_keep(&s0, self, g@);
                    }
                    Self::lemma_leaf_field(
                        &s2,
                        self,
                        path_idx as int,
                        keyword_id,
                        keyword@,
                        value@,
                        meta_view(inh_get),
                        meta_view(inh_set),
                    );
                }
            },
        }
        Ok(())
    }
}

impl<'s> Compiler<'s> {
    /// A field key written as a leaf holds its value and is named by its keyword.
    proof fn lemma_leaf_field(s2: &Self, c: &Self, p: int, kw_id: u16, kw: Seq<u8>, v: TreeView, g: Option<MetaView>, st: Option<MetaView>)
        requires
            s2.inv(),
            c.inv(),
            vl_view(s2.words).entry(kw_id as int) == Some(kw),
            vl_extends(s2.words, c.words),
            0 <= p < c.paths.data@.len(),
            path_keyword_id(c.paths.data@[p]) == kw_id,
            path_child_id(c.paths.data@[p]) != 0,
            leaf_encodes(c.view_index(), c.paths.data@[p], v, g, st),
            g matches Some(b) ==> c.meta_known(b),
            st matches Some(b) ==> c.meta_known(b),
        ensures
            leaf_holds(c.view_index(), c.paths.data@[p], v),
            leaf_blocks(c.view_index(), c.paths.data@[p], blocks_of(c.view_index(), g, st)),
            key_holds(c.view_index(), p, kw),
    {
        lemma_extends_entry(s2.words, c.words, kw_id as int);
        let ix = c.view_index();
        let e = c.paths.data@[p];
        let d = ix.leaves.entry(path_child_id(e) as int)->0;
        let ids = c.values.identity@;
        assert(ix.values.entry(0) == Some(Seq::<u16>::empty())) by {
            assert(ids[0] == 0 && ids[1] == 0);
            assert(c.values.data@.subrange(0, 0) =~= Seq::<u16>::empty());
        }
        assert(ix.read_frags(Seq::empty()) =~= Seq::<(bool, Seq<u8>)>::empty());
        assert(leaf_parts(ix, path_child_id(e), path_value_id(e), v, g, st));
        assert(encodes_meta(ix, (d[0], d[1], d[4], d[5], d[6], d[7]), g));
        assert(encodes_meta(ix, (d[2], d[3], d[8], d[9], d[10], d[11]), st));
        Self::lemma_slot_key(c, d[1], g);
        Self::lemma_slot_key(c, d[3], st);
        Self::lemma_empty_units(c);
        Self::lemma_slot_map(c, d[4], d[5], g);
        Self::lemma_slot_map(c, d[8], d[9], st);
        Self::lemma_slot_args(c, d[6], d[7], g);
        Self::lemma_slot_args(c, d[10], d[11], st);
    }

    /// Unit 0 of the map lists is the empty sentinel.
    proof fn lemma_empty_units(c: &Self)
        requires
            c.inv(),
        ensures
            c.view_index().map_keys.entry(0) == Some(Seq::<u16>::empty()),
            c.view_index().map_vals.entry(0) == Some(Seq::<u16>::empty()),
            c.view_index().args_keys.entry(0) == Some(Seq::<u16>::empty()),
            c.view_index().args_vals.entry(0) == Some(Seq::<u16>::empty()),
    {
        assert(c.map_keys.data@.subrange(0, 0) =~= Seq::<u16>::empty());
        assert(c.map_vals.data@.subrange(0, 0) =~= Seq::<u16>::empty());
        assert(c.args_keys.data@.subrange(0, 0) =~= Seq::<u16>::empty());
        assert(c.args_vals.data@.subrange(0, 0) =~= Seq::<u16>::empty());
    }

    /// The args slots of an encoded block read as the block's further arguments.
    proof fn lemma_slot_args(c: &Self, ak: u16, av: u16, m: Option<MetaView>)
        requires
            c.inv(),
            c.view_index().args_keys.entry(0) == Some(Seq::<u16>::empty()),
            c.view_index().args_vals.entry(0) == Some(Seq::<u16>::empty()),
            c.view_index().values.entry(0) == Some(Seq::<u16>::empty()),
            match m {
                None => ak == 0 && av == 0,
                Some(b) => args_part(c.view_index(), ak, av, b),
            },
            m matches Some(b) ==> c.meta_known(b),
        ensures
            args_known(c.view_index(), ak, av),
            args_map(args_read(c.view_index(), ak, av)) == opt_args(c.view_index(), m),
    {
        let ix = c.view_index();
        assert(args_read(ix, 0, 0) =~= Seq::<(Seq<u8>, Seq<(bool, Seq<u8>)>)>::empty());
        assert(ix.read_frags(Seq::empty()) =~= Seq::<(bool, Seq<u8>)>::empty());
        if let Some(b) = m {
            assert(read_args(ix, b.args).len() == b.args.len());
            if b.args.len() > 0 {
                let ks = b.args.map_values(|e: (u16, Seq<u16>)| e.0);
                let vs = ix.args_vals.entry(av as int)->0;
                assert(ks.len() > 0);
                assert(ak != 0);
                assert(av != 0);
                assert forall|i: int| 0 <= i < ks.len() implies (#[trigger] ix.words.entry(ks[i] as int)) is Some by {
                    assert(c.word_known(b.args[i].0));
                }
                assert forall|i: int| 0 <= i < vs.len() implies key_known(ix, #[trigger] vs[i]) && key_read(ix, vs[i])
                    == ix.read_frags(b.args[i].1) by {
                    assert(arg_val_part(ix, vs[i], b.args[i].1));
                    assert(c.word_known(b.args[i].0));
                    assert(c.words_known(b.args[i].1));
                    if b.args[i].1.len() > 0 {
                        assert(vs[i] != 0);
                    }
                }
                assert(args_read(ix, ak, av) =~= read_args(ix, b.args));
            } else {
                assert(read_args(ix, b.args) =~= Seq::<(Seq<u8>, Seq<(bool, Seq<u8>)>)>::empty());
            }
        }
    }

    /// The map slots of an encoded block read as the block's field mapping.
    proof fn lemma_slot_map(c: &Self, mk: u16, mv: u16, m: Option<MetaView>)
        requires
            c.inv(),
            c.view_index().map_keys.entry(0) == Some(Seq::<u16>::empty()),
            c.view_index().map_vals.entry(0) == Some(Seq::<u16>::empty()),
            match m {
                None => mk == 0 && mv == 0,
                Some(b) => map_part(c.view_index(), mk, mv, b),
            },
            m matches Some(b) ==> c.map_known(b.map),
        ensures
            crate::reading::map_known(c.view_index(), mk, mv),
            map_read(c.view_index(), mk, mv) == opt_map(c.view_index(), m),
    {
        let ix = c.view_index();
        assert(read_map(ix, Seq::empty()) =~= Seq::<(Seq<u8>, Seq<u8>)>::empty());
        if let Some(b) = m {
            if b.map.len() > 0 {
                let d = b.map.map_values(|e: (u16, u16)| e.0);
                let sr = b.map.map_values(|e: (u16, u16)| e.1);
                assert(d.len() > 0);
                assert(sr.len() > 0);
                assert(mk != 0);
                assert(mv != 0);
                assert forall|i: int| 0 <= i < d.len() implies (#[trigger] ix.words.entry(d[i] as int)) is Some by {
                    assert(c.word_known(b.map[i].0));
                }
                assert forall|i: int| 0 <= i < sr.len() implies (#[trigger] ix.words.entry(sr[i] as int)) is Some by {
                    assert(c.word_known(b.map[i].0) && c.word_known(b.map[i].1));
                    assert(sr[i] == b.map[i].1);
                }
                assert(map_read(ix, mk, mv) =~= read_map(ix, b.map));
            }
        }
    }

    /// The key slot of an encoded block reads as the block's key.
    proof fn lemma_slot_key(c: &Self, slot: u16, m: Option<MetaView>)
        requires
            c.inv(),
            c.view_index().values.entry(0) == Some(Seq::<u16>::empty()),
            match m {
                None => slot == 0,
                Some(b) => key_part(c.view_index(), slot, b),
            },
            m matches Some(b) ==> c.words_known(b.key),
        ensures
            key_known(c.view_index(), slot),
            key_read(c.view_index(), slot) == opt_key(c.view_index(), m),
    {
        let ix = c.view_index();
        assert(ix.read_frags(Seq::empty()) =~= Seq::<(bool, Seq<u8>)>::empty());
        if let Some(b) = m {
            if b.key.len() > 0 {
                assert(slot != 0);
            }
        }
    }

    /// The words a field key was named with stay as they were.
    proof fn lemma_words_kept(a: &Self, b: &Self, c: &Self)
        requires
            Self::grown(a, b),
            vl_extends(b.words, c.words),
        ensures
            vl_extends(a.words, c.words),
    {
        lemma_extends_trans(a.words, b.words, c.words);
    }

    /// A field key that became a leaf: what its walk promises.
    proof fn lemma_leaf_write_grown(a: &Self, b: &Self, c: &Self, p: int)
        requires
            a.inv(),
            Self::grown(a, b),
            p == a.paths.data@.len(),
            b.paths.data@ == a.paths.data@.push(0u64),
            c.inv(),
            c.paths.data@ == b.paths.data@.update(p, c.paths.data@[p]),
            path_is_leaf(c.paths.data@[p]),
            c.children == b.children,
            c.store_ids@ == b.store_ids@,
            vl_extends(b.leaves, c.leaves),
            vl_extends(b.values, c.values),
            vl_extends(b.words, c.words),
            vl_extends(b.map_keys, c.map_keys),
            vl_extends(b.map_vals, c.map_vals),
            vl_extends(b.args_keys, c.args_keys),
            vl_extends(b.args_vals, c.args_vals),
        ensures
            Self::grown(a, c),
            c.paths.data@.len() > a.paths.data@.len(),
            c.fresh_from(a.paths.data@.len() as int, a.children.identity@.len() / 2),
    {
        assert(c.paths.data@.subrange(0, a.paths.data@.len() as int) =~= a.paths.data@);
        lemma_extends_self(c.children);
        let b2 = Compiler { paths: c.paths, ..*b };
        assert(b2.paths.data@.subrange(0, b.paths.data@.len() as int) =~= b2.paths.data@);
        lemma_extends_trans(a.leaves, b.leaves, c.leaves);
        lemma_extends_trans(a.values, b.values, c.values);
        lemma_extends_trans(a.words, b.words, c.words);
        lemma_extends_trans(a.map_keys, b.map_keys, c.map_keys);
        lemma_extends_trans(a.map_vals, b.map_vals, c.map_vals);
        lemma_extends_trans(a.args_keys, b.args_keys, c.args_keys);
        lemma_extends_trans(a.args_vals, b.args_vals, c.args_vals);
    }

    /// A field key that became an inner path: what its walk promises.
    proof fn lemma_inner_write(a: &Self, s5: &Self, s6: &Self, c: &Self, p: int, cid: int)
        requires
            a.inv(),
            Self::grown(a, s5),
            p == a.paths.data@.len(),
            s5.paths.data@ == a.paths.data@.push(0u64),
            cid == a.children.identity@.len() / 2,
            s5.children.identity@[2 * cid] == a.children.data@.len(),
            1 <= cid < s5.children.identity@.len() / 2,
            s5.inv(),
            s6.inv(),
            Self::grown_but_children(s5, s6),
            kept_except(s5.children, s6.children, cid),
            s6.fresh_from(s5.paths.data@.len() as int, s5.children.identity@.len() / 2),
            s6.unreferenced(cid),
            vl_view(s6.children).entry(cid) matches Some(ks) && forall|k: int|
                0 <= k < ks.len() ==> p < #[trigger] ks[k] < s6.paths.data@.len(),
            c.paths.data@ == s6.paths.data@.update(p, c.paths.data@[p]),
            !path_is_leaf(c.paths.data@[p]),
            path_child_id(c.paths.data@[p]) == cid,
            c.children == s6.children,
            c.leaves == s6.leaves,
            c.values == s6.values,
            c.words == s6.words,
            c.map_keys == s6.map_keys,
            c.map_vals == s6.map_vals,
            c.args_keys == s6.args_keys,
            c.args_vals == s6.args_vals,
            c.store_ids@ == s6.store_ids@,
        ensures
            c.inv(),
            Self::grown(a, c),
            c.paths.data@.len() > a.paths.data@.len(),
            c.fresh_from(a.paths.data@.len() as int, a.children.identity@.len() / 2),
    {
        let ix = c.view_index();
        let iy = s6.view_index();
        assert(p < s6.paths.data@.len()) by {
            assert(s6.paths.data@.subrange(0, s5.paths.data@.len() as int) == s5.paths.data@);
        }
        assert forall|q: int| 0 <= q < ix.paths.len() implies #[trigger] ix.kids_ok(q) by {
            if q != p {
                assert(ix.paths[q] == iy.paths[q]);
                assert(iy.kids_ok(q));
            }
        }
        assert forall|q: int| 0 <= q < c.paths.data@.len() implies #[trigger] refs_ok(c.paths.data@[q], c.children) by {
            if q != p {
                assert(refs_ok(s6.paths.data@[q], s6.children));
            }
        }
        assert(c.inv());
        // the paths before `p` are as `a` left them
        assert(c.paths.data@.subrange(0, a.paths.data@.len() as int) =~= a.paths.data@) by {
            assert forall|j: int| 0 <= j < a.paths.data@.len() implies c.paths.data@[j] == a.paths.data@[j] by {
                assert(s6.paths.data@.subrange(0, s5.paths.data@.len() as int)[j] == s5.paths.data@[j]);
                assert(s5.paths.data@.subrange(0, a.paths.data@.len() as int)[j] == a.paths.data@[j]);
            }
        }
        // the children units `a` had are untouched: unit `cid` lies past its data
        assert(vl_extends(a.children, c.children)) by {
            assert(c.children.identity@.subrange(0, a.children.identity@.len() as int) =~= a.children.identity@) by {
                assert forall|j: int| 0 <= j < a.children.identity@.len() implies c.children.identity@[j]
                    == a.children.identity@[j] by {
                    assert(c.children.identity@.subrange(0, s5.children.identity@.len() as int)[j]
                        == s5.children.identity@[j]);
                    assert(s5.children.identity@.subrange(0, a.children.identity@.len() as int)[j]
                        == a.children.identity@[j]);
                }
            }
            assert(c.children.data@.subrange(0, a.children.data@.len() as int) =~= a.children.data@) by {
                assert forall|j: int| 0 <= j < a.children.data@.len() implies c.children.data@[j] == a.children.data@[j] by {
                    assert(s6.children.data@[j] == s5.children.data@[j]);
                    assert(s5.children.data@.subrange(0, a.children.data@.len() as int)[j] == a.children.data@[j]);
                }
            }
        }
        lemma_extends_trans(a.leaves, s5.leaves, c.leaves);
        lemma_extends_trans(a.values, s5.values, c.values);
        lemma_extends_trans(a.words, s5.words, c.words);
        lemma_extends_trans(a.map_keys, s5.map_keys, c.map_keys);
        lemma_extends_trans(a.map_vals, s5.map_vals, c.map_vals);
        lemma_extends_trans(a.args_keys, s5.args_keys, c.args_keys);
        lemma_extends_trans(a.args_vals, s5.args_vals, c.args_vals);
        assert forall|q: int| a.paths.data@.len() <= q < c.paths.data@.len() implies path_is_leaf(
            #[trigger] c.paths.data@[q],
        ) || path_child_id(c.paths.data@[q]) >= a.children.identity@.len() / 2 by {
            if q != p {
                assert(c.paths.data@[q] == s6.paths.data@[q]);
            }
        }
    }
}

/// The index that compiled lists make up.
pub open spec fn compiled_view(
    r: (
        List<u64>,
        VariableList<u16>,
        VariableList<u16>,
        VariableList<u16>,
        VariableList<u8>,
        VariableList<u16>,
        VariableList<u16>,
        VariableList<u16>,
        VariableList<u16>,
    ),
) -> IndexView {
    IndexView {
        paths: r.0.data@,
        children: vl_view(r.1),
        leaves: vl_view(r.2),
        values: vl_view(r.3),
        words: vl_view(r.4),
        map_keys: vl_view(r.5),
        map_vals: vl_view(r.6),
        args_keys: vl_view(r.7),
        args_vals: vl_view(r.8),
    }
}

/// `LimitExceeded` when a variable list's data passes the emitted offset range.
fn check_vl_data<T>(vl: &VariableList<T>, name: &str) -> (r: Result<(), DslError>)
    ensures
        r is Err <==> vl.data@.len() > MAX_VL_DATA,
        r matches Err(e) ==> e is LimitExceeded,
{
    if vl.data.len() > MAX_VL_DATA {
        let mut msg = String::from_str(name);
        msg.append(" data length exceeds max 65535");
        return Err(DslError::LimitExceeded(msg));
    }
    Ok(())
}

impl<'s> Compiler<'s> {
    /// The lists, once each is checked to fit the emitted offsets.
    fn finish(self) -> (r: Result<
        (
            List<u64>,
            VariableList<u16>,
            VariableList<u16>,
            VariableList<u16>,
            VariableList<u8>,
            VariableList<u16>,
            VariableList<u16>,
            VariableList<u16>,
            VariableList<u16>,
        ),
        DslError,
    >)
        requires
            self.inv(),
        ensures
            r matches Ok(l) ==> compiled_view(l) == self.view_index() && l.0 == self.paths && l.1 == self.children
                && l.2 == self.leaves && l.3 == self.values && l.4 == self.words && l.5 == self.map_keys
                && l.6 == self.map_vals && l.7 == self.args_keys && l.8 == self.args_vals,
            r is Ok,
    {
        check_vl_data(&self.children, "children")?;
        check_vl_data(&self.leaves, "leaves")?;
        check_vl_data(&self.values, "values")?;
        check_vl_data(&self.words, "words")?;
        check_vl_data(&self.map_keys, "map_keys")?;
        check_vl_data(&self.map_vals, "map_vals")?;
        check_vl_data(&self.args_keys, "args_keys")?;
        check_vl_data(&self.args_vals, "args_vals")?;
        Ok(
            (
                self.paths,
                self.children,
                self.leaves,
                self.values,
                self.words,
                self.map_keys,
                self.map_vals,
                self.args_keys,
                self.args_vals,
            ),
        )
    }
}

impl Dsl {
    /// Compiles a tree into the lists an [`Index`](crate::index::Index) reads.
    ///
    /// `store_ids` names the stores in order: the store at position `i` gets id
    /// `i + 1` in the leaf data (0 means none). `LimitExceeded` when there are more
    /// than 255 store ids or the tree passes a limit of the layout (16-bit path
    /// ids, 15-bit word ids, 16-bit list ids and offsets); a tree whose
    /// [`tree_cost`] is within [`compile_budget`] always compiles.
    pub fn compile(tree: &Tree, store_ids: &[&str]) -> (r: Result<
        (
            List<u64>,
            VariableList<u16>,
            VariableList<u16>,
            VariableList<u16>,
            VariableList<u8>,
            VariableList<u16>,
            VariableList<u16>,
            VariableList<u16>,
            VariableList<u16>,
        ),
        DslError,
    >)
        ensures
            store_ids@.len() > MAX_STORE_ID ==> r is Err,
            store_ids@.len() <= MAX_STORE_ID && tree_cost(tree@) <= compile_budget() ==> r is Ok,
            r matches Err(e) ==> e is LimitExceeded,
            r matches Ok(l) ==> {
                &&& compiled_view(l).wf()
                &&& l.1.wf() && l.2.wf() && l.3.wf() && l.4.wf() && l.5.wf() && l.6.wf() && l.7.wf() && l.8.wf()
                &&& compiled_from(compiled_view(l), tree@, store_ids@)
                &&& fits16(l.1) && fits16(l.2) && fits16(l.3) && fits16(l.4) && fits16(l.5) && fits16(l.6) && fits16(l.7)
                    && fits16(l.8)
            },
    {
        if store_ids.len() > MAX_STORE_ID {
            return Err(DslError::LimitExceeded(String::from_str("store_ids length exceeds max 255")));
        }
        let mut compiler = Compiler::new(store_ids);
        let empty: [u8; 0] = [];
        compiler.intern_word(&empty)?;
        if let Tree::Mapping(pairs) = tree {
            let count = count_fields(pairs);
            proof {
                lemma_mapping_view(*tree, *pairs);
                lemma_fields_cost_mono(pairs_view(pairs@), 0, 0, 0, 0);
            }
            let children_id = compiler.alloc_children_slots(count)?;
            let ghost before_walk = compiler;
            if count > 0 {
                proof {
                    assert(compiler.paths.data@.len() == 1);
                }
                compiler.walk_children(pairs, 0, children_id, None, None)?;
            }
            let ghost before = compiler;
            proof {
                lemma_inner_entry(0, 0, children_id as u64);
                assert((0u64 << 48u64) | (0u64 << 32u64) | ((children_id as u64) << 16u64) == (children_id as u64) << 16u64) by (bit_vector);
                assert(compiler.paths.data@.len() >= 1) by {
                    if count > 0 {
                        assert(before.paths.data@.len() >= 1);
                    }
                }
            }
            let root: u64 = (children_id as u64) << PATH_CHILD_ID_SHIFT;
            compiler.paths.data.set(0, root);
            proof {
                let ix = compiler.view_index();
                let iy = before.view_index();
                assert forall|q: int| 0 <= q < ix.paths.len() implies #[trigger] ix.kids_ok(q) by {
                    if q != 0 {
                        assert(ix.paths[q] == iy.paths[q]);
                        assert(iy.kids_ok(q));
                    }
                }
                assert forall|q: int| 0 <= q < compiler.paths.data@.len() implies #[trigger] refs_ok(compiler.paths.data@[q], compiler.children) by {
                    if q != 0 {
                        assert(refs_ok(before.paths.data@[q], before.children));
                    }
                }
                // the root's children hold the tree's field keys
                assert(!path_is_leaf(compiler.paths.data@[0]) && path_child_id(compiler.paths.data@[0]) == children_id);
                if count > 0 {
                    let ks = vl_view(before.children).entry(children_id as int)->0;
                    assert(keeps(iy, ix, 1, 0)) by {
                        assert forall|p: int| 1 <= p < iy.paths.len() implies #[trigger] ix.paths[p] == iy.paths[p] by {}
                    }
                    assert(blocks_of(before_walk.view_index(), None, None) =~= no_blocks());
                    lemma_holds_fields_keep(iy, ix, 0, ks, pairs_view(pairs@), no_blocks(), before.store_ids@, 1, 0);
                    assert(ix.kids(0) == Some(ks));
                }
                assert(compiled_from(ix, tree@, store_ids@));
            }
        } else {
            proof {
                lemma_empty_entry();
                assert(compiled_from(compiler.view_index(), tree@, store_ids@));
            }
        }
        proof {
            lemma_fits16(compiler.children);
            lemma_fits16(compiler.leaves);
            lemma_fits16(compiler.values);
            lemma_fits16(compiler.words);
            lemma_fits16(compiler.map_keys);
            lemma_fits16(compiler.map_vals);
            lemma_fits16(compiler.args_keys);
            lemma_fits16(compiler.args_vals);
        }
        compiler.finish()
    }

    /// Reads a YAML document, compiles it and renders the tables as Rust source
    /// (see [`tables_text`]). Fails where reading, compiling or rendering fails,
    /// with the reason as text.
    pub fn render(src: &[u8], store_ids: &[&str]) -> (r: Result<String, String>)
        ensures
            !(valid_utf8(src@) && yaml_document(decode_utf8(src@)) is Some) ==> r is Err,
            store_ids@.len() > MAX_STORE_ID ==> r is Err,
            valid_utf8(src@) && yaml_document(decode_utf8(src@)) is Some && store_ids@.len() <= MAX_STORE_ID && tree_cost(
                yaml_tree(yaml_document(decode_utf8(src@))->0),
            ) <= compile_budget() ==> r is Ok,
            r matches Ok(t) ==> exists|l: (
                List<u64>,
                VariableList<u16>,
                VariableList<u16>,
                VariableList<u16>,
                VariableList<u8>,
                VariableList<u16>,
                VariableList<u16>,
                VariableList<u16>,
                VariableList<u16>,
            )|
                {
                    &&& compiled_view(l).wf()
                    &&& compiled_from(compiled_view(l), yaml_tree(yaml_document(decode_utf8(src@))->0), store_ids@)
                    &&& t@ == tables_text(l.0, l.1, l.2, l.3, l.4, l.5, l.6, l.7, l.8)
                },
    {
        let tree = parse_yaml(src)?;
        let l = match Self::compile(&tree, store_ids) {
            Ok(l) => l,
            Err(e) => {
                return Err(e.message());
            },
        };
        let t = render_tables(&l.0, &l.1, &l.2, &l.3, &l.4, &l.5, &l.6, &l.7, &l.8)?;
        assert(compiled_view(l).wf() && compiled_from(compiled_view(l), yaml_tree(yaml_document(decode_utf8(src@))->0), store_ids@)
            && t@ == tables_text(l.0, l.1, l.2, l.3, l.4, l.5, l.6, l.7, l.8));
        Ok(t)
    }
}

} // verus!
