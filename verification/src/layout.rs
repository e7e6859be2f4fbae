//! Bit and slot layout of the compiled index, shared by the compiler and the index.
use vstd::prelude::*;

verus! {

// ── meta_key and prop keywords ──────────────────────────────────────────────

/// `_get`: where a value is loaded from.
pub open spec fn meta_get_word() -> Seq<u8> {
    seq![0x5fu8, 0x67u8, 0x65u8, 0x74u8]
}

/// `_set`: where a value is stored.
pub open spec fn meta_set_word() -> Seq<u8> {
    seq![0x5fu8, 0x73u8, 0x65u8, 0x74u8]
}

/// `_state`: reserved.
pub open spec fn meta_state_word() -> Seq<u8> {
    seq![0x5fu8, 0x73u8, 0x74u8, 0x61u8, 0x74u8, 0x65u8]
}

/// `store`: the store a meta block names.
pub open spec fn prop_store_word() -> Seq<u8> {
    seq![0x73u8, 0x74u8, 0x6fu8, 0x72u8, 0x65u8]
}

/// `key`: the store key of a meta block.
pub open spec fn prop_key_word() -> Seq<u8> {
    seq![0x6bu8, 0x65u8, 0x79u8]
}

/// `map`: the field mapping of a meta block.
pub open spec fn prop_map_word() -> Seq<u8> {
    seq![0x6du8, 0x61u8, 0x70u8]
}

pub fn meta_get() -> (r: Vec<u8>)
    ensures
        r@ == meta_get_word(),
{
    let r = vec![0x5fu8, 0x67u8, 0x65u8, 0x74u8];
    assert(r@ =~= meta_get_word());
    r
}

pub fn meta_set() -> (r: Vec<u8>)
    ensures
        r@ == meta_set_word(),
{
    let r = vec![0x5fu8, 0x73u8, 0x65u8, 0x74u8];
    assert(r@ =~= meta_set_word());
    r
}

pub fn meta_state() -> (r: Vec<u8>)
    ensures
        r@ == meta_state_word(),
{
    let r = vec![0x5fu8, 0x73u8, 0x74u8, 0x61u8, 0x74u8, 0x65u8];
    assert(r@ =~= meta_state_word());
    r
}

pub fn prop_store() -> (r: Vec<u8>)
    ensures
        r@ == prop_store_word(),
{
    let r = vec![0x73u8, 0x74u8, 0x6fu8, 0x72u8, 0x65u8];
    assert(r@ =~= prop_store_word());
    r
}

pub fn prop_key() -> (r: Vec<u8>)
    ensures
        r@ == prop_key_word(),
{
    let r = vec![0x6bu8, 0x65u8, 0x79u8];
    assert(r@ =~= prop_key_word());
    r
}

pub fn prop_map() -> (r: Vec<u8>)
    ensures
        r@ == prop_map_word(),
{
    let r = vec![0x6du8, 0x61u8, 0x70u8];
    assert(r@ =~= prop_map_word());
    r
}

// ── path field layout (u64) ──────────────────────────────────────────────────
//
// | field         | bits  |
// |---------------|-------|
// | is_leaf       |     1 | bit 63
// | keyword_id    |    15 | bits 62..48
// | parent_id     |    16 | bits 47..32
// | child/leaf_id |    16 | bits 31..16  is_leaf=0: children id / is_leaf=1: leaves id
// | value_id      |    16 | bits 15..0

pub const PATH_IS_LEAF_SHIFT: u64 = 63;
pub const PATH_KEYWORD_ID_SHIFT: u64 = 48;
pub const PATH_PARENT_ID_SHIFT: u64 = 32;
pub const PATH_CHILD_ID_SHIFT: u64 = 16;
pub const PATH_VALUE_ID_SHIFT: u64 = 0;

pub const PATH_IS_LEAF_MASK: u64 = 0x8000_0000_0000_0000;
pub const PATH_KEYWORD_ID_MASK: u64 = 0x7fff_0000_0000_0000;
pub const PATH_PARENT_ID_MASK: u64 = 0x0000_ffff_0000_0000;
pub const PATH_CHILD_ID_MASK: u64 = 0x0000_0000_ffff_0000;
pub const PATH_VALUE_ID_MASK: u64 = 0x0000_0000_0000_ffff;

// ── leaf layout (VariableList<u16>, fixed 12 u16s) ───────────────────────────

pub const LEAF_WIDTH: usize = 12;

pub const LEAF_GET_STORE_ID: usize = 0;
pub const LEAF_GET_KEY_ID: usize = 1;
pub const LEAF_SET_STORE_ID: usize = 2;
pub const LEAF_SET_KEY_ID: usize = 3;
pub const LEAF_GET_MAP_KEY_ID: usize = 4;
pub const LEAF_GET_MAP_VAL_ID: usize = 5;
pub const LEAF_GET_ARGS_KEY_ID: usize = 6;
pub const LEAF_GET_ARGS_VAL_ID: usize = 7;
pub const LEAF_SET_MAP_KEY_ID: usize = 8;
pub const LEAF_SET_MAP_VAL_ID: usize = 9;
pub const LEAF_SET_ARGS_KEY_ID: usize = 10;
pub const LEAF_SET_ARGS_VAL_ID: usize = 11;

// ── value fragment encoding (u16) ────────────────────────────────────────────
//
// bit15: is_placeholder, bits14..0: word_id

pub const VALUE_IS_PLACEHOLDER_MASK: u16 = 0x8000;
pub const VALUE_WORD_ID_MASK: u16 = 0x7fff;

/// The path is a leaf.
pub open spec fn path_is_leaf(p: u64) -> bool {
    p & PATH_IS_LEAF_MASK != 0
}

/// Word id of the path's keyword.
pub open spec fn path_keyword_id(p: u64) -> u64 {
    (p & PATH_KEYWORD_ID_MASK) >> PATH_KEYWORD_ID_SHIFT
}

/// Path id of the path's parent.
pub open spec fn path_parent_id(p: u64) -> u64 {
    (p & PATH_PARENT_ID_MASK) >> PATH_PARENT_ID_SHIFT
}

/// Children id (inner path) or leaves id (leaf).
pub open spec fn path_child_id(p: u64) -> u64 {
    (p & PATH_CHILD_ID_MASK) >> PATH_CHILD_ID_SHIFT
}

/// Values id of the leaf's value (0: null).
pub open spec fn path_value_id(p: u64) -> u64 {
    p & PATH_VALUE_ID_MASK
}

/// The fragment refers to a path (`${path}`) rather than holding text.
pub open spec fn frag_is_placeholder(f: u16) -> bool {
    f & VALUE_IS_PLACEHOLDER_MASK != 0
}

/// Word id of a fragment.
pub open spec fn frag_word_id(f: u16) -> u16 {
    f & VALUE_WORD_ID_MASK
}

/// Mathematical model of a `VariableList`: its identity line and its data.
pub struct VlView<T> {
    pub ids: Seq<usize>,
    pub data: Seq<T>,
}

impl<T> VlView<T> {
    /// The unit with identity `id`, when its entry and range lie inside the list.
    pub open spec fn entry(self, id: int) -> Option<Seq<T>> {
        if 0 <= 2 * id && 2 * id + 1 < self.ids.len() && self.ids[2 * id] <= self.ids[2 * id + 1]
            <= self.data.len() {
            Some(self.data.subrange(self.ids[2 * id] as int, self.ids[2 * id + 1] as int))
        } else {
            None
        }
    }
}

/// The fields of an inner path entry read back as they were packed.
pub proof fn lemma_inner_entry(kw: u64, parent: u64, cid: u64)
    requires
        kw <= 0x7fff,
        parent <= 0xffff,
        cid <= 0xffff,
    ensures
        ({
            let e = (kw << 48u64) | (parent << 32u64) | (cid << 16u64);
            &&& !path_is_leaf(e)
            &&& path_keyword_id(e) == kw
            &&& path_parent_id(e) == parent
            &&& path_child_id(e) == cid
            &&& path_value_id(e) == 0
        }),
{
    assert({
        let e = (kw << 48u64) | (parent << 32u64) | (cid << 16u64);
        &&& e & 0x8000_0000_0000_0000u64 == 0
        &&& (e & 0x7fff_0000_0000_0000u64) >> 48u64 == kw
        &&& (e & 0x0000_ffff_0000_0000u64) >> 32u64 == parent
        &&& (e & 0x0000_0000_ffff_0000u64) >> 16u64 == cid
        &&& e & 0x0000_0000_0000_ffffu64 == 0
    }) by (bit_vector)
        requires
            kw <= 0x7fff,
            parent <= 0xffff,
            cid <= 0xffff,
    ;
}

/// The fields of a leaf path entry read back as they were packed.
pub proof fn lemma_leaf_entry(kw: u64, parent: u64, leaf: u64, value: u64)
    requires
        kw <= 0x7fff,
        parent <= 0xffff,
        leaf <= 0xffff,
        value <= 0xffff,
    ensures
        ({
            let e = 0x8000_0000_0000_0000u64 | (kw << 48u64) | (parent << 32u64) | (leaf << 16u64) | value;
            &&& path_is_leaf(e)
            &&& path_keyword_id(e) == kw
            &&& path_parent_id(e) == parent
            &&& path_child_id(e) == leaf
            &&& path_value_id(e) == value
        }),
{
    assert({
        let e = 0x8000_0000_0000_0000u64 | (kw << 48u64) | (parent << 32u64) | (leaf << 16u64) | value;
        &&& e & 0x8000_0000_0000_0000u64 != 0
        &&& (e & 0x7fff_0000_0000_0000u64) >> 48u64 == kw
        &&& (e & 0x0000_ffff_0000_0000u64) >> 32u64 == parent
        &&& (e & 0x0000_0000_ffff_0000u64) >> 16u64 == leaf
        &&& e & 0x0000_0000_0000_ffffu64 == value
    }) by (bit_vector)
        requires
            kw <= 0x7fff,
            parent <= 0xffff,
            leaf <= 0xffff,
            value <= 0xffff,
    ;
}

/// The empty entry: an inner path without children.
pub proof fn lemma_empty_entry()
    ensures
        !path_is_leaf(0),
        path_child_id(0) == 0,
        path_keyword_id(0) == 0,
{
    lemma_inner_entry(0, 0, 0);
    assert((0u64 << 48u64) | (0u64 << 32u64) | (0u64 << 16u64) == 0) by (bit_vector);
}

/// A fragment's flag and word id read back as they were packed.
pub proof fn lemma_fragment(word: u16, placeholder: bool)
    requires
        word <= 0x7fff,
    ensures
        ({
            let f = if placeholder { 0x8000u16 | (word & 0x7fffu16) } else { word & 0x7fffu16 };
            &&& frag_is_placeholder(f) == placeholder
            &&& frag_word_id(f) == word
        }),
{
    assert((0x8000u16 | (word & 0x7fffu16)) & 0x8000u16 != 0) by (bit_vector);
    assert((0x8000u16 | (word & 0x7fffu16)) & 0x7fffu16 == word) by (bit_vector)
        requires
            word <= 0x7fff,
    ;
    assert((word & 0x7fffu16) & 0x8000u16 == 0) by (bit_vector);
    assert((word & 0x7fffu16) & 0x7fffu16 == word) by (bit_vector)
        requires
            word <= 0x7fff,
    ;
}

} // verus!
