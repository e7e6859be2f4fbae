//! Request-scoped resolution of the values a compiled DSL defines: an instance
//! cache in front of the `_set` store, the DSL's own values and the `_get` store.
use vstd::prelude::*;
use std::sync::Arc;
use vstd::utf8::{encode_utf8, decode_utf8, valid_utf8};
use crate::index::{Index, IndexView, LeafRef, static_text};
use crate::layout::{frag_is_placeholder, frag_word_id, VALUE_IS_PLACEHOLDER_MASK, VALUE_WORD_ID_MASK};
use crate::provided::{Tree, TreeView, ContextError, LoadError, StoreError, copy_tree};
use crate::required::{Stores, Store, SetOutcome};
use crate::args::{Args, args_insert};
use crate::dsl::{find_local, lookup, pairs_view, open_pos, segments};
use crate::reading::{compiled_from, source_leaves, source_blocks, frags_of, blocks_read, segs_of, law_traverse_reads_source};
use crate::index::split_dots;
use crate::text::{utf8_str, text_or_empty, str_bytes, decimal, decimal_text};

verus! {

// ── the instance cache ───────────────────────────────────────────────────────

/// Position of the first entry for path `k`, or -1.
pub open spec fn cache_pos(c: Seq<(u16, TreeView)>, k: u16) -> int
    decreases c.len(),
{
    if c.len() == 0 {
        -1
    } else if c[0].0 == k {
        0
    } else {
        let p = cache_pos(c.drop_first(), k);
        if p < 0 {
            -1
        } else {
            p + 1
        }
    }
}

/// The cached value of path `k`.
pub open spec fn cached(c: Seq<(u16, TreeView)>, k: u16) -> Option<TreeView> {
    let p = cache_pos(c, k);
    if p < 0 {
        None
    } else {
        Some(c[p].1)
    }
}

/// The cache with path `k` bound to `v`: its entry replaced, else appended.
pub open spec fn cache_put(c: Seq<(u16, TreeView)>, k: u16, v: TreeView) -> Seq<(u16, TreeView)> {
    let p = cache_pos(c, k);
    if p < 0 {
        c.push((k, v))
    } else {
        c.update(p, (k, v))
    }
}

/// The cache with the entry of path `k` removed.
pub open spec fn cache_drop(c: Seq<(u16, TreeView)>, k: u16) -> Seq<(u16, TreeView)> {
    let p = cache_pos(c, k);
    if p < 0 {
        c
    } else {
        c.remove(p)
    }
}

/// Each path has at most one entry.
pub open spec fn cache_unique(c: Seq<(u16, TreeView)>) -> bool {
    forall|i: int, j: int| 0 <= i < j < c.len() ==> c[i].0 != c[j].0
}

pub proof fn lemma_cache_pos(c: Seq<(u16, TreeView)>, k: u16)
    ensures
        -1 <= cache_pos(c, k) < c.len(),
        cache_pos(c, k) >= 0 ==> c[cache_pos(c, k)].0 == k,
        forall|i: int| 0 <= i < cache_pos(c, k) ==> c[i].0 != k,
        cache_pos(c, k) < 0 ==> forall|i: int| 0 <= i < c.len() ==> c[i].0 != k,
    decreases c.len(),
{
    if c.len() > 0 && c[0].0 != k {
        lemma_cache_pos(c.drop_first(), k);
        assert forall|i: int| 1 <= i < c.len() implies c[i] == c.drop_first()[i - 1] by {}
    }
}

/// Reading a path right after it was written gives what was written.
pub proof fn law_cache_read_after_write(c: Seq<(u16, TreeView)>, k: u16, v: TreeView)
    ensures
        cached(cache_put(c, k, v), k) == Some(v),
{
    lemma_cache_pos(c, k);
    let d = cache_put(c, k, v);
    lemma_cache_pos(d, k);
    if cache_pos(c, k) < 0 {
        assert(d[c.len() as int].0 == k);
    } else {
        assert(d[cache_pos(c, k)].0 == k);
    }
}

/// Writing one path leaves what every other path reads.
pub proof fn law_cache_write_other(c: Seq<(u16, TreeView)>, k: u16, v: TreeView, j: u16)
    requires
        j != k,
    ensures
        cached(cache_put(c, k, v), j) == cached(c, j),
{
    lemma_cache_pos(c, k);
    lemma_cache_pos(c, j);
    let d = cache_put(c, k, v);
    lemma_cache_pos(d, j);
    if cache_pos(c, j) >= 0 {
        assert(d[cache_pos(c, j)].0 == j);
    }
    if cache_pos(d, j) >= 0 && cache_pos(d, j) < c.len() {
        assert(c[cache_pos(d, j)].0 == j);
    }
}

/// A path whose entry was removed reads as absent.
pub proof fn law_cache_read_after_drop(c: Seq<(u16, TreeView)>, k: u16)
    requires
        cache_unique(c),
    ensures
        cached(cache_drop(c, k), k) is None,
{
    lemma_cache_pos(c, k);
    let d = cache_drop(c, k);
    lemma_cache_pos(d, k);
    if cache_pos(d, k) >= 0 {
        let q = cache_pos(d, k);
        let p = cache_pos(c, k);
        assert(d[q].0 == k);
        if p >= 0 {
            if q < p {
                assert(d[q] == c[q]);
            } else {
                assert(d[q] == c[q + 1]);
                assert(c[p].0 == c[q + 1].0);
            }
        } else {
            assert(d == c);
        }
    }
}

proof fn lemma_cache_put_unique(c: Seq<(u16, TreeView)>, k: u16, v: TreeView)
    requires
        cache_unique(c),
    ensures
        cache_unique(cache_put(c, k, v)),
{
    lemma_cache_pos(c, k);
}

proof fn lemma_cache_drop_unique(c: Seq<(u16, TreeView)>, k: u16)
    requires
        cache_unique(c),
    ensures
        cache_unique(cache_drop(c, k)),
{
    lemma_cache_pos(c, k);
}

/// A path id list without repeats has room for one more path it does not hold.
proof fn lemma_room(s: Seq<u16>, x: u16)
    requires
        s.no_duplicates(),
        !s.contains(x),
    ensures
        s.len() < 0x10000,
{
    let m = s.map_values(|e: u16| e as int);
    assert(m.no_duplicates()) by {
        assert forall|i: int, j: int| 0 <= i < m.len() && 0 <= j < m.len() && i != j implies m[i] != m[j] by {
            assert(s[i] != s[j]);
        }
    }
    m.unique_seq_to_set();
    let full = vstd::set_lib::set_int_range(0, 0x10000);
    vstd::set_lib::lemma_int_range(0, 0x10000);
    let room = full.remove(x as int);
    assert(m.to_set().subset_of(room)) by {
        assert forall|e: int| m.to_set().contains(e) implies room.contains(e) by {
            let i = choose|i: int| 0 <= i < m.len() && m[i] == e;
            assert(s[i] != x);
        }
    }
    vstd::set_lib::lemma_len_subset(m.to_set(), room);
}

// ── resolution shapes ────────────────────────────────────────────────────────

/// The texts of `parts`, one after the other.
pub open spec fn concat(parts: Seq<Seq<char>>) -> Seq<char>
    decreases parts.len(),
{
    if parts.len() == 0 {
        Seq::empty()
    } else {
        concat(parts.drop_last()) + parts.last()
    }
}

/// `parts` are texts for the fragments `fr`: a literal fragment's text is its word's.
pub open spec fn key_parts(ix: IndexView, fr: Seq<u16>, parts: Seq<Seq<char>>) -> bool {
    &&& parts.len() == fr.len()
    &&& forall|i: int|
        0 <= i < fr.len() && !frag_is_placeholder(fr[i]) ==> #[trigger] parts[i] == text_or_empty(
            ix.word(frag_word_id(fr[i]) as int),
        )
}

/// The text a read contributes to a key: the text of the scalar it gave,
/// nothing for another value.
pub open spec fn read_text(g: Result<Option<Tree>, ContextError>) -> Seq<char> {
    match g {
        Ok(Some(Tree::Scalar(b))) => text_or_empty(b@),
        _ => Seq::empty(),
    }
}

/// `parts` are texts for the fragments `fr`, read in turn from context
/// `cs[0]` on: a literal fragment's text is its word's and reads nothing; a
/// placeholder's is the text of what reading its path (the word) gave,
/// `gs[i]`, a value, the context going from `cs[i]` to `cs[i + 1]`.
pub open spec fn key_trace(
    ix: IndexView,
    fr: Seq<u16>,
    parts: Seq<Seq<char>>,
    cs: Seq<ContextView>,
    gs: Seq<Result<Option<Tree>, ContextError>>,
) -> bool {
    &&& parts.len() == fr.len()
    &&& cs.len() == fr.len() + 1
    &&& gs.len() == fr.len()
    &&& forall|i: int|
        0 <= i < fr.len() ==> if frag_is_placeholder(#[trigger] fr[i]) {
            &&& read_outcome(cs[i], cs[i + 1], text_or_empty(ix.word(frag_word_id(fr[i]) as int)), gs[i])
            &&& gs[i] matches Ok(Some(_))
            &&& parts[i] == read_text(gs[i])
        } else {
            &&& cs[i + 1] == cs[i]
            &&& parts[i] == text_or_empty(ix.word(frag_word_id(fr[i]) as int))
        }
}

/// `parts` are texts for a value's fragments `frs`, read in turn from context
/// `cs[0]` on: a literal's text is its own and reads nothing; a placeholder's
/// (naming a UTF-8 path) is the text of what reading that path gave, `gs[i]`, a
/// value, the context going from `cs[i]` to `cs[i + 1]`.
pub open spec fn value_trace(
    frs: Seq<(bool, Seq<u8>)>,
    parts: Seq<Seq<char>>,
    cs: Seq<ContextView>,
    gs: Seq<Result<Option<Tree>, ContextError>>,
) -> bool {
    &&& parts.len() == frs.len()
    &&& cs.len() == frs.len() + 1
    &&& gs.len() == frs.len()
    &&& forall|i: int|
        0 <= i < frs.len() ==> if (#[trigger] frs[i]).0 {
            &&& valid_utf8(frs[i].1)
            &&& read_outcome(cs[i], cs[i + 1], decode_utf8(frs[i].1), gs[i])
            &&& gs[i] matches Ok(Some(_))
            &&& parts[i] == read_text(gs[i])
        } else {
            &&& cs[i + 1] == cs[i]
            &&& parts[i] == text_or_empty(frs[i].1)
        }
}

/// The fragments of a value as copied out: each flag with its bytes.
pub open spec fn frags_view(frags: Seq<(bool, Vec<u8>)>) -> Seq<(bool, Seq<u8>)> {
    Seq::new(frags.len(), |i: int| (frags[i].0, frags[i].1@))
}

/// The keyword-and-value pairs that resolving the leaves `ls` in turn gave
/// (`rs`, none for a leaf without a value), in order.
pub open spec fn gathered(ix: IndexView, ls: Seq<LeafRef>, rs: Seq<Option<TreeView>>) -> Seq<(Seq<u8>, TreeView)>
    decreases rs.len(),
{
    if rs.len() == 0 {
        Seq::empty()
    } else {
        let prev = gathered(ix, ls, rs.drop_last());
        match rs.last() {
            Some(v) => prev.push((ix.keyword(ls[rs.len() - 1].path_id as int), v)),
            None => prev,
        }
    }
}

/// The leaves `ls` resolved in turn, none under way, the context going from
/// `cs[i]` to `cs[i + 1]` for leaf `i`, which gave `rs[i]` (see [`leaf_outcome`]).
pub open spec fn leaves_trace(ls: Seq<LeafRef>, cs: Seq<ContextView>, rs: Seq<Option<TreeView>>) -> bool {
    &&& cs.len() == ls.len() + 1
    &&& rs.len() == ls.len()
    &&& forall|i: int| 0 <= i < ls.len() ==> #[trigger] trace_step(ls, cs, rs, i)
}

/// Step `i` of [`leaves_trace`]: leaf `ls[i]`, not under way, resolved from
/// `cs[i]` to `cs[i + 1]`, gave `rs[i]`.
pub open spec fn trace_step(ls: Seq<LeafRef>, cs: Seq<ContextView>, rs: Seq<Option<TreeView>>, i: int) -> bool {
    &&& !cs[i].called.contains(ls[i].path_id)
    &&& cs[i + 1].called == cs[i].called
    &&& leaf_outcome(entered(cs[i], ls[i].path_id), entered(cs[i + 1], ls[i].path_id), ls[i], Ok(rs[i]))
}

/// Leaf `leaf`, resolved from context `c`, failed with `e`, the context ending
/// as `b`: `RecursionLimitExceeded` when it was under way, else as
/// [`leaf_outcome`] says.
pub open spec fn leaf_fails(c: ContextView, b: ContextView, leaf: LeafRef, e: ContextError) -> bool {
    if c.called.contains(leaf.path_id) {
        e is RecursionLimitExceeded && b == c
    } else {
        leaf_outcome(entered(c, leaf.path_id), entered(b, leaf.path_id), leaf, Err(e))
    }
}

/// No fragment of a leaf's value is a placeholder.
pub open spec fn all_literal(frs: Seq<(bool, Seq<u8>)>) -> bool {
    forall|i: int| 0 <= i < frs.len() ==> !(#[trigger] frs[i]).0
}

/// What a leaf whose fragments are all literal reads as: a scalar of their
/// texts, one after the other.
pub open spec fn literal_value(frs: Seq<(bool, Seq<u8>)>) -> TreeView {
    TreeView::Scalar(encode_utf8(concat(Seq::new(frs.len(), |i: int| text_or_empty(frs[i].1)))))
}

/// No fragment is a placeholder.
pub open spec fn all_static(fr: Seq<u16>) -> bool {
    forall|i: int| 0 <= i < fr.len() ==> !frag_is_placeholder(#[trigger] fr[i])
}

proof fn lemma_static_parts(ix: IndexView, fr: Seq<u16>, parts: Seq<Seq<char>>)
    requires
        all_static(fr),
        key_parts(ix, fr, parts),
    ensures
        concat(parts) == static_text(ix, fr),
    decreases fr.len(),
{
    if fr.len() > 0 {
        let n = fr.len() - 1;
        assert(!frag_is_placeholder(fr[n]));
        assert(parts[n] == text_or_empty(ix.word(frag_word_id(fr[n]) as int)));
        assert forall|i: int| 0 <= i < fr.drop_last().len() implies !frag_is_placeholder(#[trigger] fr.drop_last()[i]) by {
            assert(fr.drop_last()[i] == fr[i]);
        }
        assert forall|i: int|
            0 <= i < fr.drop_last().len() && !frag_is_placeholder(fr.drop_last()[i]) implies #[trigger] parts.drop_last()[i]
            == text_or_empty(ix.word(frag_word_id(fr.drop_last()[i]) as int)) by {
            assert(fr.drop_last()[i] == fr[i]);
            assert(parts.drop_last()[i] == parts[i]);
        }
        lemma_static_parts(ix, fr.drop_last(), parts.drop_last());
    }
}

/// Arguments as a context hands them to a store: each keyword that reads as
/// non-empty text bound, in order, to its resolved value `vs[i]`.
pub open spec fn arg_fold(
    ix: IndexView,
    keys: Seq<u16>,
    vs: Seq<TreeView>,
    n: int,
) -> Seq<(Seq<char>, TreeView)>
    decreases n,
{
    if n <= 0 {
        Seq::empty()
    } else {
        let b = arg_fold(ix, keys, vs, n - 1);
        let k = text_or_empty(ix.word(keys[n - 1] as int));
        if k.len() == 0 {
            b
        } else {
            args_insert(b, k, vs[n - 1])
        }
    }
}

/// The fragments of value id `id`, none when it has no unit.
pub open spec fn value_frags(ix: IndexView, id: u16) -> Seq<u16> {
    match ix.values.entry(id as int) {
        Some(fr) => fr,
        None => Seq::empty(),
    }
}

/// The value an argument gets from what its fragments gave: the scalar of
/// their text, null when there were none or they failed.
pub open spec fn arg_of(r: Result<Option<String>, ContextError>) -> TreeView {
    match r {
        Ok(Some(s)) => TreeView::Scalar(encode_utf8(s@)),
        _ => TreeView::Null,
    }
}

/// Step `i` of [`args_trace`]: an argument whose keyword reads as empty text
/// is passed over (reading nothing); one with value id 0 is null; else its
/// value's fragments are resolved from `ds[i]` to `ds[i + 1]` (see
/// [`key_gives`]) and give its value (see [`arg_of`]).
pub open spec fn arg_step(
    ix: IndexView,
    keys: Seq<u16>,
    vals: Seq<u16>,
    vs: Seq<TreeView>,
    ds: Seq<ContextView>,
    i: int,
) -> bool {
    if text_or_empty(ix.word(keys[i] as int)).len() == 0 {
        ds[i + 1] == ds[i] && vs[i] == ideal_value(ix, vals[i])
    } else if vals[i] == 0 {
        ds[i + 1] == ds[i] && vs[i] == TreeView::Null
    } else {
        exists|r: Result<Option<String>, ContextError>|
            #[trigger] key_gives(ix, value_frags(ix, vals[i]), ds[i], ds[i + 1], r) && vs[i] == arg_of(r)
    }
}

/// The arguments of keywords `keys` and value ids `vals` resolved in turn,
/// the context going from `ds[0]` on, with values `vs`.
pub open spec fn args_trace(ix: IndexView, keys: Seq<u16>, vals: Seq<u16>, vs: Seq<TreeView>, ds: Seq<ContextView>) -> bool {
    let n = zip_len(keys.len(), vals.len());
    &&& vs.len() == n
    &&& ds.len() == n + 1
    &&& forall|i: int| 0 <= i < n ==> #[trigger] arg_step(ix, keys, vals, vs, ds, i)
}

/// The store key and arguments a leaf's `_get` (`get`) or `_set` block asks a
/// store with, placeholders read in turn from context `c` on: the key is the
/// text its key fragments give (see [`key_gives`]; exactly the static text
/// when there is no placeholder), else the leaf's path id in decimal; then,
/// from where that ends, the arguments: its keywords bound in order to their
/// resolved values (see [`args_trace`]).
pub open spec fn request_of(
    ix: IndexView,
    leaf: LeafRef,
    get: bool,
    c: ContextView,
    k: Seq<char>,
    a: Seq<(Seq<char>, TreeView)>,
) -> bool {
    let m = ix.raw_meta(leaf, get);
    let kf = m.1;
    let n = zip_len(m.4.len(), m.5.len());
    &&& kf.len() > 0 && all_static(kf) ==> k == static_text(ix, kf)
    &&& exists|d: ContextView, rk: Result<Option<String>, ContextError>, vs: Seq<TreeView>, ds: Seq<ContextView>|
        {
            &&& #[trigger] key_gives(ix, kf, c, d, rk)
            &&& match rk {
                Ok(None) => k == decimal_text(leaf.path_id as nat),
                Ok(Some(s)) => k == s@,
                Err(_) => false,
            }
            &&& #[trigger] args_trace(ix, m.4, m.5, vs, ds)
            &&& ds[0] == d
            &&& a == arg_fold(ix, m.4, vs, n as int)
        }
}

/// A value made of one placeholder, naming `path`, gives what reading `path`
/// gives (`g`, the context going from `a` to `b`): the value as it is, type kept;
/// `LoadFailed(NotFound)` of `path` when it has none; its error when it fails.
pub open spec fn copies_read(g: Result<Option<Tree>, ContextError>, path: Seq<char>, r: Result<Tree, ContextError>) -> bool {
    match g {
        Ok(Some(v)) => r matches Ok(t) && t@ == v@,
        Ok(None) => r matches Err(ContextError::LoadFailed(LoadError::NotFound(s))) && s@ == path,
        Err(e) => r matches Err(e2) && e2 == e,
    }
}

/// The same for a leaf's resolution, which gives an optional value.
pub open spec fn lone_gives(g: Result<Option<Tree>, ContextError>, path: Seq<char>, r: Result<Option<TreeView>, ContextError>) -> bool {
    match g {
        Ok(Some(v)) => r == Ok::<Option<TreeView>, ContextError>(Some(v@)),
        Ok(None) => r matches Err(ContextError::LoadFailed(LoadError::NotFound(s))) && s@ == path,
        Err(e) => r == Err::<Option<TreeView>, ContextError>(e),
    }
}

/// The model of a composed value as a leaf's result.
pub open spec fn comp_view(r: Result<Tree, ContextError>) -> Result<Option<TreeView>, ContextError> {
    match r {
        Ok(t) => Ok(Some(t@)),
        Err(e) => Err(e),
    }
}

/// What a leaf's value of fragments `frs` gives, placeholders read from
/// context `c` on: for one lone placeholder, what reading its path gives, the
/// value as it is (see [`lone_gives`]; `LoadFailed(ConfigMissing)` for a path
/// that is not UTF-8); else the joined text (see [`template_gives`]).
pub open spec fn value_gives(frs: Seq<(bool, Seq<u8>)>, c: ContextView, r: Result<Option<TreeView>, ContextError>) -> bool {
    if frs.len() == 1 && frs[0].0 {
        if valid_utf8(frs[0].1) {
            exists|m: ContextView, g: Result<Option<Tree>, ContextError>|
                #[trigger] read_outcome(c, m, decode_utf8(frs[0].1), g) && lone_gives(g, decode_utf8(frs[0].1), r)
        } else {
            r matches Err(ContextError::LoadFailed(LoadError::ConfigMissing(_)))
        }
    } else {
        template_gives(frs, c, r)
    }
}

/// Reading placeholder path `path` from context `c` gave no value, and gave
/// error `e`: `LoadFailed(NotFound)` of the path when the read gave none; the
/// read's own error when it failed.
pub open spec fn read_fails(path: Seq<char>, c: ContextView, e: ContextError) -> bool {
    exists|m: ContextView, g: Result<Option<Tree>, ContextError>|
        #[trigger] read_outcome(c, m, path, g) && match g {
            Ok(None) => e matches ContextError::LoadFailed(LoadError::NotFound(s)) && s@ == path,
            Err(e2) => e == e2,
            Ok(Some(_)) => false,
        }
}

/// Reading the placeholder path `path` (its bytes) from context `c` did not
/// give a value, and gave error `e`: `LoadFailed(ConfigMissing)` when the path
/// is not UTF-8; else see [`read_fails`].
pub open spec fn value_fails(path: Seq<u8>, c: ContextView, e: ContextError) -> bool {
    if !valid_utf8(path) {
        e matches ContextError::LoadFailed(LoadError::ConfigMissing(_))
    } else {
        read_fails(decode_utf8(path), c, e)
    }
}

/// Reading placeholder path `path` gave `g`, which is no value, and error
/// `e`: `LoadFailed(NotFound)` of the path when it gave none; its own error
/// when it failed.
pub open spec fn read_failed(g: Result<Option<Tree>, ContextError>, path: Seq<char>, e: ContextError) -> bool {
    match g {
        Ok(None) => e matches ContextError::LoadFailed(LoadError::NotFound(s)) && s@ == path,
        Err(e2) => e == e2,
        Ok(Some(_)) => false,
    }
}

/// What key fragments `fr` give, placeholders read in turn, the context going
/// from `c` to `d`: nothing for no fragments, reading nothing; when each
/// placeholder's read gives a value, the fragments' texts joined (see
/// [`key_trace`]); else the failure of the first placeholder whose read did
/// not (see [`read_failed`]).
pub open spec fn key_gives(ix: IndexView, fr: Seq<u16>, c: ContextView, d: ContextView, r: Result<Option<String>, ContextError>) -> bool {
    match r {
        Ok(None) => fr.len() == 0 && d == c,
        Ok(Some(k)) => fr.len() > 0 && exists|
            parts: Seq<Seq<char>>,
            cs: Seq<ContextView>,
            gs: Seq<Result<Option<Tree>, ContextError>>,
        | #[trigger] key_trace(ix, fr, parts, cs, gs) && cs[0] == c && cs[fr.len() as int] == d && k@ == concat(parts),
        Err(e) => exists|
            parts: Seq<Seq<char>>,
            cs: Seq<ContextView>,
            gs: Seq<Result<Option<Tree>, ContextError>>,
            j: int,
            g: Result<Option<Tree>, ContextError>,
        |
            0 <= j < fr.len() && #[trigger] key_trace(ix, fr.take(j), parts, cs, gs) && cs[0] == c && frag_is_placeholder(
                fr[j],
            ) && #[trigger] read_outcome(cs[j], d, text_or_empty(ix.word(frag_word_id(fr[j]) as int)), g) && read_failed(
                g,
                text_or_empty(ix.word(frag_word_id(fr[j]) as int)),
                e,
            ),
    }
}

/// What a value of fragments `frs`, not one lone placeholder, gives, its
/// placeholders read in turn from context `c` on: when each read gives a
/// value, the scalar of the fragments' texts joined (see [`value_trace`]);
/// else the failure of the first placeholder that did not (see
/// [`value_fails`]). Never nothing.
pub open spec fn template_gives(frs: Seq<(bool, Seq<u8>)>, c: ContextView, r: Result<Option<TreeView>, ContextError>) -> bool {
    match r {
        Ok(Some(t)) => exists|parts: Seq<Seq<char>>, cs: Seq<ContextView>, gs: Seq<Result<Option<Tree>, ContextError>>|
            #[trigger] value_trace(frs, parts, cs, gs) && cs[0] == c && t == TreeView::Scalar(encode_utf8(concat(parts))),
        Ok(None) => false,
        Err(e) => exists|
            parts: Seq<Seq<char>>,
            cs: Seq<ContextView>,
            gs: Seq<Result<Option<Tree>, ContextError>>,
            j: int,
        |
            0 <= j < frs.len() && #[trigger] value_trace(frs.take(j), parts, cs, gs) && cs[0] == c && frs[j].0
                && value_fails(frs[j].1, cs[j], e),
    }
}

// ── store calls ──────────────────────────────────────────────────────────────

/// Which request of a leaf a store call serves.
pub enum Purpose {
    /// Reading the leaf through its `_set` store.
    Read,
    /// Loading the leaf through its `_get` store.
    Load,
    /// Writing a loaded value back through the `_set` store.
    WriteBack,
    /// A write the caller asked for.
    Write,
    /// A removal the caller asked for.
    Remove,
    /// A presence check the caller asked for.
    Probe,
}

/// A call a context made to its stores for the leaf at `path`, and what came back.
pub enum StoreCall {
    /// A store looked up by its id; whether one was found.
    Lookup { path: u16, purpose: Purpose, store: u8, found: bool },
    /// A value asked for under `key` with `args`; the store's answer.
    Get {
        path: u16,
        purpose: Purpose,
        store: u8,
        key: Seq<char>,
        args: Seq<(Seq<char>, TreeView)>,
        answer: Option<TreeView>,
    },
    /// A value handed over to be written (bound to `value` in `args`); whether the store took it.
    Put { path: u16, purpose: Purpose, store: u8, key: Seq<char>, args: Seq<(Seq<char>, TreeView)>, took: bool },
    /// A removal asked for; whether the store did it.
    Delete { path: u16, purpose: Purpose, store: u8, key: Seq<char>, args: Seq<(Seq<char>, TreeView)>, done: bool },
}

/// The leaf a store call is for.
pub open spec fn call_path(c: StoreCall) -> u16 {
    match c {
        StoreCall::Lookup { path, .. } => path,
        StoreCall::Get { path, .. } => path,
        StoreCall::Put { path, .. } => path,
        StoreCall::Delete { path, .. } => path,
    }
}

/// The calls for leaf `p` in `log` from position `from` on, in order.
pub open spec fn calls_since(log: Seq<StoreCall>, from: int, p: u16) -> Seq<StoreCall>
    decreases log.len(),
{
    if log.len() == 0 || log.len() <= from {
        Seq::empty()
    } else {
        let prev = calls_since(log.drop_last(), from, p);
        if call_path(log.last()) == p {
            prev.push(log.last())
        } else {
            prev
        }
    }
}

/// `a` is how `b` starts.
pub open spec fn grows(a: Seq<StoreCall>, b: Seq<StoreCall>) -> bool {
    a.len() <= b.len() && forall|i: int| 0 <= i < a.len() ==> #[trigger] b[i] == a[i]
}

/// The calls `b` has beyond `a` are for no path in `called`.
pub open spec fn avoids(a: Seq<StoreCall>, b: Seq<StoreCall>, called: Seq<u16>) -> bool {
    forall|i: int| a.len() <= i < b.len() ==> !called.contains(call_path(#[trigger] b[i]))
}

/// The calls made for leaf `p` from context `a` to context `b`.
pub open spec fn own_calls(a: ContextView, b: ContextView, p: u16) -> Seq<StoreCall> {
    calls_since(b.asked, a.asked.len() as int, p)
}

/// Context `a` once store call `c` is made.
pub open spec fn after(a: ContextView, c: StoreCall) -> ContextView {
    ContextView { index: a.index, cache: a.cache, called: a.called, asked: a.asked.push(c) }
}

/// Context `a` with the resolution of path `p` under way.
pub open spec fn entered(a: ContextView, p: u16) -> ContextView {
    ContextView { index: a.index, cache: a.cache, called: a.called.push(p), asked: a.asked }
}

/// The model of a store's answer.
pub open spec fn opt_view(o: Option<Tree>) -> Option<TreeView> {
    match o {
        Some(t) => Some(t@),
        None => None,
    }
}

/// The model of a resolution's result.
pub open spec fn res_view(r: Result<Option<Tree>, ContextError>) -> Result<Option<TreeView>, ContextError> {
    match r {
        Ok(o) => Ok(opt_view(o)),
        Err(e) => Err(e),
    }
}

proof fn lemma_calls_push(log: Seq<StoreCall>, from: int, p: u16, c: StoreCall)
    requires
        0 <= from <= log.len(),
    ensures
        calls_since(log.push(c), from, p) == if call_path(c) == p {
            calls_since(log, from, p).push(c)
        } else {
            calls_since(log, from, p)
        },
{
    assert(log.push(c).drop_last() =~= log);
}

proof fn lemma_calls_other(m: Seq<StoreCall>, n: Seq<StoreCall>, from: int, p: u16)
    requires
        grows(m, n),
        0 <= from <= m.len(),
        forall|i: int| m.len() <= i < n.len() ==> call_path(#[trigger] n[i]) != p,
    ensures
        calls_since(n, from, p) == calls_since(m, from, p),
    decreases n.len(),
{
    if n.len() > m.len() {
        let n0 = n.drop_last();
        assert(grows(m, n0));
        assert(call_path(n[n.len() - 1]) != p);
        lemma_calls_other(m, n0, from, p);
    } else {
        assert(n =~= m);
    }
}

proof fn lemma_calls_empty(log: Seq<StoreCall>, p: u16)
    ensures
        calls_since(log, log.len() as int, p) == Seq::<StoreCall>::empty(),
{
}

proof fn lemma_grows_trans(a: Seq<StoreCall>, b: Seq<StoreCall>, c: Seq<StoreCall>)
    requires
        grows(a, b),
        grows(b, c),
    ensures
        grows(a, c),
{
    assert forall|i: int| 0 <= i < a.len() implies #[trigger] c[i] == a[i] by {
        assert(c[i] == b[i]);
    }
}

proof fn lemma_avoids_trans(a: Seq<StoreCall>, b: Seq<StoreCall>, c: Seq<StoreCall>, called: Seq<u16>)
    requires
        grows(a, b),
        grows(b, c),
        avoids(a, b, called),
        avoids(b, c, called),
    ensures
        avoids(a, c, called),
{
    assert forall|i: int| a.len() <= i < c.len() implies !called.contains(call_path(#[trigger] c[i])) by {
        if i < b.len() {
            assert(c[i] == b[i]);
        }
    }
}

proof fn lemma_grows_refl(a: Seq<StoreCall>)
    ensures
        grows(a, a),
{
}

/// Steps compose.
proof fn lemma_steps_trans(a: ContextView, b: ContextView, c: ContextView)
    requires
        Context::steps(a, b),
        Context::steps(b, c),
    ensures
        Context::steps(a, c),
{
    lemma_grows_trans(a.asked, b.asked, c.asked);
    lemma_avoids_trans(a.asked, b.asked, c.asked, a.called);
}

/// The calls `b` has beyond `a` are for path `p` or for no path in `called`.
pub open spec fn avoids_but(a: Seq<StoreCall>, b: Seq<StoreCall>, called: Seq<u16>, p: u16) -> bool {
    forall|i: int| a.len() <= i < b.len() ==> call_path(#[trigger] b[i]) == p || !called.contains(call_path(b[i]))
}

/// A leaf's own calls over a nested step, which calls for no path under way.
proof fn lemma_nested(s: ContextView, m: ContextView, n: ContextView, p: u16)
    requires
        grows(s.asked, m.asked),
        avoids_but(s.asked, m.asked, s.called, p),
        s.called.contains(p),
        m.called == s.called,
        grows(m.asked, n.asked),
        avoids(m.asked, n.asked, m.called),
    ensures
        grows(s.asked, n.asked),
        avoids_but(s.asked, n.asked, s.called, p),
        own_calls(s, n, p) == own_calls(s, m, p),
{
    lemma_grows_trans(s.asked, m.asked, n.asked);
    assert forall|i: int| s.asked.len() <= i < n.asked.len() implies call_path(#[trigger] n.asked[i]) == p
        || !s.called.contains(call_path(n.asked[i])) by {
        if i < m.asked.len() {
            assert(n.asked[i] == m.asked[i]);
        }
    }
    lemma_calls_other(m.asked, n.asked, s.asked.len() as int, p);
}

/// A leaf's own calls once it makes call `c`.
proof fn lemma_noted(s: ContextView, m: ContextView, c: StoreCall, p: u16)
    requires
        grows(s.asked, m.asked),
        avoids_but(s.asked, m.asked, s.called, p),
        call_path(c) == p,
    ensures
        grows(s.asked, m.asked.push(c)),
        avoids_but(s.asked, m.asked.push(c), s.called, p),
        calls_since(m.asked.push(c), s.asked.len() as int, p) == own_calls(s, m, p).push(c),
{
    lemma_calls_push(m.asked, s.asked.len() as int, p, c);
    assert forall|i: int| s.asked.len() <= i < m.asked.push(c).len() implies call_path(#[trigger] m.asked.push(c)[i]) == p
        || !s.called.contains(call_path(m.asked.push(c)[i])) by {
        if i < m.asked.len() {
            assert(m.asked.push(c)[i] == m.asked[i]);
        }
    }
}

/// A key-not-found error names a path the DSL does not have.
pub open spec fn names_missing(ix: IndexView, e: ContextError) -> bool {
    e matches ContextError::KeyNotFound(t) ==> ix.traverse(encode_utf8(t@)).len() == 0
}

// ── what the operations give ─────────────────────────────────────────────────

/// `c` is the lookup of store `s` for leaf `p`, for `purpose`.
pub open spec fn is_lookup(c: StoreCall, p: u16, purpose: Purpose, s: u8) -> bool {
    c is Lookup && c->Lookup_path == p && c->Lookup_purpose == purpose && c->Lookup_store == s
}

/// `c` is a lookup that found a store.
pub open spec fn found(c: StoreCall) -> bool {
    c is Lookup && c->Lookup_found
}

/// `c` asks store `s` for a value of leaf `p`, for `purpose`.
pub open spec fn is_get(c: StoreCall, p: u16, purpose: Purpose, s: u8) -> bool {
    c is Get && c->Get_path == p && c->Get_purpose == purpose && c->Get_store == s
}

/// How many of a leaf's own calls read it through its `_set` store: the
/// lookup of the store, then its answer.
pub open spec fn read_len(own: Seq<StoreCall>) -> int {
    if own.len() > 0 && own[0] is Lookup && own[0]->Lookup_purpose == Purpose::Read {
        if own.len() > 1 && own[1] is Get && own[1]->Get_purpose == Purpose::Read {
            2
        } else {
            1
        }
    } else {
        0
    }
}

/// Reading through the `_set` store gave nothing: the leaf has no such store,
/// none is registered under its id, or the store had nothing for it.
pub open spec fn read_missed(own: Seq<StoreCall>) -> bool {
    let n = read_len(own);
    ||| n == 0
    ||| n == 1 && !found(own[0])
    ||| n == 2 && own[1]->Get_answer is None
}

/// The value argument value id `id` can resolve to, whatever its
/// placeholders read: null for 0; else null or a scalar, exactly the text of
/// its fragments when none is a placeholder.
pub open spec fn arg_shape_ok(ix: IndexView, id: u16, v: TreeView) -> bool {
    if id == 0 {
        v == TreeView::Null
    } else {
        &&& (v is Null || v is Scalar)
        &&& match ix.values.entry(id as int) {
            Some(fr) => fr.len() > 0 && all_static(fr) ==> v == TreeView::Scalar(encode_utf8(static_text(ix, fr))),
            None => v == TreeView::Null,
        }
    }
}

/// `k` and `a` can be the store key and arguments of the leaf's `_get`
/// (`get`) or `_set` block, whatever its placeholders read: the key is the
/// leaf's path id in decimal when the block has none, its text when it has no
/// placeholder; the arguments are the keywords bound in order to their values
/// (see [`arg_shape_ok`]). [`request_of`] says what the placeholders give.
pub open spec fn request_shape(ix: IndexView, leaf: LeafRef, get: bool, k: Seq<char>, a: Seq<(Seq<char>, TreeView)>) -> bool {
    let m = ix.raw_meta(leaf, get);
    let kf = m.1;
    let n = zip_len(m.4.len(), m.5.len());
    &&& kf.len() == 0 ==> k == decimal_text(leaf.path_id as nat)
    &&& kf.len() > 0 && all_static(kf) ==> k == static_text(ix, kf)
    &&& exists|vs: Seq<TreeView>|
        {
            &&& vs.len() == n
            &&& a == #[trigger] arg_fold(ix, m.4, vs, n as int)
            &&& forall|i: int| 0 <= i < n ==> arg_shape_ok(ix, m.5[i], #[trigger] vs[i])
        }
}

/// Key fragments without placeholders give their static text.
proof fn lemma_key_static(ix: IndexView, fr: Seq<u16>, c: ContextView, d: ContextView, r: Result<Option<String>, ContextError>)
    requires
        key_gives(ix, fr, c, d, r),
        fr.len() > 0,
        all_static(fr),
    ensures
        r matches Ok(Some(s)) && s@ == static_text(ix, fr),
{
    match r {
        Ok(Some(s)) => {
            let (parts, cs, gs) = choose|parts: Seq<Seq<char>>, cs: Seq<ContextView>, gs: Seq<Result<Option<Tree>, ContextError>>|
                #[trigger] key_trace(ix, fr, parts, cs, gs) && cs[0] == c && cs[fr.len() as int] == d && s@ == concat(parts);
            assert forall|i: int| 0 <= i < fr.len() && !frag_is_placeholder(fr[i]) implies #[trigger] parts[i] == text_or_empty(
                ix.word(frag_word_id(fr[i]) as int),
            ) by {
                assert(!frag_is_placeholder(fr[i]));
            }
            assert(key_parts(ix, fr, parts));
            lemma_static_parts(ix, fr, parts);
        },
        Ok(None) => {},
        Err(e) => {
            let (parts, cs, gs, j, g) = choose|
                parts: Seq<Seq<char>>,
                cs: Seq<ContextView>,
                gs: Seq<Result<Option<Tree>, ContextError>>,
                j: int,
                g: Result<Option<Tree>, ContextError>,
            |
                0 <= j < fr.len() && #[trigger] key_trace(ix, fr.take(j), parts, cs, gs) && cs[0] == c
                    && frag_is_placeholder(fr[j]) && #[trigger] read_outcome(cs[j], d, text_or_empty(ix.word(frag_word_id(fr[j]) as int)), g)
                    && read_failed(g, text_or_empty(ix.word(frag_word_id(fr[j]) as int)), e);
            assert(!frag_is_placeholder(fr[j]));
        },
    }
}

proof fn lemma_request_shape(ix: IndexView, leaf: LeafRef, get: bool, c: ContextView, k: Seq<char>, a: Seq<(Seq<char>, TreeView)>)
    requires
        request_of(ix, leaf, get, c, k, a),
    ensures
        request_shape(ix, leaf, get, k, a),
{
    let m = ix.raw_meta(leaf, get);
    let n = zip_len(m.4.len(), m.5.len());
    let (d, rk, vs, ds) = choose|d: ContextView, rk: Result<Option<String>, ContextError>, vs: Seq<TreeView>, ds: Seq<ContextView>|
        {
            &&& #[trigger] key_gives(ix, m.1, c, d, rk)
            &&& match rk {
                Ok(None) => k == decimal_text(leaf.path_id as nat),
                Ok(Some(s)) => k == s@,
                Err(_) => false,
            }
            &&& #[trigger] args_trace(ix, m.4, m.5, vs, ds)
            &&& ds[0] == d
            &&& a == arg_fold(ix, m.4, vs, n as int)
        };
    if m.1.len() == 0 {
        match rk {
            Ok(Some(s)) => {},
            Ok(None) => {},
            Err(e) => {
                let (parts, cs, gs, j, g) = choose|
                    parts: Seq<Seq<char>>,
                    cs: Seq<ContextView>,
                    gs: Seq<Result<Option<Tree>, ContextError>>,
                    j: int,
                    g: Result<Option<Tree>, ContextError>,
                |
                    0 <= j < m.1.len() && #[trigger] key_trace(ix, m.1.take(j), parts, cs, gs) && cs[0] == c
                        && frag_is_placeholder(m.1[j]) && #[trigger] read_outcome(cs[j], d, text_or_empty(ix.word(frag_word_id(m.1[j]) as int)), g)
                        && read_failed(g, text_or_empty(ix.word(frag_word_id(m.1[j]) as int)), e);
            },
        }
    }
    assert forall|i: int| 0 <= i < n implies arg_shape_ok(ix, m.5[i], #[trigger] vs[i]) by {
        assert(arg_step(ix, m.4, m.5, vs, ds, i));
        let id = m.5[i];
        if text_or_empty(ix.word(m.4[i] as int)).len() != 0 && id != 0 {
            let r = choose|r: Result<Option<String>, ContextError>|
                #[trigger] key_gives(ix, value_frags(ix, id), ds[i], ds[i + 1], r) && vs[i] == arg_of(r);
            let fr = value_frags(ix, id);
            if fr.len() > 0 && all_static(fr) {
                lemma_key_static(ix, fr, ds[i], ds[i + 1], r);
            }
            match r {
                Err(e) => {
                    if fr.len() == 0 {
                        let (parts, cs, gs, j, g) = choose|
                            parts: Seq<Seq<char>>,
                            cs: Seq<ContextView>,
                            gs: Seq<Result<Option<Tree>, ContextError>>,
                            j: int,
                            g: Result<Option<Tree>, ContextError>,
                        |
                            0 <= j < fr.len() && #[trigger] key_trace(ix, fr.take(j), parts, cs, gs) && cs[0] == ds[i]
                                && frag_is_placeholder(fr[j]) && #[trigger] read_outcome(cs[j], ds[i + 1], text_or_empty(ix.word(frag_word_id(fr[j]) as int)), g)
                                && read_failed(g, text_or_empty(ix.word(frag_word_id(fr[j]) as int)), e);
                    }
                },
                _ => {},
            }
        }
    }
    assert(a == arg_fold(ix, m.4, vs, n as int));
}

/// The write-back of a loaded value `v` from position `w` of the leaf's own
/// calls: none without a `_set` store; else the lookup of that store and,
/// when it is found, a write to it of a `_set` request (see
/// [`request_shape`]) with `v` bound to `value`.
pub open spec fn written_back(ix: IndexView, leaf: LeafRef, own: Seq<StoreCall>, w: int, v: TreeView) -> bool {
    let p = leaf.path_id;
    let s = ix.raw_meta(leaf, false).0;
    if s == 0 {
        own.len() == w
    } else {
        &&& own.len() > w
        &&& is_lookup(own[w], p, Purpose::WriteBack, s)
        &&& !found(own[w]) ==> own.len() == w + 1
        &&& found(own[w]) ==> {
            &&& own.len() == w + 2
            &&& own[w + 1] is Put
            &&& own[w + 1]->Put_path == p
            &&& own[w + 1]->Put_purpose == Purpose::WriteBack
            &&& own[w + 1]->Put_store == s
            &&& exists|base: Seq<(Seq<char>, TreeView)>|
                #[trigger] request_shape(ix, leaf, false, own[w + 1]->Put_key, base) && own[w + 1]->Put_args == args_insert(
                    base,
                    value_text(),
                    v,
                )
        }
    }
}

/// Loading a leaf through its `_get` store `g`, its own calls from position
/// `n` on: the lookup of the store (`LoadFailed(ClientNotFound)` of the id
/// when there is none), the store asked with a `_get` request (see
/// [`request_shape`]; `LoadFailed(NotFound)` of the key when it has
/// nothing), its answer as
/// the value when the block maps no fields, and the write-back of a value
/// found (see [`written_back`]).
pub open spec fn load_outcome(
    ix: IndexView,
    leaf: LeafRef,
    own: Seq<StoreCall>,
    n: int,
    r: Result<Option<TreeView>, ContextError>,
) -> bool {
    let p = leaf.path_id;
    let g = ix.raw_meta(leaf, true).0;
    let maps = ix.raw_meta(leaf, true).2.len() > 0;
    let asked = own[n + 1];
    &&& own.len() > n
    &&& is_lookup(own[n], p, Purpose::Load, g)
    &&& !found(own[n]) ==> (r matches Err(ContextError::LoadFailed(LoadError::ClientNotFound(t))) && t@ == decimal_text(
        g as nat,
    )) && own.len() == n + 1
    &&& found(own[n]) ==> ((own.len() == n + 1 && r is Err) || (own.len() > n + 1 && is_get(asked, p, Purpose::Load, g)
        && request_shape(ix, leaf, true, asked->Get_key, asked->Get_args)))
    &&& own.len() > n + 1 && asked->Get_answer is None ==> (r matches Err(
        ContextError::LoadFailed(LoadError::NotFound(t)),
    ) && t@ == asked->Get_key) && own.len() == n + 2
    &&& own.len() > n + 1 && !maps && asked->Get_answer is Some ==> (r is Err || r == Ok::<
        Option<TreeView>,
        ContextError,
    >(asked->Get_answer))
    &&& r matches Ok(Some(v)) ==> own.len() > n + 1 && written_back(ix, leaf, own, n + 2, v)
    &&& r == Ok::<Option<TreeView>, ContextError>(None) ==> own.len() == n + 2
}

/// What resolving one leaf gives, from context `a` (the leaf under way) to `b`,
/// over the calls made for the leaf (`own`): the cached value, with nothing
/// else done; else, with a `_set` store, its lookup and, when found, the store
/// asked with a `_set` request (see [`request_shape`]; what its placeholders
/// give is stated where a request is made): its answer, when it has one, is
/// the result;
/// else, for a leaf with a value, that value (never none; literal text as it
/// is when the leaf has no `_set` store, which is then all that is cached and
/// nothing is asked); else, without a `_get` store, none;
/// else what loading gives (see [`load_outcome`]). A value found is cached; an
/// error is no `StoreFailed`, and a `KeyNotFound` names a path the DSL does
/// not have.
pub open spec fn leaf_outcome(a: ContextView, b: ContextView, leaf: LeafRef, r: Result<Option<TreeView>, ContextError>) -> bool {
    let ix = a.index;
    let p = leaf.path_id;
    let own = own_calls(a, b, p);
    let s = ix.raw_meta(leaf, false).0;
    let g = ix.raw_meta(leaf, true).0;
    let frs = ix.fragments(leaf);
    let n = read_len(own);
    &&& b.index == a.index
    &&& b.called == a.called
    &&& grows(a.asked, b.asked)
    &&& r matches Err(e) ==> !(e is StoreFailed) && names_missing(ix, e)
    &&& r matches Ok(Some(v)) ==> cached(b.cache, p) == Some(v)
    &&& match cached(a.cache, p) {
        Some(c) => r == Ok::<Option<TreeView>, ContextError>(Some(c)) && b == a,
        None => {
            &&& (s != 0 <==> n >= 1)
            &&& n >= 1 ==> is_lookup(own[0], p, Purpose::Read, s)
            &&& n == 2 ==> found(own[0])
            &&& n == 2 ==> is_get(own[1], p, Purpose::Read, s) && request_shape(
                ix,
                leaf,
                false,
                own[1]->Get_key,
                own[1]->Get_args,
            )
            &&& n == 1 && found(own[0]) ==> r is Err && own.len() == 1
            &&& n == 2 && own[1]->Get_answer is Some ==> r == Ok::<Option<TreeView>, ContextError>(own[1]->Get_answer)
                && own.len() == 2
            &&& read_missed(own) && frs.len() > 0 ==> own.len() == n && r != Ok::<Option<TreeView>, ContextError>(None)
            &&& read_missed(own) && s == 0 && frs.len() > 0 && all_literal(frs) ==> r == Ok::<
                Option<TreeView>,
                ContextError,
            >(Some(literal_value(frs))) && b.cache == cache_put(a.cache, p, literal_value(frs)) && b.asked == a.asked
            &&& read_missed(own) && frs.len() == 0 && g == 0 ==> r == Ok::<Option<TreeView>, ContextError>(None)
                && own.len() == n
            &&& read_missed(own) && frs.len() == 0 && g != 0 ==> load_outcome(ix, leaf, own, n, r)
        },
    }
}

/// What reading `key` gives, the context going from `a` to `b`. No path:
/// `KeyNotFound`, nothing done. One leaf: `RecursionLimitExceeded` while it
/// is under way, nothing done; else what resolving it gives (see
/// [`leaf_outcome`]). Several leaves: each resolved in turn; the first that
/// fails gives the error; else a mapping of the keyword of each leaf that
/// gave a value to that value, in order, none when no leaf gave one. A read
/// never fails with `StoreFailed`, and a `KeyNotFound` names a path the DSL
/// does not have.
pub open spec fn read_outcome(a: ContextView, b: ContextView, key: Seq<char>, r: Result<Option<Tree>, ContextError>) -> bool {
    let leaves = a.index.traverse(encode_utf8(key));
    let p = leaves[0].path_id;
    &&& (r matches Err(e) ==> !(e is StoreFailed) && names_missing(a.index, e))
    &&& if leaves.len() == 0 {
        (r matches Err(ContextError::KeyNotFound(s)) && s@ == key) && b == a
    } else if leaves.len() == 1 {
        &&& a.called.contains(p) ==> (r matches Err(ContextError::RecursionLimitExceeded)) && b == a
        &&& !a.called.contains(p) ==> leaf_outcome(entered(a, p), entered(b, p), leaves[0], res_view(r))
    } else {
        &&& r matches Ok(o) ==> exists|cs: Seq<ContextView>, rs: Seq<Option<TreeView>>|
            #[trigger] leaves_trace(leaves, cs, rs) && cs[0] == a && cs[leaves.len() as int] == b && match o {
                None => gathered(a.index, leaves, rs).len() == 0,
                Some(t) => gathered(a.index, leaves, rs).len() > 0 && t@ == TreeView::Mapping(gathered(a.index, leaves, rs)),
            }
        &&& r matches Err(e) ==> exists|cs: Seq<ContextView>, rs: Seq<Option<TreeView>>, j: int|
            0 <= j < leaves.len() && #[trigger] leaves_trace(leaves.take(j), cs, rs) && cs[0] == a && leaf_fails(
                cs[j],
                b,
                leaves[j],
                e,
            )
    }
}

/// The first call `b` made beyond `a`.
pub open spec fn first_call(a: ContextView, b: ContextView) -> StoreCall {
    b.asked[a.asked.len() as int]
}

/// What writing `value` under `key` gives, the context going from `a` to `b`:
/// `KeyNotFound` exactly when there is no path, nothing done; `Ok(false)`,
/// nothing done, when its (first) leaf has no `_set` store; else the lookup of
/// that store: `StoreFailed(ClientNotFound)` of its id, nothing else done, when
/// there is none; else a failed request (never one without placeholders), or
/// the store handed the `_set` request with `value` bound to `value`, the last
/// call, and whether it took the value, which is then cached.
pub open spec fn write_outcome(a: ContextView, b: ContextView, key: Seq<char>, value: TreeView, r: Result<bool, ContextError>) -> bool {
    let leaves = a.index.traverse(encode_utf8(key));
    let leaf = leaves[0];
    let p = leaf.path_id;
    let m = a.index.raw_meta(leaf, false);
    let first = first_call(a, b);
    let last = b.asked.last();
    &&& r matches Err(e) ==> names_missing(a.index, e)
    &&& (r matches Err(ContextError::KeyNotFound(t)) && t@ == key) <==> leaves.len() == 0
    &&& if leaves.len() == 0 {
        b == a
    } else if m.0 == 0 {
        r == Ok::<bool, ContextError>(false) && b == a
    } else {
        &&& b.asked.len() > a.asked.len()
        &&& is_lookup(first, p, Purpose::Write, m.0)
        &&& !found(first) ==> (r matches Err(ContextError::StoreFailed(StoreError::ClientNotFound(t))) && t@
            == decimal_text(m.0 as nat)) && b == after(a, first)
        &&& (r matches Err(ContextError::StoreFailed(_))) ==> !found(first)
        &&& found(first) && all_static(m.1) ==> r is Ok
        &&& r is Ok ==> {
            &&& found(first)
            &&& last is Put
            &&& last->Put_path == p
            &&& last->Put_purpose == Purpose::Write
            &&& last->Put_store == m.0
            &&& r == Ok::<bool, ContextError>(last->Put_took)
            &&& exists|base: Seq<(Seq<char>, TreeView)>|
                #[trigger] request_of(a.index, leaf, false, after(a, first), last->Put_key, base) && last->Put_args
                    == args_insert(base, value_text(), value)
        }
        &&& r == Ok::<bool, ContextError>(true) ==> cached(b.cache, p) == Some(value)
    }
}

/// What removing `key` gives: `KeyNotFound` exactly when there is no path,
/// nothing done; else the lookup of its (first) leaf's `_set` store:
/// `StoreFailed(ClientNotFound)` of its id, nothing else done, when there is
/// none; else a failed request (never one without placeholders), or the store
/// asked to remove under the `_set` request, the last call, and whether it
/// did, the cache entry then removed.
pub open spec fn remove_outcome(a: ContextView, b: ContextView, key: Seq<char>, r: Result<bool, ContextError>) -> bool {
    let leaves = a.index.traverse(encode_utf8(key));
    let leaf = leaves[0];
    let p = leaf.path_id;
    let m = a.index.raw_meta(leaf, false);
    let first = first_call(a, b);
    let last = b.asked.last();
    &&& r matches Err(e) ==> names_missing(a.index, e)
    &&& (r matches Err(ContextError::KeyNotFound(t)) && t@ == key) <==> leaves.len() == 0
    &&& if leaves.len() == 0 {
        b == a
    } else {
        &&& b.asked.len() > a.asked.len()
        &&& is_lookup(first, p, Purpose::Remove, m.0)
        &&& !found(first) ==> (r matches Err(ContextError::StoreFailed(StoreError::ClientNotFound(t))) && t@
            == decimal_text(m.0 as nat)) && b == after(a, first)
        &&& (r matches Err(ContextError::StoreFailed(_))) ==> !found(first)
        &&& found(first) && all_static(m.1) ==> r is Ok
        &&& r is Ok ==> {
            &&& found(first)
            &&& last is Delete
            &&& last->Delete_path == p
            &&& last->Delete_purpose == Purpose::Remove
            &&& last->Delete_store == m.0
            &&& r == Ok::<bool, ContextError>(last->Delete_done)
            &&& request_of(a.index, leaf, false, after(a, first), last->Delete_key, last->Delete_args)
        }
        &&& r == Ok::<bool, ContextError>(true) ==> cached(b.cache, p) is None
    }
}

/// What asking for `key` gives: `KeyNotFound` exactly when there is no path,
/// nothing done; with a cached value, whether it is not null, nothing done;
/// else the lookup of its (first) leaf's `_set` store: `false`, nothing else
/// done, when there is none; else a failed request (never one without
/// placeholders), or the store asked under the `_set` request, the last call,
/// and whether it had a value. The `_get` store is never asked.
pub open spec fn presence_outcome(a: ContextView, b: ContextView, key: Seq<char>, r: Result<bool, ContextError>) -> bool {
    let leaves = a.index.traverse(encode_utf8(key));
    let leaf = leaves[0];
    let p = leaf.path_id;
    let m = a.index.raw_meta(leaf, false);
    let first = first_call(a, b);
    let last = b.asked.last();
    &&& r matches Err(e) ==> names_missing(a.index, e)
    &&& (r matches Err(ContextError::KeyNotFound(t)) && t@ == key) <==> leaves.len() == 0
    &&& if leaves.len() == 0 {
        b == a
    } else if cached(a.cache, p) is Some {
        r == Ok::<bool, ContextError>(!(cached(a.cache, p)->0 is Null)) && b == a
    } else {
        &&& b.asked.len() > a.asked.len()
        &&& is_lookup(first, p, Purpose::Probe, m.0)
        &&& !found(first) ==> r == Ok::<bool, ContextError>(false) && b == after(a, first)
        &&& found(first) && all_static(m.1) ==> r is Ok
        &&& found(first) && r is Ok ==> {
            &&& is_get(last, p, Purpose::Probe, m.0)
            &&& r == Ok::<bool, ContextError>(last->Get_answer is Some)
            &&& request_of(a.index, leaf, false, after(a, first), last->Get_key, last->Get_args)
        }
    }
}

/// A DSL value reads back: over an index compiled from tree `t`, a read of a
/// `key` that names one leaf whose value is a non-empty string without `${`, and
/// that has no `_set` store, gives that string, when the leaf is neither cached
/// nor under way.
pub proof fn law_read_gives_source_value(
    a: ContextView,
    b: ContextView,
    t: TreeView,
    ids: Seq<&str>,
    key: Seq<char>,
    text: Seq<u8>,
    r: Result<Option<Tree>, ContextError>,
)
    requires
        a.index.wf(),
        compiled_from(a.index, t, ids),
        source_leaves(t, split_dots(encode_utf8(key))) == seq![TreeView::Scalar(text)],
        source_blocks(t, split_dots(encode_utf8(key)), ids)[0].set_store == 0,
        text.len() > 0,
        open_pos(text) < 0,
        valid_utf8(text),
        !a.called.contains(a.index.traverse(encode_utf8(key))[0].path_id),
        cached(a.cache, a.index.traverse(encode_utf8(key))[0].path_id) is None,
        read_outcome(a, b, key, r),
    ensures
        r matches Ok(Some(v)) && v@ == TreeView::Scalar(text),
{
    let ix = a.index;
    let path = encode_utf8(key);
    law_traverse_reads_source(ix, t, ids, path);
    let ls = ix.traverse(path);
    assert(frags_of(ix, ls).len() == 1);
    assert(ls.len() == 1);
    assert(frags_of(ix, ls)[0] == ix.fragments(ls[0]));
    assert(segs_of(seq![TreeView::Scalar(text)])[0] == segments(text));
    let frs = ix.fragments(ls[0]);
    assert(frs == seq![(false, text)]);
    assert(blocks_read(ix, ls)[0].set_store == ix.meta(ls[0], false).0);
    assert(ix.meta(ls[0], false).0 == 0);
    assert(all_literal(frs));
    let parts = Seq::new(frs.len(), |i: int| text_or_empty(frs[i].1));
    assert(parts =~= seq![decode_utf8(text)]);
    assert(concat(parts) == concat(parts.drop_last()) + parts.last());
    assert(parts.drop_last() =~= Seq::<Seq<char>>::empty());
    assert(concat(parts) =~= decode_utf8(text));
    vstd::utf8::decode_utf8_encode_utf8(text);
}

/// A read gives back a write: after a write of `value` under a `key` that names
/// one leaf, which the store took, a read of `key` over the same index gives
/// `value` while the leaf is not under way.
pub proof fn law_read_after_write(
    a: ContextView,
    b: ContextView,
    c: ContextView,
    key: Seq<char>,
    value: TreeView,
    r: Result<Option<Tree>, ContextError>,
)
    requires
        a.index.traverse(encode_utf8(key)).len() == 1,
        write_outcome(a, b, key, value, Ok(true)),
        b.index == a.index,
        !b.called.contains(a.index.traverse(encode_utf8(key))[0].path_id),
        read_outcome(b, c, key, r),
    ensures
        r matches Ok(Some(v)) && v@ == value,
{
}

/// A read gives back what an earlier read gave: after a read of a `key` that
/// names one leaf gave a value, a second read over the same index gives it
/// again (from the cache) while the leaf is not under way.
pub proof fn law_read_again(
    a: ContextView,
    b: ContextView,
    c: ContextView,
    key: Seq<char>,
    v: Tree,
    r: Result<Option<Tree>, ContextError>,
)
    requires
        a.index.traverse(encode_utf8(key)).len() == 1,
        read_outcome(a, b, key, Ok(Some(v))),
        b.index == a.index,
        !b.called.contains(a.index.traverse(encode_utf8(key))[0].path_id),
        read_outcome(b, c, key, r),
    ensures
        r matches Ok(Some(t)) && t@ == v@,
{
}

/// A cached value is served from the cache: a read of a `key` that names one
/// leaf, cached and not under way, gives the cached value and asks no store,
/// the context left as it was.
pub proof fn law_cached_read_asks_nothing(a: ContextView, b: ContextView, key: Seq<char>, r: Result<Option<Tree>, ContextError>)
    requires
        a.index.traverse(encode_utf8(key)).len() == 1,
        !a.called.contains(a.index.traverse(encode_utf8(key))[0].path_id),
        cached(a.cache, a.index.traverse(encode_utf8(key))[0].path_id) is Some,
        b.called == a.called,
        read_outcome(a, b, key, r),
    ensures
        r matches Ok(Some(t)) && t@ == cached(a.cache, a.index.traverse(encode_utf8(key))[0].path_id)->0,
        b == a,
        b.asked == a.asked,
{
    let p = a.index.traverse(encode_utf8(key))[0].path_id;
    assert(entered(b, p) == entered(a, p));
    assert(b.called =~= a.called);
}

/// A written value is there: after a write of `value` under a `key` that
/// names a leaf, which the store took, asking for `key` over the same index
/// answers whether `value` is not null.
pub proof fn law_contains_after_write(
    a: ContextView,
    b: ContextView,
    c: ContextView,
    key: Seq<char>,
    value: TreeView,
    r: Result<bool, ContextError>,
)
    requires
        a.index.traverse(encode_utf8(key)).len() >= 1,
        write_outcome(a, b, key, value, Ok(true)),
        b.index == a.index,
        presence_outcome(b, c, key, r),
    ensures
        r == Ok::<bool, ContextError>(!(value is Null)),
{
}

// ── Context ──────────────────────────────────────────────────────────────────

/// Model of a [`Context`]: the index it reads, its cache, and the paths whose
/// resolution is under way.
pub struct ContextView {
    pub index: IndexView,
    pub cache: Seq<(u16, TreeView)>,
    pub called: Seq<u16>,
    /// The calls made to the stores so far, in order.
    pub asked: Seq<StoreCall>,
}

/// Resolves paths of one compiled DSL against the stores, for one request.
pub struct Context<'r> {
    index: Arc<Index>,
    stores: &'r dyn Stores,
    cache: Vec<(u16, Tree)>,
    called_paths: Vec<u16>,
    asked: Ghost<Seq<StoreCall>>,
}

impl<'r> View for Context<'r> {
    type V = ContextView;

    closed spec fn view(&self) -> ContextView {
        ContextView {
            index: self.index@,
            cache: Seq::new(self.cache@.len(), |i: int| (self.cache@[i].0, self.cache@[i].1@)),
            called: self.called_paths@,
            asked: self.asked@,
        }
    }
}

impl<'r> Context<'r> {
    /// The index is well formed, the cache holds each path once, and no path is
    /// under way twice.
    pub open spec fn ok(&self) -> bool {
        &&& self@.index.wf()
        &&& cache_unique(self@.cache)
        &&& self@.called.no_duplicates()
        &&& self@.called.len() <= 0x10000
    }

    /// `b` follows `a` in a resolution: same index, the same paths under way
    /// (each resolution started is finished, whatever it gave), and the store
    /// calls of `a` followed by calls for paths that were not under way.
    pub open spec fn steps(a: ContextView, b: ContextView) -> bool {
        &&& b.index == a.index
        &&& b.called == a.called
        &&& grows(a.asked, b.asked)
        &&& avoids(a.asked, b.asked, a.called)
    }

    /// A context over `index` and `stores`, with an empty cache.
    pub fn new(index: Arc<Index>, stores: &'r dyn Stores) -> (r: Self)
        requires
            index@.wf(),
        ensures
            r.ok(),
            r@.index == index@,
            r@.cache == Seq::<(u16, TreeView)>::empty(),
            r@.called == Seq::<u16>::empty(),
            r@.asked == Seq::<StoreCall>::empty(),
    {
        let r = Context { index, stores, cache: Vec::new(), called_paths: Vec::new(), asked: Ghost(Seq::empty()) };
        assert(r@.cache =~= Seq::<(u16, TreeView)>::empty());
        r
    }

    fn cache_get(&self, path_id: u16) -> (r: Option<&Tree>)
        ensures
            match cached(self@.cache, path_id) {
                Some(v) => r matches Some(t) && t@ == v,
                None => r is None,
            },
    {
        proof {
            lemma_cache_pos(self@.cache, path_id);
        }
        let mut i: usize = 0;
        while i < self.cache.len()
            invariant
                i <= self.cache@.len(),
                forall|j: int| 0 <= j < i ==> self@.cache[j].0 != path_id,
            decreases self.cache@.len() - i,
        {
            if self.cache[i].0 == path_id {
                proof {
                    lemma_cache_pos(self@.cache, path_id);
                    assert(self@.cache[i as int].0 == path_id);
                }
                return Some(&self.cache[i].1);
            }
            i = i + 1;
        }
        None
    }

    #[verifier::loop_isolation(false)]
    fn cache_set(&mut self, path_id: u16, value: Tree)
        requires
            old(self).ok(),
        ensures
            final(self).ok(),
            final(self)@.cache == cache_put(old(self)@.cache, path_id, value@),
            final(self)@.index == old(self)@.index,
            final(self)@.called == old(self)@.called,
            final(self)@.asked == old(self)@.asked,
    {
        proof {
            lemma_cache_pos(self@.cache, path_id);
            lemma_cache_put_unique(self@.cache, path_id, value@);
        }
        let ghost c = self@.cache;
        let mut i: usize = 0;
        while i < self.cache.len()
            invariant
                self@.cache == c,
                self.index == old(self).index,
                self.called_paths == old(self).called_paths,
                self.asked == old(self).asked,
                i <= self.cache@.len(),
                forall|j: int| 0 <= j < i ==> c[j].0 != path_id,
            decreases self.cache@.len() - i,
        {
            if self.cache[i].0 == path_id {
                proof {
                    lemma_cache_pos(c, path_id);
                    assert(c[i as int].0 == path_id);
                }
                self.cache.set(i, (path_id, value));
                assert(self@.cache =~= cache_put(c, path_id, value@));
                return;
            }
            i = i + 1;
        }
        self.cache.push((path_id, value));
        assert(self@.cache =~= cache_put(c, path_id, value@));
    }

    #[verifier::loop_isolation(false)]
    fn cache_remove(&mut self, path_id: u16)
        requires
            old(self).ok(),
        ensures
            final(self).ok(),
            final(self)@.cache == cache_drop(old(self)@.cache, path_id),
            final(self)@.index == old(self)@.index,
            final(self)@.called == old(self)@.called,
            final(self)@.asked == old(self)@.asked,
    {
        proof {
            lemma_cache_pos(self@.cache, path_id);
            lemma_cache_drop_unique(self@.cache, path_id);
        }
        let ghost c = self@.cache;
        let mut i: usize = 0;
        while i < self.cache.len()
            invariant
                self@.cache == c,
                self.index == old(self).index,
                self.called_paths == old(self).called_paths,
                self.asked == old(self).asked,
                i <= self.cache@.len(),
                forall|j: int| 0 <= j < i ==> c[j].0 != path_id,
            decreases self.cache@.len() - i,
        {
            if self.cache[i].0 == path_id {
                proof {
                    lemma_cache_pos(c, path_id);
                    assert(c[i as int].0 == path_id);
                }
                self.cache.remove(i);
                assert(self@.cache =~= cache_drop(c, path_id));
                return;
            }
            i = i + 1;
        }
        assert(self@.cache =~= cache_drop(c, path_id));
    }

    /// `RecursionLimitExceeded` when the path's resolution is already under way.
    fn guard_recursion(&self, path_id: u16) -> (r: Result<(), ContextError>)
        ensures
            r is Err <==> self@.called.contains(path_id),
            r matches Err(e) ==> e is RecursionLimitExceeded,
    {
        let mut i: usize = 0;
        while i < self.called_paths.len()
            invariant
                i <= self.called_paths@.len(),
                forall|j: int| 0 <= j < i ==> self.called_paths@[j] != path_id,
            decreases self.called_paths@.len() - i,
        {
            if self.called_paths[i] == path_id {
                assert(self@.called[i as int] == path_id);
                return Err(ContextError::RecursionLimitExceeded);
            }
            i = i + 1;
        }
        Ok(())
    }

    /// Records a call made to the stores.
    fn note(&mut self, c: Ghost<StoreCall>)
        requires
            old(self).ok(),
        ensures
            final(self).ok(),
            final(self)@ == after(old(self)@, c@),
    {
        self.asked = Ghost(self.asked@.push(c@));
    }

    /// After a leaf's resolution, entered from `c0` and ending as `c1`, is left:
    /// the context is `c1` with the paths under way of `c0`, one step on from `c0`.
    proof fn lemma_left(&self, c0: ContextView, c1: ContextView, p: u16)
        requires
            !c0.called.contains(p),
            c1.index == c0.index,
            c1.called == c0.called.push(p),
            grows(c0.asked, c1.asked),
            avoids_but(c0.asked, c1.asked, c0.called.push(p), p),
            self@.called =~= c0.called,
            self@.index == c1.index,
            self@.cache == c1.cache,
            self@.asked == c1.asked,
        ensures
            entered(self@, p) == c1,
            Self::steps(c0, self@),
    {
        assert(entered(self@, p).called =~= c1.called);
        assert forall|i: int| c0.asked.len() <= i < self@.asked.len() implies !c0.called.contains(
            call_path(#[trigger] self@.asked[i]),
        ) by {
            if call_path(self@.asked[i]) != p {
                assert(!c0.called.push(p).contains(call_path(self@.asked[i])));
                if c0.called.contains(call_path(self@.asked[i])) {
                    let k = c0.called.index_of(call_path(self@.asked[i]));
                    assert(c0.called.push(p)[k] == call_path(self@.asked[i]));
                }
            }
        }
    }

    /// Marks the path's resolution as under way.
    fn enter(&mut self, path_id: u16)
        requires
            old(self).ok(),
            !old(self)@.called.contains(path_id),
        ensures
            final(self).ok(),
            final(self)@.called == old(self)@.called.push(path_id),
            final(self)@.called.len() <= 0x10000,
            final(self)@.cache == old(self)@.cache,
            final(self)@.index == old(self)@.index,
            final(self)@.asked == old(self)@.asked,
    {
        proof {
            lemma_room(self@.called, path_id);
        }
        self.called_paths.push(path_id);
        proof {
            assert forall|i: int, j: int| 0 <= i < j < self.called_paths@.len() implies self.called_paths@[i]
                != self.called_paths@[j] by {
                if j == self.called_paths@.len() - 1 {
                    assert(!old(self)@.called.contains(path_id));
                    assert(old(self)@.called[i] == self.called_paths@[i]);
                }
            }
        }
    }

    /// Marks the path's resolution as done: it leaves the list, the others keep their order.
    #[verifier::loop_isolation(false)]
    fn leave(&mut self, path_id: u16, ghost_pos: Ghost<int>)
        requires
            old(self).ok(),
            0 <= ghost_pos@ < old(self)@.called.len(),
            old(self)@.called[ghost_pos@] == path_id,
        ensures
            final(self).ok(),
            final(self)@.called == old(self)@.called.remove(ghost_pos@),
            final(self)@.cache == old(self)@.cache,
            final(self)@.index == old(self)@.index,
            final(self)@.asked == old(self)@.asked,
    {
        let mut i: usize = 0;
        while i < self.called_paths.len()
            invariant
                self.index == old(self).index,
                self.cache == old(self).cache,
                self.called_paths == old(self).called_paths,
                self.asked == old(self).asked,
                i <= self.called_paths@.len(),
                self.called_paths@.no_duplicates(),
                0 <= ghost_pos@ < self.called_paths@.len(),
                self.called_paths@[ghost_pos@] == path_id,
                forall|j: int| 0 <= j < i ==> self.called_paths@[j] != path_id,
            decreases self.called_paths@.len() - i,
        {
            if self.called_paths[i] == path_id {
                assert(i == ghost_pos@);
                self.called_paths.remove(i);
                proof {
                    let s = old(self)@.called;
                    assert forall|a: int, b: int| 0 <= a < b < self.called_paths@.len() implies self.called_paths@[a]
                        != self.called_paths@[b] by {
                        let a0 = if a < i { a } else { a + 1 };
                        let b0 = if b < i { b } else { b + 1 };
                        assert(self.called_paths@[a] == s[a0]);
                        assert(self.called_paths@[b] == s[b0]);
                    }
                }
                return;
            }
            i = i + 1;
        }
        assert(false);
    }
}

// ── resolution ───────────────────────────────────────────────────────────────

/// A copy of a text's bytes as a string, when they are valid UTF-8; else empty.
fn text_of(b: &[u8]) -> (r: &str)
    ensures
        r@ == text_or_empty(b@),
{
    match utf8_str(b) {
        Some(s) => s,
        None => {
            proof {
                reveal_strlit("");
            }
            ""
        },
    }
}

/// The store key a leaf uses: the resolved key, else its path id in decimal.
fn key_or_path(key: Option<String>, path_id: u16) -> (r: String)
    ensures
        r@ == match key {
            Some(s) => s@,
            None => decimal_text(path_id as nat),
        },
{
    match key {
        Some(s) => s,
        None => decimal(path_id as u64),
    }
}

impl<'r> Context<'r> {
    /// Resolves key fragments into a text: literal fragments give their words,
    /// placeholders the text of the scalar their path gets (nothing for another
    /// value). `None` for no fragments; `LoadFailed(NotFound)` when a placeholder's
    /// path has no value.
    fn resolve_key_frags(&mut self, key_frags: &[u16]) -> (r: Result<Option<String>, ContextError>)
        requires
            old(self).ok(),
        ensures
            r matches Err(e) ==> !(e is StoreFailed) && names_missing(old(self)@.index, e),
            final(self).ok(),
            Self::steps(old(self)@, final(self)@),
            r matches Ok(o) ==> (o is None <==> key_frags@.len() == 0),
            key_gives(old(self)@.index, key_frags@, old(self)@, final(self)@, r),
            r matches Ok(Some(s)) ==> exists|parts: Seq<Seq<char>>|
                key_parts(old(self)@.index, key_frags@, parts) && s@ == concat(parts),
            r matches Ok(Some(s)) ==> exists|
                parts: Seq<Seq<char>>,
                cs: Seq<ContextView>,
                gs: Seq<Result<Option<Tree>, ContextError>>,
            | #[trigger] key_trace(old(self)@.index, key_frags@, parts, cs, gs) && cs[0] == old(self)@ && s@ == concat(parts),
            all_static(key_frags@) ==> {
                &&& r matches Ok(o)
                &&& (key_frags@.len() > 0 ==> (o matches Some(s) && s@ == static_text(old(self)@.index, key_frags@)))
                &&& final(self)@.cache == old(self)@.cache
                &&& final(self)@.called == old(self)@.called
            },
        decreases 0x10000 - old(self)@.called.len(), 1int,
    {
        if key_frags.len() == 0 {
            return Ok(None);
        }
        let ghost start = self@;
        let ghost ix = self@.index;
        let mut buf = String::new();
        let ghost mut parts: Seq<Seq<char>> = Seq::empty();
        let ghost mut cs: Seq<ContextView> = seq![start];
        let ghost mut gs: Seq<Result<Option<Tree>, ContextError>> = Seq::empty();
        let mut i: usize = 0;
        assert(buf@ =~= concat(parts));
        assert(key_trace(ix, key_frags@.take(0), parts, cs, gs));
        while i < key_frags.len()
            invariant
                self.ok(),
                Self::steps(start, self@),
                start == old(self)@,
                ix == start.index,
                start.called.len() <= 0x10000,
                i <= key_frags@.len(),
                parts.len() == i,
                key_parts(ix, key_frags@.take(i as int), parts),
                key_trace(ix, key_frags@.take(i as int), parts, cs, gs),
                cs[0] == start,
                cs[i as int] == self@,
                buf@ == concat(parts),
                all_static(key_frags@) ==> self@.cache == start.cache && self@.called == start.called,
            decreases key_frags@.len() - i,
        {
            let f = key_frags[i];
            let is_ph = (f & VALUE_IS_PLACEHOLDER_MASK) != 0;
            let word_id = (f & VALUE_WORD_ID_MASK) as usize;
            let segment = String::from_str(text_of(self.index.word_bytes(word_id)));
            let ghost before = self@;
            let ghost p0 = parts;
            let ghost cs0 = cs;
            let ghost gs0 = gs;
            if is_ph {
                proof {
                    assert(frag_is_placeholder(key_frags@[i as int]));
                }
                let ghost here = self@;
                let g = self.get_path(segment.as_str());
                let ghost gg = g;
                let ghost there = self@;
                proof {
                    lemma_steps_trans(start, here, there);
                    assert(key_frags@.take(i as int).len() == i);
                    assert(key_frags@.take(i as int) =~= key_frags@.take(i as int));
                }
                match g {
                    Ok(Some(Tree::Scalar(b))) => {
                        let piece = text_of(b.as_slice());
                        buf.append(piece);
                        proof {
                            parts = parts.push(piece@);
                        }
                    },
                    Ok(Some(_)) => {
                        proof {
                            parts = parts.push(Seq::empty());
                        }
                    },
                    Ok(None) => {
                        let e = ContextError::LoadFailed(LoadError::NotFound(segment));
                        proof {
                            assert(read_outcome(here, there, segment@, gg));
                            assert(read_failed(gg, segment@, e));
                            assert(key_trace(ix, key_frags@.take(i as int), parts, cs, gs));
                            let w = text_or_empty(ix.word(frag_word_id(key_frags@[i as int]) as int));
                            assert(segment@ == w);
                            assert(0 <= i < key_frags@.len() && key_trace(ix, key_frags@.take(i as int), parts, cs, gs)
                                && cs[0] == start && frag_is_placeholder(key_frags@[i as int]) && read_outcome(
                                cs[i as int],
                                there,
                                w,
                                gg,
                            ) && read_failed(gg, w, e));
                        }
                        return Err(e);
                    },
                    Err(e) => {
                        proof {
                            assert(read_outcome(here, there, segment@, gg));
                            assert(read_failed(gg, segment@, e));
                            assert(key_trace(ix, key_frags@.take(i as int), parts, cs, gs));
                            let w = text_or_empty(ix.word(frag_word_id(key_frags@[i as int]) as int));
                            assert(segment@ == w);
                            assert(0 <= i < key_frags@.len() && key_trace(ix, key_frags@.take(i as int), parts, cs, gs)
                                && cs[0] == start && frag_is_placeholder(key_frags@[i as int]) && read_outcome(
                                cs[i as int],
                                there,
                                w,
                                gg,
                            ) && read_failed(gg, w, e));
                        }
                        return Err(e);
                    },
                }
                proof {
                    cs = cs.push(self@);
                    gs = gs.push(gg);
                    assert(parts.last() == read_text(gg));
                }
            } else {
                buf.append(segment.as_str());
                proof {
                    parts = parts.push(segment@);
                    cs = cs.push(self@);
                    gs = gs.push(Ok(None));
                }
            }
            proof {
                let fr1 = key_frags@.take(i + 1);
                assert forall|j: int| 0 <= j < fr1.len() implies if frag_is_placeholder(#[trigger] fr1[j]) {
                    &&& read_outcome(cs[j], cs[j + 1], text_or_empty(ix.word(frag_word_id(fr1[j]) as int)), gs[j])
                    &&& gs[j] matches Ok(Some(_))
                    &&& parts[j] == read_text(gs[j])
                } else {
                    &&& cs[j + 1] == cs[j]
                    &&& parts[j] == text_or_empty(ix.word(frag_word_id(fr1[j]) as int))
                } by {
                    if j < i {
                        assert(fr1[j] == key_frags@.take(i as int)[j]);
                        assert(cs[j] == cs0[j] && cs[j + 1] == cs0[j + 1] && gs[j] == gs0[j] && parts[j] == p0[j]);
                    }
                }
                assert(key_trace(ix, fr1, parts, cs, gs));
            }
            proof {
                assert(key_frags@.take(i + 1).drop_last() =~= key_frags@.take(i as int));
                assert(parts.drop_last() =~= p0);
                assert forall|j: int|
                    0 <= j < i + 1 && !frag_is_placeholder(key_frags@.take(i + 1)[j]) implies #[trigger] parts[j]
                    == text_or_empty(ix.word(frag_word_id(key_frags@.take(i + 1)[j]) as int)) by {
                    if j < i {
                        assert(key_frags@.take(i + 1)[j] == key_frags@.take(i as int)[j]);
                        assert(parts[j] == p0[j]);
                    }
                }
                assert(buf@ =~= concat(parts));
            }
            i = i + 1;
        }
        proof {
            assert(key_frags@.take(i as int) =~= key_frags@);
            if all_static(key_frags@) {
                lemma_static_parts(ix, key_frags@, parts);
            }
            assert(key_trace(ix, key_frags@, parts, cs, gs));
        }
        Ok(Some(buf))
    }
}

impl<'r> Context<'r> {
    /// The arguments of a block as a store gets them: each keyword that reads as
    /// non-empty text, bound to its value resolved (null when it has none or its
    /// resolution fails).
    fn resolve_args(&mut self, args_keys: &[u16], args_vals: &[u16]) -> (r: Result<Args, ContextError>)
        requires
            old(self).ok(),
        ensures
            final(self).ok(),
            Self::steps(old(self)@, final(self)@),
            r is Ok,
            r matches Ok(a) && exists|vs: Seq<TreeView>, ds: Seq<ContextView>|
                {
                    &&& #[trigger] args_trace(old(self)@.index, args_keys@, args_vals@, vs, ds)
                    &&& ds[0] == old(self)@
                    &&& ds[zip_len(args_keys@.len(), args_vals@.len()) as int] == final(self)@
                    &&& a@ == arg_fold(
                        old(self)@.index,
                        args_keys@,
                        vs,
                        zip_len(args_keys@.len(), args_vals@.len()) as int,
                    )
                },
        decreases 0x10000 - old(self)@.called.len(), 2int,
    {
        let ghost start = self@;
        let ghost ix = self@.index;
        let n = if args_keys.len() < args_vals.len() { args_keys.len() } else { args_vals.len() };
        let mut args = Args::new();
        let ghost mut vs: Seq<TreeView> = Seq::empty();
        let ghost mut ds: Seq<ContextView> = seq![start];
        let mut i: usize = 0;
        proof {
            lemma_grows_refl(start.asked);
        }
        while i < n
            invariant
                self.ok(),
                Self::steps(start, self@),
                start == old(self)@,
                ix == start.index,
                n <= args_keys@.len(),
                n <= args_vals@.len(),
                n == if args_keys@.len() < args_vals@.len() { args_keys@.len() } else { args_vals@.len() },
                i <= n,
                vs.len() == i,
                ds.len() == i + 1,
                ds[0] == start,
                ds[i as int] == self@,
                args@ == arg_fold(ix, args_keys@, vs, i as int),
                forall|j: int| 0 <= j < i ==> #[trigger] arg_step(ix, args_keys@, args_vals@, vs, ds, j),
            decreases n - i,
        {
            let ghost before = self@;
            let k = String::from_str(text_of(self.index.word_bytes(args_keys[i] as usize)));
            let vid = args_vals[i];
            let ghost mut got: TreeView = ideal_value(ix, vid);
            let ghost mut grk: Result<Option<String>, ContextError> = Ok(None);
            if !k.as_str().is_empty() {
                let v = if vid == 0 {
                    Tree::Null
                } else {
                    let fr = or_empty_vec(self.index.values_slice(vid as usize));
                    let rk = self.resolve_key_frags(fr.as_slice());
                    proof {
                        grk = rk;
                        assert(fr@ == value_frags(ix, vid));
                    }
                    match rk {
                        Ok(Some(s)) => Tree::Scalar(str_bytes(s.as_str())),
                        _ => Tree::Null,
                    }
                };
                proof {
                    got = v@;
                }
                args.insert(k, v);
            }
            let ghost v0 = vs;
            let ghost d0 = ds;
            proof {
                lemma_steps_trans(start, before, self@);
                vs = vs.push(got);
                ds = ds.push(self@);
                assert(vs.drop_last() =~= v0);
                assert(arg_fold(ix, args_keys@, vs, i as int) == arg_fold(ix, args_keys@, v0, i as int)) by {
                    lemma_arg_fold_prefix(ix, args_keys@, v0, vs, i as int);
                }
                if text_or_empty(ix.word(args_keys@[i as int] as int)).len() != 0 && vid != 0 {
                    assert(key_gives(ix, value_frags(ix, vid), ds[i as int], ds[i + 1], grk) && vs[i as int] == arg_of(grk));
                }
                assert(arg_step(ix, args_keys@, args_vals@, vs, ds, i as int));
                assert forall|j: int| 0 <= j < i + 1 implies #[trigger] arg_step(ix, args_keys@, args_vals@, vs, ds, j) by {
                    if j < i {
                        assert(vs[j] == v0[j] && ds[j] == d0[j] && ds[j + 1] == d0[j + 1]);
                        assert(arg_step(ix, args_keys@, args_vals@, v0, d0, j));
                    }
                }
            }
            i = i + 1;
        }
        proof {
            assert(n == zip_len(args_keys@.len(), args_vals@.len()));
            assert(args_trace(ix, args_keys@, args_vals@, vs, ds));
        }
        Ok(args)
    }
}

proof fn lemma_arg_fold_prefix(ix: IndexView, keys: Seq<u16>, a: Seq<TreeView>, b: Seq<TreeView>, n: int)
    requires
        0 <= n <= a.len(),
        n <= b.len(),
        forall|j: int| 0 <= j < n ==> a[j] == b[j],
    ensures
        arg_fold(ix, keys, a, n) == arg_fold(ix, keys, b, n),
    decreases n,
{
    if n > 0 {
        lemma_arg_fold_prefix(ix, keys, a, b, n - 1);
    }
}

/// `value`: the argument that carries the value a store is to write.
pub open spec fn value_text() -> Seq<char> {
    seq!['v', 'a', 'l', 'u', 'e']
}

fn value_name() -> (r: String)
    ensures
        r@ == value_text(),
{
    proof {
        reveal_strlit("value");
    }
    let r = String::from_str("value");
    assert(r@ =~= value_text());
    r
}

/// How far two lists go together.
pub open spec fn zip_len(a: nat, b: nat) -> nat {
    if a < b {
        a
    } else {
        b
    }
}

/// The value a static argument resolves to.
pub open spec fn ideal_value(ix: IndexView, id: u16) -> TreeView {
    if id == 0 {
        TreeView::Null
    } else {
        match ix.values.entry(id as int) {
            Some(fr) => if fr.len() > 0 && all_static(fr) {
                TreeView::Scalar(encode_utf8(static_text(ix, fr)))
            } else {
                TreeView::Null
            },
            None => TreeView::Null,
        }
    }
}

/// A copy of an optional unit, empty when there is none.
fn or_empty_vec(s: Option<&[u16]>) -> (r: Vec<u16>)
    ensures
        r@ == match s {
            Some(x) => x@,
            None => Seq::<u16>::empty(),
        },
{
    match s {
        Some(x) => vstd::slice::slice_to_vec(x),
        None => Vec::new(),
    }
}

/// The cache after a field mapping is applied, for leaf `p`, to fetched pairs:
/// the path next to `p` named by destination word `dsts[i]` gets the value the
/// pairs hold under word `srcs[i]`, null when none; a destination that names no
/// such path is passed over.
pub open spec fn map_applied(
    ix: IndexView,
    c: Seq<(u16, TreeView)>,
    p: int,
    dsts: Seq<u16>,
    srcs: Seq<u16>,
    fetched: Seq<(Seq<u8>, TreeView)>,
    n: int,
) -> Seq<(u16, TreeView)>
    decreases n,
{
    if n <= 0 {
        c
    } else {
        let prev = map_applied(ix, c, p, dsts, srcs, fetched, n - 1);
        match ix.sibling(p, ix.word(dsts[n - 1] as int)) {
            Some(q) => cache_put(
                prev,
                q,
                match lookup(fetched, ix.word(srcs[n - 1] as int)) {
                    Some(v) => v,
                    None => TreeView::Null,
                },
            ),
            None => prev,
        }
    }
}

/// What a leaf's `_get` gives, for the store's answer `fetched` under `key`,
/// the cache going from `c` to `d`: `LoadFailed(NotFound)` of the key when the
/// store has nothing; the fetched value when the block has no field mapping;
/// else, the mapping applied to fetched pairs (see [`map_applied`]), what the
/// leaf then has cached, or nothing.
pub open spec fn fetch_outcome(
    ix: IndexView,
    c: Seq<(u16, TreeView)>,
    d: Seq<(u16, TreeView)>,
    leaf: LeafRef,
    key: Seq<char>,
    fetched: Option<TreeView>,
    r: Result<Option<Tree>, ContextError>,
) -> bool {
    let m = ix.raw_meta(leaf, true);
    let n = zip_len(m.2.len(), m.3.len()) as int;
    match fetched {
        None => (r matches Err(ContextError::LoadFailed(LoadError::NotFound(s))) && s@ == key) && d == c,
        Some(f) => if m.2.len() == 0 {
            (r matches Ok(Some(t)) && t@ == f) && d == c
        } else {
            &&& d == match f {
                TreeView::Mapping(pairs) => map_applied(ix, c, leaf.path_id as int, m.2, m.3, pairs, n),
                _ => c,
            }
            &&& match cached(d, leaf.path_id) {
                Some(v) => r matches Ok(Some(t)) && t@ == v,
                None => r == Ok::<Option<Tree>, ContextError>(None),
            }
        },
    }
}

impl<'r> Context<'r> {
    /// Applies a `_get` field mapping for leaf `path_id` to what the store
    /// returned (see [`map_applied`]).
    pub fn apply_map(&mut self, path_id: u16, fetched: &Vec<(Vec<u8>, Tree)>, dsts: &[u16], srcs: &[u16])
        requires
            old(self).ok(),
            path_id < old(self)@.index.paths.len(),
        ensures
            final(self).ok(),
            final(self)@.index == old(self)@.index,
            final(self)@.called == old(self)@.called,
            final(self)@.asked == old(self)@.asked,
            final(self)@.cache == map_applied(
                old(self)@.index,
                old(self)@.cache,
                path_id as int,
                dsts@,
                srcs@,
                pairs_view(fetched@),
                if dsts@.len() < srcs@.len() { dsts@.len() as int } else { srcs@.len() as int },
            ),
    {
        let n = if dsts.len() < srcs.len() { dsts.len() } else { srcs.len() };
        let ghost start = self@;
        let mut i: usize = 0;
        while i < n
            invariant
                self.ok(),
                start == old(self)@,
                self@.index == start.index,
                self@.called == start.called,
                self@.asked == start.asked,
                path_id < start.index.paths.len(),
                n <= dsts@.len(),
                n <= srcs@.len(),
                i <= n,
                self@.cache == map_applied(start.index, start.cache, path_id as int, dsts@, srcs@, pairs_view(fetched@), i as int),
            decreases n - i,
        {
            let dst_word = self.index.word_bytes(dsts[i] as usize);
            let dst = self.index.sibling(path_id, dst_word);
            if let Some(q) = dst {
                let src_key = self.index.word_bytes(srcs[i] as usize);
                let v = match find_local(fetched, src_key) {
                    Some(t) => copy_tree(t),
                    None => Tree::Null,
                };
                self.cache_set(q, v);
            }
            i = i + 1;
        }
    }

    /// Takes what the `_set` store answered for a leaf: a value found is cached
    /// and given back.
    fn take_stored(&mut self, path_id: u16, answer: Option<Tree>) -> (r: Option<Tree>)
        requires
            old(self).ok(),
        ensures
            final(self).ok(),
            final(self)@.index == old(self)@.index,
            final(self)@.called == old(self)@.called,
            final(self)@.asked == old(self)@.asked,
            match answer {
                Some(v) => (r matches Some(t) && t@ == v@) && final(self)@.cache == cache_put(old(self)@.cache, path_id, v@),
                None => r is None && final(self)@.cache == old(self)@.cache,
            },
    {
        match answer {
            Some(v) => {
                self.cache_set(path_id, copy_tree(&v));
                Some(v)
            },
            None => None,
        }
    }

    /// Takes what the `_get` store answered for `leaf` under `key` (see [`fetch_outcome`]).
    fn take_fetched(&mut self, leaf: LeafRef, key: String, fetched: Option<Tree>) -> (r: Result<Option<Tree>, ContextError>)
        requires
            old(self).ok(),
            leaf.path_id < old(self)@.index.paths.len(),
        ensures
            final(self).ok(),
            final(self)@.index == old(self)@.index,
            final(self)@.called == old(self)@.called,
            final(self)@.asked == old(self)@.asked,
            fetch_outcome(
                old(self)@.index,
                old(self)@.cache,
                final(self)@.cache,
                leaf,
                key@,
                match fetched {
                    Some(f) => Some(f@),
                    None => None,
                },
                r,
            ),
    {
        let f = match fetched {
            Some(f) => f,
            None => {
                return Err(ContextError::LoadFailed(LoadError::NotFound(key)));
            },
        };
        let (_, _, mk, mv, _, _) = self.index.get_meta(&leaf);
        if mk.len() == 0 {
            return Ok(Some(f));
        }
        let dsts = vstd::slice::slice_to_vec(mk);
        let srcs = vstd::slice::slice_to_vec(mv);
        if let Tree::Mapping(pairs) = &f {
            proof {
                assert(f@ == TreeView::Mapping(pairs_view(pairs@))) by {
                    assert(f@->Mapping_0 =~= pairs_view(pairs@));
                }
            }
            self.apply_map(leaf.path_id, pairs, dsts.as_slice(), srcs.as_slice());
        }
        match self.cache_get(leaf.path_id) {
            Some(v) => Ok(Some(copy_tree(v))),
            None => Ok(None),
        }
    }
}

impl<'r> Context<'r> {
    /// Resolves one leaf: the cached value; else the `_set` store's; else the value
    /// the DSL gives it (placeholders resolved); else the `_get` store's, mapped
    /// and written through to the `_set` store. What it finds is cached.
    #[verifier::spinoff_prover]
    #[verifier::rlimit(80)]
    fn resolve_leaf(&mut self, leaf: LeafRef) -> (r: Result<Option<Tree>, ContextError>)
        requires
            old(self).ok(),
            old(self)@.called.contains(leaf.path_id),
            leaf.path_id < old(self)@.index.paths.len(),
        ensures
            final(self).ok(),
            final(self)@.index == old(self)@.index,
            final(self)@.called == old(self)@.called,
            grows(old(self)@.asked, final(self)@.asked),
            avoids_but(old(self)@.asked, final(self)@.asked, old(self)@.called, leaf.path_id),
            leaf_outcome(old(self)@, final(self)@, leaf, res_view(r)),
            ({
                let frs = old(self)@.index.fragments(leaf);
                cached(old(self)@.cache, leaf.path_id) is None && read_missed(own_calls(old(self)@, final(self)@, leaf.path_id))
                    && frs.len() > 0 ==> exists|m: ContextView|
                    {
                        &&& m.index == old(self)@.index
                        &&& m.called == old(self)@.called
                        &&& (old(self)@.index.raw_meta(leaf, false).0 == 0 ==> m == old(self)@)
                        &&& #[trigger] value_gives(frs, m, res_view(r))
                    }
            }),
            ({
                let frs = old(self)@.index.fragments(leaf);
                cached(old(self)@.cache, leaf.path_id) is None && old(self)@.index.raw_meta(leaf, false).0 == 0
                    && frs.len() == 0 && old(self)@.index.raw_meta(leaf, true).0 == 0 ==> r == Ok::<
                    Option<Tree>,
                    ContextError,
                >(None) && final(self)@ == old(self)@
            }),
        decreases 0x10000 - old(self)@.called.len(), 4int,
    {
        let path_id = leaf.path_id;
        match self.cache_get(path_id) {
            Some(v) => {
                return Ok(Some(copy_tree(v)));
            },
            None => {},
        }
        let ghost start = self@;
        let ghost ix = start.index;
        let ghost from = start.asked.len() as int;
        proof {
            lemma_calls_empty(start.asked, path_id);
        }
        let ghost mut own: Seq<StoreCall> = Seq::empty();
        let stores = self.stores;
        let set_store_id = self.index.set_meta(&leaf).0;
        if set_store_id != 0 {
            let found = stores.store_for(set_store_id);
            let ghost look = StoreCall::Lookup {
                path: path_id,
                purpose: Purpose::Read,
                store: set_store_id,
                found: found is Some,
            };
            let ghost m0 = self@;
            self.note(Ghost(look));
            proof {
                lemma_noted(start, m0, look, path_id);
                own = own.push(look);
            }
            if let Some(store) = found {
                let ghost m1 = self@;
                let q = self.store_request(leaf, false);
                proof {
                    lemma_nested(start, m1, self@, path_id);
                }
                let (store_key, args) = match q {
                    Ok(q) => q,
                    Err(e) => {
                        return Err(e);
                    },
                };
                proof {
                    lemma_request_shape(ix, leaf, false, m1, store_key@, args@);
                }
                let answer = store.get(str_bytes(store_key.as_str()).as_slice(), &args);
                let ghost asked = StoreCall::Get {
                    path: path_id,
                    purpose: Purpose::Read,
                    store: set_store_id,
                    key: store_key@,
                    args: args@,
                    answer: opt_view(answer),
                };
                let ghost m2 = self@;
                self.note(Ghost(asked));
                proof {
                    lemma_noted(start, m2, asked, path_id);
                    own = own.push(asked);
                }
                let ghost c = self@.cache;
                let ghost m3 = self@;
                let taken = self.take_stored(path_id, answer);
                proof {
                    assert(self@.asked == m3.asked);
                }
                if let Some(value) = taken {
                    proof {
                        law_cache_read_after_write(c, path_id, value@);
                        assert(own =~= seq![look, asked]);
                    }
                    return Ok(Some(value));
                }
            }
        }
        let ghost fix = self@.index;
        let ghost before_value = self@;
        let frags = self.leaf_fragment_copies(&leaf);
        if frags.len() > 0 {
            let ghost mid0 = self@;
            let res = self.compose_value(&frags);
            let ghost mid = self@;
            proof {
                lemma_nested(start, mid0, mid, path_id);
                let frs = start.index.fragments(leaf);
                let rv = comp_view(res);
                assert(frags@.len() == frs.len());
                if frs.len() == 1 && frs[0].0 {
                    assert(frags@[0].1@ == frs[0].1);
                    assert(frags@[0].0 == fix.fragments(leaf)[0].0);
                    if valid_utf8(frs[0].1) {
                        let path = decode_utf8(frs[0].1);
                        let g = choose|g: Result<Option<Tree>, ContextError>|
                            read_outcome(mid0, mid, path, g) && #[trigger] copies_read(g, path, res);
                        assert(read_outcome(mid0, mid, path, g));
                        assert(lone_gives(g, path, rv));
                    }
                    assert(value_gives(frs, mid0, rv));
                }
                assert(frags_view(frags@) =~= frs) by {
                    assert forall|i: int| 0 <= i < frs.len() implies frags_view(frags@)[i] == frs[i] by {
                        assert(frags@[i].0 == fix.fragments(leaf)[i].0);
                    }
                }
                assert(value_gives(frs, mid0, rv));
                if set_store_id == 0 {
                    assert(mid0 == start);
                }
            }
            let value = match res {
                Ok(v) => v,
                Err(e) => {
                    proof {
                        if set_store_id == 0 {
                            assert(mid0 == start);
                        }
                    }
                    return Err(e);
                },
            };
            proof {
                assert(fix == start.index);
                let frs = start.index.fragments(leaf);
                assert(frags@.len() == frs.len());
                if set_store_id == 0 {
                    assert(mid0 == start);
                }
                if set_store_id == 0 && all_literal(frs) {
                    assert forall|i: int| 0 <= i < frags@.len() implies !(#[trigger] frags@[i].0) by {
                        assert(!frs[i].0);
                        assert(frags@[i].0 == fix.fragments(leaf)[i].0);
                    }
                    assert forall|i: int| 0 <= i < frags@.len() implies frags@[i].1@ == frs[i].1 by {
                        assert(frags@[i].0 == fix.fragments(leaf)[i].0);
                    }
                    assert(Seq::new(frags@.len(), |i: int| text_or_empty(frags@[i].1@)) =~= Seq::new(
                        frs.len(),
                        |i: int| text_or_empty(frs[i].1),
                    ));
                }
            }
            let ghost c = self@.cache;
            self.cache_set(path_id, copy_tree(&value));
            proof {
                law_cache_read_after_write(c, path_id, value@);
            }
            return Ok(Some(value));
        }
        let get_store_id = self.index.get_meta(&leaf).0;
        if get_store_id == 0 {
            return Ok(None);
        }
        let ghost n = own.len() as int;
        let found = stores.store_for(get_store_id);
        let ghost look = StoreCall::Lookup {
            path: path_id,
            purpose: Purpose::Load,
            store: get_store_id,
            found: found is Some,
        };
        let ghost m4 = self@;
        self.note(Ghost(look));
        proof {
            lemma_noted(start, m4, look, path_id);
            own = own.push(look);
        }
        let store = match found {
            Some(s) => s,
            None => {
                return Err(ContextError::LoadFailed(LoadError::ClientNotFound(decimal(get_store_id as u64))));
            },
        };
        let ghost m5 = self@;
        let q = self.store_request(leaf, true);
        proof {
            lemma_nested(start, m5, self@, path_id);
        }
        let (store_key, args) = match q {
            Ok(q) => q,
            Err(e) => {
                return Err(e);
            },
        };
        proof {
            lemma_request_shape(ix, leaf, true, m5, store_key@, args@);
        }
        let fetched = store.get(str_bytes(store_key.as_str()).as_slice(), &args);
        let ghost asked = StoreCall::Get {
            path: path_id,
            purpose: Purpose::Load,
            store: get_store_id,
            key: store_key@,
            args: args@,
            answer: opt_view(fetched),
        };
        let ghost m6 = self@;
        self.note(Ghost(asked));
        proof {
            lemma_noted(start, m6, asked, path_id);
            own = own.push(asked);
        }
        let ghost m7 = self@;
        let taken = self.take_fetched(leaf, store_key, fetched);
        proof {
            assert(self@.asked == m7.asked);
        }
        let value = match taken {
            Ok(Some(v)) => v,
            Ok(None) => {
                return Ok(None);
            },
            Err(e) => {
                return Err(e);
            },
        };
        if set_store_id != 0 {
            let found_back = stores.store_for(set_store_id);
            let ghost back = StoreCall::Lookup {
                path: path_id,
                purpose: Purpose::WriteBack,
                store: set_store_id,
                found: found_back is Some,
            };
            let ghost m8 = self@;
            self.note(Ghost(back));
            proof {
                lemma_noted(start, m8, back, path_id);
                own = own.push(back);
            }
            if let Some(set_store) = found_back {
                let ghost m9 = self@;
                let q2 = self.store_request(leaf, false);
                proof {
                    lemma_nested(start, m9, self@, path_id);
                }
                let (set_store_key, mut set_args) = match q2 {
                    Ok(q) => q,
                    Err(e) => {
                        return Err(e);
                    },
                };
                let ghost base = set_args@;
                proof {
                    lemma_request_shape(ix, leaf, false, m9, set_store_key@, base);
                }
                set_args.insert(value_name(), copy_tree(&value));
                let took = set_store.set(str_bytes(set_store_key.as_str()).as_slice(), &set_args);
                let ghost put = StoreCall::Put {
                    path: path_id,
                    purpose: Purpose::WriteBack,
                    store: set_store_id,
                    key: set_store_key@,
                    args: set_args@,
                    took: took is Some,
                };
                let ghost m10 = self@;
                self.note(Ghost(put));
                proof {
                    lemma_noted(start, m10, put, path_id);
                    own = own.push(put);
                    assert(request_shape(ix, leaf, false, put->Put_key, base) && put->Put_args == args_insert(
                        base,
                        value_text(),
                        value@,
                    ));
                }
            }
        }
        let ghost c = self@.cache;
        self.cache_set(path_id, copy_tree(&value));
        proof {
            law_cache_read_after_write(c, path_id, value@);
        }
        Ok(Some(value))
    }

    /// The leaf's value fragments, copied out of the index.
    fn leaf_fragment_copies(&self, leaf: &LeafRef) -> (r: Vec<(bool, Vec<u8>)>)
        ensures
            r@.len() == self@.index.fragments(*leaf).len(),
            forall|i: int|
                0 <= i < r@.len() ==> #[trigger] r@[i].0 == self@.index.fragments(*leaf)[i].0 && r@[i].1@
                    == self@.index.fragments(*leaf)[i].1,
    {
        let ghost fr = self@.index.fragments(*leaf);
        let frags = self.index.leaf_fragments(leaf);
        assert(frags@.len() == fr.len());
        assert forall|j: int| 0 <= j < frags@.len() implies #[trigger] frags@[j].0 == fr[j].0 && frags@[j].1@ == fr[j].1 by {
            assert(frags@[j].0 == self@.index.fragments(*leaf)[j].0);
        }
        let mut out: Vec<(bool, Vec<u8>)> = Vec::new();
        let mut i: usize = 0;
        while i < frags.len()
            invariant
                i <= frags@.len(),
                frags@.len() == fr.len(),
                forall|j: int| 0 <= j < frags@.len() ==> #[trigger] frags@[j].0 == fr[j].0 && frags@[j].1@ == fr[j].1,
                out@.len() == i,
                forall|j: int| 0 <= j < i ==> #[trigger] out@[j].0 == fr[j].0 && out@[j].1@ == fr[j].1,
            decreases frags@.len() - i,
        {
            let ghost before = out@;
            out.push((frags[i].0, vstd::slice::slice_to_vec(frags[i].1)));
            proof {
                assert forall|j: int| 0 <= j < i + 1 implies #[trigger] out@[j].0 == fr[j].0 && out@[j].1@ == fr[j].1 by {
                    if j < i {
                        assert(out@[j] == before[j]);
                    }
                }
            }
            i = i + 1;
        }
        out
    }

    /// The value that a leaf's fragments compose to: a lone placeholder gives the
    /// value of its path as it is; otherwise the texts of the fragments (a
    /// placeholder's: its path's scalar text) joined into a scalar.
    /// `LoadFailed(ConfigMissing)` for a placeholder path that is not UTF-8,
    /// `LoadFailed(NotFound)` for one that has no value.
    fn compose_value(&mut self, frags: &Vec<(bool, Vec<u8>)>) -> (r: Result<Tree, ContextError>)
        requires
            old(self).ok(),
            frags@.len() > 0,
        ensures
            r matches Err(e) ==> !(e is StoreFailed),
            final(self).ok(),
            Self::steps(old(self)@, final(self)@),
            (forall|i: int| 0 <= i < frags@.len() ==> !(#[trigger] frags@[i].0)) ==> {
                &&& r matches Ok(t)
                &&& t@ == TreeView::Scalar(encode_utf8(concat(
                    Seq::new(frags@.len(), |i: int| text_or_empty(frags@[i].1@)),
                )))
                &&& final(self)@ == old(self)@
            },
            frags@.len() == 1 && frags@[0].0 ==> if valid_utf8(frags@[0].1@) {
                exists|g: Result<Option<Tree>, ContextError>|
                    read_outcome(old(self)@, final(self)@, decode_utf8(frags@[0].1@), g)
                        && #[trigger] copies_read(g, decode_utf8(frags@[0].1@), r)
            } else {
                (r matches Err(ContextError::LoadFailed(LoadError::ConfigMissing(_)))) && final(self)@ == old(self)@
            },
            !(frags@.len() == 1 && frags@[0].0) ==> template_gives(frags_view(frags@), old(self)@, comp_view(r)),
            r matches Err(e) ==> names_missing(old(self)@.index, e),
        decreases 0x10000 - old(self)@.called.len(), 1int,
    {
        if frags.len() == 1 && frags[0].0 {
            let path = match utf8_str(frags[0].1.as_slice()) {
                Some(s) => s,
                None => {
                    return Err(
                        ContextError::LoadFailed(LoadError::ConfigMissing(String::from_str("placeholder utf8"))),
                    );
                },
            };
            let g = self.get_path(path);
            let r = match g {
                Ok(Some(v)) => Ok(v),
                Ok(None) => Err(ContextError::LoadFailed(LoadError::NotFound(String::from_str(path)))),
                Err(e) => Err(e),
            };
            assert(copies_read(g, decode_utf8(frags@[0].1@), r));
            return r;
        }
        let ghost start = self@;
        let ghost want = Seq::new(frags@.len(), |i: int| text_or_empty(frags@[i].1@));
        let mut buf = String::new();
        let ghost mut parts: Seq<Seq<char>> = Seq::empty();
        let ghost fv = frags_view(frags@);
        let ghost mut cs: Seq<ContextView> = seq![start];
        let ghost mut gs: Seq<Result<Option<Tree>, ContextError>> = Seq::empty();
        let mut i: usize = 0;
        assert(buf@ =~= concat(parts));
        assert(value_trace(fv.take(0), parts, cs, gs));
        while i < frags.len()
            invariant
                self.ok(),
                Self::steps(start, self@),
                start == old(self)@,
                fv == frags_view(frags@),
                value_trace(fv.take(i as int), parts, cs, gs),
                cs[0] == start,
                cs[i as int] == self@,
                want == Seq::new(frags@.len(), |i: int| text_or_empty(frags@[i].1@)),
                !(frags@.len() == 1 && frags@[0].0),
                i <= frags@.len(),
                parts.len() == i,
                buf@ == concat(parts),
                (forall|j: int| 0 <= j < frags@.len() ==> !(#[trigger] frags@[j].0)) ==> parts == want.take(
                    i as int,
                ) && self@ == start,
            decreases frags@.len() - i,
        {
            let ghost before = self@;
            let ghost p0 = parts;
            let ghost cs0 = cs;
            let ghost gs0 = gs;
            if frags[i].0 {
                proof {
                    assert(fv[i as int] == (frags@[i as int].0, frags@[i as int].1@));
                    assert(fv.take(i as int).len() == i);
                }
                let path = match utf8_str(frags[i].1.as_slice()) {
                    Some(s) => s,
                    None => {
                        let e = ContextError::LoadFailed(LoadError::ConfigMissing(String::from_str("placeholder utf8")));
                        proof {
                            assert(value_fails(fv[i as int].1, cs[i as int], e));
                            assert(value_trace(fv.take(i as int), parts, cs, gs));
                        }
                        return Err(e);
                    },
                };
                let ghost here = self@;
                let g = self.get_path(path);
                let ghost gg = g;
                let ghost there = self@;
                match g {
                    Ok(Some(Tree::Scalar(b))) => {
                        let piece = text_of(b.as_slice());
                        buf.append(piece);
                        proof {
                            parts = parts.push(piece@);
                        }
                    },
                    Ok(Some(_)) => {
                        proof {
                            parts = parts.push(Seq::empty());
                        }
                    },
                    Ok(None) => {
                        let e = ContextError::LoadFailed(LoadError::NotFound(String::from_str(path)));
                        proof {
                            assert(read_outcome(here, there, decode_utf8(fv[i as int].1), gg));
                            assert(value_fails(fv[i as int].1, cs[i as int], e));
                            assert(value_trace(fv.take(i as int), parts, cs, gs));
                            lemma_steps_trans(start, here, there);
                        }
                        return Err(e);
                    },
                    Err(e) => {
                        proof {
                            assert(read_outcome(here, there, decode_utf8(fv[i as int].1), gg));
                            assert(value_fails(fv[i as int].1, cs[i as int], e));
                            assert(value_trace(fv.take(i as int), parts, cs, gs));
                            lemma_steps_trans(start, here, there);
                        }
                        return Err(e);
                    },
                }
                proof {
                    lemma_steps_trans(start, here, there);
                }
                proof {
                    cs = cs.push(self@);
                    gs = gs.push(gg);
                }
            } else {
                let piece = text_of(frags[i].1.as_slice());
                buf.append(piece);
                proof {
                    parts = parts.push(piece@);
                    cs = cs.push(self@);
                    gs = gs.push(Ok(None));
                    assert(want.take(i + 1) =~= want.take(i as int).push(piece@));
                }
            }
            proof {
                let f1 = fv.take(i + 1);
                assert(fv[i as int] == (frags@[i as int].0, frags@[i as int].1@));
                assert forall|j: int| 0 <= j < f1.len() implies if (#[trigger] f1[j]).0 {
                    &&& valid_utf8(f1[j].1)
                    &&& read_outcome(cs[j], cs[j + 1], decode_utf8(f1[j].1), gs[j])
                    &&& gs[j] matches Ok(Some(_))
                    &&& parts[j] == read_text(gs[j])
                } else {
                    &&& cs[j + 1] == cs[j]
                    &&& parts[j] == text_or_empty(f1[j].1)
                } by {
                    if j < i {
                        assert(f1[j] == fv.take(i as int)[j]);
                        assert(cs[j] == cs0[j] && cs[j + 1] == cs0[j + 1] && gs[j] == gs0[j] && parts[j] == p0[j]);
                    }
                }
                assert(value_trace(f1, parts, cs, gs));
            }
            assert(parts.drop_last() =~= p0);
            assert(buf@ =~= concat(parts));
            i = i + 1;
        }
        proof {
            assert(want.take(frags@.len() as int) =~= want);
            assert(fv.take(i as int) =~= fv);
        }
        Ok(Tree::Scalar(str_bytes(buf.as_str())))
    }

    /// The value of `key`: for a leaf, its resolution; for an inner path, a
    /// mapping of the keywords of its leaves to the values they resolve to.
    /// `KeyNotFound` when the DSL has no such path, `RecursionLimitExceeded` when
    /// the leaf's resolution is already under way.
    fn get_path(&mut self, key: &str) -> (r: Result<Option<Tree>, ContextError>)
        requires
            old(self).ok(),
        ensures
            final(self).ok(),
            Self::steps(old(self)@, final(self)@),
            read_outcome(old(self)@, final(self)@, key@, r),
        decreases 0x10000 - old(self)@.called.len(), 0int,
    {
        let leaves = self.index.leaves_of(key);
        if leaves.len() == 0 {
            return Err(ContextError::KeyNotFound(String::from_str(key)));
        }
        proof {
            let ix = self@.index;
            match ix.find_from(0, crate::index::split_dots(encode_utf8(key@))) {
                Some(q) => crate::index::lemma_collect_paths(ix, q as int),
                None => {},
            }
        }
        if leaves.len() == 1 {
            let leaf = leaves[0];
            assert(leaves@[0].path_id < self@.index.paths.len());
            self.guard_recursion(leaf.path_id)?;
            let ghost pos = self@.called.len() as int;
            let ghost c0 = self@;
            self.enter(leaf.path_id);
            proof {
                assert(self@.called[pos] == leaf.path_id);
                assert(self@ == entered(c0, leaf.path_id));
            }
            let result = self.resolve_leaf(leaf);
            let ghost c1 = self@;
            proof {
                assert(self@.called[pos] == leaf.path_id);
            }
            self.leave(leaf.path_id, Ghost(pos));
            proof {
                self.lemma_left(c0, c1, leaf.path_id);
            }
            return result;
        }
        let ghost start = self@;
        let mut pairs: Vec<(Vec<u8>, Tree)> = Vec::new();
        let ghost mut cs: Seq<ContextView> = seq![start];
        let ghost mut rs: Seq<Option<TreeView>> = Seq::empty();
        let mut i: usize = 0;
        assert(pairs_view(pairs@) =~= gathered(start.index, leaves@, rs));
        proof {
            lemma_grows_refl(start.asked);
            assert(leaves_trace(leaves@.take(0), cs, rs));
        }
        while i < leaves.len()
            invariant
                self.ok(),
                Self::steps(start, self@),
                start == old(self)@,
                forall|j: int| 0 <= j < leaves@.len() ==> (#[trigger] leaves@[j]).path_id < start.index.paths.len(),
                leaves@ == start.index.traverse(encode_utf8(key@)),
                leaves@.len() > 1,
                i <= leaves@.len(),
                cs.len() == i + 1,
                rs.len() == i,
                cs[0] == start,
                cs[i as int] == self@,
                leaves_trace(leaves@.take(i as int), cs, rs),
                pairs_view(pairs@) == gathered(start.index, leaves@, rs),
            decreases leaves@.len() - i,
        {
            let leaf = leaves[i];
            let ghost c0 = self@;
            match self.guard_recursion(leaf.path_id) {
                Ok(()) => {},
                Err(e) => {
                    proof {
                        assert(leaf_fails(cs[i as int], self@, leaves@[i as int], e));
                        assert(leaves_trace(leaves@.take(i as int), cs, rs));
                    }
                    return Err(e);
                },
            }
            let ghost pos = self@.called.len() as int;
            self.enter(leaf.path_id);
            proof {
                assert(self@.called[pos] == leaf.path_id);
                assert(self@ == entered(c0, leaf.path_id));
            }
            let res = self.resolve_leaf(leaf);
            let ghost c1 = self@;
            proof {
                assert(self@.called[pos] == leaf.path_id);
            }
            self.leave(leaf.path_id, Ghost(pos));
            proof {
                self.lemma_left(c0, c1, leaf.path_id);
                lemma_steps_trans(start, c0, self@);
            }
            let value = match res {
                Ok(v) => v,
                Err(e) => {
                    proof {
                        assert(leaf_fails(cs[i as int], self@, leaves@[i as int], e));
                        assert(leaves_trace(leaves@.take(i as int), cs, rs));
                    }
                    return Err(e);
                },
            };
            let ghost cs0 = cs;
            let ghost rs0 = rs;
            let ghost got: Option<TreeView> = opt_view(value);
            let ghost p0 = pairs_view(pairs@);
            if let Some(v) = value {
                let keyword = vstd::slice::slice_to_vec(self.index.keyword_of(leaf.path_id));
                pairs.push((keyword, v));
            }
            proof {
                cs = cs.push(self@);
                rs = rs.push(got);
                assert(rs.drop_last() =~= rs0);
                let l1 = leaves@.take(i + 1);
                assert forall|j: int| 0 <= j < l1.len() implies #[trigger] trace_step(l1, cs, rs, j) by {
                    if j < i {
                        assert(rs[j] == rs0[j] && cs[j] == cs0[j] && cs[j + 1] == cs0[j + 1]);
                        assert(l1[j] == leaves@.take(i as int)[j]);
                        assert(trace_step(leaves@.take(i as int), cs0, rs0, j));
                    } else {
                        assert(l1[j] == leaf);
                        assert(cs[j] == cs0[j]);
                        assert(cs0[j] == c0);
                        assert(cs[j + 1] == self@);
                        assert(!c0.called.contains(leaf.path_id));
                        assert(res_view(res) == Ok::<Option<TreeView>, ContextError>(got));
                    }
                }
                assert(leaves_trace(l1, cs, rs));
                assert(pairs_view(pairs@) =~= gathered(start.index, leaves@, rs));
            }
            i = i + 1;
        }
        proof {
            assert(leaves@.take(i as int) =~= leaves@);
            assert(leaves_trace(leaves@, cs, rs));
        }
        if pairs.len() == 0 {
            Ok(None)
        } else {
            let t = Tree::Mapping(pairs);
            assert(t@ == TreeView::Mapping(pairs_view(pairs@))) by {
                assert(t@->Mapping_0 =~= pairs_view(pairs@));
            }
            Ok(Some(t))
        }
    }
}

impl<'r> Context<'r> {
    /// The store key and arguments of `leaf`'s `_get` (`get`) or `_set` block
    /// (see [`request_of`]), placeholders resolved.
    fn store_request(&mut self, leaf: LeafRef, get: bool) -> (r: Result<(String, Args), ContextError>)
        requires
            old(self).ok(),
        ensures
            r matches Err(e) ==> !(e is StoreFailed) && names_missing(old(self)@.index, e),
            final(self).ok(),
            Self::steps(old(self)@, final(self)@),
            r matches Ok(q) ==> request_of(old(self)@.index, leaf, get, old(self)@, q.0@, q.1@),
            ({
                let kf = old(self)@.index.raw_meta(leaf, get).1;
                all_static(kf) ==> r is Ok
            }),
        decreases 0x10000 - old(self)@.called.len(), 3int,
    {
        let ghost ix = self@.index;
        let (_, k, _mk, _mv, ak, av) = if get {
            self.index.get_meta(&leaf)
        } else {
            self.index.set_meta(&leaf)
        };
        let key_frags = vstd::slice::slice_to_vec(k);
        let args_keys = vstd::slice::slice_to_vec(ak);
        let args_vals = vstd::slice::slice_to_vec(av);
        let ghost c = self@;
        let rk = self.resolve_key_frags(key_frags.as_slice());
        let ghost grk = rk;
        let ghost d = self@;
        let key = match rk {
            Ok(o) => key_or_path(o, leaf.path_id),
            Err(e) => {
                return Err(e);
            },
        };
        let args = match self.resolve_args(args_keys.as_slice(), args_vals.as_slice()) {
            Ok(a) => a,
            Err(e) => {
                return Err(e);
            },
        };
        proof {
            lemma_steps_trans(c, d, self@);
            let m = ix.raw_meta(leaf, get);
            let n = zip_len(m.4.len(), m.5.len());
            let (vs, ds) = choose|vs: Seq<TreeView>, ds: Seq<ContextView>|
                {
                    &&& #[trigger] args_trace(ix, m.4, m.5, vs, ds)
                    &&& ds[0] == d
                    &&& ds[n as int] == self@
                    &&& args@ == arg_fold(ix, m.4, vs, n as int)
                };
            assert(key_gives(ix, m.1, c, d, grk));
            assert(args_trace(ix, m.4, m.5, vs, ds));
        }
        Ok((key, args))
    }

    /// What a write the `_set` store answered gives: `true` when it took the
    /// value, which is then cached; `false` when it did not.
    fn take_written(&mut self, path_id: u16, value: Tree, answer: Option<SetOutcome>) -> (r: bool)
        requires
            old(self).ok(),
        ensures
            final(self).ok(),
            r == answer is Some,
            final(self)@.index == old(self)@.index,
            final(self)@.called == old(self)@.called,
            final(self)@.asked == old(self)@.asked,
            final(self)@.cache == if answer is Some {
                cache_put(old(self)@.cache, path_id, value@)
            } else {
                old(self)@.cache
            },
    {
        match answer {
            Some(_) => {
                self.cache_set(path_id, value);
                true
            },
            None => false,
        }
    }

    /// What a removal the `_set` store answered gives: whether it removed the
    /// value, whose cache entry is then removed.
    fn take_removed(&mut self, path_id: u16, done: bool) -> (r: bool)
        requires
            old(self).ok(),
        ensures
            final(self).ok(),
            r == done,
            final(self)@.index == old(self)@.index,
            final(self)@.called == old(self)@.called,
            final(self)@.asked == old(self)@.asked,
            final(self)@.cache == if done {
                cache_drop(old(self)@.cache, path_id)
            } else {
                old(self)@.cache
            },
    {
        if done {
            self.cache_remove(path_id);
        }
        done
    }
}

impl<'r> Context<'r> {
    /// Writes `value` for `key` through the `_set` store of its (first) leaf, and
    /// caches it when the store took it. `KeyNotFound` when the DSL has no such
    /// path, `Ok(false)` when the leaf has no `_set` store, `StoreFailed(ClientNotFound)`
    /// when no store has the leaf's store id. The store gets the request of the
    /// `_set` block (see [`Context::store_request`]) with `value` bound to `value`.
    fn set_path(&mut self, key: &str, value: Tree) -> (r: Result<bool, ContextError>)
        requires
            old(self).ok(),
            old(self)@.called.len() == 0,
        ensures
            final(self).ok(),
            Self::steps(old(self)@, final(self)@),
            write_outcome(old(self)@, final(self)@, key@, value@, r),
    {
        let ghost a = self@;
        let leaves = self.index.leaves_of(key);
        if leaves.len() == 0 {
            return Err(ContextError::KeyNotFound(String::from_str(key)));
        }
        proof {
            lemma_grows_refl(a.asked);
        }
        let leaf = leaves[0];
        let stores = self.stores;
        let store_id = self.index.set_meta(&leaf).0;
        if store_id == 0 {
            return Ok(false);
        }
        let found = stores.store_for(store_id);
        let ghost look = StoreCall::Lookup { path: leaf.path_id, purpose: Purpose::Write, store: store_id, found: found is Some };
        self.note(Ghost(look));
        let ghost a1 = self@;
        proof {
            assert(first_call(a, a1) == look);
        }
        let store = match found {
            Some(s) => s,
            None => {
                return Err(ContextError::StoreFailed(StoreError::ClientNotFound(decimal(store_id as u64))));
            },
        };
        let (store_key, mut args) = self.store_request(leaf, false)?;
        let ghost base = args@;
        let ghost a2 = self@;
        args.insert(value_name(), copy_tree(&value));
        let answer = store.set(str_bytes(store_key.as_str()).as_slice(), &args);
        let ghost put = StoreCall::Put {
            path: leaf.path_id,
            purpose: Purpose::Write,
            store: store_id,
            key: store_key@,
            args: args@,
            took: answer is Some,
        };
        self.note(Ghost(put));
        let ghost a3 = self@;
        let ghost c = self@.cache;
        let done = self.take_written(leaf.path_id, value, answer);
        proof {
            if done {
                law_cache_read_after_write(c, leaf.path_id, value@);
            }
            assert(first_call(a, self@) == look) by {
                assert(self@.asked[a.asked.len() as int] == a2.asked[a.asked.len() as int]);
            }
            assert(request_of(a.index, leaf, false, after(a, look), put->Put_key, base));
        }
        Ok(done)
    }

    /// Removes the value of `key` from the `_set` store of its (first) leaf, and
    /// removes its cache entry when the store did. Errors as for a write.
    fn delete_path(&mut self, key: &str) -> (r: Result<bool, ContextError>)
        requires
            old(self).ok(),
            old(self)@.called.len() == 0,
        ensures
            final(self).ok(),
            Self::steps(old(self)@, final(self)@),
            remove_outcome(old(self)@, final(self)@, key@, r),
    {
        let ghost a = self@;
        let leaves = self.index.leaves_of(key);
        if leaves.len() == 0 {
            return Err(ContextError::KeyNotFound(String::from_str(key)));
        }
        let leaf = leaves[0];
        let stores = self.stores;
        let store_id = self.index.set_meta(&leaf).0;
        let found = stores.store_for(store_id);
        let ghost look = StoreCall::Lookup { path: leaf.path_id, purpose: Purpose::Remove, store: store_id, found: found is Some };
        self.note(Ghost(look));
        let ghost a1 = self@;
        proof {
            assert(first_call(a, a1) == look);
        }
        let store = match found {
            Some(s) => s,
            None => {
                return Err(ContextError::StoreFailed(StoreError::ClientNotFound(decimal(store_id as u64))));
            },
        };
        let (store_key, args) = self.store_request(leaf, false)?;
        let ghost a2 = self@;
        let done = store.delete(str_bytes(store_key.as_str()).as_slice(), &args);
        let ghost del = StoreCall::Delete {
            path: leaf.path_id,
            purpose: Purpose::Remove,
            store: store_id,
            key: store_key@,
            args: args@,
            done,
        };
        self.note(Ghost(del));
        let ghost c = self@.cache;
        let r = self.take_removed(leaf.path_id, done);
        proof {
            if done {
                law_cache_read_after_drop(c, leaf.path_id);
            }
            assert(first_call(a, self@) == look) by {
                assert(self@.asked[a.asked.len() as int] == a2.asked[a.asked.len() as int]);
            }
        }
        Ok(r)
    }

    /// Whether `key` has a value in the cache (a non-null one) or in the `_set`
    /// store of its (first) leaf; does not load through `_get`. `false` when no
    /// store has the leaf's store id.
    fn contains_path(&mut self, key: &str) -> (r: Result<bool, ContextError>)
        requires
            old(self).ok(),
            old(self)@.called.len() == 0,
        ensures
            final(self).ok(),
            Self::steps(old(self)@, final(self)@),
            presence_outcome(old(self)@, final(self)@, key@, r),
    {
        let ghost a = self@;
        let leaves = self.index.leaves_of(key);
        if leaves.len() == 0 {
            return Err(ContextError::KeyNotFound(String::from_str(key)));
        }
        let leaf = leaves[0];
        match self.cache_get(leaf.path_id) {
            Some(v) => {
                let present = match v {
                    Tree::Null => false,
                    _ => true,
                };
                return Ok(present);
            },
            None => {},
        }
        let stores = self.stores;
        let store_id = self.index.set_meta(&leaf).0;
        let found = stores.store_for(store_id);
        let ghost look = StoreCall::Lookup { path: leaf.path_id, purpose: Purpose::Probe, store: store_id, found: found is Some };
        self.note(Ghost(look));
        let ghost a1 = self@;
        proof {
            assert(first_call(a, a1) == look);
        }
        let store = match found {
            Some(s) => s,
            None => {
                return Ok(false);
            },
        };
        let (store_key, args) = self.store_request(leaf, false)?;
        let ghost a2 = self@;
        let answer = store.get(str_bytes(store_key.as_str()).as_slice(), &args);
        let ghost probe = StoreCall::Get {
            path: leaf.path_id,
            purpose: Purpose::Probe,
            store: store_id,
            key: store_key@,
            args: args@,
            answer: opt_view(answer),
        };
        self.note(Ghost(probe));
        proof {
            assert(first_call(a, self@) == look) by {
                assert(self@.asked[a.asked.len() as int] == a2.asked[a.asked.len() as int]);
            }
        }
        match answer {
            Some(_) => Ok(true),
            None => Ok(false),
        }
    }
}

impl<'r> crate::provided::Context for Context<'r> {
    open spec fn valid(&self) -> bool {
        self.ok() && self@.called.len() == 0
    }

    fn get(&mut self, key: &str) -> (r: Result<Option<Tree>, ContextError>)
        ensures
            Self::steps(old(self)@, final(self)@),
            read_outcome(old(self)@, final(self)@, key@, r),
    {
        self.get_path(key)
    }

    fn set(&mut self, key: &str, value: Tree) -> (r: Result<bool, ContextError>)
        ensures
            Self::steps(old(self)@, final(self)@),
            write_outcome(old(self)@, final(self)@, key@, value@, r),
    {
        self.set_path(key, value)
    }

    fn delete(&mut self, key: &str) -> (r: Result<bool, ContextError>)
        ensures
            Self::steps(old(self)@, final(self)@),
            remove_outcome(old(self)@, final(self)@, key@, r),
    {
        self.delete_path(key)
    }

    fn contains(&mut self, key: &str) -> (r: Result<bool, ContextError>)
        ensures
            Self::steps(old(self)@, final(self)@),
            presence_outcome(old(self)@, final(self)@, key@, r),
    {
        self.contains_path(key)
    }
}

} // verus!
