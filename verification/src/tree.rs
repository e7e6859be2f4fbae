//! Byte wire format of [`Tree`] values.
//!
//! ```text
//!   Null     : 0x00
//!   Scalar   : 0x01 | len(u32le) | bytes
//!   Sequence : 0x02 | count(u32le) | item...
//!   Mapping  : 0x03 | count(u32le) | (key_len(u32le) | key_bytes | item)...
//! ```
use vstd::prelude::*;
use crate::provided::{Tree, TreeView};

verus! {

pub const TAG_NULL: u8 = 0x00;
pub const TAG_SCALAR: u8 = 0x01;
pub const TAG_SEQUENCE: u8 = 0x02;
pub const TAG_MAPPING: u8 = 0x03;

/// Little-endian bytes of the low 32 bits of `n`.
pub open spec fn le32(n: nat) -> Seq<u8> {
    seq![(n % 256) as u8, ((n / 256) % 256) as u8, ((n / 65536) % 256) as u8, ((n / 16777216) % 256) as u8]
}

/// The little-endian 32-bit number stored at `s[pos..pos + 4]`.
pub open spec fn le32_at(s: Seq<u8>, pos: int) -> nat {
    (s[pos] + 256 * s[pos + 1] + 65536 * s[pos + 2] + 16777216 * s[pos + 3]) as nat
}

/// Encoding of a tree in the wire format.
pub open spec fn encode(t: TreeView) -> Seq<u8>
    decreases t,
{
    match t {
        TreeView::Null => seq![TAG_NULL],
        TreeView::Scalar(b) => seq![TAG_SCALAR] + le32(b.len()) + b,
        TreeView::Sequence(items) => seq![TAG_SEQUENCE] + le32(items.len()) + encode_items(items),
        TreeView::Mapping(pairs) => seq![TAG_MAPPING] + le32(pairs.len()) + encode_pairs(pairs),
    }
}

/// Concatenated encodings of a sequence of trees.
pub open spec fn encode_items(items: Seq<TreeView>) -> Seq<u8>
    decreases items,
{
    if items.len() == 0 {
        Seq::empty()
    } else {
        encode(items[0]) + encode_items(items.subrange(1, items.len() as int))
    }
}

/// Concatenated encodings of mapping entries: key length, key bytes, value.
pub open spec fn encode_pairs(pairs: Seq<(Seq<u8>, TreeView)>) -> Seq<u8>
    decreases pairs,
{
    if pairs.len() == 0 {
        Seq::empty()
    } else {
        le32(pairs[0].0.len()) + pairs[0].0 + encode(pairs[0].1) + encode_pairs(
            pairs.subrange(1, pairs.len() as int),
        )
    }
}

/// Decodes the tree that starts at `pos`; on success also gives the position after it.
pub open spec fn decode_at(s: Seq<u8>, pos: int) -> Option<(TreeView, int)>
    decreases s.len() - pos, 0int,
{
    if pos < 0 || pos >= s.len() {
        None
    } else if s[pos] == TAG_NULL {
        Some((TreeView::Null, pos + 1))
    } else if s[pos] == TAG_SCALAR || s[pos] == TAG_SEQUENCE || s[pos] == TAG_MAPPING {
        if pos + 5 > s.len() {
            None
        } else {
            let n = le32_at(s, pos + 1);
            if s[pos] == TAG_SCALAR {
                if pos + 5 + n > s.len() {
                    None
                } else {
                    Some((TreeView::Scalar(s.subrange(pos + 5, pos + 5 + n)), pos + 5 + n))
                }
            } else if s[pos] == TAG_SEQUENCE {
                match decode_items(s, pos + 5, n) {
                    Some((items, p)) => Some((TreeView::Sequence(items), p)),
                    None => None,
                }
            } else {
                match decode_pairs(s, pos + 5, n) {
                    Some((pairs, p)) => Some((TreeView::Mapping(pairs), p)),
                    None => None,
                }
            }
        }
    } else {
        None
    }
}

/// Decodes `count` consecutive trees starting at `pos`.
pub open spec fn decode_items(s: Seq<u8>, pos: int, count: nat) -> Option<(Seq<TreeView>, int)>
    decreases s.len() - pos, count + 1,
{
    if count == 0 {
        Some((Seq::empty(), pos))
    } else {
        match decode_at(s, pos) {
            Some((t, p)) => if pos < p <= s.len() {
                match decode_items(s, p, (count - 1) as nat) {
                    Some((ts, q)) => Some((seq![t] + ts, q)),
                    None => None,
                }
            } else {
                None
            },
            None => None,
        }
    }
}

/// Decodes `count` consecutive mapping entries starting at `pos`.
pub open spec fn decode_pairs(s: Seq<u8>, pos: int, count: nat) -> Option<(Seq<(Seq<u8>, TreeView)>, int)>
    decreases s.len() - pos, count + 1,
{
    if count == 0 {
        Some((Seq::empty(), pos))
    } else if pos < 0 || pos + 4 > s.len() {
        None
    } else {
        let klen = le32_at(s, pos);
        if pos + 4 + klen > s.len() {
            None
        } else {
            let key = s.subrange(pos + 4, pos + 4 + klen);
            match decode_at(s, pos + 4 + klen) {
                Some((v, p)) => if pos < p <= s.len() {
                    match decode_pairs(s, p, (count - 1) as nat) {
                        Some((ps, q)) => Some((seq![(key, v)] + ps, q)),
                        None => None,
                    }
                } else {
                    None
                },
                None => None,
            }
        }
    }
}

/// Every length that the encoding stores fits in 32 bits.
pub open spec fn fits_u32(t: TreeView) -> bool
    decreases t,
{
    match t {
        TreeView::Null => true,
        TreeView::Scalar(b) => b.len() < 0x1_0000_0000,
        TreeView::Sequence(items) => items.len() < 0x1_0000_0000 && forall|i: int|
            0 <= i < items.len() ==> fits_u32(#[trigger] items[i]),
        TreeView::Mapping(pairs) => pairs.len() < 0x1_0000_0000 && forall|i: int|
            0 <= i < pairs.len() ==> (#[trigger] pairs[i]).0.len() < 0x1_0000_0000 && fits_u32(
                pairs[i].1,
            ),
    }
}

proof fn lemma_le32_roundtrip(n: nat, s: Seq<u8>, pos: int)
    requires
        n < 0x1_0000_0000,
        0 <= pos,
        pos + 4 <= s.len(),
        s.subrange(pos, pos + 4) == le32(n),
    ensures
        le32_at(s, pos) == n,
{
    assert(s[pos] == s.subrange(pos, pos + 4)[0]);
    assert(s[pos + 1] == s.subrange(pos, pos + 4)[1]);
    assert(s[pos + 2] == s.subrange(pos, pos + 4)[2]);
    assert(s[pos + 3] == s.subrange(pos, pos + 4)[3]);
    assert((n % 256) + 256 * ((n / 256) % 256) + 65536 * ((n / 65536) % 256) + 16777216 * ((n
        / 16777216) % 256) == n) by (nonlinear_arith)
        requires
            n < 0x1_0000_0000,
    ;
}

proof fn lemma_encode_len(t: TreeView)
    ensures
        encode(t).len() >= 1,
{
}

/// Decoding an encoded tree placed anywhere in a buffer gives the tree back,
/// and the position just after its encoding.
proof fn lemma_decode_encode(t: TreeView, s: Seq<u8>, pos: int)
    requires
        fits_u32(t),
        0 <= pos,
        pos + encode(t).len() <= s.len(),
        s.subrange(pos, pos + encode(t).len()) == encode(t),
    ensures
        decode_at(s, pos) == Some((t, pos + encode(t).len())),
    decreases t, 1int,
{
    let e = encode(t);
    assert(s[pos] == e[0]) by {
        assert(s.subrange(pos, pos + e.len())[0] == s[pos]);
    }
    match t {
        TreeView::Null => {},
        TreeView::Scalar(b) => {
            assert(s.subrange(pos + 1, pos + 5) == le32(b.len())) by {
                assert(s.subrange(pos + 1, pos + 5) =~= e.subrange(1, 5));
            }
            lemma_le32_roundtrip(b.len(), s, pos + 1);
            assert(s.subrange(pos + 5, pos + 5 + b.len()) =~= b) by {
                assert(s.subrange(pos + 5, pos + 5 + b.len()) =~= e.subrange(5, 5 + b.len() as int));
            }
        },
        TreeView::Sequence(items) => {
            assert(s.subrange(pos + 1, pos + 5) == le32(items.len())) by {
                assert(s.subrange(pos + 1, pos + 5) =~= e.subrange(1, 5));
            }
            lemma_le32_roundtrip(items.len(), s, pos + 1);
            let ei = encode_items(items);
            assert(s.subrange(pos + 5, pos + 5 + ei.len()) =~= ei) by {
                assert(s.subrange(pos + 5, pos + 5 + ei.len()) =~= e.subrange(5, 5 + ei.len() as int));
            }
            lemma_decode_encode_items(items, s, pos + 5);
        },
        TreeView::Mapping(pairs) => {
            assert(s.subrange(pos + 1, pos + 5) == le32(pairs.len())) by {
                assert(s.subrange(pos + 1, pos + 5) =~= e.subrange(1, 5));
            }
            lemma_le32_roundtrip(pairs.len(), s, pos + 1);
            let ep = encode_pairs(pairs);
            assert(s.subrange(pos + 5, pos + 5 + ep.len()) =~= ep) by {
                assert(s.subrange(pos + 5, pos + 5 + ep.len()) =~= e.subrange(5, 5 + ep.len() as int));
            }
            lemma_decode_encode_pairs(pairs, s, pos + 5);
        },
    }
}

proof fn lemma_decode_encode_items(items: Seq<TreeView>, s: Seq<u8>, pos: int)
    requires
        forall|i: int| 0 <= i < items.len() ==> #[trigger] fits_u32(items[i]),
        0 <= pos,
        pos + encode_items(items).len() <= s.len(),
        s.subrange(pos, pos + encode_items(items).len()) == encode_items(items),
    ensures
        decode_items(s, pos, items.len()) == Some((items, pos + encode_items(items).len())),
    decreases items, 0int,
{
    if items.len() == 0 {
        assert(items =~= Seq::<TreeView>::empty());
    } else {
        let e = encode_items(items);
        let e0 = encode(items[0]);
        let rest = items.subrange(1, items.len() as int);
        let er = encode_items(rest);
        assert(e == e0 + er);
        assert(s.subrange(pos, pos + e0.len()) =~= e0) by {
            assert(s.subrange(pos, pos + e0.len()) =~= e.subrange(0, e0.len() as int));
        }
        lemma_encode_len(items[0]);
        lemma_decode_encode(items[0], s, pos);
        assert forall|i: int| 0 <= i < rest.len() implies #[trigger] fits_u32(rest[i]) by {
            assert(rest[i] == items[i + 1]);
        }
        assert(s.subrange(pos + e0.len(), pos + e0.len() + er.len()) =~= er) by {
            assert(s.subrange(pos + e0.len(), pos + e0.len() + er.len()) =~= e.subrange(
                e0.len() as int,
                e.len() as int,
            ));
        }
        lemma_decode_encode_items(rest, s, pos + e0.len());
        assert(seq![items[0]] + rest =~= items);
    }
}

proof fn lemma_decode_encode_pairs(pairs: Seq<(Seq<u8>, TreeView)>, s: Seq<u8>, pos: int)
    requires
        forall|i: int|
            0 <= i < pairs.len() ==> (#[trigger] pairs[i]).0.len() < 0x1_0000_0000 && fits_u32(
                pairs[i].1,
            ),
        0 <= pos,
        pos + encode_pairs(pairs).len() <= s.len(),
        s.subrange(pos, pos + encode_pairs(pairs).len()) == encode_pairs(pairs),
    ensures
        decode_pairs(s, pos, pairs.len()) == Some((pairs, pos + encode_pairs(pairs).len())),
    decreases pairs, 0int,
{
    if pairs.len() == 0 {
        assert(pairs =~= Seq::<(Seq<u8>, TreeView)>::empty());
    } else {
        let e = encode_pairs(pairs);
        let k = pairs[0].0;
        let v = pairs[0].1;
        let ev = encode(v);
        let rest = pairs.subrange(1, pairs.len() as int);
        let er = encode_pairs(rest);
        assert(e == le32(k.len()) + k + ev + er);
        assert(s.subrange(pos, pos + 4) =~= le32(k.len())) by {
            assert(s.subrange(pos, pos + 4) =~= e.subrange(0, 4));
        }
        lemma_le32_roundtrip(k.len(), s, pos);
        assert(s.subrange(pos + 4, pos + 4 + k.len()) =~= k) by {
            assert(s.subrange(pos + 4, pos + 4 + k.len()) =~= e.subrange(4, 4 + k.len() as int));
        }
        let vp = pos + 4 + k.len();
        assert(s.subrange(vp, vp + ev.len()) =~= ev) by {
            assert(s.subrange(vp, vp + ev.len()) =~= e.subrange(4 + k.len() as int, 4 + k.len() + ev.len() as int));
        }
        lemma_encode_len(v);
        lemma_decode_encode(v, s, vp);
        assert forall|i: int| 0 <= i < rest.len() implies (#[trigger] rest[i]).0.len() < 0x1_0000_0000
            && fits_u32(rest[i].1) by {
            assert(rest[i] == pairs[i + 1]);
        }
        assert(s.subrange(vp + ev.len(), vp + ev.len() + er.len()) =~= er) by {
            assert(s.subrange(vp + ev.len(), vp + ev.len() + er.len()) =~= e.subrange(
                4 + k.len() + ev.len() as int,
                e.len() as int,
            ));
        }
        lemma_decode_encode_pairs(rest, s, vp + ev.len());
        assert(seq![(k, v)] + rest =~= pairs);
    }
}

/// The wire format round-trips: decoding the encoding of a tree whose lengths
/// fit in 32 bits gives the same tree back, having read exactly its encoding.
pub proof fn lemma_wire_roundtrip(t: TreeView)
    requires
        fits_u32(t),
    ensures
        decode_at(encode(t), 0) == Some((t, encode(t).len() as int)),
{
    assert(encode(t).subrange(0, encode(t).len() as int) =~= encode(t));
    lemma_decode_encode(t, encode(t), 0);
}

/// A tree's encoding followed by any bytes decodes to the tree, ending just
/// after its encoding: what follows is left as it is.
pub proof fn lemma_wire_roundtrip_then(t: TreeView, rest: Seq<u8>)
    requires
        fits_u32(t),
    ensures
        decode_at(encode(t) + rest, 0) == Some((t, encode(t).len() as int)),
{
    assert((encode(t) + rest).subrange(0, encode(t).len() as int) =~= encode(t));
    lemma_decode_encode(t, encode(t) + rest, 0);
}

/// Models of a sequence of trees.
pub open spec fn views(v: Seq<Tree>) -> Seq<TreeView> {
    Seq::new(v.len(), |i: int| v[i]@)
}

/// Models of a sequence of mapping entries.
pub open spec fn pair_views(v: Seq<(Vec<u8>, Tree)>) -> Seq<(Seq<u8>, TreeView)> {
    Seq::new(v.len(), |i: int| (v[i].0@, v[i].1@))
}

/// `prefix` placed before the decoded items, if decoding succeeded.
pub open spec fn prepend_items(prefix: Seq<TreeView>, r: Option<(Seq<TreeView>, int)>) -> Option<(Seq<TreeView>, int)> {
    match r {
        Some((ts, q)) => Some((prefix + ts, q)),
        None => None,
    }
}

/// `prefix` placed before the decoded entries, if decoding succeeded.
pub open spec fn prepend_pairs(
    prefix: Seq<(Seq<u8>, TreeView)>,
    r: Option<(Seq<(Seq<u8>, TreeView)>, int)>,
) -> Option<(Seq<(Seq<u8>, TreeView)>, int)> {
    match r {
        Some((ps, q)) => Some((prefix + ps, q)),
        None => None,
    }
}

proof fn lemma_encode_items_push(a: Seq<TreeView>, x: TreeView)
    ensures
        encode_items(a.push(x)) == encode_items(a) + encode(x),
    decreases a.len(),
{
    if a.len() == 0 {
        let e = Seq::<TreeView>::empty();
        assert(a.push(x).subrange(1, 1) =~= e);
        assert(encode_items(e) == Seq::<u8>::empty());
        assert(a.push(x)[0] == x);
        assert(encode_items(a.push(x)) == encode(x) + encode_items(e));
        assert(encode_items(a) == Seq::<u8>::empty());
        assert(encode_items(a.push(x)) =~= encode_items(a) + encode(x));
    } else {
        let rest = a.subrange(1, a.len() as int);
        assert(a.push(x).subrange(1, a.len() as int + 1) =~= rest.push(x));
        lemma_encode_items_push(rest, x);
        assert(encode_items(a.push(x)) =~= encode_items(a) + encode(x));
    }
}

proof fn lemma_encode_pairs_push(a: Seq<(Seq<u8>, TreeView)>, x: (Seq<u8>, TreeView))
    ensures
        encode_pairs(a.push(x)) == encode_pairs(a) + (le32(x.0.len()) + x.0 + encode(x.1)),
    decreases a.len(),
{
    if a.len() == 0 {
        let e = Seq::<(Seq<u8>, TreeView)>::empty();
        assert(a.push(x).subrange(1, 1) =~= e);
        assert(encode_pairs(e) == Seq::<u8>::empty());
        assert(a.push(x)[0] == x);
        assert(encode_pairs(a.push(x)) == le32(x.0.len()) + x.0 + encode(x.1) + encode_pairs(e));
        assert(encode_pairs(a) == Seq::<u8>::empty());
        assert(encode_pairs(a.push(x)) =~= encode_pairs(a) + (le32(x.0.len()) + x.0 + encode(x.1)));
    } else {
        let rest = a.subrange(1, a.len() as int);
        assert(a.push(x).subrange(1, a.len() as int + 1) =~= rest.push(x));
        lemma_encode_pairs_push(rest, x);
        assert(encode_pairs(a.push(x)) =~= encode_pairs(a) + (le32(x.0.len()) + x.0 + encode(x.1)));
    }
}

impl Tree {
    /// Encodes the tree in the wire format.
    pub fn serialize(&self) -> (r: Vec<u8>)
        ensures
            r@ == encode(self@),
    {
        let mut buf: Vec<u8> = Vec::new();
        write_value(self, &mut buf);
        assert(buf@ =~= encode(self@));
        buf
    }

    /// Decodes a tree from the start of `bytes`; bytes after it are ignored.
    /// `None` when no tree is encoded there.
    pub fn deserialize(bytes: &[u8]) -> (r: Option<Self>)
        ensures
            match decode_at(bytes@, 0) {
                Some((t, _)) => r matches Some(v) && v@ == t,
                None => r is None,
            },
    {
        match read_value(bytes, 0) {
            Some((value, _)) => Some(value),
            None => None,
        }
    }
}

/// Appends the little-endian bytes of the low 32 bits of `n`.
fn push_u32_le(buf: &mut Vec<u8>, n: usize)
    ensures
        final(buf)@ == old(buf)@ + le32(n as nat),
{
    buf.push((n % 256) as u8);
    buf.push(((n / 256) % 256) as u8);
    buf.push(((n / 65536) % 256) as u8);
    buf.push(((n / 16777216) % 256) as u8);
    assert(final(buf)@ =~= old(buf)@ + le32(n as nat));
}

/// Appends bytes one by one.
fn push_bytes(buf: &mut Vec<u8>, b: &[u8])
    ensures
        final(buf)@ == old(buf)@ + b@,
{
    let mut i: usize = 0;
    while i < b.len()
        invariant
            i <= b@.len(),
            buf@ == old(buf)@ + b@.subrange(0, i as int),
        decreases b@.len() - i,
    {
        buf.push(b[i]);
        i = i + 1;
        assert(buf@ =~= old(buf)@ + b@.subrange(0, i as int));
    }
    assert(b@.subrange(0, b@.len() as int) =~= b@);
}

#[verifier::loop_isolation(false)]
fn write_value(value: &Tree, buf: &mut Vec<u8>)
    ensures
        final(buf)@ == old(buf)@ + encode(value@),
    decreases value,
{
    match value {
        Tree::Null => {
            buf.push(TAG_NULL);
        },
        Tree::Scalar(b) => {
            buf.push(TAG_SCALAR);
            push_u32_le(buf, b.len());
            push_bytes(buf, b.as_slice());
            assert(final(buf)@ =~= old(buf)@ + encode(value@));
        },
        Tree::Sequence(items) => {
            buf.push(TAG_SEQUENCE);
            push_u32_le(buf, items.len());
            let ghost head = buf@;
            let ghost v = value@->Sequence_0;
            assert(v =~= views(items@));
            let mut i: usize = 0;
            while i < items.len()
                invariant
                    i <= items@.len(),
                    buf@ == head + encode_items(v.take(i as int)),
                decreases items@.len() - i,
            {
                proof {
                    vstd::std_specs::vec::axiom_vec_index_decreases(*items, i as int);
                    assert(decreases_to!(*value => items@[i as int]));
                }
                write_value(&items[i], buf);
                proof {
                    lemma_encode_items_push(v.take(i as int), v[i as int]);
                    assert(v.take(i as int).push(v[i as int]) =~= v.take(i + 1));
                }
                i = i + 1;
            }
            assert(v.take(items@.len() as int) =~= v);
            assert(final(buf)@ =~= old(buf)@ + encode(value@));
        },
        Tree::Mapping(pairs) => {
            buf.push(TAG_MAPPING);
            push_u32_le(buf, pairs.len());
            let ghost head = buf@;
            let ghost v = value@->Mapping_0;
            assert(v =~= pair_views(pairs@));
            let mut i: usize = 0;
            while i < pairs.len()
                invariant
                    i <= pairs@.len(),
                    buf@ == head + encode_pairs(v.take(i as int)),
                decreases pairs@.len() - i,
            {
                proof {
                    vstd::std_specs::vec::axiom_vec_index_decreases(*pairs, i as int);
                    assert(decreases_to!(*value => pairs@[i as int].1));
                }
                let ghost before = buf@;
                push_u32_le(buf, pairs[i].0.len());
                push_bytes(buf, pairs[i].0.as_slice());
                write_value(&pairs[i].1, buf);
                proof {
                    lemma_encode_pairs_push(v.take(i as int), v[i as int]);
                    assert(v.take(i as int).push(v[i as int]) =~= v.take(i + 1));
                    assert(buf@ =~= before + (le32(v[i as int].0.len()) + v[i as int].0 + encode(v[i as int].1)));
                }
                i = i + 1;
            }
            assert(v.take(pairs@.len() as int) =~= v);
            assert(final(buf)@ =~= old(buf)@ + encode(value@));
        },
    }
}

/// Reads the little-endian 32-bit number at `pos`; `None` when fewer than 4 bytes remain.
fn read_u32(bytes: &[u8], pos: usize) -> (r: Option<usize>)
    requires
        pos <= bytes@.len(),
    ensures
        match r {
            Some(n) => pos + 4 <= bytes@.len() && n == le32_at(bytes@, pos as int),
            None => pos + 4 > bytes@.len(),
        },
{
    if split_at(bytes, pos, 4).is_none() {
        return None;
    }
    let n = (bytes[pos] as usize) + 256 * (bytes[pos + 1] as usize) + 65536 * (bytes[pos + 2] as usize)
        + 16777216 * (bytes[pos + 3] as usize);
    Some(n)
}

/// The position `n` bytes after `pos`, if the buffer holds them.
fn split_at(bytes: &[u8], pos: usize, n: usize) -> (r: Option<usize>)
    requires
        pos <= bytes@.len(),
    ensures
        match r {
            Some(end) => end == pos + n && end <= bytes@.len(),
            None => pos + n > bytes@.len(),
        },
{
    if bytes.len() - pos >= n {
        Some(pos + n)
    } else {
        None
    }
}

/// Decodes the tree that starts at `pos`, with the position after it.
#[verifier::loop_isolation(false)]
fn read_value(bytes: &[u8], pos: usize) -> (r: Option<(Tree, usize)>)
    ensures
        match decode_at(bytes@, pos as int) {
            Some((t, p)) => r matches Some((v, q)) && v@ == t && q == p,
            None => r is None,
        },
        r matches Some((_, q)) ==> pos < q <= bytes@.len(),
    decreases bytes@.len() - pos,
{
    if pos >= bytes.len() {
        return None;
    }
    let tag = bytes[pos];
    if tag == TAG_NULL {
        return Some((Tree::Null, pos + 1));
    }
    if tag != TAG_SCALAR && tag != TAG_SEQUENCE && tag != TAG_MAPPING {
        return None;
    }
    let n = match read_u32(bytes, pos + 1) {
        Some(n) => n,
        None => return None,
    };
    let start = pos + 5;
    if tag == TAG_SCALAR {
        let end = match split_at(bytes, start, n) {
            Some(end) => end,
            None => return None,
        };
        let data = vstd::slice::slice_to_vec(vstd::slice::slice_subrange(bytes, start, end));
        return Some((Tree::Scalar(data), end));
    }
    let ghost s = bytes@;
    if tag == TAG_SEQUENCE {
        let mut items: Vec<Tree> = Vec::new();
        let mut p = start;
        let mut i: usize = 0;
        while i < n
            invariant
                i <= n,
                start <= p <= s.len(),
                decode_items(s, start as int, n as nat) == prepend_items(
                    views(items@),
                    decode_items(s, p as int, (n - i) as nat),
                ),
            decreases n - i,
        {
            let (item, q) = match read_value(bytes, p) {
                Some(x) => x,
                None => return None,
            };
            proof {
                assert(views(items@.push(item)) =~= views(items@).push(item@));
                assert(views(items@).push(item@) + (decode_items(s, q as int, (n - i - 1) as nat)->0).0
                    =~= views(items@) + (seq![item@] + (decode_items(s, q as int, (n - i - 1) as nat)->0).0));
            }
            items.push(item);
            p = q;
            i = i + 1;
        }
        let r = Tree::Sequence(items);
        assert(r@->Sequence_0 =~= views(items@));
        return Some((r, p));
    }
    let mut pairs: Vec<(Vec<u8>, Tree)> = Vec::new();
    let mut p = start;
    let mut i: usize = 0;
    while i < n
        invariant
            i <= n,
            start <= p <= s.len(),
            decode_pairs(s, start as int, n as nat) == prepend_pairs(
                pair_views(pairs@),
                decode_pairs(s, p as int, (n - i) as nat),
            ),
        decreases n - i,
    {
        let klen = match read_u32(bytes, p) {
            Some(k) => k,
            None => return None,
        };
        let kend = match split_at(bytes, p + 4, klen) {
            Some(e) => e,
            None => return None,
        };
        let key = vstd::slice::slice_to_vec(vstd::slice::slice_subrange(bytes, p + 4, kend));
        let (val, q) = match read_value(bytes, kend) {
            Some(x) => x,
            None => return None,
        };
        proof {
            let entry = (key@, val@);
            assert(pair_views(pairs@.push((key, val))) =~= pair_views(pairs@).push(entry));
            assert(pair_views(pairs@).push(entry) + (decode_pairs(s, q as int, (n - i - 1) as nat)->0).0
                =~= pair_views(pairs@) + (seq![entry] + (decode_pairs(s, q as int, (n - i - 1) as nat)->0).0));
        }
        pairs.push((key, val));
        p = q;
        i = i + 1;
    }
    let r = Tree::Mapping(pairs);
    assert(r@->Mapping_0 =~= pair_views(pairs@));
    Some((r, p))
}

} // verus!
