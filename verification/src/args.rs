//! Named arguments handed to a store: text keys, tree values, each key once,
//! in key order.
use vstd::prelude::*;
use vstd::utf8::encode_utf8;
use crate::provided::{Tree, TreeView, copy_tree};
use crate::text::str_eq;

verus! {

/// Position of the first entry with key `k`, or -1.
pub open spec fn key_pos(a: Seq<(Seq<char>, TreeView)>, k: Seq<char>) -> int
    decreases a.len(),
{
    if a.len() == 0 {
        -1
    } else if a[0].0 == k {
        0
    } else {
        let p = key_pos(a.subrange(1, a.len() as int), k);
        if p < 0 {
            -1
        } else {
            p + 1
        }
    }
}

/// The value under key `k`.
pub open spec fn args_lookup(a: Seq<(Seq<char>, TreeView)>, k: Seq<char>) -> Option<TreeView> {
    let p = key_pos(a, k);
    if p < 0 {
        None
    } else {
        Some(a[p].1)
    }
}

/// `a` comes strictly before `b` in byte-wise lexicographic order (a proper
/// prefix comes first).
pub open spec fn bytes_before(a: Seq<u8>, b: Seq<u8>) -> bool
    decreases a.len(),
{
    if a.len() == 0 {
        b.len() > 0
    } else if b.len() == 0 {
        false
    } else if a[0] != b[0] {
        a[0] < b[0]
    } else {
        bytes_before(a.subrange(1, a.len() as int), b.subrange(1, b.len() as int))
    }
}

/// Key `a` sorts before key `b` as `str` keys do: by their UTF-8 bytes.
pub open spec fn key_before(a: Seq<char>, b: Seq<char>) -> bool {
    bytes_before(encode_utf8(a), encode_utf8(b))
}

/// Position of the first entry whose key sorts after `k`, or the length.
pub open spec fn sorted_pos(a: Seq<(Seq<char>, TreeView)>, k: Seq<char>) -> int
    decreases a.len(),
{
    if a.len() == 0 {
        0
    } else if key_before(k, a[0].0) {
        0
    } else {
        sorted_pos(a.subrange(1, a.len() as int), k) + 1
    }
}

/// The keys of `a` are in strictly increasing order.
pub open spec fn keys_sorted(a: Seq<(Seq<char>, TreeView)>) -> bool {
    forall|i: int, j: int| 0 <= i < j < a.len() ==> key_before(#[trigger] a[i].0, #[trigger] a[j].0)
}

/// `a` with `k` bound to `v`: the existing entry replaced in place, else a new
/// entry before the first key that sorts after `k`.
pub open spec fn args_insert(a: Seq<(Seq<char>, TreeView)>, k: Seq<char>, v: TreeView) -> Seq<(Seq<char>, TreeView)> {
    let p = key_pos(a, k);
    if p < 0 {
        a.insert(sorted_pos(a, k), (k, v))
    } else {
        a.update(p, (k, v))
    }
}

/// No byte string sorts before itself.
proof fn lemma_bytes_irreflexive(a: Seq<u8>)
    ensures
        !bytes_before(a, a),
    decreases a.len(),
{
    if a.len() > 0 {
        lemma_bytes_irreflexive(a.subrange(1, a.len() as int));
    }
}

/// Two different byte strings are ordered one way, and only one way.
proof fn lemma_bytes_total(a: Seq<u8>, b: Seq<u8>)
    ensures
        bytes_before(a, b) ==> !bytes_before(b, a),
        a != b ==> bytes_before(a, b) || bytes_before(b, a),
    decreases a.len(),
{
    if a.len() > 0 && b.len() > 0 {
        let ta = a.subrange(1, a.len() as int);
        let tb = b.subrange(1, b.len() as int);
        lemma_bytes_total(ta, tb);
        if a != b && a[0] == b[0] && ta == tb {
            assert forall|i: int| 0 <= i < a.len() implies a[i] == b[i] by {
                if i > 0 {
                    assert(a[i] == ta[i - 1] && b[i] == tb[i - 1]);
                }
            }
            assert(a =~= b);
        }
    } else if a.len() == 0 && b.len() == 0 {
        assert(a =~= b);
    }
}

/// Byte order is transitive.
proof fn lemma_bytes_transitive(a: Seq<u8>, b: Seq<u8>, c: Seq<u8>)
    requires
        bytes_before(a, b),
        bytes_before(b, c),
    ensures
        bytes_before(a, c),
    decreases a.len(),
{
    if a.len() > 0 && a[0] == b[0] && b[0] == c[0] {
        lemma_bytes_transitive(a.subrange(1, a.len() as int), b.subrange(1, b.len() as int), c.subrange(1, c.len() as int));
    }
}

/// Key order is a strict total order.
proof fn lemma_key_order(a: Seq<char>, b: Seq<char>, c: Seq<char>)
    ensures
        !key_before(a, a),
        key_before(a, b) ==> !key_before(b, a),
        a != b ==> key_before(a, b) || key_before(b, a),
        key_before(a, b) && key_before(b, c) ==> key_before(a, c),
{
    lemma_bytes_irreflexive(encode_utf8(a));
    lemma_bytes_total(encode_utf8(a), encode_utf8(b));
    if key_before(a, b) && key_before(b, c) {
        lemma_bytes_transitive(encode_utf8(a), encode_utf8(b), encode_utf8(c));
    }
    if a != b {
        vstd::utf8::encode_utf8_decode_utf8(a);
        vstd::utf8::encode_utf8_decode_utf8(b);
    }
}

/// Whether `a` sorts before `b` by their bytes.
fn bytes_lt(a: &[u8], b: &[u8]) -> (r: bool)
    ensures
        r == bytes_before(a@, b@),
{
    let mut i: usize = 0;
    assert(a@.subrange(0, a@.len() as int) =~= a@);
    assert(b@.subrange(0, b@.len() as int) =~= b@);
    while i < a.len() && i < b.len() && a[i] == b[i]
        invariant
            i <= a@.len(),
            i <= b@.len(),
            bytes_before(a@, b@) == bytes_before(a@.subrange(i as int, a@.len() as int), b@.subrange(i as int, b@.len() as int)),
        decreases a@.len() - i,
    {
        proof {
            let x = a@.subrange(i as int, a@.len() as int);
            let y = b@.subrange(i as int, b@.len() as int);
            assert(x.subrange(1, x.len() as int) =~= a@.subrange(i + 1, a@.len() as int));
            assert(y.subrange(1, y.len() as int) =~= b@.subrange(i + 1, b@.len() as int));
        }
        i = i + 1;
    }
    if i == a.len() {
        i < b.len()
    } else if i == b.len() {
        false
    } else {
        a[i] < b[i]
    }
}

proof fn lemma_key_pos(a: Seq<(Seq<char>, TreeView)>, k: Seq<char>)
    ensures
        -1 <= key_pos(a, k) < a.len(),
        key_pos(a, k) >= 0 ==> a[key_pos(a, k)].0 == k,
        forall|i: int| 0 <= i < key_pos(a, k) ==> a[i].0 != k,
        key_pos(a, k) < 0 ==> forall|i: int| 0 <= i < a.len() ==> a[i].0 != k,
    decreases a.len(),
{
    if a.len() > 0 && a[0].0 != k {
        let rest = a.subrange(1, a.len() as int);
        lemma_key_pos(rest, k);
        assert forall|i: int| 0 < i < a.len() implies a[i] == rest[i - 1] by {}
    }
}

/// The first entry with key `k` is at `i`.
proof fn lemma_key_pos_first(a: Seq<(Seq<char>, TreeView)>, k: Seq<char>, i: int)
    requires
        0 <= i < a.len(),
        a[i].0 == k,
        forall|j: int| 0 <= j < i ==> a[j].0 != k,
    ensures
        key_pos(a, k) == i,
{
    lemma_key_pos(a, k);
}

/// No entry has key `k`.
proof fn lemma_key_pos_absent(a: Seq<(Seq<char>, TreeView)>, k: Seq<char>)
    requires
        forall|j: int| 0 <= j < a.len() ==> a[j].0 != k,
    ensures
        key_pos(a, k) == -1,
{
    lemma_key_pos(a, k);
}

proof fn lemma_sorted_pos_range(a: Seq<(Seq<char>, TreeView)>, k: Seq<char>)
    ensures
        0 <= sorted_pos(a, k) <= a.len(),
    decreases a.len(),
{
    if a.len() > 0 && !key_before(k, a[0].0) {
        lemma_sorted_pos_range(a.subrange(1, a.len() as int), k);
    }
}

/// Binding `k` to `v` and looking a key up: `k` gives `v`, any other key what
/// it gave before.
pub proof fn law_lookup_after_insert(a: Seq<(Seq<char>, TreeView)>, k: Seq<char>, v: TreeView, k2: Seq<char>)
    ensures
        args_lookup(args_insert(a, k, v), k2) == if k2 == k {
            Some(v)
        } else {
            args_lookup(a, k2)
        },
{
    lemma_key_pos(a, k);
    lemma_key_pos(a, k2);
    let p = key_pos(a, k);
    let q = key_pos(a, k2);
    let b = args_insert(a, k, v);
    if p < 0 {
        let i = sorted_pos(a, k);
        lemma_sorted_pos_range(a, k);
        assert(b == a.insert(i, (k, v)));
        assert(b[i] == (k, v));
        if k2 == k {
            assert forall|j: int| 0 <= j < i implies b[j].0 != k by {
                assert(b[j] == a[j]);
            }
            lemma_key_pos_first(b, k, i);
        } else if q < 0 {
            assert forall|j: int| 0 <= j < b.len() implies b[j].0 != k2 by {
                if j < i {
                    assert(b[j] == a[j]);
                } else if j > i {
                    assert(b[j] == a[j - 1]);
                }
            }
            lemma_key_pos_absent(b, k2);
        } else {
            let q2 = if q < i { q } else { q + 1 };
            assert(b[q2] == a[q]);
            assert forall|j: int| 0 <= j < q2 implies b[j].0 != k2 by {
                if j < i {
                    assert(b[j] == a[j]);
                } else if j > i {
                    assert(b[j] == a[j - 1]);
                }
            }
            lemma_key_pos_first(b, k2, q2);
        }
    } else {
        assert(b == a.update(p, (k, v)));
        if k2 == k {
            assert forall|j: int| 0 <= j < p implies b[j].0 != k by {
                assert(b[j] == a[j]);
            }
            lemma_key_pos_first(b, k, p);
        } else if q < 0 {
            assert forall|j: int| 0 <= j < b.len() implies b[j].0 != k2 by {
                if j != p {
                    assert(b[j] == a[j]);
                }
            }
            lemma_key_pos_absent(b, k2);
        } else {
            assert(q != p);
            assert(b[q] == a[q]);
            assert forall|j: int| 0 <= j < q implies b[j].0 != k2 by {
                if j != p {
                    assert(b[j] == a[j]);
                }
            }
            lemma_key_pos_first(b, k2, q);
        }
    }
}

/// The first key sorting after `k` is at `i` when none before `i` does and the one at `i` does.
proof fn lemma_sorted_pos(a: Seq<(Seq<char>, TreeView)>, k: Seq<char>, i: int)
    requires
        0 <= i <= a.len(),
        forall|j: int| 0 <= j < i ==> !key_before(k, a[j].0),
        i < a.len() ==> key_before(k, a[i].0),
    ensures
        sorted_pos(a, k) == i,
    decreases a.len(),
{
    if a.len() > 0 && i > 0 {
        let rest = a.subrange(1, a.len() as int);
        assert forall|j: int| 0 <= j < i - 1 implies !key_before(k, rest[j].0) by {
            assert(rest[j] == a[j + 1]);
        }
        if i < a.len() {
            assert(rest[i - 1] == a[i]);
        }
        lemma_sorted_pos(rest, k, i - 1);
    }
}

/// Putting `k` at `i`, after the keys that sort before it and before the others, keeps the keys sorted.
proof fn lemma_sorted_insert(a: Seq<(Seq<char>, TreeView)>, k: Seq<char>, v: TreeView, i: int)
    requires
        keys_sorted(a),
        0 <= i <= a.len(),
        forall|j: int| 0 <= j < i ==> key_before(a[j].0, k),
        forall|j: int| i <= j < a.len() ==> key_before(k, a[j].0),
    ensures
        keys_sorted(a.insert(i, (k, v))),
{
    let b = a.insert(i, (k, v));
    assert forall|x: int, y: int| 0 <= x < y < b.len() implies key_before(#[trigger] b[x].0, #[trigger] b[y].0) by {
        if y < i {
            assert(b[x] == a[x] && b[y] == a[y]);
        } else if y == i {
            assert(b[x] == a[x]);
        } else if x < i {
            assert(b[x] == a[x] && b[y] == a[y - 1]);
            lemma_key_order(a[x].0, k, a[y - 1].0);
        } else if x == i {
            assert(b[y] == a[y - 1]);
        } else {
            assert(b[x] == a[x - 1] && b[y] == a[y - 1]);
        }
    }
}

/// Arguments for a store call, in key order.
pub struct Args {
    entries: Vec<(String, Tree)>,
}

impl Args {
    /// The keys are in strictly increasing order.
    #[verifier::type_invariant]
    spec fn sorted(self) -> bool {
        keys_sorted(Seq::new(self.entries@.len(), |i: int| (self.entries@[i].0@, self.entries@[i].1@)))
    }
}

impl View for Args {
    type V = Seq<(Seq<char>, TreeView)>;

    closed spec fn view(&self) -> Seq<(Seq<char>, TreeView)> {
        Seq::new(self.entries@.len(), |i: int| (self.entries@[i].0@, self.entries@[i].1@))
    }
}

impl Args {
    /// No arguments.
    pub fn new() -> (r: Self)
        ensures
            r@ == Seq::<(Seq<char>, TreeView)>::empty(),
    {
        let r = Args { entries: Vec::new() };
        assert(r@ =~= Seq::<(Seq<char>, TreeView)>::empty());
        r
    }

    /// Number of arguments.
    pub fn len(&self) -> (r: usize)
        ensures
            r == self@.len(),
    {
        self.entries.len()
    }

    /// No argument is set.
    pub fn is_empty(&self) -> (r: bool)
        ensures
            r == (self@.len() == 0),
    {
        self.entries.len() == 0
    }

    /// Binds `key` to `value`, replacing an earlier binding of the same key; a
    /// new key takes its place in key order.
    pub fn insert(&mut self, key: String, value: Tree)
        ensures
            final(self)@ == args_insert(old(self)@, key@, value@),
            keys_sorted(final(self)@),
    {
        proof {
            use_type_invariant(&*self);
        }
        let ghost a = self@;
        proof {
            lemma_key_pos(a, key@);
        }
        let mut entries: Vec<(String, Tree)> = Vec::new();
        std::mem::swap(&mut entries, &mut self.entries);
        assert(Seq::new(entries@.len(), |j: int| (entries@[j].0@, entries@[j].1@)) =~= a);
        let mut i: usize = 0;
        while i < entries.len()
            invariant
                Seq::new(entries@.len(), |j: int| (entries@[j].0@, entries@[j].1@)) == a,
                a == old(self)@,
                keys_sorted(a),
                i <= entries@.len(),
                forall|j: int| 0 <= j < i ==> a[j].0 != key@ && !key_before(key@, a[j].0),
            decreases entries@.len() - i,
        {
            assert(a[i as int].0 == entries@[i as int].0@);
            if str_eq(entries[i].0.as_str(), key.as_str()) {
                proof {
                    lemma_key_pos(a, key@);
                }
                assert(key_pos(a, key@) == i);
                let ghost r = args_insert(a, key@, value@);
                entries.set(i, (key, value));
                proof {
                    assert(Seq::new(entries@.len(), |j: int| (entries@[j].0@, entries@[j].1@)) =~= r);
                    assert forall|x: int, y: int| 0 <= x < y < r.len() implies key_before(#[trigger] r[x].0, #[trigger] r[y].0) by {
                        assert(r[x].0 == a[x].0 && r[y].0 == a[y].0);
                    }
                }
                self.entries = entries;
                assert(self@ =~= r);
                return;
            }
            let before = bytes_lt(key.as_str().as_bytes(), entries[i].0.as_str().as_bytes());
            if before {
                proof {
                    assert(key_before(key@, a[i as int].0));
                    assert forall|j: int| i <= j < a.len() implies a[j].0 != key@ by {
                        if j > i {
                            assert(key_before(a[i as int].0, a[j].0));
                            lemma_key_order(key@, a[i as int].0, a[j].0);
                        }
                        lemma_key_order(key@, a[j].0, a[j].0);
                    }
                    lemma_key_pos(a, key@);
                    lemma_sorted_pos(a, key@, i as int);
                }
                let ghost r = args_insert(a, key@, value@);
                entries.insert(i, (key, value));
                proof {
                    assert(Seq::new(entries@.len(), |j: int| (entries@[j].0@, entries@[j].1@)) =~= r);
                    assert forall|j: int| 0 <= j < i implies key_before(a[j].0, key@) by {
                        lemma_key_order(a[j].0, key@, key@);
                    }
                    assert forall|j: int| i <= j < a.len() implies key_before(key@, a[j].0) by {
                        if j > i {
                            assert(key_before(a[i as int].0, a[j].0));
                            lemma_key_order(key@, a[i as int].0, a[j].0);
                        }
                    }
                    lemma_sorted_insert(a, key@, value@, i as int);
                }
                self.entries = entries;
                assert(self@ =~= r);
                return;
            }
            i = i + 1;
        }
        proof {
            lemma_key_pos(a, key@);
            lemma_sorted_pos(a, key@, a.len() as int);
            assert forall|j: int| 0 <= j < a.len() implies key_before(a[j].0, key@) by {
                lemma_key_order(a[j].0, key@, key@);
                lemma_key_order(key@, a[j].0, a[j].0);
            }
            lemma_sorted_insert(a, key@, value@, a.len() as int);
        }
        let ghost r = args_insert(a, key@, value@);
        entries.push((key, value));
        assert(Seq::new(entries@.len(), |j: int| (entries@[j].0@, entries@[j].1@)) =~= r);
        self.entries = entries;
        assert(self@ =~= r);
    }

    /// The value bound to `key`.
    pub fn get(&self, key: &str) -> (r: Option<&Tree>)
        ensures
            match args_lookup(self@, key@) {
                Some(v) => r matches Some(t) && t@ == v,
                None => r is None,
            },
    {
        proof {
            lemma_key_pos(self@, key@);
        }
        let mut i: usize = 0;
        while i < self.entries.len()
            invariant
                i <= self.entries@.len(),
                forall|j: int| 0 <= j < i ==> self@[j].0 != key@,
            decreases self.entries@.len() - i,
        {
            if str_eq(self.entries[i].0.as_str(), key) {
                proof {
                    lemma_key_pos(self@, key@);
                    assert(self@[i as int].0 == key@);
                }
                assert(key_pos(self@, key@) == i);
                return Some(&self.entries[i].1);
            }
            i = i + 1;
        }
        None
    }

    /// The key and value of argument `i`, in key order.
    pub fn entry(&self, i: usize) -> (r: (&str, &Tree))
        requires
            i < self@.len(),
        ensures
            r.0@ == self@[i as int].0,
            r.1@ == self@[i as int].1,
    {
        (self.entries[i].0.as_str(), &self.entries[i].1)
    }

    /// A deep copy.
    pub fn copy(&self) -> (r: Args)
        ensures
            r@ == self@,
    {
        let mut out: Vec<(String, Tree)> = Vec::new();
        let mut i: usize = 0;
        while i < self.entries.len()
            invariant
                i <= self.entries@.len(),
                out@.len() == i,
                forall|j: int| 0 <= j < i ==> #[trigger] out@[j].0@ == self.entries@[j].0@ && out@[j].1@ == self.entries@[j].1@,
            decreases self.entries@.len() - i,
        {
            let k = self.entries[i].0.clone();
            let v = copy_tree(&self.entries[i].1);
            out.push((k, v));
            i = i + 1;
        }
        proof {
            use_type_invariant(self);
            let s = Seq::new(out@.len(), |j: int| (out@[j].0@, out@[j].1@));
            assert(s =~= self@);
        }
        let r = Args { entries: out };
        assert(r@ =~= self@);
        r
    }
}

} // verus!
