//! Rendering compiled tables as Rust source: one `pub static` slice per table,
//! elements in zero-padded lowercase hex, a fixed number per line.
use vstd::prelude::*;
use crate::list::{List, VariableList};
use crate::text::{decimal, decimal_text};
use crate::provided::labelled;

verus! {

/// The lowercase hex digit of `d` (below 16).
pub open spec fn hex_digit(d: nat) -> char {
    if d < 10 {
        ((d + 0x30) as char)
    } else {
        ((d - 10 + 0x61) as char)
    }
}

/// The last `width` hex digits of `v`, most significant first (zero-padded).
pub open spec fn hex_text(v: nat, width: nat) -> Seq<char>
    decreases width,
{
    if width == 0 {
        Seq::empty()
    } else {
        hex_text(v / 16, (width - 1) as nat).push(hex_digit(v % 16))
    }
}

/// One element: `0x`, its digits and `, `.
pub open spec fn item_text(v: nat, width: nat) -> Seq<char> {
    seq!['0', 'x'] + hex_text(v, width) + seq![',', ' ']
}

/// The elements of `data` one after another.
pub open spec fn items_text(data: Seq<u64>, width: nat) -> Seq<char>
    decreases data.len(),
{
    if data.len() == 0 {
        Seq::empty()
    } else {
        items_text(data.drop_last(), width) + item_text(data.last() as nat, width)
    }
}

/// The line of the elements `start..end`: four spaces, the elements, a newline.
pub open spec fn line_text(data: Seq<u64>, start: int, end: int, width: nat) -> Seq<char> {
    seq![' ', ' ', ' ', ' '] + items_text(data.subrange(start, end), width) + seq!['\n']
}

/// The lines from element `start` on, `per_line` elements to a line (the last
/// line may hold fewer).
pub open spec fn lines_from(data: Seq<u64>, start: int, width: nat, per_line: nat) -> Seq<char>
    decreases data.len() - start,
{
    if per_line == 0 || start < 0 || start >= data.len() {
        Seq::empty()
    } else {
        let end = if start + per_line < data.len() { start + per_line } else { data.len() as int };
        line_text(data, start, end, width) + lines_from(data, end, width, per_line)
    }
}

/// A whole table: `pub static NAME: &[TY] = &[`, its lines, `];` and a blank line.
pub open spec fn table_text(name: Seq<char>, ty: Seq<char>, data: Seq<u64>, width: nat, per_line: nat) -> Seq<char> {
    "pub static "@ + name + ": &["@ + ty + "] = &[\n"@ + lines_from(data, 0, width, per_line) + "];\n\n"@
}

/// The value a lowercase hex digit character stands for: `0`-`9` for 0 to 9,
/// `a`-`f` for 10 to 15; none for any other character.
pub open spec fn hex_value(c: char) -> Option<nat> {
    let n = c as int;
    if 0x30 <= n && n <= 0x39 {
        Some((n - 0x30) as nat)
    } else if 0x61 <= n && n <= 0x66 {
        Some((n - 0x61 + 10) as nat)
    } else {
        None
    }
}

/// The number that the hex digits `s` write, most significant first; none
/// when one of them is not a lowercase hex digit.
pub open spec fn hex_number(s: Seq<char>) -> Option<nat>
    decreases s.len(),
{
    if s.len() == 0 {
        Some(0)
    } else {
        match (hex_number(s.drop_last()), hex_value(s.last())) {
            (Some(a), Some(d)) => Some(a * 16 + d),
            _ => None,
        }
    }
}

/// Each digit is the lowercase hex digit that stands for its value.
pub proof fn law_hex_digit_value(d: nat)
    requires
        d < 16,
    ensures
        hex_value(hex_digit(d)) == Some(d),
{
}

/// The digits emitted for a number read back as that number: the `width` hex
/// digits of `v` write `v` modulo 16 to the power `width`.
pub proof fn law_hex_text_value(v: nat, width: nat)
    ensures
        hex_text(v, width).len() == width,
        hex_number(hex_text(v, width)) == Some(((v as int) % vstd::arithmetic::power::pow(16, width)) as nat),
    decreases width,
{
    reveal(vstd::arithmetic::power::pow);
    if width == 0 {
        assert(vstd::arithmetic::power::pow(16, 0) == 1);
        assert(v % 1 == 0) by (nonlinear_arith);
    } else {
        let w1 = (width - 1) as nat;
        law_hex_text_value(v / 16, w1);
        law_hex_digit_value(v % 16);
        let p = vstd::arithmetic::power::pow(16, w1);
        vstd::arithmetic::power::lemma_pow_positive(16, w1);
        assert(vstd::arithmetic::power::pow(16, width) == 16 * p);
        let s = hex_text(v, width);
        assert(s.drop_last() =~= hex_text(v / 16, w1));
        assert(s.last() == hex_digit(v % 16));
        vstd::arithmetic::div_mod::lemma_mod_breakdown(v as int, 16, p);
        assert(((v / 16) as int) % p * 16 + (v % 16) == (v as int) % (16 * p)) by (nonlinear_arith)
            requires
                (v as int) % (16 * p) == 16 * (((v as int) / 16) % p) + (v as int) % 16,
                (v / 16) as int == (v as int) / 16,
        ;
    }
}

/// An emitted element writes its value: `0x`, digits that read back as the
/// value when it is below 16 to the power `width`, and `, `.
pub proof fn law_item_text_value(v: nat, width: nat)
    requires
        v < vstd::arithmetic::power::pow(16, width),
    ensures
        item_text(v, width).subrange(0, 2) == seq!['0', 'x'],
        item_text(v, width).subrange(2, 2 + width as int) == hex_text(v, width),
        hex_number(item_text(v, width).subrange(2, 2 + width as int)) == Some(v),
        item_text(v, width).subrange(2 + width as int, 4 + width as int) == seq![',', ' '],
        item_text(v, width).len() == width + 4,
{
    law_hex_text_value(v, width);
    let s = item_text(v, width);
    assert(s.subrange(0, 2) =~= seq!['0', 'x']);
    assert(s.subrange(2, 2 + width as int) =~= hex_text(v, width));
    assert(s.subrange(2 + width as int, 4 + width as int) =~= seq![',', ' ']);
    assert((v as int) % vstd::arithmetic::power::pow(16, width) == v) by {
        vstd::arithmetic::div_mod::lemma_small_mod(v, vstd::arithmetic::power::pow(16, width) as nat);
    }
}

/// The string of hex digit `d`.
fn hex_digit_str(d: u64) -> (r: &'static str)
    requires
        d < 16,
    ensures
        r@ == seq![hex_digit(d as nat)],
{
    proof {
        reveal_strlit("0");
        reveal_strlit("1");
        reveal_strlit("2");
        reveal_strlit("3");
        reveal_strlit("4");
        reveal_strlit("5");
        reveal_strlit("6");
        reveal_strlit("7");
        reveal_strlit("8");
        reveal_strlit("9");
        reveal_strlit("a");
        reveal_strlit("b");
        reveal_strlit("c");
        reveal_strlit("d");
        reveal_strlit("e");
        reveal_strlit("f");
    }
    if d == 0 {
        "0"
    } else if d == 1 {
        "1"
    } else if d == 2 {
        "2"
    } else if d == 3 {
        "3"
    } else if d == 4 {
        "4"
    } else if d == 5 {
        "5"
    } else if d == 6 {
        "6"
    } else if d == 7 {
        "7"
    } else if d == 8 {
        "8"
    } else if d == 9 {
        "9"
    } else if d == 10 {
        "a"
    } else if d == 11 {
        "b"
    } else if d == 12 {
        "c"
    } else if d == 13 {
        "d"
    } else if d == 14 {
        "e"
    } else {
        "f"
    }
}

/// Appends the last `width` hex digits of `v`.
fn push_hex(out: &mut String, v: u64, width: usize)
    ensures
        final(out)@ == old(out)@ + hex_text(v as nat, width as nat),
    decreases width,
{
    if width == 0 {
        assert(old(out)@ + hex_text(v as nat, 0) =~= old(out)@);
        return;
    }
    push_hex(out, v / 16, width - 1);
    out.append(hex_digit_str(v % 16));
    assert(final(out)@ =~= old(out)@ + hex_text(v as nat, width as nat));
}

/// Appends the elements `start..end` of `data`.
fn push_items(out: &mut String, data: &[u64], start: usize, end: usize, width: usize)
    requires
        start <= end <= data@.len(),
    ensures
        final(out)@ == old(out)@ + items_text(data@.subrange(start as int, end as int), width as nat),
{
    let mut i = start;
    assert(data@.subrange(start as int, start as int) =~= Seq::<u64>::empty());
    assert(out@ =~= old(out)@ + items_text(data@.subrange(start as int, i as int), width as nat));
    while i < end
        invariant
            start <= i <= end <= data@.len(),
            out@ == old(out)@ + items_text(data@.subrange(start as int, i as int), width as nat),
        decreases end - i,
    {
        let ghost before = out@;
        out.append("0x");
        let ghost b1 = out@;
        push_hex(out, data[i], width);
        let ghost b2 = out@;
        out.append(", ");
        proof {
            reveal_strlit("0x");
            reveal_strlit(", ");
            assert("0x"@ =~= seq!['0', 'x']);
            assert(", "@ =~= seq![',', ' ']);
            assert(b1 == before + seq!['0', 'x']);
            assert(b2 == b1 + hex_text(data@[i as int] as nat, width as nat));
            assert(out@ == b2 + seq![',', ' ']);
            let s = data@.subrange(start as int, i + 1);
            assert(s.drop_last() =~= data@.subrange(start as int, i as int));
            assert(s.last() == data@[i as int]);
            assert(out@ =~= before + item_text(data@[i as int] as nat, width as nat));
        }
        i = i + 1;
    }
}

/// Appends a table of `data` (see [`table_text`]).
fn push_table(out: &mut String, name: &str, ty: &str, data: &[u64], width: usize, per_line: usize)
    requires
        per_line > 0,
    ensures
        final(out)@ == old(out)@ + table_text(name@, ty@, data@, width as nat, per_line as nat),
{
    proof {
        reveal_strlit("pub static ");
        reveal_strlit(": &[");
        reveal_strlit("] = &[\n");
        reveal_strlit("];\n\n");
    }
    out.append("pub static ");
    out.append(name);
    out.append(": &[");
    out.append(ty);
    out.append("] = &[\n");
    let ghost head = out@;
    let mut start: usize = 0;
    assert(out@ + lines_from(data@, 0, width as nat, per_line as nat) =~= head + lines_from(
        data@,
        0,
        width as nat,
        per_line as nat,
    ));
    while start < data.len()
        invariant
            per_line > 0,
            start <= data@.len(),
            out@ + lines_from(data@, start as int, width as nat, per_line as nat) == head + lines_from(
                data@,
                0,
                width as nat,
                per_line as nat,
            ),
        decreases data@.len() - start,
    {
        let end = if data.len() - start > per_line {
            start + per_line
        } else {
            data.len()
        };
        let ghost before = out@;
        out.append("    ");
        let ghost b1 = out@;
        push_items(out, data, start, end, width);
        let ghost b2 = out@;
        out.append("\n");
        proof {
            reveal_strlit("    ");
            reveal_strlit("\n");
            assert("    "@ =~= seq![' ', ' ', ' ', ' ']);
            assert("\n"@ =~= seq!['\n']);
            assert(b1 == before + seq![' ', ' ', ' ', ' ']);
            assert(out@ == b2 + seq!['\n']);
            let l = line_text(data@, start as int, end as int, width as nat);
            let rest = lines_from(data@, end as int, width as nat, per_line as nat);
            assert(out@ =~= before + l);
            assert(lines_from(data@, start as int, width as nat, per_line as nat) == l + rest);
            assert(before + (l + rest) =~= (before + l) + rest);
        }
        start = end;
    }
    assert(lines_from(data@, start as int, width as nat, per_line as nat) =~= Seq::<char>::empty());
    assert(out@ =~= head + lines_from(data@, 0, width as nat, per_line as nat));
    out.append("];\n\n");
    assert(final(out)@ =~= old(out)@ + table_text(name@, ty@, data@, width as nat, per_line as nat));
}

/// The largest identity offset that a table of 16-bit offsets holds.
pub const MAX_VL_U16_DATA: usize = 0xffff;
/// The largest identity offset of the word table (also emitted as 16-bit).
pub const MAX_VL_U8_DATA: usize = 0xffff;

/// The refusal of an identity offset that does not fit.
pub open spec fn offset_refusal(name: Seq<char>, offset: nat, max: nat) -> Seq<char> {
    name + " identity offset "@ + decimal_text(offset) + " exceeds u16 max "@ + decimal_text(max)
}

/// Every identity offset is at most `max`; else the first that is not is refused.
fn check_identity_within(ids: &Vec<usize>, name: &str, max: usize) -> (r: Result<(), String>)
    ensures
        r is Ok <==> forall|i: int| 0 <= i < ids@.len() ==> ids@[i] <= max,
        r matches Err(m) ==> exists|i: int|
            0 <= i < ids@.len() && ids@[i] > max && (forall|j: int| 0 <= j < i ==> ids@[j] <= max) && m@
                == offset_refusal(name@, ids@[i] as nat, max as nat),
{
    let mut i: usize = 0;
    while i < ids.len()
        invariant
            i <= ids@.len(),
            forall|j: int| 0 <= j < i ==> ids@[j] <= max,
        decreases ids@.len() - i,
    {
        let offset = ids[i];
        if offset > max {
            proof {
                reveal_strlit(" identity offset ");
                reveal_strlit(" exceeds u16 max ");
            }
            let a = labelled(name, " identity offset ");
            let d = decimal(offset as u64);
            let b = labelled(a.as_str(), d.as_str());
            let c = labelled(b.as_str(), " exceeds u16 max ");
            let e = decimal(max as u64);
            let m = labelled(c.as_str(), e.as_str());
            assert(m@ == offset_refusal(name@, ids@[i as int] as nat, max as nat));
            return Err(m);
        }
        i = i + 1;
    }
    Ok(())
}

/// The identity offsets of a 16-bit table fit in 16 bits.
pub fn check_vl_u16_identity<T>(vl: &VariableList<T>, name: &str) -> (r: Result<(), String>)
    ensures
        r is Ok <==> forall|i: int| 0 <= i < vl.identity@.len() ==> vl.identity@[i] <= MAX_VL_U16_DATA,
        r matches Err(m) ==> exists|i: int|
            0 <= i < vl.identity@.len() && vl.identity@[i] > MAX_VL_U16_DATA && (forall|j: int|
                0 <= j < i ==> vl.identity@[j] <= MAX_VL_U16_DATA) && m@ == offset_refusal(
                name@,
                vl.identity@[i] as nat,
                MAX_VL_U16_DATA as nat,
            ),
{
    check_identity_within(&vl.identity, name, MAX_VL_U16_DATA)
}

/// The identity offsets of the word table fit in 16 bits.
pub fn check_vl_u16_identity_u8(vl: &VariableList<u8>, name: &str) -> (r: Result<(), String>)
    ensures
        r is Ok <==> forall|i: int| 0 <= i < vl.identity@.len() ==> vl.identity@[i] <= MAX_VL_U8_DATA,
        r matches Err(m) ==> exists|i: int|
            0 <= i < vl.identity@.len() && vl.identity@[i] > MAX_VL_U8_DATA && (forall|j: int|
                0 <= j < i ==> vl.identity@[j] <= MAX_VL_U8_DATA) && m@ == offset_refusal(
                name@,
                vl.identity@[i] as nat,
                MAX_VL_U8_DATA as nat,
            ),
{
    check_identity_within(&vl.identity, name, MAX_VL_U8_DATA)
}

/// 16-bit elements as 64-bit ones.
pub open spec fn wide16(s: Seq<u16>) -> Seq<u64> {
    Seq::new(s.len(), |i: int| s[i] as u64)
}

/// Bytes as 64-bit elements.
pub open spec fn wide8(s: Seq<u8>) -> Seq<u64> {
    Seq::new(s.len(), |i: int| s[i] as u64)
}

/// Offsets as 64-bit elements.
pub open spec fn wide_ids(s: Seq<usize>) -> Seq<u64> {
    Seq::new(s.len(), |i: int| s[i] as u64)
}

fn widen16(s: &[u16]) -> (r: Vec<u64>)
    ensures
        r@ == wide16(s@),
{
    let mut r: Vec<u64> = Vec::new();
    let mut i: usize = 0;
    while i < s.len()
        invariant
            i <= s@.len(),
            r@ == wide16(s@.subrange(0, i as int)),
        decreases s@.len() - i,
    {
        r.push(s[i] as u64);
        i = i + 1;
        assert(r@ =~= wide16(s@.subrange(0, i as int)));
    }
    assert(s@.subrange(0, i as int) =~= s@);
    r
}

fn widen8(s: &[u8]) -> (r: Vec<u64>)
    ensures
        r@ == wide8(s@),
{
    let mut r: Vec<u64> = Vec::new();
    let mut i: usize = 0;
    while i < s.len()
        invariant
            i <= s@.len(),
            r@ == wide8(s@.subrange(0, i as int)),
        decreases s@.len() - i,
    {
        r.push(s[i] as u64);
        i = i + 1;
        assert(r@ =~= wide8(s@.subrange(0, i as int)));
    }
    assert(s@.subrange(0, i as int) =~= s@);
    r
}

fn widen_ids(s: &[usize]) -> (r: Vec<u64>)
    ensures
        r@ == wide_ids(s@),
{
    let mut r: Vec<u64> = Vec::new();
    let mut i: usize = 0;
    while i < s.len()
        invariant
            i <= s@.len(),
            r@ == wide_ids(s@.subrange(0, i as int)),
        decreases s@.len() - i,
    {
        r.push(s[i] as u64);
        i = i + 1;
        assert(r@ =~= wide_ids(s@.subrange(0, i as int)));
    }
    assert(s@.subrange(0, i as int) =~= s@);
    r
}

/// Appends a table of 64-bit elements, eight to a line.
pub fn emit_u64_slice(out: &mut String, name: &str, data: &[u64])
    ensures
        final(out)@ == old(out)@ + table_text(name@, "u64"@, data@, 16, 8),
{
    push_table(out, name, "u64", data, 16, 8);
}

/// Appends a table of 16-bit elements, eight to a line.
pub fn emit_u16_slice(out: &mut String, name: &str, data: &[u16])
    ensures
        final(out)@ == old(out)@ + table_text(name@, "u16"@, wide16(data@), 4, 8),
{
    let wide = widen16(data);
    push_table(out, name, "u16", wide.as_slice(), 4, 8);
}

/// Appends a table of bytes, sixteen to a line.
pub fn emit_u8_slice(out: &mut String, name: &str, data: &[u8])
    ensures
        final(out)@ == old(out)@ + table_text(name@, "u8"@, wide8(data@), 2, 16),
{
    let wide = widen8(data);
    push_table(out, name, "u8", wide.as_slice(), 2, 16);
}

/// Appends a table of identity offsets as 16-bit elements, eight to a line.
fn emit_identity(out: &mut String, name: &str, ids: &[usize])
    ensures
        final(out)@ == old(out)@ + table_text(name@, "u16"@, wide_ids(ids@), 4, 8),
{
    let wide = widen_ids(ids);
    push_table(out, name, "u16", wide.as_slice(), 4, 8);
}

/// The first line of the rendered source.
pub open spec fn banner() -> Seq<char> {
    "// @generated \u{2014} do not edit by hand\n\n"@
}

/// Every identity offset of a table fits in 16 bits.
pub open spec fn fits16<T>(vl: VariableList<T>) -> bool {
    forall|i: int| 0 <= i < vl.identity@.len() ==> vl.identity@[i] <= 0xffff
}

/// `m` refuses the first identity offset of `vl` that does not fit.
pub open spec fn refuses<T>(vl: VariableList<T>, name: Seq<char>, m: Seq<char>) -> bool {
    exists|i: int|
        0 <= i < vl.identity@.len() && vl.identity@[i] > 0xffff && (forall|j: int| 0 <= j < i ==> vl.identity@[j] <= 0xffff)
            && m == offset_refusal(name, vl.identity@[i] as nat, 0xffff)
}

/// The source for compiled tables: the banner, then each table in order, the
/// identity offsets as 16-bit elements.
pub open spec fn tables_text(
    paths: List<u64>,
    children: VariableList<u16>,
    leaves: VariableList<u16>,
    values: VariableList<u16>,
    words: VariableList<u8>,
    map_keys: VariableList<u16>,
    map_vals: VariableList<u16>,
    args_keys: VariableList<u16>,
    args_vals: VariableList<u16>,
) -> Seq<char> {
    banner() + table_text("PATHS"@, "u64"@, paths.data@, 16, 8)
        + table_text("CHILDREN_IDENTITY"@, "u16"@, wide_ids(children.identity@), 4, 8)
        + table_text("CHILDREN_DATA"@, "u16"@, wide16(children.data@), 4, 8)
        + table_text("LEAVES_IDENTITY"@, "u16"@, wide_ids(leaves.identity@), 4, 8)
        + table_text("LEAVES_DATA"@, "u16"@, wide16(leaves.data@), 4, 8)
        + table_text("VALUES_IDENTITY"@, "u16"@, wide_ids(values.identity@), 4, 8)
        + table_text("VALUES_DATA"@, "u16"@, wide16(values.data@), 4, 8)
        + table_text("WORDS_IDENTITY"@, "u16"@, wide_ids(words.identity@), 4, 8)
        + table_text("WORDS_DATA"@, "u8"@, wide8(words.data@), 2, 16)
        + table_text("MAP_KEYS_IDENTITY"@, "u16"@, wide_ids(map_keys.identity@), 4, 8)
        + table_text("MAP_KEYS_DATA"@, "u16"@, wide16(map_keys.data@), 4, 8)
        + table_text("MAP_VALS_IDENTITY"@, "u16"@, wide_ids(map_vals.identity@), 4, 8)
        + table_text("MAP_VALS_DATA"@, "u16"@, wide16(map_vals.data@), 4, 8)
        + table_text("ARGS_KEYS_IDENTITY"@, "u16"@, wide_ids(args_keys.identity@), 4, 8)
        + table_text("ARGS_KEYS_DATA"@, "u16"@, wide16(args_keys.data@), 4, 8)
        + table_text("ARGS_VALS_IDENTITY"@, "u16"@, wide_ids(args_vals.identity@), 4, 8)
        + table_text("ARGS_VALS_DATA"@, "u16"@, wide16(args_vals.data@), 4, 8)
}

/// Renders compiled tables as Rust source (see [`tables_text`]). Refused when an
/// identity offset does not fit in 16 bits: the first such offset of the first
/// such table, in the order children, leaves, values, words, map keys, map
/// values, args keys, args values.
pub fn render_tables(
    paths: &List<u64>,
    children: &VariableList<u16>,
    leaves: &VariableList<u16>,
    values: &VariableList<u16>,
    words: &VariableList<u8>,
    map_keys: &VariableList<u16>,
    map_vals: &VariableList<u16>,
    args_keys: &VariableList<u16>,
    args_vals: &VariableList<u16>,
) -> (r: Result<String, String>)
    ensures
        r is Ok <==> fits16(*children) && fits16(*leaves) && fits16(*values) && fits16(*words) && fits16(*map_keys)
            && fits16(*map_vals) && fits16(*args_keys) && fits16(*args_vals),
        r matches Ok(t) ==> t@ == tables_text(
            *paths,
            *children,
            *leaves,
            *values,
            *words,
            *map_keys,
            *map_vals,
            *args_keys,
            *args_vals,
        ),
        r matches Err(m) ==> if !fits16(*children) {
            refuses(*children, "children"@, m@)
        } else if !fits16(*leaves) {
            refuses(*leaves, "leaves"@, m@)
        } else if !fits16(*values) {
            refuses(*values, "values"@, m@)
        } else if !fits16(*words) {
            refuses(*words, "words"@, m@)
        } else if !fits16(*map_keys) {
            refuses(*map_keys, "map_keys"@, m@)
        } else if !fits16(*map_vals) {
            refuses(*map_vals, "map_vals"@, m@)
        } else if !fits16(*args_keys) {
            refuses(*args_keys, "args_keys"@, m@)
        } else {
            refuses(*args_vals, "args_vals"@, m@)
        },
{
    check_vl_u16_identity(children, "children")?;
    check_vl_u16_identity(leaves, "leaves")?;
    check_vl_u16_identity(values, "values")?;
    check_vl_u16_identity_u8(words, "words")?;
    check_vl_u16_identity(map_keys, "map_keys")?;
    check_vl_u16_identity(map_vals, "map_vals")?;
    check_vl_u16_identity(args_keys, "args_keys")?;
    check_vl_u16_identity(args_vals, "args_vals")?;
    let mut out = String::from_str("// @generated \u{2014} do not edit by hand\n\n");
    emit_u64_slice(&mut out, "PATHS", paths.data.as_slice());
    emit_identity(&mut out, "CHILDREN_IDENTITY", children.identity.as_slice());
    emit_u16_slice(&mut out, "CHILDREN_DATA", children.data.as_slice());
    emit_identity(&mut out, "LEAVES_IDENTITY", leaves.identity.as_slice());
    emit_u16_slice(&mut out, "LEAVES_DATA", leaves.data.as_slice());
    emit_identity(&mut out, "VALUES_IDENTITY", values.identity.as_slice());
    emit_u16_slice(&mut out, "VALUES_DATA", values.data.as_slice());
    emit_identity(&mut out, "WORDS_IDENTITY", words.identity.as_slice());
    emit_u8_slice(&mut out, "WORDS_DATA", words.data.as_slice());
    emit_identity(&mut out, "MAP_KEYS_IDENTITY", map_keys.identity.as_slice());
    emit_u16_slice(&mut out, "MAP_KEYS_DATA", map_keys.data.as_slice());
    emit_identity(&mut out, "MAP_VALS_IDENTITY", map_vals.identity.as_slice());
    emit_u16_slice(&mut out, "MAP_VALS_DATA", map_vals.data.as_slice());
    emit_identity(&mut out, "ARGS_KEYS_IDENTITY", args_keys.identity.as_slice());
    emit_u16_slice(&mut out, "ARGS_KEYS_DATA", args_keys.data.as_slice());
    emit_identity(&mut out, "ARGS_VALS_IDENTITY", args_vals.identity.as_slice());
    emit_u16_slice(&mut out, "ARGS_VALS_DATA", args_vals.data.as_slice());
    Ok(out)
}

} // verus!
