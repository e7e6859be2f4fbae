//! A bit line whose layout only the caller knows: an element is a boundary
//! (origin, extent) that the caller derives from its schema, then reads, writes
//! or clears.
use vstd::prelude::*;
use crate::list::{splice, nulls};
use crate::list_bk::{Boundary, Extent, first_equal, same_slots, write_over, append_all, fill_nulls};

verus! {

/// Outcome of a write.
pub enum Outcome {
    Created,
    Updated,
}

/// The boundary that `index` steps lead to from `origin` (else `base`): each
/// step advances by the current element's width, the fixed `extent`, or with a
/// width line the value it holds at the current origin.
pub open spec fn line_bound<T: Extent>(origin: Option<u64>, base: u64, index: u64, extent: u64, widths: Option<Seq<T>>) -> (u64, u64)
    decreases index,
{
    let current = match origin {
        Some(o) => o,
        None => base,
    };
    let current_extent = match widths {
        Some(w) => w[current as int].width(),
        None => extent,
    };
    if index == 0 {
        (current, current_extent)
    } else {
        line_bound(Some((current + current_extent) as u64), base, (index - 1) as u64, extent, widths)
    }
}

/// The steps of [`line_bound`] stay inside the width line and the integer range.
pub open spec fn line_bound_ok<T: Extent>(origin: Option<u64>, base: u64, index: u64, extent: u64, widths: Option<Seq<T>>) -> bool
    decreases index,
{
    let current = match origin {
        Some(o) => o,
        None => base,
    };
    let current_extent = match widths {
        Some(w) => w[current as int].width(),
        None => extent,
    };
    &&& (widths matches Some(w) ==> current < w.len())
    &&& (index > 0 ==> {
        &&& current + current_extent <= u64::MAX
        &&& line_bound_ok(Some((current + current_extent) as u64), base, (index - 1) as u64, extent, widths)
    })
}

/// The model of an optional width line.
pub open spec fn widths_view<T>(list: Option<&Vec<T>>) -> Option<Seq<T>> {
    match list {
        Some(l) => Some(l@),
        None => None,
    }
}

/// Derives the boundary of an element (see [`line_bound`]).
pub fn cal_bound<T: Extent>(origin: Option<u64>, base: u64, index: u64, extent: u64, list: Option<&Vec<T>>) -> (r: Boundary)
    requires
        line_bound_ok(origin, base, index, extent, widths_view(list)),
    ensures
        r == line_bound(origin, base, index, extent, widths_view(list)),
    decreases index,
{
    let current = match origin {
        Some(o) => o,
        None => base,
    };
    let current_extent = match list {
        Some(l) => {
            let len = l.len();
            assert(current < len);
            let at = current as usize;
            assert(at as int == current as int);
            let w = l[at].to_u64();
            assert(w == widths_view(list)->0[current as int].width());
            w
        },
        None => extent,
    };
    if index == 0 {
        return (current, current_extent);
    }
    cal_bound(Some(current + current_extent), base, index - 1, extent, list)
}

/// The element at the boundary.
pub fn get<T: Extent>(list: &[T], bound: Boundary) -> (r: Vec<T>)
    requires
        bound.0 + bound.1 <= list@.len(),
    ensures
        r@ == list@.subrange(bound.0 as int, bound.0 + bound.1),
{
    let origin = bound.0;
    let extent = bound.1;
    let len = list.len();
    assert(origin + extent <= len);
    let s = vstd::slice::slice_subrange(list, origin as usize, (origin + extent) as usize);
    vstd::slice::slice_to_vec(s)
}

/// Writes `value` at the boundary: `Updated` when it already held it, else
/// `Created`; the boundary written is returned. With interning the line is
/// searched (from 0, by the extent) for `value` first: found gives its boundary
/// and `Updated` and nothing changes, else `value` is appended (`Created`).
pub fn set<T: Extent>(list: &mut Vec<T>, bound: Boundary, value: &[T], interning: bool) -> (r: (Boundary, Outcome))
    requires
        interning && bound.1 == 0 ==> value@.len() == 0,
        interning ==> old(list)@.len() + value@.len() <= usize::MAX,
        !interning ==> bound.0 + bound.1 <= old(list)@.len() && value@.len() == bound.1,
    ensures
        ({
            let (o, e) = bound;
            let line = old(list)@;
            if interning {
                if e == 0 {
                    r.0 == (0u64, 0u64) && r.1 is Updated && final(list)@ == line
                } else if first_equal(line, e as int, value@, 0) >= 0 {
                    r.0 == (first_equal(line, e as int, value@, 0) as u64, e) && r.1 is Updated && final(list)@ == line
                } else {
                    r.0 == (line.len() as u64, e) && r.1 is Created && final(list)@ == line + value@
                }
            } else {
                &&& r.0 == bound
                &&& (r.1 is Updated <==> line.subrange(o as int, o + e) == value@)
                &&& final(list)@ == splice(line, o as int, value@)
            }
        }),
{
    let origin = bound.0;
    let extent = bound.1;
    if interning {
        let mut pos: u64 = 0;
        let len = list.len() as u64;
        while pos <= len && extent <= len - pos
            invariant
                interning,
                len == list@.len(),
                list@ == old(list)@,
                extent == bound.1,
                extent == 0 ==> value@.len() == 0 && pos == 0,
                extent > 0 ==> first_equal(list@, extent as int, value@, 0) == first_equal(
                    list@,
                    extent as int,
                    value@,
                    pos as int,
                ),
                extent > 0 ==> pos <= list@.len(),
                list@.len() + value@.len() <= usize::MAX,
            decreases list@.len() - pos,
        {
            let from = pos as usize;
            let to = (pos + extent) as usize;
            let s = vstd::slice::slice_subrange(list.as_slice(), from, to);
            if same_slots(s, value) {
                proof {
                    if extent > 0 {
                        assert(s@ == list@.subrange(pos as int, pos + extent));
                        assert(first_equal(list@, extent as int, value@, pos as int) == pos);
                    }
                }
                return ((pos, extent), Outcome::Updated);
            }
            if extent == 0 {
                assert(s@ =~= value@);
                assert(false);
            }
            assert(first_equal(list@, extent as int, value@, pos as int) == first_equal(
                list@,
                extent as int,
                value@,
                pos + extent,
            ));
            pos = pos + extent;
        }
        proof {
            if extent > 0 {
                assert(first_equal(list@, extent as int, value@, pos as int) == -1);
            }
        }
        let end = list.len() as u64;
        append_all(list, value);
        return ((end, extent), Outcome::Created);
    }
    let len = list.len();
    assert(origin + extent <= len);
    let same = same_slots(
        vstd::slice::slice_subrange(list.as_slice(), origin as usize, (origin + extent) as usize),
        value,
    );
    let outcome = if same {
        Outcome::Updated
    } else {
        Outcome::Created
    };
    write_over(list, origin as usize, value);
    (bound, outcome)
}

/// Nulls the element at the boundary.
pub fn delete<T: Extent>(list: &mut Vec<T>, bound: Boundary)
    requires
        bound.0 + bound.1 <= old(list)@.len(),
    ensures
        final(list)@ == splice(old(list)@, bound.0 as int, nulls::<T>(bound.1 as nat)),
{
    let origin = bound.0;
    let extent = bound.1;
    let len = list.len();
    assert(origin + extent <= len);
    fill_nulls(list, origin as usize, extent as usize);
}

/// The origin of element `index` when each element holds its own width at
/// `extent_offset` from its origin, starting from `base`.
pub open spec fn embedded_origin<T: Extent>(list: Seq<T>, origin: u64, index: nat, extent_offset: u64) -> u64
    decreases index,
{
    if index == 0 {
        origin
    } else {
        embedded_origin(
            list,
            (origin + list[origin + extent_offset].width()) as u64,
            (index - 1) as nat,
            extent_offset,
        )
    }
}

/// Each width read on the way lies in the line, and the origins fit in 64 bits.
pub open spec fn embedded_ok<T: Extent>(list: Seq<T>, origin: u64, index: nat, extent_offset: u64) -> bool
    decreases index,
{
    index > 0 ==> {
        &&& origin + extent_offset < list.len()
        &&& origin + list[origin + extent_offset].width() <= u64::MAX
        &&& embedded_ok(list, (origin + list[origin + extent_offset].width()) as u64, (index - 1) as nat, extent_offset)
    }
}

/// The origin of element `index` in a line whose elements hold their own width
/// (see [`embedded_origin`]).
pub fn embedded_schema_origin<T: Extent>(list: &[T], base: u64, index: usize, extent_offset: u64) -> (r: u64)
    requires
        embedded_ok(list@, base, index as nat, extent_offset),
    ensures
        r == embedded_origin(list@, base, index as nat, extent_offset),
{
    let mut origin = base;
    let mut k: usize = 0;
    while k < index
        invariant
            k <= index,
            embedded_ok(list@, origin, (index - k) as nat, extent_offset),
            embedded_origin(list@, origin, (index - k) as nat, extent_offset) == embedded_origin(
                list@,
                base,
                index as nat,
                extent_offset,
            ),
        decreases index - k,
    {
        let len = list.len();
        assert(origin + extent_offset < len);
        let at = (origin + extent_offset) as usize;
        let extent = list[at].to_u64();
        origin = origin + extent;
        k = k + 1;
    }
    origin
}

} // verus!
