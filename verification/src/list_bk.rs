//! Lists addressed by boundaries: a line of elements whose meaning a schema known
//! to the caller gives. A boundary is `(origin, extent)`: a position in the line
//! and the width of the element there.
use vstd::prelude::*;
use crate::list::{Slot, splice, nulls};
use crate::text::bytes_eq;

verus! {

/// `(origin, extent)`.
pub type Boundary = (u64, u64);

/// Errors of a store client.
pub trait StoreError {}

/// A client of a store: `S` the schema (the list's structure), `D` the
/// directive (the caller's instruction), `V` the element type.
pub trait StoreClient<S, D, V> {
    type Error: StoreError;

    fn get(&mut self, schema: &S, directive: &D) -> Result<Option<Vec<V>>, Self::Error>;

    fn set(&mut self, schema: &S, directive: &D, value: &[V]) -> Result<Option<SetOutcome>, Self::Error>;

    fn delete(&mut self, schema: &S, directive: &D) -> Result<bool, Self::Error>;
}

/// Outcome of a write: a new element, or the same element written again.
pub enum SetOutcome {
    Created,
    Updated,
}

/// An element whose value can also serve as a width.
pub trait Extent: Slot {
    spec fn width(&self) -> u64;

    fn to_u64(&self) -> (r: u64)
        ensures
            r == self.width(),
    ;
}

impl Extent for u8 {
    open spec fn width(&self) -> u64 {
        *self as u64
    }

    fn to_u64(&self) -> (r: u64) {
        *self as u64
    }
}

impl Extent for u16 {
    open spec fn width(&self) -> u64 {
        *self as u64
    }

    fn to_u64(&self) -> (r: u64) {
        *self as u64
    }
}

impl Extent for u32 {
    open spec fn width(&self) -> u64 {
        *self as u64
    }

    fn to_u64(&self) -> (r: u64) {
        *self as u64
    }
}

impl Extent for u64 {
    open spec fn width(&self) -> u64 {
        *self
    }

    fn to_u64(&self) -> (r: u64) {
        *self
    }
}

/// The boundary of element `index` of fixed width `extent` from `base`.
pub fn indexed_boundary(base: u64, extent: u64, index: u64) -> (r: Boundary)
    requires
        base + index * extent <= u64::MAX,
    ensures
        r.0 == base + index * extent,
        r.1 == extent,
{
    assert(0 <= index * extent) by (nonlinear_arith);
    (base + index * extent, extent)
}

/// Slot-wise equality of two slices.
pub(crate) fn same_slots<T: Slot>(a: &[T], b: &[T]) -> (r: bool)
    ensures
        r == (a@ == b@),
{
    if a.len() != b.len() {
        return false;
    }
    let mut i: usize = 0;
    while i < a.len()
        invariant
            a@.len() == b@.len(),
            i <= a@.len(),
            forall|k: int| 0 <= k < i ==> a@[k] == b@[k],
        decreases a@.len() - i,
    {
        if !a[i].same(&b[i]) {
            return false;
        }
        i = i + 1;
    }
    assert(a@ =~= b@);
    true
}

/// Writes `value` over `line` from `start`.
pub(crate) fn write_over<T: Slot>(line: &mut Vec<T>, start: usize, value: &[T])
    requires
        start + value@.len() <= old(line)@.len(),
    ensures
        final(line)@ == splice(old(line)@, start as int, value@),
{
    let mut k: usize = 0;
    while k < value.len()
        invariant
            start + value@.len() <= old(line)@.len(),
            k <= value@.len(),
            line@.len() == old(line)@.len(),
            line.len() == old(line)@.len(),
            line@ == splice(old(line)@, start as int, value@.subrange(0, k as int)),
        decreases value@.len() - k,
    {
        line.set(start + k, value[k]);
        k = k + 1;
        assert(line@ =~= splice(old(line)@, start as int, value@.subrange(0, k as int)));
    }
    assert(value@.subrange(0, k as int) =~= value@);
}

/// Appends `value` to `line`.
pub(crate) fn append_all<T: Slot>(line: &mut Vec<T>, value: &[T])
    ensures
        final(line)@ == old(line)@ + value@,
{
    let mut k: usize = 0;
    while k < value.len()
        invariant
            k <= value@.len(),
            line@ == old(line)@ + value@.subrange(0, k as int),
        decreases value@.len() - k,
    {
        line.push(value[k]);
        k = k + 1;
        assert(line@ =~= old(line)@ + value@.subrange(0, k as int));
    }
    assert(value@.subrange(0, k as int) =~= value@);
}

/// Fills `line[start..start + n]` with the null element.
pub(crate) fn fill_nulls<T: Slot>(line: &mut Vec<T>, start: usize, n: usize)
    requires
        start + n <= old(line)@.len(),
    ensures
        final(line)@ == splice(old(line)@, start as int, nulls::<T>(n as nat)),
{
    let mut k: usize = 0;
    while k < n
        invariant
            start + n <= old(line)@.len(),
            k <= n,
            line@.len() == old(line)@.len(),
            line.len() == old(line)@.len(),
            line@ == splice(old(line)@, start as int, nulls::<T>(k as nat)),
        decreases n - k,
    {
        line.set(start + k, T::null());
        k = k + 1;
        assert(line@ =~= splice(old(line)@, start as int, nulls::<T>(k as nat)));
    }
}

// ── ListClient ───────────────────────────────────────────────────────────────

/// Errors of a single list.
pub enum ListError {
    OutOfBounds,
}

impl StoreError for ListError {}

/// One list; operations take a resolved boundary.
pub struct ListClient<T> {
    line: Vec<T>,
}

impl<T> View for ListClient<T> {
    type V = Seq<T>;

    closed spec fn view(&self) -> Seq<T> {
        self.line@
    }
}

impl<T> ListClient<T> {
    pub fn new(line: Vec<T>) -> (r: Self)
        ensures
            r@ == line@,
    {
        Self { line }
    }
}

impl<T: Slot> ListClient<T> {
    /// The element at the boundary; `OutOfBounds` when it ends past the line.
    pub fn get(&self, boundary: &Boundary) -> (r: Result<Option<Vec<T>>, ListError>)
        requires
            boundary.0 + boundary.1 <= u64::MAX,
        ensures
            boundary.0 + boundary.1 > self@.len() ==> r is Err,
            boundary.0 + boundary.1 <= self@.len() ==> (r matches Ok(Some(v)) && v@ == self@.subrange(
                boundary.0 as int,
                boundary.0 + boundary.1,
            )),
    {
        let (origin, extent) = *boundary;
        if origin + extent > self.line.len() as u64 {
            return Err(ListError::OutOfBounds);
        }
        let s = vstd::slice::slice_subrange(self.line.as_slice(), origin as usize, (origin + extent) as usize);
        Ok(Some(vstd::slice::slice_to_vec(s)))
    }

    /// Writes the element at the boundary: `Updated` when it already held
    /// `value`, else `Created`. `OutOfBounds` when it ends past the line.
    pub fn set(&mut self, boundary: &Boundary, value: &[T]) -> (r: Result<Option<SetOutcome>, ListError>)
        requires
            boundary.0 + boundary.1 <= u64::MAX,
            boundary.0 + boundary.1 <= old(self)@.len() ==> value@.len() == boundary.1,
        ensures
            boundary.0 + boundary.1 > old(self)@.len() ==> r is Err && final(self)@ == old(self)@,
            boundary.0 + boundary.1 <= old(self)@.len() ==> {
                &&& r matches Ok(Some(o))
                &&& (o is Updated <==> old(self)@.subrange(boundary.0 as int, boundary.0 + boundary.1) == value@)
                &&& final(self)@ == splice(old(self)@, boundary.0 as int, value@)
            },
    {
        let (origin, extent) = *boundary;
        if origin + extent > self.line.len() as u64 {
            return Err(ListError::OutOfBounds);
        }
        let same = same_slots(
            vstd::slice::slice_subrange(self.line.as_slice(), origin as usize, (origin + extent) as usize),
            value,
        );
        let outcome = if same {
            SetOutcome::Updated
        } else {
            SetOutcome::Created
        };
        write_over(&mut self.line, origin as usize, value);
        Ok(Some(outcome))
    }

    /// Nulls the element at the boundary; `OutOfBounds` when it ends past the line.
    pub fn delete(&mut self, boundary: &Boundary) -> (r: Result<bool, ListError>)
        requires
            boundary.0 + boundary.1 <= u64::MAX,
        ensures
            boundary.0 + boundary.1 > old(self)@.len() ==> r is Err && final(self)@ == old(self)@,
            boundary.0 + boundary.1 <= old(self)@.len() ==> r == Ok::<bool, ListError>(true) && final(self)@
                == splice(old(self)@, boundary.0 as int, nulls::<T>(boundary.1 as nat)),
    {
        let (origin, extent) = *boundary;
        if origin + extent > self.line.len() as u64 {
            return Err(ListError::OutOfBounds);
        }
        fill_nulls(&mut self.line, origin as usize, extent as usize);
        Ok(true)
    }
}

// ── ListsClient ──────────────────────────────────────────────────────────────

/// How a line is laid out: where elements start, their fixed width, where an
/// element holds its own width, and whether writes intern.
pub struct ListsSchema {
    pub base: Option<u64>,
    pub extent: Option<u64>,
    pub extent_offset: Option<u64>,
    pub interning: Option<bool>,
}

/// Which element: a starting origin, an index, and the width lists of a
/// variable-length layout (one per step).
pub struct ListsDirective<T> {
    pub origin: Option<u64>,
    pub index: Option<u64>,
    pub lists: Vec<Vec<T>>,
}

/// Errors of a lists client.
pub enum ListsError {
    SchemaMissing,
    OutOfBounds,
}

impl StoreError for ListsError {}

/// Several lists over one line; boundaries derive from schema and directive.
pub struct ListsClient<T> {
    line: Vec<T>,
}

impl<T> View for ListsClient<T> {
    type V = Seq<T>;

    closed spec fn view(&self) -> Seq<T> {
        self.line@
    }
}

impl<T> ListsClient<T> {
    pub fn new(line: Vec<T>) -> (r: Self)
        ensures
            r@ == line@,
    {
        Self { line }
    }
}

/// The width lists of a directive, by their models.
pub open spec fn lists_view<T>(lists: Seq<Vec<T>>) -> Seq<Seq<T>> {
    Seq::new(lists.len(), |i: int| lists[i]@)
}

/// The width lists left for the next step: one consumed, when there are any.
pub open spec fn rest_lists<T>(lists: Seq<Seq<T>>) -> Seq<Seq<T>> {
    if lists.len() == 0 {
        lists
    } else {
        lists.drop_first()
    }
}

/// The boundary that `index` steps lead to: from `origin` (else `base`), each
/// step advances by the current element's width: the fixed `extent`, or (with
/// width lists) the value the first list holds at the current origin, one list
/// consumed per step.
pub open spec fn bound_of<T: Extent>(origin: Option<u64>, base: u64, index: u64, extent: u64, lists: Seq<Seq<T>>) -> (u64, u64)
    decreases index,
{
    let current = match origin {
        Some(o) => o,
        None => base,
    };
    let current_extent = if lists.len() == 0 {
        extent
    } else {
        lists[0][current as int].width()
    };
    if index == 0 {
        (current, current_extent)
    } else {
        bound_of(Some((current + current_extent) as u64), base, (index - 1) as u64, extent, rest_lists(lists))
    }
}

/// The steps of [`bound_of`] stay inside the width lists and the integer range.
pub open spec fn bound_ok<T: Extent>(origin: Option<u64>, base: u64, index: u64, extent: u64, lists: Seq<Seq<T>>) -> bool
    decreases index,
{
    let current = match origin {
        Some(o) => o,
        None => base,
    };
    let current_extent = if lists.len() == 0 {
        extent
    } else {
        lists[0][current as int].width()
    };
    &&& (lists.len() > 0 ==> current < lists[0].len())
    &&& (index > 0 ==> {
        &&& current + current_extent <= u64::MAX
        &&& bound_ok(Some((current + current_extent) as u64), base, (index - 1) as u64, extent, rest_lists(lists))
    })
}

/// Derives the boundary of a directive (see [`bound_of`]).
fn cal_bound<T: Extent>(origin: Option<u64>, base: u64, index: u64, extent: u64, lists: &[Vec<T>]) -> (r: Boundary)
    requires
        bound_ok(origin, base, index, extent, lists_view(lists@)),
    ensures
        r == bound_of(origin, base, index, extent, lists_view(lists@)),
    decreases index,
{
    let current = match origin {
        Some(o) => o,
        None => base,
    };
    let ghost lv = lists_view(lists@);
    proof {
        if lists@.len() > 0 {
            assert(lv[0] == lists@[0]@);
        }
    }
    let current_extent = if lists.len() == 0 {
        extent
    } else {
        let first = &lists[0];
        assert(first@ == lv[0]);
        let first_len = first.len();
        assert(current < first_len);
        let at = current as usize;
        assert(at as int == current as int);
        let w = first[at].to_u64();
        assert(w == lv[0][current as int].width());
        w
    };
    if index == 0 {
        return (current, current_extent);
    }
    let rest = if lists.len() == 0 {
        lists
    } else {
        vstd::slice::slice_subrange(lists, 1, lists.len())
    };
    assert(lists_view(rest@) =~= rest_lists(lists_view(lists@)));
    cal_bound(Some(current + current_extent), base, index - 1, extent, rest)
}

/// A directive's boundary can be derived: the schema and directive fields are
/// there and the steps stay in range.
pub open spec fn resolvable<T: Extent>(schema: ListsSchema, directive: ListsDirective<T>) -> bool {
    schema.base is Some && schema.extent is Some && directive.index is Some ==> bound_ok(
        directive.origin,
        schema.base->0,
        directive.index->0,
        schema.extent->0,
        lists_view(directive.lists@),
    ) && bound_of(
        directive.origin,
        schema.base->0,
        directive.index->0,
        schema.extent->0,
        lists_view(directive.lists@),
    ).0 + bound_of(
        directive.origin,
        schema.base->0,
        directive.index->0,
        schema.extent->0,
        lists_view(directive.lists@),
    ).1 <= u64::MAX
}

/// The boundary of a directive whose fields are all there.
pub open spec fn directive_bound<T: Extent>(schema: ListsSchema, directive: ListsDirective<T>) -> (u64, u64) {
    bound_of(directive.origin, schema.base->0, directive.index->0, schema.extent->0, lists_view(directive.lists@))
}

/// The schema or directive lacks a field that a boundary needs.
pub open spec fn missing<T>(schema: ListsSchema, directive: ListsDirective<T>) -> bool {
    schema.base is None || schema.extent is None || directive.index is None
}

/// Position of the first element of width `w` (stepping by `w` from 0) that holds
/// `v`, or -1.
pub open spec fn first_equal<T>(line: Seq<T>, w: int, v: Seq<T>, pos: int) -> int
    decreases line.len() - pos,
{
    if w <= 0 || pos < 0 || pos + w > line.len() {
        -1
    } else if line.subrange(pos, pos + w) == v {
        pos
    } else {
        first_equal(line, w, v, pos + w)
    }
}

impl<T: Extent> ListsClient<T> {
    fn fields(schema: &ListsSchema, directive: &ListsDirective<T>) -> (r: Result<(u64, u64, u64), ListsError>)
        ensures
            missing(*schema, *directive) <==> r is Err,
            r matches Ok(f) ==> f == (schema.base->0, schema.extent->0, directive.index->0),
            r matches Err(e) ==> e is SchemaMissing,
    {
        let base = match schema.base {
            Some(b) => b,
            None => return Err(ListsError::SchemaMissing),
        };
        let extent = match schema.extent {
            Some(e) => e,
            None => return Err(ListsError::SchemaMissing),
        };
        let index = match directive.index {
            Some(i) => i,
            None => return Err(ListsError::SchemaMissing),
        };
        Ok((base, extent, index))
    }

    /// The element the directive names. `SchemaMissing` when `base`, `extent` or
    /// `index` is absent, `OutOfBounds` when the element ends past the line.
    pub fn get(&mut self, schema: &ListsSchema, directive: &ListsDirective<T>) -> (r: Result<Option<Vec<T>>, ListsError>)
        requires
            resolvable(*schema, *directive),
        ensures
            final(self)@ == old(self)@,
            missing(*schema, *directive) ==> r matches Err(ListsError::SchemaMissing),
            !missing(*schema, *directive) ==> {
                let (o, e) = directive_bound(*schema, *directive);
                if o + e > old(self)@.len() {
                    r matches Err(ListsError::OutOfBounds)
                } else {
                    r matches Ok(Some(v)) && v@ == old(self)@.subrange(o as int, o + e)
                }
            },
    {
        let (base, extent, index) = Self::fields(schema, directive)?;
        let (origin, extent) = cal_bound(directive.origin, base, index, extent, directive.lists.as_slice());
        if origin + extent > self.line.len() as u64 {
            return Err(ListsError::OutOfBounds);
        }
        let s = vstd::slice::slice_subrange(self.line.as_slice(), origin as usize, (origin + extent) as usize);
        Ok(Some(vstd::slice::slice_to_vec(s)))
    }

    /// Writes the element the directive names: `Updated` when it already held
    /// `value`, else `Created`. With interning, the line is searched (from 0, by
    /// the element width) for `value` first: found gives `Updated` and nothing
    /// changes, else `value` is appended (`Created`). Errors as for a read.
    #[verifier::loop_isolation(false)]
    pub fn set(&mut self, schema: &ListsSchema, directive: &ListsDirective<T>, value: &[T]) -> (r: Result<
        Option<SetOutcome>,
        ListsError,
    >)
        requires
            resolvable(*schema, *directive),
            !missing(*schema, *directive) ==> {
                let (o, e) = directive_bound(*schema, *directive);
                &&& o + e <= old(self)@.len() && !(schema.interning == Some(true)) ==> value@.len() == e
                &&& schema.interning == Some(true) && e == 0 ==> value@.len() == 0
                &&& old(self)@.len() + value@.len() <= usize::MAX
            },
        ensures
            missing(*schema, *directive) ==> (r matches Err(ListsError::SchemaMissing)) && final(self)@ == old(self)@,
            !missing(*schema, *directive) ==> {
                let (o, e) = directive_bound(*schema, *directive);
                let line = old(self)@;
                if o + e > line.len() {
                    r matches Err(ListsError::OutOfBounds) && final(self)@ == line
                } else if schema.interning == Some(true) {
                    if first_equal(line, e as int, value@, 0) >= 0 || e == 0 {
                        r matches Ok(Some(SetOutcome::Updated)) && final(self)@ == line
                    } else {
                        r matches Ok(Some(SetOutcome::Created)) && final(self)@ == line + value@
                    }
                } else {
                    &&& r matches Ok(Some(out))
                    &&& (out is Updated <==> line.subrange(o as int, o + e) == value@)
                    &&& final(self)@ == splice(line, o as int, value@)
                }
            },
    {
        let (base, extent, index) = Self::fields(schema, directive)?;
        let (origin, extent) = cal_bound(directive.origin, base, index, extent, directive.lists.as_slice());
        if origin + extent > self.line.len() as u64 {
            return Err(ListsError::OutOfBounds);
        }
        let interning = match schema.interning {
            Some(b) => b,
            None => false,
        };
        if interning {
            let mut pos: u64 = 0;
            let len = self.line.len() as u64;
            while pos <= len && extent <= len - pos
                invariant
                    len == self.line@.len(),
                    origin + extent <= self.line@.len(),
                    self.line@ == old(self)@,
                    extent == 0 ==> value@.len() == 0,
                    first_equal(self.line@, extent as int, value@, 0) == first_equal(
                        self.line@,
                        extent as int,
                        value@,
                        pos as int,
                    ) || extent == 0,
                    pos <= self.line@.len() || extent == 0,
                    extent == 0 ==> pos == 0,
                decreases self.line@.len() - pos,
            {
                assert(pos + extent <= self.line@.len());
                let line_len = self.line.len();
                assert(pos + extent <= line_len);
                let from = pos as usize;
                let to = (pos + extent) as usize;
                assert(from as int == pos as int && to as int == pos + extent);
                let s = vstd::slice::slice_subrange(self.line.as_slice(), from, to);
                if same_slots(s, value) {
                    proof {
                        if extent > 0 {
                            assert(s@ == self.line@.subrange(pos as int, pos + extent));
                            assert(self.line@.subrange(pos as int, pos + extent) == value@);
                            assert(first_equal(self.line@, extent as int, value@, pos as int) == pos);
                        }
                    }
                    return Ok(Some(SetOutcome::Updated));
                }
                if extent == 0 {
                    assert(s@ =~= value@);
                    assert(false);
                }
                assert(first_equal(self.line@, extent as int, value@, pos as int) == first_equal(
                    self.line@,
                    extent as int,
                    value@,
                    pos + extent,
                ));
                pos = pos + extent;
            }
            proof {
                if extent > 0 {
                    assert(first_equal(self.line@, extent as int, value@, pos as int) == -1);
                }
            }
            append_all(&mut self.line, value);
            return Ok(Some(SetOutcome::Created));
        }
        let same = same_slots(
            vstd::slice::slice_subrange(self.line.as_slice(), origin as usize, (origin + extent) as usize),
            value,
        );
        let outcome = if same {
            SetOutcome::Updated
        } else {
            SetOutcome::Created
        };
        write_over(&mut self.line, origin as usize, value);
        Ok(Some(outcome))
    }

    /// Nulls the element the directive names. Errors as for a read.
    pub fn delete(&mut self, schema: &ListsSchema, directive: &ListsDirective<T>) -> (r: Result<bool, ListsError>)
        requires
            resolvable(*schema, *directive),
        ensures
            missing(*schema, *directive) ==> (r matches Err(ListsError::SchemaMissing)) && final(self)@ == old(self)@,
            !missing(*schema, *directive) ==> {
                let (o, e) = directive_bound(*schema, *directive);
                if o + e > old(self)@.len() {
                    r matches Err(ListsError::OutOfBounds) && final(self)@ == old(self)@
                } else {
                    r == Ok::<bool, ListsError>(true) && final(self)@ == splice(old(self)@, o as int, nulls::<T>(e as nat))
                }
            },
    {
        let (base, extent, index) = Self::fields(schema, directive)?;
        let (origin, extent) = cal_bound(directive.origin, base, index, extent, directive.lists.as_slice());
        if origin + extent > self.line.len() as u64 {
            return Err(ListsError::OutOfBounds);
        }
        fill_nulls(&mut self.line, origin as usize, extent as usize);
        Ok(true)
    }
}

} // verus!
