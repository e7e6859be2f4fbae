//! Flat unit stores: [`List`] holds fixed-width units, [`VariableList`] holds
//! variable-length units addressed through an identity line of `[start, end]` pairs.
//!
//! In both, identity 0 is the null sentinel, and a unit whose slots are all null
//! does not exist.
use vstd::prelude::*;
use crate::required::SetOutcome;
use std::collections::BTreeMap;

verus! {

#[derive(Debug)]
pub enum ListError {
    OutOfBounds,
    NotExist,
}

#[derive(Debug)]
pub enum VariableListError {
    List(ListError),
    Compact,
}

/// An element of a list: a plain value with a distinguished null value.
pub trait Slot: Copy {
    /// The null value (what `Default` gives for the integer types).
    spec fn spec_null() -> Self;

    fn null() -> (r: Self)
        ensures
            r == Self::spec_null(),
    ;

    /// Value equality.
    fn same(&self, other: &Self) -> (r: bool)
        ensures
            r == (*self == *other),
    ;
}

impl Slot for u8 {
    open spec fn spec_null() -> u8 {
        0
    }

    fn null() -> (r: u8) {
        0
    }

    fn same(&self, other: &u8) -> (r: bool) {
        *self == *other
    }
}

impl Slot for u16 {
    open spec fn spec_null() -> u16 {
        0
    }

    fn null() -> (r: u16) {
        0
    }

    fn same(&self, other: &u16) -> (r: bool) {
        *self == *other
    }
}

impl Slot for u32 {
    open spec fn spec_null() -> u32 {
        0
    }

    fn null() -> (r: u32) {
        0
    }

    fn same(&self, other: &u32) -> (r: bool) {
        *self == *other
    }
}

impl Slot for u64 {
    open spec fn spec_null() -> u64 {
        0
    }

    fn null() -> (r: u64) {
        0
    }

    fn same(&self, other: &u64) -> (r: bool) {
        *self == *other
    }
}

impl Slot for usize {
    open spec fn spec_null() -> usize {
        0
    }

    fn null() -> (r: usize) {
        0
    }

    fn same(&self, other: &usize) -> (r: bool) {
        *self == *other
    }
}

/// Every slot of `s` is null.
pub open spec fn all_null<T: Slot>(s: Seq<T>) -> bool {
    forall|i: int| 0 <= i < s.len() ==> #[trigger] s[i] == T::spec_null()
}

/// `s` with `v` written over it from position `start`.
pub open spec fn splice<T>(s: Seq<T>, start: int, v: Seq<T>) -> Seq<T> {
    s.subrange(0, start) + v + s.subrange(start + v.len(), s.len() as int)
}

/// `width` null slots.
pub open spec fn nulls<T: Slot>(width: nat) -> Seq<T> {
    Seq::new(width, |i: int| T::spec_null())
}

fn is_null<T: Slot>(unit: &[T]) -> (r: bool)
    ensures
        r == all_null(unit@),
{
    let mut i: usize = 0;
    while i < unit.len()
        invariant
            i <= unit@.len(),
            all_null(unit@.subrange(0, i as int)),
        decreases unit@.len() - i,
    {
        if !unit[i].same(&T::null()) {
            return false;
        }
        i = i + 1;
        assert(forall|k: int| 0 <= k < i ==> unit@.subrange(0, i as int)[k] == unit@.subrange(0, i - 1)[k] || k == i - 1);
    }
    assert(unit@.subrange(0, unit@.len() as int) =~= unit@);
    true
}

/// Slot-wise equality of two slices.
fn slices_equal<T: Slot>(a: &[T], b: &[T]) -> (r: bool)
    ensures
        r == (a@ == b@),
{
    if a.len() != b.len() {
        return false;
    }
    let mut i: usize = 0;
    while i < a.len()
        invariant
            a@.len() == b@.len(),
            i <= a@.len(),
            a@.subrange(0, i as int) == b@.subrange(0, i as int),
        decreases a@.len() - i,
    {
        if !a[i].same(&b[i]) {
            assert(a@[i as int] != b@[i as int]);
            return false;
        }
        i = i + 1;
        assert(a@.subrange(0, i as int) =~= b@.subrange(0, i as int)) by {
            assert(a@.subrange(0, i - 1) == b@.subrange(0, i - 1));
            assert forall|k: int| 0 <= k < i implies a@.subrange(0, i as int)[k] == b@.subrange(0, i as int)[k] by {
                if k < i - 1 {
                    assert(a@.subrange(0, i - 1)[k] == b@.subrange(0, i - 1)[k]);
                }
            }
        }
    }
    assert(a@ =~= a@.subrange(0, i as int));
    assert(b@ =~= b@.subrange(0, i as int));
    true
}

/// Writes `value` over `data` from `start`.
fn write_slots<T: Slot>(data: &mut Vec<T>, start: usize, value: &[T])
    requires
        start + value@.len() <= old(data)@.len(),
    ensures
        final(data)@ == splice(old(data)@, start as int, value@),
{
    let mut k: usize = 0;
    while k < value.len()
        invariant
            start + value@.len() <= old(data)@.len(),
            k <= value@.len(),
            data@.len() == old(data)@.len(),
            data.len() == old(data)@.len(),
            data@ == splice(old(data)@, start as int, value@.subrange(0, k as int)),
        decreases value@.len() - k,
    {
        data.set(start + k, value[k]);
        k = k + 1;
        assert(data@ =~= splice(old(data)@, start as int, value@.subrange(0, k as int)));
    }
    assert(value@.subrange(0, k as int) =~= value@);
}

/// Appends `value` to `data`.
fn append_slots<T: Slot>(data: &mut Vec<T>, value: &[T])
    ensures
        final(data)@ == old(data)@ + value@,
{
    let mut k: usize = 0;
    while k < value.len()
        invariant
            k <= value@.len(),
            data@ == old(data)@ + value@.subrange(0, k as int),
        decreases value@.len() - k,
    {
        data.push(value[k]);
        k = k + 1;
        assert(data@ =~= old(data)@ + value@.subrange(0, k as int));
    }
    assert(value@.subrange(0, k as int) =~= value@);
}

/// Fills `data[start..end]` with null.
fn fill_null<T: Slot>(data: &mut Vec<T>, start: usize, end: usize)
    requires
        start <= end <= old(data)@.len(),
    ensures
        final(data)@ == splice(old(data)@, start as int, nulls::<T>((end - start) as nat)),
{
    let mut k: usize = start;
    while k < end
        invariant
            start <= k <= end <= old(data)@.len(),
            data@.len() == old(data)@.len(),
            data@ == splice(old(data)@, start as int, nulls::<T>((k - start) as nat)),
        decreases end - k,
    {
        data.set(k, T::null());
        k = k + 1;
        assert(data@ =~= splice(old(data)@, start as int, nulls::<T>((k - start) as nat)));
    }
}

/// The unit with identity `id` in a list of `w`-wide units.
pub open spec fn unit_of<T>(data: Seq<T>, id: int, w: int) -> Seq<T> {
    data.subrange(id * w, id * w + w)
}

/// The data that an append sees: one null unit (the sentinel) when the list is empty.
pub open spec fn with_sentinel<T: Slot>(data: Seq<T>, w: nat) -> Seq<T> {
    if data.len() == 0 {
        nulls::<T>(w)
    } else {
        data
    }
}

/// Unit `i` of `data` is a vacant slot that an append may reuse.
pub open spec fn vacant<T: Slot>(data: Seq<T>, w: int, i: int) -> bool {
    &&& 1 <= i < (data.len() as int) / w
    &&& all_null(unit_of(data, i, w))
}

proof fn lemma_unit_in_bounds(len: int, w: int, i: int)
    requires
        w > 0,
        0 <= i < len / w,
        len >= 0,
    ensures
        0 <= i * w,
        i * w + w <= len,
{
    assert(i * w + w <= len) by (nonlinear_arith)
        requires
            w > 0,
            0 <= i < len / w,
            len >= 0,
    {
        assert((len / w) * w <= len);
        assert((i + 1) * w <= (len / w) * w);
    }
    assert(0 <= i * w) by (nonlinear_arith)
        requires
            w > 0,
            0 <= i,
    ;
}

/// A list of fixed-width units of `T`.
///
/// Identity: a 1-based unit index (0 is the null sentinel); schema: the unit width.
pub struct List<T> {
    pub data: Vec<T>,
}

impl<T: Slot> List<T> {
    /// A list holding one null unit of `width` slots: the sentinel.
    pub fn new(width: usize) -> (r: Self)
        ensures
            r.data@ == nulls::<T>(width as nat),
    {
        let mut data: Vec<T> = Vec::new();
        let mut k: usize = 0;
        while k < width
            invariant
                k <= width,
                data@ == nulls::<T>(k as nat),
            decreases width - k,
        {
            data.push(T::null());
            k = k + 1;
            assert(data@ =~= nulls::<T>(k as nat));
        }
        Self { data }
    }

    /// The unit at `identity`: `OutOfBounds` when it lies past the data,
    /// `NotExist` when it is null.
    pub fn get<'a>(&'a self, identity: &usize, schema: &usize) -> (r: Result<&'a [T], ListError>)
        requires
            *identity * *schema + *schema <= usize::MAX,
        ensures
            ({
                let start = *identity * *schema;
                let end = start + *schema;
                if end > self.data@.len() {
                    r matches Err(ListError::OutOfBounds)
                } else if all_null(self.data@.subrange(start, end)) {
                    r matches Err(ListError::NotExist)
                } else {
                    r matches Ok(u) && u@ == self.data@.subrange(start, end)
                }
            }),
    {
        proof {
            assert(0 <= *identity * *schema) by (nonlinear_arith);
        }
        let start = *identity * *schema;
        let end = start + *schema;
        if end > self.data.len() {
            return Err(ListError::OutOfBounds);
        }
        let unit = vstd::slice::slice_subrange(self.data.as_slice(), start, end);
        if is_null(unit) {
            return Err(ListError::NotExist);
        }
        Ok(unit)
    }

    /// Writes a unit.
    ///
    /// With `identity != 0` the existing unit is overwritten (`Updated`). With
    /// `identity == 0` the value is appended (`Created` with its identity); with
    /// `reuse_vacant` the first vacant unit after the sentinel is reused instead.
    /// `OutOfBounds` when the value is not `schema` wide or the unit lies past the
    /// data, `NotExist` when the unit to update is null.
    pub fn set(
        &mut self,
        identity: &usize,
        schema: &mut usize,
        value: &[T],
        reuse_vacant: bool,
    ) -> (r: Result<SetOutcome, ListError>)
        requires
            *identity * *old(schema) + *old(schema) <= usize::MAX,
            *identity == 0 && value@.len() == *old(schema) ==> *old(schema) > 0,
            old(self).data@.len() + 2 * *old(schema) <= usize::MAX,
        ensures
            *final(schema) == *old(schema),
            ({
                let w = *old(schema) as int;
                let old_data = old(self).data@;
                let new_data = final(self).data@;
                if value@.len() != w {
                    r matches Err(ListError::OutOfBounds) && new_data == old_data
                } else if *identity != 0 {
                    let start = *identity * w;
                    if start + w > old_data.len() {
                        r matches Err(ListError::OutOfBounds) && new_data == old_data
                    } else if all_null(old_data.subrange(start, start + w)) {
                        r matches Err(ListError::NotExist) && new_data == old_data
                    } else {
                        r matches Ok(SetOutcome::Updated) && new_data == splice(old_data, start, value@)
                    }
                } else {
                    let d = with_sentinel(old_data, w as nat);
                    if reuse_vacant && exists|j: int| vacant(d, w, j) {
                        r matches Ok(SetOutcome::Created(i)) && vacant(d, w, i as int)
                            && (forall|j: int| 1 <= j < i ==> !vacant(d, w, j))
                            && new_data == splice(d, i * w, value@)
                    } else {
                        r matches Ok(SetOutcome::Created(i)) && i == (d.len() as int) / w && new_data == d + value@
                    }
                }
            }),
            r matches Ok(SetOutcome::Updated) ==> unit_of(final(self).data@, *identity as int, *old(schema) as int) == value@,
            r matches Ok(SetOutcome::Created(i)) ==> ((old(self).data@.len() as int) % (*old(schema) as int) == 0
                ==> unit_of(final(self).data@, i as int, *old(schema) as int) == value@),
    {
        if value.len() != *schema {
            return Err(ListError::OutOfBounds);
        }
        let unit = *schema;
        if *identity != 0 {
            proof {
                assert(0 <= *identity * unit) by (nonlinear_arith);
            }
            let start = *identity * unit;
            let end = start + unit;
            if end > self.data.len() {
                return Err(ListError::OutOfBounds);
            }
            if is_null(vstd::slice::slice_subrange(self.data.as_slice(), start, end)) {
                return Err(ListError::NotExist);
            }
            write_slots(&mut self.data, start, value);
            assert(unit_of(self.data@, *identity as int, unit as int) =~= value@);
            Ok(SetOutcome::Updated)
        } else {
            if self.data.len() == 0 {
                let mut k: usize = 0;
                while k < unit
                    invariant
                        k <= unit,
                        self.data@ == nulls::<T>(k as nat),
                    decreases unit - k,
                {
                    self.data.push(T::null());
                    k = k + 1;
                    assert(self.data@ =~= nulls::<T>(k as nat));
                }
            }
            let ghost d = self.data@;
            assert(d == with_sentinel(old(self).data@, unit as nat));
            let count = self.data.len() / unit;
            let mut vacant_at: Option<usize> = None;
            if reuse_vacant {
                let mut i: usize = 1;
                while i < count
                    invariant_except_break
                        vacant_at is None,
                    invariant
                        unit > 0,
                        self.data@ == d,
                        d.len() <= usize::MAX,
                        count == (d.len() as int) / (unit as int),
                        1 <= i,
                        forall|j: int| 1 <= j < i ==> !vacant(d, unit as int, j),
                    ensures
                        match vacant_at {
                            Some(v) => vacant(d, unit as int, v as int) && forall|j: int| 1 <= j < v ==> !vacant(d, unit as int, j),
                            None => forall|j: int| 1 <= j < count ==> !vacant(d, unit as int, j),
                        },
                    decreases count - i,
                {
                    proof {
                        lemma_unit_in_bounds(d.len() as int, unit as int, i as int);
                        assert((i + 1) * unit == i * unit + unit) by (nonlinear_arith);
                    }
                    let unit_slots = vstd::slice::slice_subrange(self.data.as_slice(), i * unit, (i + 1) * unit);
                    if is_null(unit_slots) {
                        vacant_at = Some(i);
                        break;
                    }
                    i = i + 1;
                }
            }
            match vacant_at {
                Some(i) => {
                    proof {
                        lemma_unit_in_bounds(d.len() as int, unit as int, i as int);
                    }
                    write_slots(&mut self.data, i * unit, value);
                    assert(unit_of(self.data@, i as int, unit as int) =~= value@);
                    Ok(SetOutcome::Created(i))
                },
                None => {
                    append_slots(&mut self.data, value);
                    proof {
                        if (old(self).data@.len() as int) % (unit as int) == 0 {
                            assert((d.len() as int) % (unit as int) == 0) by {
                                if old(self).data@.len() == 0 {
                                    assert(d.len() == unit);
                                    vstd::arithmetic::div_mod::lemma_mod_self_0(unit as int);
                                }
                            }
                            assert(count * unit == d.len()) by {
                                vstd::arithmetic::div_mod::lemma_fundamental_div_mod(d.len() as int, unit as int);
                                vstd::arithmetic::mul::lemma_mul_is_commutative(count as int, unit as int);
                            }
                            assert(unit_of(self.data@, count as int, unit as int) =~= value@);
                        }
                    }
                    Ok(SetOutcome::Created(count))
                },
            }
        }
    }

    /// Nulls the unit at `identity`; `OutOfBounds` when it lies past the data.
    pub fn delete(&mut self, identity: &usize, schema: &mut usize) -> (r: Result<(), ListError>)
        requires
            *identity * *old(schema) + *old(schema) <= usize::MAX,
        ensures
            *final(schema) == *old(schema),
            ({
                let w = *old(schema) as int;
                let start = *identity * w;
                if start + w > old(self).data@.len() {
                    r matches Err(ListError::OutOfBounds) && final(self).data@ == old(self).data@
                } else {
                    r is Ok && final(self).data@ == splice(old(self).data@, start, nulls::<T>(w as nat))
                }
            }),
    {
        let unit = *schema;
        proof {
            assert(0 <= *identity * unit) by (nonlinear_arith);
        }
        let start = *identity * unit;
        let end = start + unit;
        if end > self.data.len() {
            return Err(ListError::OutOfBounds);
        }
        fill_null(&mut self.data, start, end);
        Ok(())
    }
}

/// Entry `k` of an identity line is a range inside `data_len` bytes.
pub open spec fn entry_ok(identity: Seq<usize>, data_len: nat, k: int) -> bool {
    identity[2 * k] <= identity[2 * k + 1] <= data_len
}

/// Entry `k` of an identity line is the null pair.
pub open spec fn entry_null(identity: Seq<usize>, k: int) -> bool {
    identity[2 * k] == 0 && identity[2 * k + 1] == 0
}

/// The slots that entry `k` addresses.
pub open spec fn entry_value<T>(identity: Seq<usize>, data: Seq<T>, k: int) -> Seq<T> {
    data.subrange(identity[2 * k] as int, identity[2 * k + 1] as int)
}

/// Entry `k` (not the sentinel) holds exactly `value`: what interning reuses.
pub open spec fn interned<T>(identity: Seq<usize>, data: Seq<T>, k: int, value: Seq<T>) -> bool {
    &&& 1 <= k < identity.len() / 2
    &&& !entry_null(identity, k)
    &&& entry_value(identity, data, k) == value
}

proof fn lemma_entry_null(ids: Seq<usize>, k: int)
    requires
        0 <= k,
        2 * k + 2 <= ids.len(),
    ensures
        all_null(ids.subrange(2 * k, 2 * k + 2)) <==> entry_null(ids, k),
{
    let sub = ids.subrange(2 * k, 2 * k + 2);
    assert(sub[0] == ids[2 * k]);
    assert(sub[1] == ids[2 * k + 1]);
}

/// Identities of the non-null entries among `1..upto`, in order: the entries that survive compaction.
pub open spec fn survivors(ids: Seq<usize>, upto: int) -> Seq<int>
    decreases upto,
{
    if upto <= 1 {
        Seq::empty()
    } else if entry_null(ids, upto - 1) {
        survivors(ids, upto - 1)
    } else {
        survivors(ids, upto - 1).push(upto - 1)
    }
}

proof fn lemma_survivors_range(ids: Seq<usize>, upto: int)
    ensures
        forall|k: int| 0 <= k < survivors(ids, upto).len() ==> 1 <= #[trigger] survivors(ids, upto)[k] < upto
            && !entry_null(ids, survivors(ids, upto)[k]),
        forall|k: int, l: int| 0 <= k < l < survivors(ids, upto).len() ==> survivors(ids, upto)[k] < survivors(ids, upto)[l],
        forall|i: int| 1 <= i < upto && !entry_null(ids, i) ==> survivors(ids, upto).contains(i),
    decreases upto,
{
    if upto > 1 {
        lemma_survivors_range(ids, upto - 1);
        let s = survivors(ids, upto - 1);
        assert forall|i: int| 1 <= i < upto && !entry_null(ids, i) implies survivors(ids, upto).contains(i) by {
            if i < upto - 1 {
                let k = choose|k: int| 0 <= k < s.len() && s[k] == i;
                assert(survivors(ids, upto)[k] == i);
            } else {
                assert(survivors(ids, upto)[s.len() as int] == i);
            }
        }
    }
}

/// The range of entry `k` lies inside the data.
pub open spec fn entry_in_data<T>(identity: Seq<usize>, data: Seq<T>, k: int) -> bool {
    identity[2 * k] <= identity[2 * k + 1] <= data.len()
}

/// A list of variable-length units of `T`: unit `k` is `data[identity[2k]..identity[2k + 1]]`.
///
/// Identity: a 1-based unit index (0 is the null sentinel).
pub struct VariableList<T> {
    pub identity: Vec<usize>,
    pub data: Vec<T>,
}

impl<T> VariableList<T> {
    /// The identity line holds pairs, each a range inside the data.
    pub open spec fn wf(&self) -> bool {
        &&& self.identity@.len() % 2 == 0
        &&& forall|k: int| 0 <= k < self.identity@.len() / 2 ==> #[trigger] entry_ok(self.identity@, self.data@.len(), k)
    }
}

impl<T: Slot> VariableList<T> {
    /// An empty list: just the sentinel entry.
    pub fn new() -> (r: Self)
        ensures
            r.identity@ == seq![0usize, 0usize],
            r.data@ == Seq::<T>::empty(),
            r.wf(),
    {
        let mut identity: Vec<usize> = Vec::new();
        identity.push(0);
        identity.push(0);
        let r = Self { identity, data: Vec::new() };
        assert(r.identity@ =~= seq![0usize, 0usize]);
        assert forall|k: int| 0 <= k < r.identity@.len() / 2 implies #[trigger] entry_ok(r.identity@, r.data@.len(), k) by {
            assert(k == 0);
        }
        r
    }

    /// The unit at `identity`: `OutOfBounds` when its entry lies past the identity
    /// line or its range past the data, `NotExist` when the entry is null.
    pub fn get<'a>(&'a self, identity: &usize, _schema: &()) -> (r: Result<&'a [T], ListError>)
        requires
            *identity * 2 + 2 <= usize::MAX,
        ensures
            ({
                let k = *identity as int;
                let ids = self.identity@;
                if 2 * k + 2 > ids.len() {
                    r matches Err(ListError::OutOfBounds)
                } else if entry_null(ids, k) {
                    r matches Err(ListError::NotExist)
                } else if ids[2 * k] > ids[2 * k + 1] || ids[2 * k + 1] > self.data@.len() {
                    r matches Err(ListError::OutOfBounds)
                } else {
                    r matches Ok(u) && u@ == entry_value(ids, self.data@, k)
                }
            }),
    {
        let identity_start = *identity * 2;
        let identity_end = identity_start + 2;
        if identity_end > self.identity.len() {
            return Err(ListError::OutOfBounds);
        }
        proof {
            lemma_entry_null(self.identity@, *identity as int);
        }
        if is_null(vstd::slice::slice_subrange(self.identity.as_slice(), identity_start, identity_end)) {
            return Err(ListError::NotExist);
        }
        let start = self.identity[identity_start];
        let end = self.identity[identity_start + 1];
        if start > end || end > self.data.len() {
            return Err(ListError::OutOfBounds);
        }
        Ok(vstd::slice::slice_subrange(self.data.as_slice(), start, end))
    }

    /// Writes a unit.
    ///
    /// With `identity != 0` the existing unit is replaced (`Updated`): in place
    /// when the value fits its range, else the value is appended to the data and
    /// the entry points there. With `identity == 0` the value is appended with a
    /// new entry (`Created` with its identity); with `intern` the first unit that
    /// already holds the value is returned instead and nothing changes.
    /// `OutOfBounds` when the entry lies past the identity line, `NotExist` when it
    /// is null.
    #[verifier::rlimit(40)]
    pub fn set(
        &mut self,
        identity: &usize,
        _schema: &mut (),
        value: &[T],
        intern: bool,
    ) -> (r: Result<SetOutcome, ListError>)
        requires
            old(self).wf(),
            *identity * 2 + 2 <= usize::MAX,
            old(self).data@.len() + value@.len() <= usize::MAX,
            old(self).identity@.len() + 4 <= usize::MAX,
        ensures
            final(self).wf(),
            ({
                let k = *identity as int;
                let ids = old(self).identity@;
                let data = old(self).data@;
                let new_ids = final(self).identity@;
                let new_data = final(self).data@;
                if k != 0 {
                    if 2 * k + 2 > ids.len() {
                        r matches Err(ListError::OutOfBounds) && new_ids == ids && new_data == data
                    } else if entry_null(ids, k) {
                        r matches Err(ListError::NotExist) && new_ids == ids && new_data == data
                    } else if value@.len() <= ids[2 * k + 1] - ids[2 * k] {
                        &&& r matches Ok(SetOutcome::Updated)
                        &&& new_data == splice(data, ids[2 * k] as int, value@)
                        &&& new_ids == ids.update(2 * k + 1, (ids[2 * k] + value@.len()) as usize)
                    } else {
                        &&& r matches Ok(SetOutcome::Updated)
                        &&& new_data == data + value@
                        &&& new_ids == ids.update(2 * k, data.len() as usize).update(
                            2 * k + 1,
                            (data.len() + value@.len()) as usize,
                        )
                    }
                } else {
                    true
                }
            }),
            *identity == 0 && intern && (exists|j: int| interned(old(self).identity@, old(self).data@, j, value@)) ==> {
                let ids = old(self).identity@;
                let data = old(self).data@;
                &&& r matches Ok(SetOutcome::Created(i))
                &&& interned(ids, data, i as int, value@)
                &&& forall|j: int| 1 <= j < i ==> !interned(ids, data, j, value@)
                &&& final(self).identity@ == ids && final(self).data@ == data
            },
            *identity == 0 && !(intern && (exists|j: int| interned(old(self).identity@, old(self).data@, j, value@))) ==> {
                let ids = old(self).identity@;
                let data = old(self).data@;
                let base = with_sentinel(ids, 2);
                &&& r matches Ok(SetOutcome::Created(i))
                &&& i == base.len() / 2
                &&& final(self).data@ == data + value@
                &&& final(self).identity@ == base + seq![data.len() as usize, (data.len() + value@.len()) as usize]
            },
            r matches Ok(SetOutcome::Updated) ==> entry_value(final(self).identity@, final(self).data@, *identity as int) == value@,
            r matches Ok(SetOutcome::Created(i)) ==> 1 <= i < final(self).identity@.len() / 2
                && entry_value(final(self).identity@, final(self).data@, i as int) == value@,
    {
        if *identity != 0 {
            let identity_start = *identity * 2;
            let identity_end = identity_start + 2;
            if identity_end > self.identity.len() {
                return Err(ListError::OutOfBounds);
            }
            proof {
                lemma_entry_null(self.identity@, *identity as int);
            }
            if is_null(vstd::slice::slice_subrange(self.identity.as_slice(), identity_start, identity_end)) {
                return Err(ListError::NotExist);
            }
            assert(entry_ok(self.identity@, self.data@.len(), *identity as int));
            let old_start = self.identity[identity_start];
            let old_end = self.identity[identity_start + 1];
            let old_len = old_end - old_start;
            if value.len() <= old_len {
                write_slots(&mut self.data, old_start, value);
                self.identity.set(identity_start + 1, old_start + value.len());
                assert(entry_value(self.identity@, self.data@, *identity as int) =~= value@);
            } else {
                let start = self.data.len();
                let end = start + value.len();
                append_slots(&mut self.data, value);
                self.identity.set(identity_start, start);
                self.identity.set(identity_start + 1, end);
                assert(entry_value(self.identity@, self.data@, *identity as int) =~= value@);
            }
            proof {
                assert forall|j: int| 0 <= j < self.identity@.len() / 2 implies #[trigger] entry_ok(self.identity@, self.data@.len(), j) by {
                    assert(entry_ok(old(self).identity@, old(self).data@.len(), j));
                }
            }
            Ok(SetOutcome::Updated)
        } else {
            if intern {
                let count = self.identity.len() / 2;
                let mut i: usize = 1;
                while i < count
                    invariant
                        *identity == 0,
                        intern,
                        self.wf(),
                        self.identity@ == old(self).identity@,
                        self.data@ == old(self).data@,
                        count == self.identity@.len() / 2,
                        1 <= i,
                        forall|j: int| 1 <= j < i ==> !interned(self.identity@, self.data@, j, value@),
                    decreases count - i,
                {
                    assert(self.identity@.len() == self.identity.len());
                    let identity_start = i * 2;
                    assert(entry_ok(self.identity@, self.data@.len(), i as int));
                    proof {
                        lemma_entry_null(self.identity@, i as int);
                    }
                    let start = self.identity[identity_start];
                    let end = self.identity[identity_start + 1];
                    if !is_null(vstd::slice::slice_subrange(self.identity.as_slice(), identity_start, identity_start + 2))
                        && slices_equal(vstd::slice::slice_subrange(self.data.as_slice(), start, end), value) {
                        assert(interned(old(self).identity@, old(self).data@, i as int, value@));
                        return Ok(SetOutcome::Created(i));
                    }
                    i = i + 1;
                }
            }
            let start = self.data.len();
            let end = start + value.len();
            append_slots(&mut self.data, value);
            let mut entry: Vec<usize> = Vec::new();
            entry.push(start);
            entry.push(end);
            let mut ls: List<usize> = List { data: Vec::new() };
            core::mem::swap(&mut ls.data, &mut self.identity);
            let mut width: usize = 2;
            let outcome = match ls.set(&0, &mut width, entry.as_slice(), false) {
                Ok(o) => o,
                Err(_) => {
                    core::mem::swap(&mut ls.data, &mut self.identity);
                    return Err(ListError::OutOfBounds);
                },
            };
            core::mem::swap(&mut ls.data, &mut self.identity);
            proof {
                assert(entry@ =~= seq![start, end]);
                assert(entry_value(self.identity@, self.data@, (self.identity@.len() / 2 - 1) as int) =~= value@);
                assert forall|j: int| 0 <= j < self.identity@.len() / 2 implies #[trigger] entry_ok(self.identity@, self.data@.len(), j) by {
                    if j < old(self).identity@.len() / 2 {
                        assert(entry_ok(old(self).identity@, old(self).data@.len(), j));
                    }
                }
            }
            Ok(outcome)
        }
    }

    /// Nulls the entry at `identity`: `NotExist` for the sentinel, `OutOfBounds`
    /// when it lies past the identity line. The data is left as it is.
    pub fn delete(&mut self, identity: &usize, _schema: &mut ()) -> (r: Result<(), ListError>)
        requires
            *identity * 2 + 2 <= usize::MAX,
        ensures
            final(self).data@ == old(self).data@,
            ({
                let k = *identity as int;
                let ids = old(self).identity@;
                if k == 0 {
                    r matches Err(ListError::NotExist) && final(self).identity@ == ids
                } else if 2 * k + 2 > ids.len() {
                    r matches Err(ListError::OutOfBounds) && final(self).identity@ == ids
                } else {
                    r is Ok && final(self).identity@ == ids.update(2 * k, 0usize).update(2 * k + 1, 0usize)
                }
            }),
            old(self).wf() ==> final(self).wf(),
    {
        if *identity == 0 {
            return Err(ListError::NotExist);
        }
        let identity_start = *identity * 2;
        let identity_end = identity_start + 2;
        if identity_end > self.identity.len() {
            return Err(ListError::OutOfBounds);
        }
        fill_null(&mut self.identity, identity_start, identity_end);
        proof {
            assert(self.identity@ =~= old(self).identity@.update(identity_start as int, 0usize).update(identity_start + 1, 0usize));
            if old(self).wf() {
                assert forall|j: int| 0 <= j < self.identity@.len() / 2 implies #[trigger] entry_ok(self.identity@, self.data@.len(), j) by {
                    assert(entry_ok(old(self).identity@, old(self).data@.len(), j));
                }
            }
        }
        Ok(())
    }
}

impl<T: Slot> VariableList<T> {
    /// Rebuilds identity line and data from scratch: null entries are dropped,
    /// bytes that updates left unreachable are reclaimed, and the surviving units
    /// get sequential identities from 1 in their old order. Returns the map from
    /// each old identity to its new one. `Compact` when a surviving entry's range
    /// lies outside the data; the list is then left as it was.
    pub fn compact(&mut self) -> (r: Result<BTreeMap<usize, usize>, VariableListError>)
        requires
            old(self).data@.len() <= usize::MAX,
        ensures
            ({
                let ids = old(self).identity@;
                let data = old(self).data@;
                let surv = survivors(ids, (ids.len() / 2) as int);
                let m = surv.len();
                if exists|k: int| 0 <= k < m && !entry_in_data(ids, data, #[trigger] surv[k]) {
                    r matches Err(VariableListError::Compact) && final(self).identity@ == ids && final(self).data@ == data
                } else {
                    let new_ids = final(self).identity@;
                    let new_data = final(self).data@;
                    &&& r matches Ok(remap)
                    &&& final(self).wf()
                    &&& new_ids.len() == 2 * (m + 1)
                    &&& entry_null(new_ids, 0)
                    &&& forall|k: int| 0 <= k < m ==> entry_value(new_ids, new_data, k + 1) == entry_value(ids, data, #[trigger] surv[k])
                    &&& forall|k: int| 0 <= k < m ==> #[trigger] new_ids[2 * k + 2] == if k == 0 { 0 } else { new_ids[2 * k + 1] }
                    &&& new_data.len() == if m == 0 { 0 } else { new_ids[2 * (m as int) + 1] as int }
                    &&& forall|k: int| 0 <= k < m ==> remap@.contains_key(#[trigger] surv[k] as usize) && remap@[surv[k] as usize] == k + 1
                    &&& forall|i: usize| #[trigger] remap@.contains_key(i) ==> surv.contains(i as int)
                }
            }),
    {
        proof {
            crate::order::lemma_usize_key_order();
        }
        let mut new_identity: Vec<usize> = Vec::new();
        new_identity.push(0);
        new_identity.push(0);
        let mut new_data: Vec<T> = Vec::new();
        let mut remap: BTreeMap<usize, usize> = BTreeMap::new();
        let count = self.identity.len() / 2;
        let ghost ids = self.identity@;
        let ghost data = self.data@;
        proof {
            lemma_survivors_range(ids, count as int);
        }
        let mut i: usize = 1;
        while i < count
            invariant
                self.identity@ == ids,
                self.data@ == data,
                data.len() <= usize::MAX,
                count == ids.len() / 2,
                ids.len() <= usize::MAX,
                1 <= i,
                i <= count || i == 1,
                ({
                    let surv = survivors(ids, i as int);
                    let m = surv.len();
                    &&& forall|k: int| 0 <= k < m ==> entry_in_data(ids, data, #[trigger] surv[k])
                    &&& new_identity@.len() == 2 * (m + 1)
                    &&& entry_null(new_identity@, 0)
                    &&& forall|k: int| 0 <= k < m + 1 ==> #[trigger] entry_ok(new_identity@, new_data@.len(), k)
                    &&& forall|k: int| 0 <= k < m ==> entry_value(new_identity@, new_data@, k + 1) == entry_value(ids, data, #[trigger] surv[k])
                    &&& forall|k: int| 0 <= k < m ==> #[trigger] new_identity@[2 * k + 2] == if k == 0 { 0 } else { new_identity@[2 * k + 1] }
                    &&& new_data@.len() == if m == 0 { 0 } else { new_identity@[2 * (m as int) + 1] as int }
                    &&& new_data@.len() <= data.len() * 0 + usize::MAX
                    &&& forall|k: int| 0 <= k < m ==> remap@.contains_key(#[trigger] surv[k] as usize) && remap@[surv[k] as usize] == k + 1
                    &&& forall|j: usize| #[trigger] remap@.contains_key(j) ==> surv.contains(j as int)
                }),
            decreases count - i,
        {
            let ghost surv0 = survivors(ids, i as int);
            let identity_start = i * 2;
            proof {
                lemma_entry_null(ids, i as int);
            }
            if is_null(vstd::slice::slice_subrange(self.identity.as_slice(), identity_start, identity_start + 2)) {
                assert(survivors(ids, i + 1) == surv0);
                i = i + 1;
                continue;
            }
            let start = self.identity[identity_start];
            let end = self.identity[identity_start + 1];
            assert(survivors(ids, i + 1) == surv0.push(i as int));
            if !(start <= end && end <= self.data.len()) {
                proof {
                    lemma_survivors_prefix(ids, i + 1, (ids.len() / 2) as int);
                    let full = survivors(ids, (ids.len() / 2) as int);
                    assert(full[surv0.len() as int] == i as int);
                    assert(!entry_in_data(ids, data, full[surv0.len() as int]));
                }
                return Err(VariableListError::Compact);
            }
            let ghost old_nid = new_identity@;
            let ghost old_nd = new_data@;
            let slice = vstd::slice::slice_subrange(self.data.as_slice(), start, end);
            let new_start = new_data.len();
            append_slots(&mut new_data, slice);
            let new_end = new_data.len();
            let new_id = new_identity.len() / 2;
            new_identity.push(new_start);
            new_identity.push(new_end);
            remap.insert(i, new_id);
            proof {
                let surv = survivors(ids, i + 1);
                let m = surv.len();
                assert(new_id == m);
                assert forall|k: int| 0 <= k < m + 1 implies #[trigger] entry_ok(new_identity@, new_data@.len(), k) by {
                    if k < m {
                        assert(entry_ok(old_nid, old_nd.len(), k));
                        assert(new_identity@[2 * k] == old_nid[2 * k]);
                        assert(new_identity@[2 * k + 1] == old_nid[2 * k + 1]);
                    }
                }
                assert forall|k: int| 0 <= k < m implies entry_value(new_identity@, new_data@, k + 1) == entry_value(ids, data, #[trigger] surv[k]) by {
                    if k < m - 1 {
                        assert(surv[k] == surv0[k]);
                        assert(entry_ok(old_nid, old_nd.len(), k + 1));
                        assert(new_identity@[2 * k + 2] == old_nid[2 * k + 2]);
                        assert(new_identity@[2 * k + 3] == old_nid[2 * k + 3]);
                        assert(new_data@.subrange(new_identity@[2 * k + 2] as int, new_identity@[2 * k + 3] as int)
                            =~= old_nd.subrange(old_nid[2 * k + 2] as int, old_nid[2 * k + 3] as int));
                    } else {
                        assert(new_data@.subrange(new_start as int, new_end as int) =~= slice@);
                    }
                }
                assert forall|k: int| 0 <= k < m implies remap@.contains_key(#[trigger] surv[k] as usize) && remap@[surv[k] as usize] == k + 1 by {
                    if k < m - 1 {
                        assert(surv[k] == surv0[k]);
                        lemma_survivors_range(ids, i as int);
                    }
                }
                assert forall|j: usize| #[trigger] remap@.contains_key(j) implies surv.contains(j as int) by {
                    if j != i {
                        let k = choose|k: int| 0 <= k < surv0.len() && surv0[k] == j as int;
                        assert(surv[k] == j as int);
                    } else {
                        assert(surv[m - 1] == i as int);
                    }
                }
            }
            i = i + 1;
        }
        assert(survivors(ids, i as int) == survivors(ids, count as int));
        self.identity = new_identity;
        self.data = new_data;
        Ok(remap)
    }
}

proof fn lemma_survivors_prefix(ids: Seq<usize>, a: int, b: int)
    requires
        a <= b,
    ensures
        survivors(ids, a).len() <= survivors(ids, b).len(),
        forall|k: int| 0 <= k < survivors(ids, a).len() ==> #[trigger] survivors(ids, b)[k] == survivors(ids, a)[k],
    decreases b - a,
{
    if a < b {
        lemma_survivors_prefix(ids, a, b - 1);
    }
}

} // verus!
