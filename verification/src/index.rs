//! The field index: records bucketed by their scalar key inside a span,
//! kept in a `field_collex::FieldCollex` and reached through a small set of
//! operations whose contracts are stated over what the index holds.

use crate::id_map::{DefaultId, Id};
use crate::obj::{replace_object, Item, Obj};
use field_collex::collex::{InsertFieldCollexError, NewFieldCollexError, WithCapacityFieldCollexError};
use field_collex::{Collexetable, FieldCollex};
use span_core::Span;
use vstd::prelude::*;

verus! {

/// The range of keys an index accepts: `[start, end)` or `[start, +inf)`.
#[derive(Debug, Clone, Copy, PartialEq, Eq, Structural)]
pub enum FieldSpan {
    Finite { start: u64, end: u64 },
    Infinite { start: u64 },
}

impl FieldSpan {
    /// The lowest key of the span.
    pub open spec fn lower(self) -> u64 {
        match self {
            FieldSpan::Finite { start, .. } => start,
            FieldSpan::Infinite { start } => start,
        }
    }

    /// Whether `key` lies in the span.
    pub open spec fn holds(self, key: u64) -> bool {
        match self {
            FieldSpan::Finite { start, end } => start <= key < end,
            FieldSpan::Infinite { start } => start <= key,
        }
    }

    /// Whether no key lies in the span.
    pub open spec fn vacant(self) -> bool {
        match self {
            FieldSpan::Finite { start, end } => start >= end,
            FieldSpan::Infinite { .. } => false,
        }
    }

    /// Whether the index can do its arithmetic on `key`, where `key` lies in
    /// the span: the bucket of width `unit` that holds `key` ends at or below
    /// `u64::MAX`, since the index computes that end when it splits a bucket
    /// between two records, and the number of that bucket is a `usize`.
    pub open spec fn fits(self, unit: u64, key: u64) -> bool {
        self.holds(key) ==> key + unit <= u64::MAX && (key - self.lower()) / (unit as int)
            <= usize::MAX
    }

    /// How many buckets of width `unit` the span is cut into, where it is
    /// finite.
    pub open spec fn buckets(self, unit: u64) -> Option<int> {
        match self {
            FieldSpan::Finite { start, end } => Some((end - start) / (unit as int)),
            FieldSpan::Infinite { .. } => None,
        }
    }

    /// Whether `key` lies in the span.
    pub fn contains(&self, key: u64) -> (inside: bool)
        ensures
            inside == self.holds(key),
    {
        match *self {
            FieldSpan::Finite { start, end } => start <= key && key < end,
            FieldSpan::Infinite { start } => start <= key,
        }
    }

    /// Whether no key lies in the span.
    pub fn is_empty(&self) -> (empty: bool)
        ensures
            empty == self.vacant(),
    {
        match *self {
            FieldSpan::Finite { start, end } => start >= end,
            FieldSpan::Infinite { .. } => false,
        }
    }
}

/// Why an index could not be made.
#[derive(Debug, Clone, Copy, PartialEq, Eq, Structural)]
pub enum ConstructionError {
    /// The span holds no key.
    EmptySpan,
    /// The unit is zero.
    NonPositiveUnit,
    /// More room was asked for than the span has buckets.
    OutOfSize,
}

/// Why an object was not placed; the object comes back with the reason.
#[derive(Debug, Clone, Copy, PartialEq, Eq, Structural)]
pub enum InsertError {
    /// The object's key lies outside the span.
    OutOfSpan(Item),
    /// Another object already has that key.
    AlreadyExist(Item),
}

/// The key by which the index orders and finds a record is the key of the
/// object that the record carries.
impl<K: Id> Collexetable<u64> for Obj<K, Item> {
    fn collexate(&self) -> (key: u64)
        ensures
            key == self.1.key,
    {
        self.1.value()
    }

    fn collexate_ref(&self) -> (key: &u64)
        ensures
            *key == self.1.key,
    {
        self.1.value_ref()
    }

    fn collexate_mut(&mut self) -> (key: &mut u64)
        ensures
            *key == old(self).1.key,
            final(self).1.key == *final(key),
            final(self).1.data == old(self).1.data,
            final(self).0 == old(self).0,
    {
        self.1.value_mut()
    }
}

/// The index itself, a `FieldCollex` of records. Its inside is opaque to
/// proofs: what it holds and what it was made with are `index_records`,
/// `index_span` and `index_unit`, and the operations below say how each of
/// them changes those three. The index keeps one slot for every bucket up
/// to the highest one in use, so its memory grows with the distance of a
/// key from the start of the span; running out of memory is outside what
/// the contracts speak of.
#[derive(Debug)]
#[verifier::external_body]
pub struct FieldIndex {
    inner: FieldCollex<Obj<DefaultId, Item>, u64>,
}

/// The records an index holds: under each key, the identifier and the
/// payload of the one record with that key.
pub uninterp spec fn index_records(index: FieldIndex) -> Map<u64, (u64, u64)>;

/// The span an index was made with.
pub uninterp spec fn index_span(index: FieldIndex) -> FieldSpan;

/// The bucket width an index was made with.
pub uninterp spec fn index_unit(index: FieldIndex) -> u64;

/// What `index_records` holds for a record.
pub open spec fn entry_of(record: Obj<DefaultId, Item>) -> (u64, u64) {
    (record.0.0, record.1.data)
}

/// The record that `index_records` describes under `key`.
pub open spec fn record_at(records: Map<u64, (u64, u64)>, key: u64) -> Obj<DefaultId, Item> {
    Obj(DefaultId(records[key].0), Item { key, data: records[key].1 })
}

/// `FieldCollex::new`: refuses a zero unit, then an empty span; otherwise
/// gives an index with that span and unit that holds nothing.
#[verifier::external_body]
pub(crate) fn build(span: FieldSpan, unit: u64) -> (made: Result<FieldIndex, ConstructionError>)
    ensures
        match made {
            Ok(index) => unit > 0 && !span.vacant() && index_span(index) == span && index_unit(
                index,
            ) == unit && index_records(index) == Map::<u64, (u64, u64)>::empty(),
            Err(e) => if unit == 0 {
                e == ConstructionError::NonPositiveUnit
            } else {
                span.vacant() && e == ConstructionError::EmptySpan
            },
        },
{
    let outer = match span {
        FieldSpan::Finite { start, end } => Span::new_finite(start, end),
        FieldSpan::Infinite { start } => Span::new_infinite(start),
    };
    match FieldCollex::new(outer, unit) {
        Ok(inner) => Ok(FieldIndex { inner }),
        Err(NewFieldCollexError::EmptySpan(..)) => Err(ConstructionError::EmptySpan),
        Err(NewFieldCollexError::NonPositiveUnit(..)) => Err(ConstructionError::NonPositiveUnit),
    }
}

/// `FieldCollex::with_capacity`: as `FieldCollex::new`, and refuses a
/// capacity above the number of buckets of a finite span. Room for
/// `capacity` buckets is set aside at once.
#[verifier::external_body]
pub(crate) fn build_with_capacity(span: FieldSpan, unit: u64, capacity: usize) -> (made: Result<
    FieldIndex,
    ConstructionError,
>)
    ensures
        match made {
            Ok(index) => unit > 0 && !span.vacant() && !exceeds(span, unit, capacity)
                && index_span(index) == span && index_unit(index) == unit && index_records(index)
                == Map::<u64, (u64, u64)>::empty(),
            Err(e) => if unit == 0 {
                e == ConstructionError::NonPositiveUnit
            } else if span.vacant() {
                e == ConstructionError::EmptySpan
            } else {
                exceeds(span, unit, capacity) && e == ConstructionError::OutOfSize
            },
        },
{
    let outer = match span {
        FieldSpan::Finite { start, end } => Span::new_finite(start, end),
        FieldSpan::Infinite { start } => Span::new_infinite(start),
    };
    match FieldCollex::with_capacity(outer, unit, capacity) {
        Ok(inner) => Ok(FieldIndex { inner }),
        Err(WithCapacityFieldCollexError::EmptySpan(..)) => Err(ConstructionError::EmptySpan),
        Err(WithCapacityFieldCollexError::NonPositiveUnit(..)) => Err(
            ConstructionError::NonPositiveUnit,
        ),
        Err(WithCapacityFieldCollexError::OutOfSize(..)) => Err(ConstructionError::OutOfSize),
    }
}

/// Whether `capacity` is more than the buckets that a finite span has.
pub open spec fn exceeds(span: FieldSpan, unit: u64, capacity: usize) -> bool {
    match span.buckets(unit) {
        Some(n) => capacity > (n as usize),
        None => false,
    }
}

/// `FieldCollex::span`, as a `FieldSpan`.
#[verifier::external_body]
pub(crate) fn read_span(index: &FieldIndex) -> (span: FieldSpan)
    ensures
        span == index_span(*index),
{
    match index.inner.span() {
        Span::Finite(r) => FieldSpan::Finite { start: r.start, end: r.end },
        Span::Infinite(r) => FieldSpan::Infinite { start: r.start },
    }
}

/// `FieldCollex::unit`.
#[verifier::external_body]
pub(crate) fn read_unit(index: &FieldIndex) -> (unit: u64)
    ensures
        unit == index_unit(*index),
{
    *index.inner.unit()
}

/// `FieldCollex::insert`: a record whose key lies outside the span, or whose
/// key another record already has, comes back and the index stays as it
/// was; any other record is added under its key. A key inside the span
/// must be one the index can do its arithmetic on.
#[verifier::external_body]
pub(crate) fn place(index: &mut FieldIndex, record: Obj<DefaultId, Item>) -> (placed: Result<
    (),
    InsertError,
>)
    requires
        index_span(*old(index)).fits(index_unit(*old(index)), record.1.key),
    ensures
        index_span(*final(index)) == index_span(*old(index)),
        index_unit(*final(index)) == index_unit(*old(index)),
        placed == place_outcome(*old(index), record.1),
        index_records(*final(index)) == if placed.is_ok() {
            index_records(*old(index)).insert(record.1.key, entry_of(record))
        } else {
            index_records(*old(index))
        },
{
    match index.inner.insert(record) {
        Ok(()) => Ok(()),
        Err(InsertFieldCollexError::OutOfSpan(o)) => Err(InsertError::OutOfSpan(o.1)),
        Err(InsertFieldCollexError::AlreadyExist(o)) => Err(InsertError::AlreadyExist(o.1)),
    }
}

/// What placing `item` in `index` answers.
pub open spec fn place_outcome(index: FieldIndex, item: Item) -> Result<(), InsertError> {
    if !index_span(index).holds(item.key) {
        Err(InsertError::OutOfSpan(item))
    } else if index_records(index).contains_key(item.key) {
        Err(InsertError::AlreadyExist(item))
    } else {
        Ok(())
    }
}

/// `FieldCollex::remove` of a key that the index holds: the record with
/// that key leaves the index and is returned.
#[verifier::external_body]
pub(crate) fn take(index: &mut FieldIndex, key: u64) -> (taken: Option<Obj<DefaultId, Item>>)
    requires
        index_records(*old(index)).contains_key(key),
    ensures
        index_span(*final(index)) == index_span(*old(index)),
        index_unit(*final(index)) == index_unit(*old(index)),
        taken == Some(record_at(index_records(*old(index)), key)),
        index_records(*final(index)) == index_records(*old(index)).remove(key),
{
    index.inner.remove(key).ok()
}

/// `FieldCollex::get` of a key at or above the span's start that the index
/// can do its arithmetic on: the record with that key, if the index holds
/// one.
#[verifier::external_body]
pub(crate) fn lookup(index: &FieldIndex, key: u64) -> (found: Option<&Obj<DefaultId, Item>>)
    requires
        index_span(*index).lower() <= key,
        index_span(*index).fits(index_unit(*index), key),
    ensures
        match found {
            Some(record) => index_records(*index).contains_key(key) && *record == record_at(
                index_records(*index),
                key,
            ),
            None => !index_records(*index).contains_key(key),
        },
{
    index.inner.get(key)
}

/// `FieldCollex::modify` with a closure that swaps in `item`, for a key
/// that the index holds and an `item` whose key is that same key or is free
/// and inside the span: the record keeps its identifier, carries `item`,
/// and stands under `item`'s key. The object that was there is returned.
#[verifier::external_body]
pub(crate) fn swap_at(index: &mut FieldIndex, key: u64, item: Item) -> (prior: Option<Item>)
    requires
        index_records(*old(index)).contains_key(key),
        item.key == key || (index_span(*old(index)).holds(item.key) && !index_records(
            *old(index),
        ).contains_key(item.key)),
        index_span(*old(index)).fits(index_unit(*old(index)), item.key),
    ensures
        index_span(*final(index)) == index_span(*old(index)),
        index_unit(*final(index)) == index_unit(*old(index)),
        prior == Some(record_at(index_records(*old(index)), key).1),
        index_records(*final(index)) == index_records(*old(index)).remove(key).insert(
            item.key,
            (index_records(*old(index))[key].0, item.data),
        ),
{
    index.inner.modify(key, |e| replace_object(e, item)).ok()
}

/// `FieldCollex::iter`, copied out: every record the index holds, once, in
/// rising order of key.
#[verifier::external_body]
pub(crate) fn records_in_order(index: &FieldIndex) -> (out: Vec<Obj<DefaultId, Item>>)
    ensures
        listing(out@, index_records(*index)),
{
    index.inner.iter().copied().collect()
}

/// Whether `out` lists exactly the records of `records` in rising order of
/// key.
pub open spec fn listing<K: Id>(out: Seq<Obj<K, Item>>, records: Map<u64, (u64, u64)>) -> bool {
    &&& forall|i: int|
        0 <= i < out.len() ==> records.contains_key((#[trigger] out[i]).1.key)
            && records[out[i].1.key] == (out[i].0.raw(), out[i].1.data)
    &&& forall|i: int, j: int| 0 <= i < j < out.len() ==> out[i].1.key < out[j].1.key
    &&& forall|k: u64|
        records.contains_key(k) ==> exists|i: int| 0 <= i < out.len() && (#[trigger] out[i]).1.key == k
}

} // verus!
