//! The allocator: an identifier store and a field index that are kept in
//! step by every operation.

use crate::id_map::{DefaultId, Id, IdMap};
use crate::index::{
    build, build_with_capacity, entry_of, exceeds, index_records, index_span, index_unit, listing,
    lookup, place, place_outcome, read_span, read_unit, records_in_order, swap_at, take,
    ConstructionError, FieldIndex, FieldSpan, InsertError,
};
use crate::obj::{Item, Obj};
use vstd::prelude::*;

verus! {

/// Why an object could not be changed.
#[derive(Debug, Clone, Copy, PartialEq, Eq)]
pub enum ModifyError<T> {
    /// Nothing is stored under the identifier.
    CannotFind,
    /// The changed object's key lies outside the span.
    OutOfSpan(T),
    /// Another object already has the changed object's key.
    AlreadyExist(T),
}

/// What an allocator holds, as mathematics: the key stored under each
/// identifier, the records of the index by key, and the counter.
pub struct AllocState {
    pub ids: Map<u64, u64>,
    pub records: Map<u64, (u64, u64)>,
    pub counter: u64,
}

impl AllocState {
    /// The two stores agree: every identifier's key lies in the span and
    /// leads to a record with that identifier, every record's identifier
    /// leads back to the record's key, and no identifier is above the
    /// counter.
    pub open spec fn consistent(self, span: FieldSpan) -> bool {
        &&& forall|id: u64|
            (#[trigger] self.ids.contains_key(id)) ==> id <= self.counter && span.holds(self.ids[id])
                && self.records.contains_key(self.ids[id]) && self.records[self.ids[id]].0 == id
        &&& forall|k: u64|
            (#[trigger] self.records.contains_key(k)) ==> self.ids.contains_key(self.records[k].0)
                && self.ids[self.records[k].0] == k
    }

    /// The object stored under `id`, if any.
    pub open spec fn object_of(self, id: u64) -> Option<Item> {
        if self.ids.contains_key(id) && self.records.contains_key(self.ids[id]) {
            Some(Item { key: self.ids[id], data: self.records[self.ids[id]].1 })
        } else {
            None
        }
    }

    /// Whether `item` can be placed: its key lies in the span and is free.
    pub open spec fn accepts(self, span: FieldSpan, item: Item) -> bool {
        span.holds(item.key) && !self.records.contains_key(item.key)
    }

    /// The state after an attempt to store `item`: the next identifier is
    /// used up either way, and the item is stored under it if it can be
    /// placed.
    pub open spec fn after_insert(self, span: FieldSpan, item: Item) -> AllocState {
        let id = (self.counter + 1) as u64;
        if self.accepts(span, item) {
            AllocState {
                ids: self.ids.insert(id, item.key),
                records: self.records.insert(item.key, (id, item.data)),
                counter: id,
            }
        } else {
            AllocState { ids: self.ids, records: self.records, counter: id }
        }
    }

    /// The state after an attempt to store each of `items` in turn.
    pub open spec fn after_all(self, span: FieldSpan, items: Seq<Item>) -> AllocState
        decreases items.len(),
    {
        if items.len() == 0 {
            self
        } else {
            self.after_all(span, items.drop_last()).after_insert(span, items.last())
        }
    }

    /// Whether each of the first `n` of `items` can be placed when its turn
    /// comes.
    pub open spec fn accepts_first(self, span: FieldSpan, items: Seq<Item>, n: int) -> bool {
        forall|i: int|
            0 <= i < n ==> (#[trigger] self.after_all(span, items.take(i))).accepts(span, items[i])
    }

    /// Whether `record` can be restored: its key lies in the span and is
    /// free, and so is its identifier.
    pub open spec fn restores<K: Id>(self, span: FieldSpan, record: Obj<K, Item>) -> bool {
        self.accepts(span, record.1) && !self.ids.contains_key(record.0.raw())
    }

    /// The state after `record` has been restored: it is stored under its
    /// own identifier, and the counter rises to that identifier if it was
    /// below.
    pub open spec fn after_restore<K: Id>(self, record: Obj<K, Item>) -> AllocState {
        AllocState {
            ids: self.ids.insert(record.0.raw(), record.1.key),
            records: self.records.insert(record.1.key, (record.0.raw(), record.1.data)),
            counter: if record.0.raw() > self.counter {
                record.0.raw()
            } else {
                self.counter
            },
        }
    }

    /// The state after each of `records` has been restored in turn.
    pub open spec fn after_restoring<K: Id>(self, records: Seq<Obj<K, Item>>) -> AllocState
        decreases records.len(),
    {
        if records.len() == 0 {
            self
        } else {
            self.after_restoring(records.drop_last()).after_restore(records.last())
        }
    }

    /// Whether each of the first `n` of `records` can be restored when its
    /// turn comes.
    pub open spec fn restores_first<K: Id>(
        self,
        span: FieldSpan,
        records: Seq<Obj<K, Item>>,
        n: int,
    ) -> bool {
        forall|i: int|
            0 <= i < n ==> (#[trigger] self.after_restoring(records.take(i))).restores(
                span,
                records[i],
            )
    }

    /// The state after the object under `id` has been removed.
    pub open spec fn after_remove(self, id: u64) -> AllocState {
        if self.ids.contains_key(id) {
            AllocState {
                ids: self.ids.remove(id),
                records: self.records.remove(self.ids[id]),
                counter: self.counter,
            }
        } else {
            self
        }
    }

    /// Whether `item` can take the place of the object under `id`: its key
    /// is the one the object has, or lies in the span and is free.
    pub open spec fn allows_change(self, span: FieldSpan, id: u64, item: Item) -> bool {
        self.ids.contains_key(id) && (item.key == self.ids[id] || self.accepts(span, item))
    }

    /// The state after `item` has taken the place of the object under `id`.
    pub open spec fn after_change(self, id: u64, item: Item) -> AllocState {
        AllocState {
            ids: self.ids.insert(id, item.key),
            records: self.records.remove(self.ids[id]).insert(item.key, (id, item.data)),
            counter: self.counter,
        }
    }
}

/// Why a batch was not stored: the place of the first object that could
/// not be placed, and the reason.
#[derive(Debug, Clone, Copy, PartialEq, Eq)]
pub struct BatchError {
    pub at: usize,
    pub error: InsertError,
}

/// Why an allocator could not be made from a batch.
#[derive(Debug, Clone, Copy, PartialEq, Eq)]
pub enum WithElementsError {
    /// The span holds no key.
    EmptySpan,
    /// The unit is zero.
    NonPositiveUnit,
    /// One of the objects could not be placed.
    Rejected(BatchError),
}

/// Why a record was not restored.
#[derive(Debug, Clone, Copy, PartialEq, Eq, Structural)]
pub enum RestoreError {
    /// The record's key lies outside the span.
    OutOfSpan,
    /// Another record already has that key.
    AlreadyExist,
    /// Another record already has that identifier.
    DuplicateId,
}

/// Why an allocator could not be rebuilt from a list of records.
#[derive(Debug, Clone, Copy, PartialEq, Eq, Structural)]
pub enum LoadError {
    /// The span holds no key.
    EmptySpan,
    /// The unit is zero.
    NonPositiveUnit,
    /// The record at place `at` could not be restored.
    Rejected { at: usize, error: RestoreError },
}

/// One more record extends `after_restoring` by one `after_restore`.
pub proof fn lemma_after_restoring_step<K: Id>(s: AllocState, records: Seq<Obj<K, Item>>, i: int)
    requires
        0 <= i < records.len(),
    ensures
        s.after_restoring(records.take(i + 1)) == s.after_restoring(records.take(i)).after_restore(
            records[i],
        ),
{
    assert(records.take(i + 1).drop_last() =~= records.take(i));
    assert(records.take(i + 1).last() == records[i]);
}

/// Whether every key of `records` is one that an index with `span` and
/// `unit` can do its arithmetic on.
pub open spec fn records_fit<K: Id>(records: Seq<Obj<K, Item>>, span: FieldSpan, unit: u64) -> bool {
    forall|i: int| 0 <= i < records.len() ==> span.fits(unit, (#[trigger] records[i]).1.key)
}

/// What restoring `record` answers in state `s`.
pub open spec fn restore_outcome<K: Id>(s: AllocState, span: FieldSpan, record: Obj<K, Item>)
    -> Result<(), RestoreError> {
    if s.ids.contains_key(record.0.raw()) {
        Err(RestoreError::DuplicateId)
    } else if !span.holds(record.1.key) {
        Err(RestoreError::OutOfSpan)
    } else if s.records.contains_key(record.1.key) {
        Err(RestoreError::AlreadyExist)
    } else {
        Ok(())
    }
}

/// One more attempt extends `after_all` by one `after_insert`.
proof fn lemma_after_all_step(s: AllocState, span: FieldSpan, items: Seq<Item>, i: int)
    requires
        0 <= i < items.len(),
    ensures
        s.after_all(span, items.take(i + 1)) == s.after_all(span, items.take(i)).after_insert(
            span,
            items[i],
        ),
{
    assert(items.take(i + 1).drop_last() =~= items.take(i));
    assert(items.take(i + 1).last() == items[i]);
}

/// An insert, accepted or not, keeps the two stores in agreement.
pub proof fn lemma_insert_keeps_agreement(s: AllocState, span: FieldSpan, item: Item)
    requires
        s.consistent(span),
        s.counter < u64::MAX,
    ensures
        s.after_insert(span, item).consistent(span),
{
    let t = s.after_insert(span, item);
    let id = (s.counter + 1) as u64;
    assert(!s.ids.contains_key(id));
    assert forall|i: u64| #[trigger] t.ids.contains_key(i) implies i <= t.counter && span.holds(
        t.ids[i],
    ) && t.records.contains_key(t.ids[i]) && t.records[t.ids[i]].0 == i by {
        if i != id {
            assert(s.ids.contains_key(i));
        }
    }
    assert forall|k: u64| #[trigger] t.records.contains_key(k) implies t.ids.contains_key(
        t.records[k].0,
    ) && t.ids[t.records[k].0] == k by {
        if k != item.key || !s.accepts(span, item) {
            assert(s.records.contains_key(k));
        }
    }
}

/// The map `base` with the key of each of `items` from place `lo` up to
/// place `hi` stored under the identifier `counter + place + 1`.
pub open spec fn numbered(base: Map<u64, u64>, counter: u64, items: Seq<Item>, lo: int, hi: int)
    -> Map<u64, u64> {
    Map::new(
        |k: u64| base.contains_key(k) || counter + lo < k <= counter + hi,
        |k: u64|
            if counter + lo < k <= counter + hi {
                items[k - counter - 1].key
            } else {
                base[k]
            },
    )
}

/// Whether every key of `items` is one that an index with `span` and
/// `unit` can do its arithmetic on.
pub open spec fn keys_fit(items: Seq<Item>, span: FieldSpan, unit: u64) -> bool {
    forall|i: int| 0 <= i < items.len() ==> span.fits(unit, (#[trigger] items[i]).key)
}

/// The allocator. `id_map` holds, for each identifier, the key of the
/// object stored under it; `collex` holds the records by key.
#[derive(Debug)]
pub struct ObjAllocator<K: Id> {
    pub id_map: IdMap<K, u64>,
    pub collex: FieldIndex,
}

/// Stores `elem`'s key under the next identifier and wraps `elem` with it.
pub fn insert<K: Id>(id_map: &mut IdMap<K, u64>, elem: Item) -> (record: Obj<K, Item>)
    requires
        old(id_map).counter() < u64::MAX,
    ensures
        record.1 == elem,
        record.0.raw() == old(id_map).counter() + 1,
        final(id_map).counter() == old(id_map).counter() + 1,
        final(id_map).entries() == old(id_map).entries().insert(record.0.raw(), elem.key),
{
    let id: K = id_map.insert(elem.value());
    Obj(id, elem)
}

/// The record with its identifier written as a `DefaultId`, the form in
/// which the index keeps it.
fn plain<K: Id>(record: Obj<K, Item>) -> (slot: Obj<DefaultId, Item>)
    ensures
        slot.0.0 == record.0.raw(),
        slot.1 == record.1,
{
    Obj(DefaultId(record.0.as_u64()), record.1)
}

/// Stores the key of each of `vec` under the next identifiers, in the
/// order given, and wraps each object with its identifier.
pub fn extend_from_vec<K: Id>(id_map: &mut IdMap<K, u64>, vec: Vec<Item>) -> (other: Vec<
    Obj<K, Item>,
>)
    requires
        old(id_map).counter() + vec@.len() <= u64::MAX,
    ensures
        other@.len() == vec@.len(),
        forall|j: int|
            0 <= j < vec@.len() ==> (#[trigger] other@[j]).1 == vec@[j] && other@[j].0.raw() == old(
                id_map,
            ).counter() + j + 1,
        final(id_map).counter() == old(id_map).counter() + vec@.len(),
        final(id_map).entries() == numbered(
            old(id_map).entries(),
            old(id_map).counter(),
            vec@,
            0,
            vec@.len() as int,
        ),
{
    let ghost base = old(id_map).entries();
    let ghost start = old(id_map).counter();
    let mut other: Vec<Obj<K, Item>> = Vec::new();
    let mut i: usize = 0;
    while i < vec.len()
        invariant
            i <= vec@.len(),
            start + vec@.len() <= u64::MAX,
            other@.len() == i,
            forall|j: int|
                0 <= j < i ==> (#[trigger] other@[j]).1 == vec@[j] && other@[j].0.raw() == start + j
                    + 1,
            id_map.counter() == start + i,
            id_map.entries() =~= numbered(base, start, vec@, 0, i as int),
        decreases vec@.len() - i,
    {
        let record = self::insert(id_map, vec[i]);
        other.push(record);
        i = i + 1;
    }
    other
}

impl<K: Id> ObjAllocator<K> {
    /// The allocator's state.
    pub open spec fn state(&self) -> AllocState {
        AllocState {
            ids: self.id_map.entries(),
            records: index_records(self.collex),
            counter: self.id_map.counter(),
        }
    }

    /// The span the allocator was made with.
    pub open spec fn span(&self) -> FieldSpan {
        index_span(self.collex)
    }

    /// The bucket width the allocator was made with.
    pub open spec fn unit(&self) -> u64 {
        index_unit(self.collex)
    }

    /// The two stores agree, the span and unit are ones an index can be
    /// made with, and every key is one the index can do its arithmetic on.
    pub open spec fn wf(&self) -> bool {
        &&& self.state().consistent(self.span())
        &&& self.unit() > 0
        &&& !self.span().vacant()
        &&& forall|k: u64|
            (#[trigger] self.state().records.contains_key(k)) ==> self.span().fits(self.unit(), k)
    }

    /// An empty allocator over `span`, cut into buckets of width `unit`.
    pub fn new(span: FieldSpan, unit: u64) -> (made: Result<Self, ConstructionError>)
        ensures
            match made {
                Ok(a) => unit > 0 && !span.vacant() && a.wf() && a.span() == span && a.unit()
                    == unit && a.state() == (AllocState {
                    ids: Map::empty(),
                    records: Map::empty(),
                    counter: 0,
                }),
                Err(e) => if unit == 0 {
                    e == ConstructionError::NonPositiveUnit
                } else {
                    span.vacant() && e == ConstructionError::EmptySpan
                },
            },
    {
        match build(span, unit) {
            Ok(collex) => Ok(ObjAllocator { id_map: IdMap::with_id(), collex }),
            Err(e) => Err(e),
        }
    }

    /// An empty allocator with room for `capacity` objects in both stores.
    pub fn with_capacity(span: FieldSpan, unit: u64, capacity: usize) -> (made: Result<
        Self,
        ConstructionError,
    >)
        ensures
            match made {
                Ok(a) => unit > 0 && !span.vacant() && !exceeds(span, unit, capacity) && a.wf()
                    && a.span() == span && a.unit() == unit && a.state() == (AllocState {
                    ids: Map::empty(),
                    records: Map::empty(),
                    counter: 0,
                }),
                Err(e) => if unit == 0 {
                    e == ConstructionError::NonPositiveUnit
                } else if span.vacant() {
                    e == ConstructionError::EmptySpan
                } else {
                    exceeds(span, unit, capacity) && e == ConstructionError::OutOfSize
                },
            },
    {
        match build_with_capacity(span, unit, capacity) {
            Ok(collex) => Ok(ObjAllocator { id_map: IdMap::with_id_capacity(capacity), collex }),
            Err(e) => Err(e),
        }
    }

    /// Stores `elem` under the next identifier. The identifier is reserved
    /// first; if the index then refuses the object, because its key lies
    /// outside the span or is taken, the reservation is undone and the
    /// object comes back in the error. The counter is not lowered.
    pub fn insert(&mut self, elem: Item) -> (issued: Result<K, InsertError>)
        requires
            old(self).wf(),
            old(self).state().counter < u64::MAX,
            old(self).span().fits(old(self).unit(), elem.key),
        ensures
            final(self).wf(),
            final(self).span() == old(self).span(),
            final(self).unit() == old(self).unit(),
            final(self).state() == old(self).state().after_insert(old(self).span(), elem),
            match issued {
                Ok(id) => place_outcome(old(self).collex, elem).is_ok() && id.raw() == old(
                    self,
                ).state().counter + 1,
                Err(e) => Err::<(), InsertError>(e) == place_outcome(old(self).collex, elem),
            },
    {
        let ghost before = old(self).state();
        let ghost span = old(self).span();
        let record = self::insert(&mut self.id_map, elem);
        let id: K = record.0;
        let slot = plain(record);
        proof {
            lemma_insert_keeps_agreement(before, span, elem);
            assert(!before.ids.contains_key(id.raw()));
            assert(entry_of(slot) == (id.raw(), elem.data));
        }
        match place(&mut self.collex, slot) {
            Ok(()) => Ok(id),
            Err(e) => {
                self.id_map.remove(id);
                proof {
                    assert(self.state().ids =~= before.ids);
                }
                Err(e)
            },
        }
    }

    /// Removes the object stored under `id` from both stores and returns it.
    pub fn remove(&mut self, id: K) -> (gone: Option<Item>)
        requires
            old(self).wf(),
        ensures
            final(self).wf(),
            final(self).span() == old(self).span(),
            final(self).unit() == old(self).unit(),
            gone == old(self).state().object_of(id.raw()),
            final(self).state() == old(self).state().after_remove(id.raw()),
            final(self).state().object_of(id.raw()).is_none(),
    {
        match self.id_map.remove(id) {
            None => {
                proof {
                    assert(self.id_map.entries() =~= old(self).id_map.entries());
                }
                None
            },
            Some(key) => {
                match take(&mut self.collex, key) {
                    Some(record) => Some(record.1),
                    None => None,
                }
            },
        }
    }

    /// The object stored under `id`, if any.
    pub fn get_with_id(&self, id: K) -> (found: Option<&Item>)
        requires
            self.wf(),
        ensures
            match found {
                Some(item) => self.state().object_of(id.raw()) == Some(*item),
                None => self.state().object_of(id.raw()).is_none(),
            },
    {
        match self.id_map.get(id) {
            None => None,
            Some(key) => {
                match lookup(&self.collex, *key) {
                    Some(record) => Some(&record.1),
                    None => None,
                }
            },
        }
    }

    /// Puts `item` in place of the object stored under `id` and returns the
    /// object that was there. The record moves to `item`'s key and keeps its
    /// identifier. Where nothing is stored under `id`, or `item`'s key is a
    /// different one that lies outside the span or is taken, nothing
    /// changes and the error says which.
    pub fn replace(&mut self, id: K, item: Item) -> (swapped: Result<
        Item,
        ModifyError<Item>,
    >)
        requires
            old(self).wf(),
            old(self).span().fits(old(self).unit(), item.key),
        ensures
            final(self).wf(),
            final(self).span() == old(self).span(),
            final(self).unit() == old(self).unit(),
            swapped == change_outcome(old(self).state(), old(self).span(), id.raw(), item),
            final(self).state() == if swapped.is_ok() {
                old(self).state().after_change(id.raw(), item)
            } else {
                old(self).state()
            },
            swapped.is_ok() ==> final(self).state().object_of(id.raw()) == Some(item),
    {
        let key: u64 = match self.id_map.get(id) {
            None => {
                return Err(ModifyError::CannotFind);
            },
            Some(key) => *key,
        };
        if item.key != key {
            let span = read_span(&self.collex);
            if !span.contains(item.key) {
                return Err(ModifyError::OutOfSpan(item));
            }
            if lookup(&self.collex, item.key).is_some() {
                return Err(ModifyError::AlreadyExist(item));
            }
        }
        let prior = swap_at(&mut self.collex, key, item);
        self.id_map.insert_with_id(id, item.key);
        match prior {
            Some(old_item) => Ok(old_item),
            None => Err(ModifyError::CannotFind),
        }
    }

    /// Applies `f` to the object stored under `id` and puts what `f` makes
    /// in its place, as `replace` does. Returns what `f` returned beside
    /// the new object; where the new object cannot be placed, nothing
    /// changes and both come back in the error.
    pub fn modify<F, R>(&mut self, id: K, f: F) -> (done: Result<
        R,
        ModifyError<(R, Item)>,
    >) where F: Fn(Item) -> (Item, R)
        requires
            old(self).wf(),
            forall|cur: Item| old(self).state().object_of(id.raw()) == Some(cur) ==> f.requires((cur,)),
            forall|cur: Item, out: (Item, R)|
                (#[trigger] f.ensures((cur,), out)) ==> old(self).span().fits(
                    old(self).unit(),
                    out.0.key,
                ),
        ensures
            final(self).wf(),
            final(self).span() == old(self).span(),
            final(self).unit() == old(self).unit(),
            modified(old(self).state(), old(self).span(), id.raw(), f, done, final(self).state()),
    {
        let cur: Item = match self.get_with_id(id) {
            None => {
                return Err(ModifyError::CannotFind);
            },
            Some(item) => *item,
        };
        let (item, result) = f(cur);
        proof {
            assert(old(self).state().object_of(id.raw()) == Some(cur));
            assert(f.ensures((cur,), (item, result)));
        }
        let ghost s = old(self).state();
        let ghost span = old(self).span();
        let swapped = self.replace(id, item);
        proof {
            assert(s.ids.contains_key(id.raw()));
            assert(cur.key == s.ids[id.raw()]);
            assert(swapped == change_outcome(s, span, id.raw(), item));
        }
        match swapped {
            Ok(_) => {
                proof {
                    assert(s.allows_change(span, id.raw(), item));
                    assert(self.state() == s.after_change(id.raw(), item));
                    assert(self.state().object_of(id.raw()) == Some(item));
                }
                Ok(result)
            },
            Err(ModifyError::CannotFind) => Err(ModifyError::CannotFind),
            Err(ModifyError::OutOfSpan(_)) => Err(ModifyError::OutOfSpan((result, item))),
            Err(ModifyError::AlreadyExist(_)) => Err(ModifyError::AlreadyExist((result, item))),
        }
    }

    /// As `modify`, for an `f` whose result says whether it went well: on
    /// any failure nothing changes and the result of `f` alone comes back
    /// in the error.
    pub fn try_modify<F, R>(&mut self, id: K, f: F) -> (done: Result<
        R,
        ModifyError<R>,
    >) where F: Fn(Item) -> (Item, R)
        requires
            old(self).wf(),
            forall|cur: Item| old(self).state().object_of(id.raw()) == Some(cur) ==> f.requires((cur,)),
            forall|cur: Item, out: (Item, R)|
                (#[trigger] f.ensures((cur,), out)) ==> old(self).span().fits(
                    old(self).unit(),
                    out.0.key,
                ),
        ensures
            final(self).wf(),
            final(self).span() == old(self).span(),
            final(self).unit() == old(self).unit(),
            exists|full: Result<R, ModifyError<(R, Item)>>|
                modified(old(self).state(), old(self).span(), id.raw(), f, full, final(self).state())
                    && done == without_object(full),
    {
        let full = self.modify(id, f);
        let ghost whole = full;
        proof {
            assert(modified(old(self).state(), old(self).span(), id.raw(), f, whole, self.state()));
        }
        match full {
            Ok(result) => {
                proof {
                    assert(without_object(whole) == Ok::<R, ModifyError<R>>(result));
                }
                Ok(result)
            },
            Err(ModifyError::CannotFind) => Err(ModifyError::CannotFind),
            Err(ModifyError::OutOfSpan(pair)) => Err(ModifyError::OutOfSpan(pair.0)),
            Err(ModifyError::AlreadyExist(pair)) => Err(ModifyError::AlreadyExist(pair.0)),
        }
    }

    /// Reserves an identifier for each of `vec`, then places them in the
    /// order given; the reservation of each one that cannot be placed is
    /// undone. The outcome is that of one `insert` after another.
    pub fn extend(&mut self, vec: Vec<Item>)
        requires
            old(self).wf(),
            old(self).state().counter + vec@.len() <= u64::MAX,
            keys_fit(vec@, old(self).span(), old(self).unit()),
        ensures
            final(self).wf(),
            final(self).span() == old(self).span(),
            final(self).unit() == old(self).unit(),
            final(self).state() == old(self).state().after_all(old(self).span(), vec@),
            final(self).state().counter == old(self).state().counter + vec@.len(),
    {
        let ghost start = old(self).state();
        let ghost span = old(self).span();
        let ghost items = vec@;
        let ghost mut t = start;
        let other = extend_from_vec(&mut self.id_map, vec);
        let mut i: usize = 0;
        proof {
            assert(items.take(0).len() == 0);
        }
        while i < other.len()
            invariant
                i <= items.len(),
                other@.len() == items.len(),
                start == old(self).state(),
                span == old(self).span(),
                self.span() == span,
                self.unit() == old(self).unit(),
                self.unit() > 0,
                !span.vacant(),
                start.counter + items.len() <= u64::MAX,
                keys_fit(items, span, self.unit()),
                forall|j: int|
                    0 <= j < items.len() ==> (#[trigger] other@[j]).1 == items[j] && other@[j].0.raw()
                        == start.counter + j + 1,
                t == start.after_all(span, items.take(i as int)),
                t.consistent(span),
                t.counter == start.counter + i,
                index_records(self.collex) == t.records,
                forall|k: u64|
                    (#[trigger] t.records.contains_key(k)) ==> span.fits(self.unit(), k),
                self.id_map.counter() == start.counter + items.len(),
                self.id_map.entries() =~= numbered(
                    t.ids,
                    start.counter,
                    items,
                    i as int,
                    items.len() as int,
                ),
            decreases items.len() - i,
        {
            let record = other[i];
            let slot = plain(record);
            proof {
                lemma_after_all_step(start, span, items, i as int);
                lemma_insert_keeps_agreement(t, span, items[i as int]);
                assert(!t.ids.contains_key(record.0.raw()));
                assert(entry_of(slot) == (record.0.raw(), record.1.data));
            }
            match place(&mut self.collex, slot) {
                Ok(()) => {},
                Err(_) => {
                    self.id_map.remove(record.0);
                },
            }
            proof {
                t = t.after_insert(span, items[i as int]);
            }
            i = i + 1;
        }
        proof {
            assert(items.take(items.len() as int) =~= items);
            assert(self.id_map.entries() =~= t.ids);
        }
    }

    /// Reserves an identifier for each of `vec`, then places them in the
    /// order given and stops at the first that cannot be placed: those
    /// before it stay stored, it comes back with its place in `vec`, and
    /// the reservations of it and of those after it are undone.
    pub fn try_extend(&mut self, vec: Vec<Item>) -> (done: Result<(), BatchError>)
        requires
            old(self).wf(),
            old(self).state().counter + vec@.len() <= u64::MAX,
            keys_fit(vec@, old(self).span(), old(self).unit()),
        ensures
            final(self).wf(),
            final(self).span() == old(self).span(),
            final(self).unit() == old(self).unit(),
            batch_stored(old(self).state(), old(self).span(), vec@, done, final(self).state()),
    {
        let ghost start = old(self).state();
        let ghost span = old(self).span();
        let ghost items = vec@;
        let ghost mut t = start;
        let other = extend_from_vec(&mut self.id_map, vec);
        let mut i: usize = 0;
        let mut failed: Option<BatchError> = None;
        proof {
            assert(items.take(0).len() == 0);
        }
        while i < other.len() && failed.is_none()
            invariant
                i <= items.len(),
                other@.len() == items.len(),
                start == old(self).state(),
                span == old(self).span(),
                self.span() == span,
                self.unit() == old(self).unit(),
                self.unit() > 0,
                !span.vacant(),
                start.counter + items.len() <= u64::MAX,
                keys_fit(items, span, self.unit()),
                forall|j: int|
                    0 <= j < items.len() ==> (#[trigger] other@[j]).1 == items[j] && other@[j].0.raw()
                        == start.counter + j + 1,
                t == start.after_all(span, items.take(i as int)),
                t.consistent(span),
                t.counter == start.counter + i,
                index_records(self.collex) == t.records,
                forall|k: u64|
                    (#[trigger] t.records.contains_key(k)) ==> span.fits(self.unit(), k),
                self.id_map.counter() == start.counter + items.len(),
                self.id_map.entries() =~= numbered(
                    t.ids,
                    start.counter,
                    items,
                    i as int,
                    items.len() as int,
                ),
                match failed {
                    None => start.accepts_first(span, items, i as int),
                    Some(e) => i > 0 && e.at == i - 1 && start.accepts_first(span, items, i - 1)
                        && !start.after_all(span, items.take(i - 1)).accepts(span, items[i - 1])
                        && e.error == refusal(span, items[i - 1]),
                },
            decreases items.len() - i,
        {
            let record = other[i];
            let slot = plain(record);
            proof {
                lemma_after_all_step(start, span, items, i as int);
                lemma_insert_keeps_agreement(t, span, items[i as int]);
                assert(!t.ids.contains_key(record.0.raw()));
                assert(entry_of(slot) == (record.0.raw(), record.1.data));
            }
            match place(&mut self.collex, slot) {
                Ok(()) => {},
                Err(error) => {
                    self.id_map.remove(record.0);
                    failed = Some(BatchError { at: i, error });
                },
            }
            proof {
                t = t.after_insert(span, items[i as int]);
            }
            i = i + 1;
        }
        let ghost stopped = i as int;
        while i < other.len()
            invariant
                stopped <= i <= items.len(),
                other@.len() == items.len(),
                start == old(self).state(),
                span == old(self).span(),
                t == start.after_all(span, items.take(stopped)),
                match failed {
                    None => stopped == items.len() && start.accepts_first(span, items, stopped),
                    Some(e) => stopped > 0 && e.at == stopped - 1 && start.accepts_first(
                        span,
                        items,
                        stopped - 1,
                    ) && !start.after_all(span, items.take(stopped - 1)).accepts(
                        span,
                        items[stopped - 1],
                    ) && e.error == refusal(span, items[stopped - 1]),
                },
                self.unit() > 0,
                !span.vacant(),
                forall|k: u64|
                    (#[trigger] t.records.contains_key(k)) ==> span.fits(self.unit(), k),
                start.counter + items.len() <= u64::MAX,
                forall|j: int|
                    0 <= j < items.len() ==> (#[trigger] other@[j]).1 == items[j] && other@[j].0.raw()
                        == start.counter + j + 1,
                t.consistent(span),
                t.counter == start.counter + stopped,
                index_records(self.collex) == t.records,
                self.span() == span,
                self.unit() == old(self).unit(),
                self.id_map.counter() == start.counter + items.len(),
                self.id_map.entries() =~= numbered(
                    t.ids,
                    start.counter,
                    items,
                    i as int,
                    items.len() as int,
                ),
            decreases items.len() - i,
        {
            proof {
                assert(!t.ids.contains_key(other@[i as int].0.raw()));
            }
            self.id_map.remove(other[i].0);
            i = i + 1;
        }
        proof {
            assert(self.id_map.entries() =~= t.ids);
            if failed.is_none() {
                assert(items.take(items.len() as int) =~= items);
            } else {
                lemma_after_all_step(start, span, items, stopped - 1);
            }
        }
        match failed {
            None => Ok(()),
            Some(e) => Err(e),
        }
    }

    /// An allocator over `span` and `unit` that holds each of `vec` under
    /// the identifiers 1, 2, ... in the order given. If the span or unit is
    /// refused, or any of `vec` cannot be placed, no allocator is made.
    pub fn with_elements(span: FieldSpan, unit: u64, vec: Vec<Item>) -> (made: Result<
        Self,
        WithElementsError,
    >)
        requires
            keys_fit(vec@, span, unit),
        ensures
            match made {
                Ok(a) => unit > 0 && !span.vacant() && a.wf() && a.span() == span && a.unit()
                    == unit && batch_stored(fresh(), span, vec@, Ok(()), a.state()),
                Err(WithElementsError::NonPositiveUnit) => unit == 0,
                Err(WithElementsError::EmptySpan) => unit > 0 && span.vacant(),
                Err(WithElementsError::Rejected(e)) => unit > 0 && !span.vacant() && exists|
                    s: AllocState,
                | batch_stored(fresh(), span, vec@, Err(e), s),
            },
    {
        let mut made = match Self::new(span, unit) {
            Ok(a) => a,
            Err(ConstructionError::NonPositiveUnit) => {
                return Err(WithElementsError::NonPositiveUnit);
            },
            Err(_) => {
                return Err(WithElementsError::EmptySpan);
            },
        };
        proof {
            assert(vec.len() == vec@.len());
        }
        match made.try_extend(vec) {
            Ok(()) => Ok(made),
            Err(e) => {
                proof {
                    assert(batch_stored(fresh(), span, vec@, Err(e), made.state()));
                }
                Err(WithElementsError::Rejected(e))
            },
        }
    }

    /// Stores `record` under the identifier it carries, or says why it
    /// cannot be and changes nothing.
    fn restore(&mut self, record: Obj<K, Item>) -> (done: Result<(), RestoreError>)
        requires
            old(self).wf(),
            old(self).span().fits(old(self).unit(), record.1.key),
        ensures
            final(self).wf(),
            final(self).span() == old(self).span(),
            final(self).unit() == old(self).unit(),
            done == restore_outcome(old(self).state(), old(self).span(), record),
            final(self).state() == if done.is_ok() {
                old(self).state().after_restore(record)
            } else {
                old(self).state()
            },
    {
        let ghost before = old(self).state();
        if self.id_map.contains_id(record.0) {
            return Err(RestoreError::DuplicateId);
        }
        let slot = plain(record);
        match place(&mut self.collex, slot) {
            Ok(()) => {
                self.id_map.insert_with_id(record.0, record.1.value());
                proof {
                    assert(entry_of(slot) == (record.0.raw(), record.1.data));
                    let after = self.state();
                    assert forall|i: u64| #[trigger] after.ids.contains_key(i) implies i
                        <= after.counter && self.span().holds(after.ids[i])
                        && after.records.contains_key(after.ids[i]) && after.records[after.ids[i]].0
                        == i by {
                        if i != record.0.raw() {
                            assert(before.ids.contains_key(i));
                        }
                    }
                    assert forall|k: u64| #[trigger] after.records.contains_key(k) implies
                        after.ids.contains_key(after.records[k].0) && after.ids[after.records[k].0]
                        == k by {
                        if k != record.1.key {
                            assert(before.records.contains_key(k));
                        }
                    }
                }
                Ok(())
            },
            Err(InsertError::OutOfSpan(_)) => Err(RestoreError::OutOfSpan),
            Err(InsertError::AlreadyExist(_)) => Err(RestoreError::AlreadyExist),
        }
    }

    /// Rebuilds an allocator from a span, a unit and a list of records, each
    /// with the identifier it had: the identifier store is given room for
    /// all of them, then the list is walked once and each record is stored
    /// under its own identifier in both stores. If the span or unit is
    /// refused, or a record cannot be restored, no allocator is made.
    pub fn from_records(span: FieldSpan, unit: u64, records: Vec<Obj<K, Item>>) -> (made:
        Result<Self, LoadError>)
        requires
            records_fit(records@, span, unit),
        ensures
            rebuilt(span, unit, records@, made),
    {
        let collex = match build(span, unit) {
            Ok(collex) => collex,
            Err(ConstructionError::NonPositiveUnit) => {
                return Err(LoadError::NonPositiveUnit);
            },
            Err(_) => {
                return Err(LoadError::EmptySpan);
            },
        };
        let mut made = ObjAllocator { id_map: IdMap::with_id_capacity(records.len()), collex };
        let mut i: usize = 0;
        while i < records.len()
            invariant
                i <= records@.len(),
                unit > 0,
                !span.vacant(),
                made.wf(),
                made.span() == span,
                made.unit() == unit,
                records_fit(records@, span, unit),
                fresh().restores_first(span, records@, i as int),
                made.state() == fresh().after_restoring(records@.take(i as int)),
            decreases records@.len() - i,
        {
            let record = records[i];
            proof {
                lemma_after_restoring_step(fresh(), records@, i as int);
            }
            match made.restore(record) {
                Ok(()) => {},
                Err(error) => {
                    return Err(LoadError::Rejected { at: i, error });
                },
            }
            i = i + 1;
        }
        proof {
            assert(records@.take(records@.len() as int) =~= records@);
        }
        Ok(made)
    }

    /// Every record the allocator holds, in rising order of key.
    pub fn to_records(&self) -> (out: Vec<Obj<K, Item>>)
        ensures
            listing(out@, self.state().records),
    {
        let held = records_in_order(&self.collex);
        let ghost records = self.state().records;
        let mut out: Vec<Obj<K, Item>> = Vec::with_capacity(held.len());
        let mut i: usize = 0;
        while i < held.len()
            invariant
                i <= held@.len(),
                out@.len() == i,
                listing(held@, records),
                forall|j: int|
                    0 <= j < i ==> (#[trigger] out@[j]).1 == held@[j].1 && out@[j].0.raw()
                        == held@[j].0.raw(),
            decreases held@.len() - i,
        {
            out.push(Obj(K::from_u64(held[i].0.as_u64()), held[i].1));
            i = i + 1;
        }
        proof {
            assert forall|k: u64| records.contains_key(k) implies exists|j: int|
                0 <= j < out@.len() && (#[trigger] out@[j]).1.key == k by {
                let j = choose|j: int| 0 <= j < held@.len() && (#[trigger] held@[j]).1.key == k;
                assert(out@[j].1.key == k);
            }
        }
        out
    }

    /// The span the allocator was made with.
    pub fn get_span(&self) -> (span: FieldSpan)
        ensures
            span == self.span(),
    {
        read_span(&self.collex)
    }

    /// The bucket width the allocator was made with.
    pub fn get_unit(&self) -> (unit: u64)
        ensures
            unit == self.unit(),
    {
        read_unit(&self.collex)
    }

    /// The two stores, taken apart.
    pub fn into_raw_parts(self) -> (parts: (IdMap<K, u64>, FieldIndex))
        ensures
            parts.0 == self.id_map,
            parts.1 == self.collex,
    {
        (self.id_map, self.collex)
    }

    /// An allocator put together from two stores as they are. Nothing is
    /// looked at: the operations on the result ask that the two agree.
    pub fn from_raw_parts(id_map: IdMap<K, u64>, collex: FieldIndex) -> (made: Self)
        ensures
            made.id_map == id_map,
            made.collex == collex,
    {
        ObjAllocator { id_map, collex }
    }
}

/// What `from_records` answers for a span, a unit and a list of records:
/// a valid allocator with that span and unit that holds every record under
/// its own identifier, where the span and unit are accepted and each record
/// can be restored in its turn; otherwise the reason, which for a record is
/// the place of the first that cannot be restored and why.
pub open spec fn rebuilt<K: Id>(
    span: FieldSpan,
    unit: u64,
    records: Seq<Obj<K, Item>>,
    made: Result<ObjAllocator<K>, LoadError>,
) -> bool {
    match made {
        Ok(a) => unit > 0 && !span.vacant() && a.wf() && a.span() == span && a.unit() == unit
            && fresh().restores_first(span, records, records.len() as int) && a.state()
            == fresh().after_restoring(records),
        Err(LoadError::NonPositiveUnit) => unit == 0,
        Err(LoadError::EmptySpan) => unit > 0 && span.vacant(),
        Err(LoadError::Rejected { at, error }) => unit > 0 && !span.vacant() && at < records.len()
            && fresh().restores_first(span, records, at as int) && Err::<(), RestoreError>(error)
            == restore_outcome(
            fresh().after_restoring(records.take(at as int)),
            span,
            records[at as int],
        ),
    }
}

/// The state of an allocator that has stored nothing yet.
pub open spec fn fresh() -> AllocState {
    AllocState { ids: Map::empty(), records: Map::empty(), counter: 0 }
}

/// What `try_extend` answers for `items` in state `s`, and the state `t` it
/// leaves: success and every object stored where each could be placed in
/// its turn; otherwise the first that could not be, with the reason, and
/// those before it stored. Either way an identifier is used up for each of
/// `items`.
pub open spec fn batch_stored(
    s: AllocState,
    span: FieldSpan,
    items: Seq<Item>,
    done: Result<(), BatchError>,
    t: AllocState,
) -> bool {
    &&& t.counter == s.counter + items.len()
    &&& match done {
        Ok(()) => s.accepts_first(span, items, items.len() as int) && t.ids == s.after_all(
            span,
            items,
        ).ids && t.records == s.after_all(span, items).records,
        Err(e) => {
            let n = e.at as int;
            &&& n < items.len()
            &&& s.accepts_first(span, items, n)
            &&& !s.after_all(span, items.take(n)).accepts(span, items[n])
            &&& e.error == refusal(span, items[n])
            &&& t.ids == s.after_all(span, items.take(n)).ids
            &&& t.records == s.after_all(span, items.take(n)).records
        },
    }
}

/// Why an object that cannot be placed is refused: its key lies outside the
/// span, or else is taken.
pub open spec fn refusal(span: FieldSpan, item: Item) -> InsertError {
    if span.holds(item.key) {
        InsertError::AlreadyExist(item)
    } else {
        InsertError::OutOfSpan(item)
    }
}

/// What `modify` with `f` answers for `id` in state `s`, and the state `t`
/// it leaves. On success the new object is the one that `t` holds under
/// `id`.
pub open spec fn modified<F: Fn(Item) -> (Item, R), R>(
    s: AllocState,
    span: FieldSpan,
    id: u64,
    f: F,
    done: Result<R, ModifyError<(R, Item)>>,
    t: AllocState,
) -> bool {
    match s.object_of(id) {
        None => done == Err::<R, ModifyError<(R, Item)>>(ModifyError::CannotFind) && t == s,
        Some(cur) => match done {
            Ok(r) => match t.object_of(id) {
                Some(item) => f.ensures((cur,), (item, r)) && s.allows_change(span, id, item) && t
                    == s.after_change(id, item),
                None => false,
            },
            Err(ModifyError::CannotFind) => false,
            Err(ModifyError::OutOfSpan((r, item))) => f.ensures((cur,), (item, r)) && item.key
                != cur.key && !span.holds(item.key) && t == s,
            Err(ModifyError::AlreadyExist((r, item))) => f.ensures((cur,), (item, r)) && item.key
                != cur.key && span.holds(item.key) && s.records.contains_key(item.key) && t == s,
        },
    }
}

/// The answer of `modify` with the rejected object left out.
pub open spec fn without_object<R>(full: Result<R, ModifyError<(R, Item)>>) -> Result<
    R,
    ModifyError<R>,
> {
    match full {
        Ok(r) => Ok(r),
        Err(ModifyError::CannotFind) => Err(ModifyError::CannotFind),
        Err(ModifyError::OutOfSpan(pair)) => Err(ModifyError::OutOfSpan(pair.0)),
        Err(ModifyError::AlreadyExist(pair)) => Err(ModifyError::AlreadyExist(pair.0)),
    }
}

/// What replacing the object under `id` by `item` answers in state `s`.
pub open spec fn change_outcome(s: AllocState, span: FieldSpan, id: u64, item: Item) -> Result<
    Item,
    ModifyError<Item>,
> {
    if !s.ids.contains_key(id) {
        Err(ModifyError::CannotFind)
    } else if item.key == s.ids[id] {
        Ok(Item { key: s.ids[id], data: s.records[s.ids[id]].1 })
    } else if !span.holds(item.key) {
        Err(ModifyError::OutOfSpan(item))
    } else if s.records.contains_key(item.key) {
        Err(ModifyError::AlreadyExist(item))
    } else {
        Ok(Item { key: s.ids[id], data: s.records[s.ids[id]].1 })
    }
}

} // verus!
