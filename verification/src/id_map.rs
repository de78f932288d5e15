//! Identifiers and the identifier store: a hash-indexed table from
//! identifier to value with a counter that never reissues an identifier.

use std::collections::HashMap;
use std::marker::PhantomData;
use vstd::prelude::*;

verus! {

broadcast use vstd::std_specs::hash::group_hash_axioms;

/// An opaque handle that converts losslessly to and from `u64`.
///
/// `raw` is the integer an identifier stands for; two identifiers with the
/// same integer are the same identifier. The integer 0 means "never issued".
///
/// An implementation in code that is not verified writes `raw` as it writes
/// `as_u64`, taking `self` by value, and gives `raw_is_injective` an empty
/// body.
pub trait Id: Copy + Sized {
    /// The integer this identifier stands for.
    spec fn raw(self) -> u64;

    /// The identifier as an integer.
    fn as_u64(&self) -> (val: u64)
        ensures
            val == self.raw(),
    ;

    /// The identifier that stands for `val`.
    fn from_u64(val: u64) -> (id: Self)
        ensures
            id.raw() == val,
    ;

    /// Distinct identifiers stand for distinct integers.
    proof fn raw_is_injective(a: Self, b: Self)
        requires
            a.raw() == b.raw(),
        ensures
            a == b,
    ;
}

/// The identifier type used when no other is asked for.
#[derive(Debug, Clone, Copy, PartialEq, Eq, Hash)]
pub struct DefaultId(pub u64);

impl Id for DefaultId {
    open spec fn raw(self) -> u64 {
        self.0
    }

    fn as_u64(&self) -> (val: u64) {
        self.0
    }

    fn from_u64(val: u64) -> (id: Self) {
        DefaultId(val)
    }

    proof fn raw_is_injective(a: Self, b: Self) {
    }
}

impl From<u64> for DefaultId {
    fn from(val: u64) -> (id: Self) {
        DefaultId(val)
    }
}

impl vstd::std_specs::convert::FromSpecImpl<u64> for DefaultId {
    open spec fn obeys_from_spec() -> bool {
        true
    }

    open spec fn from_spec(val: u64) -> Self {
        DefaultId(val)
    }
}

impl From<DefaultId> for u64 {
    fn from(id: DefaultId) -> (val: Self) {
        id.0
    }
}

impl vstd::std_specs::convert::FromSpecImpl<DefaultId> for u64 {
    open spec fn obeys_from_spec() -> bool {
        true
    }

    open spec fn from_spec(id: DefaultId) -> Self {
        id.0
    }
}

/// `HashMap::get_mut` on an integer key: a mutable borrow of the value
/// stored under `key`, if there is one. Writing through the borrow changes
/// that value and nothing else; without a value the map is left as it was.
#[verifier::external_body]
fn table_get_mut<V>(table: &mut HashMap<u64, V>, key: u64) -> (slot: Option<&mut V>)
    ensures
        slot.is_some() == old(table)@.contains_key(key),
        match slot {
            Some(v) => *v == old(table)@[key] && final(table)@ == old(table)@.insert(
                key,
                *final(v),
            ),
            None => final(table)@ == old(table)@,
        },
{
    table.get_mut(&key)
}

/// The items of `items` in the opposite order.
fn reversed<T>(items: Vec<T>) -> (out: Vec<T>)
    ensures
        out@.len() == items@.len(),
        forall|i: int| 0 <= i < out@.len() ==> out@[i] == items@[items@.len() - 1 - i],
{
    let mut rest = items;
    let mut out: Vec<T> = Vec::with_capacity(rest.len());
    while rest.len() > 0
        invariant
            out@.len() + rest@.len() == items@.len(),
            forall|i: int| 0 <= i < rest@.len() ==> rest@[i] == items@[i],
            forall|i: int| 0 <= i < out@.len() ==> out@[i] == items@[items@.len() - 1 - i],
        decreases rest@.len(),
    {
        match rest.pop() {
            Some(item) => {
                out.push(item);
            },
            None => {},
        }
    }
    out
}

/// The identifier store.
///
/// Its model is the pair of `entries`, the map from issued integers to the
/// values stored under them, and `counter`, the highest integer ever issued.
#[derive(Debug)]
pub struct IdMap<K: Id, V> {
    inner: HashMap<u64, V>,
    max_id: u64,
    _marker: PhantomData<K>,
}

impl<V> IdMap<DefaultId, V> {
    /// An empty store over `DefaultId`.
    pub fn new() -> (map: Self)
        ensures
            map.entries() == Map::<u64, V>::empty(),
            map.counter() == 0,
    {
        Self::with_id_capacity(0)
    }

    /// An empty store over `DefaultId` with room for `capacity` values.
    pub fn with_capacity(capacity: usize) -> (map: Self)
        ensures
            map.entries() == Map::<u64, V>::empty(),
            map.counter() == 0,
    {
        Self::with_id_capacity(capacity)
    }
}

impl<K: Id, V> IdMap<K, V> {
    /// The values stored, by the integer of their identifier.
    pub closed spec fn entries(&self) -> Map<u64, V> {
        self.inner@
    }

    /// The highest integer ever issued or supplied; 0 before the first.
    pub closed spec fn counter(&self) -> u64 {
        self.max_id
    }

    /// No stored identifier lies above the counter.
    pub open spec fn wf(&self) -> bool {
        forall|k: u64| (#[trigger] self.entries().contains_key(k)) ==> k <= self.counter()
    }

    /// What `insert` of `value` does: `id` is the counter plus one, the
    /// counter moves to it, and `value` is stored under it.
    pub open spec fn inserted(&self, value: V, id: K, after: &Self) -> bool {
        &&& id.raw() == self.counter() + 1
        &&& after.counter() == self.counter() + 1
        &&& after.entries() == self.entries().insert(id.raw(), value)
    }

    /// What `insert_with_id` does: `value` is stored under `id`, and the
    /// counter rises to `id` if it was below.
    pub open spec fn inserted_with_id(&self, id: K, value: V, after: &Self) -> bool {
        &&& after.entries() == self.entries().insert(id.raw(), value)
        &&& after.counter() == if id.raw() > self.counter() {
            id.raw()
        } else {
            self.counter()
        }
    }

    /// What `remove` does: the value under `id` is gone, the counter stays.
    pub open spec fn removed(&self, id: K, after: &Self) -> bool {
        &&& after.entries() == self.entries().remove(id.raw())
        &&& after.counter() == self.counter()
    }

    /// What `clear` does: every value is gone, the counter stays.
    pub open spec fn cleared(&self, after: &Self) -> bool {
        &&& after.entries() == Map::<u64, V>::empty()
        &&& after.counter() == self.counter()
    }

    /// An empty store.
    pub fn with_id() -> (map: Self)
        ensures
            map.entries() == Map::<u64, V>::empty(),
            map.counter() == 0,
    {
        IdMap { inner: HashMap::new(), max_id: 0, _marker: PhantomData }
    }

    /// An empty store with room for `capacity` values.
    pub fn with_id_capacity(capacity: usize) -> (map: Self)
        ensures
            map.entries() == Map::<u64, V>::empty(),
            map.counter() == 0,
    {
        IdMap { inner: HashMap::with_capacity(capacity), max_id: 0, _marker: PhantomData }
    }

    /// Stores `value` under the next identifier and returns it.
    pub fn insert(&mut self, value: V) -> (id: K)
        requires
            old(self).counter() < u64::MAX,
        ensures
            old(self).inserted(value, id, final(self)),
    {
        self.max_id = self.max_id + 1;
        let id_u64: u64 = self.max_id;
        self.inner.insert(id_u64, value);
        K::from_u64(id_u64)
    }

    /// Stores `value` under an identifier the caller already knows and
    /// returns what was stored under it before. The counter rises to `id`
    /// if `id` is above it and is never lowered.
    pub fn insert_with_id(&mut self, id: K, value: V) -> (prior: Option<V>)
        ensures
            old(self).inserted_with_id(id, value, final(self)),
            prior == if old(self).entries().contains_key(id.raw()) {
                Some(old(self).entries()[id.raw()])
            } else {
                None
            },
    {
        let id_u64: u64 = id.as_u64();
        if id_u64 > self.max_id {
            self.max_id = id_u64;
        }
        self.inner.insert(id_u64, value)
    }

    /// A store that holds `values` under the identifiers 1, 2, ... in the
    /// order given, together with those identifiers.
    pub fn from_vec(values: Vec<V>) -> (made: (Self, Vec<K>))
        ensures
            made.0.counter() == values@.len(),
            made.0.entries().dom() =~= Set::new(|k: u64| 1 <= k <= values@.len()),
            forall|k: u64| 1 <= k <= values@.len() ==> made.0.entries()[k] == values@[k - 1],
            made.1@.len() == values@.len(),
            forall|i: int| 0 <= i < values@.len() ==> (#[trigger] made.1@[i]).raw() == i + 1,
    {
        let ghost total = values@.len();
        let mut map: Self = IdMap {
            inner: HashMap::with_capacity(values.len()),
            max_id: 0,
            _marker: PhantomData,
        };
        let mut ids: Vec<K> = Vec::with_capacity(values.len());
        let mut stack = reversed(values);
        while stack.len() > 0
            invariant
                total == values@.len(),
                total <= usize::MAX,
                map.max_id + stack@.len() == total,
                ids@.len() == map.max_id,
                forall|i: int| 0 <= i < stack@.len() ==> stack@[i] == values@[total - 1 - i],
                map.inner@.dom() =~= Set::new(|k: u64| 1 <= k <= map.max_id),
                forall|k: u64| 1 <= k <= map.max_id ==> map.inner@[k] == values@[k - 1],
                forall|i: int| 0 <= i < ids@.len() ==> (#[trigger] ids@[i]).raw() == i + 1,
            decreases stack@.len(),
        {
            match stack.pop() {
                Some(value) => {
                    map.max_id = map.max_id + 1;
                    let id_u64: u64 = map.max_id;
                    map.inner.insert(id_u64, value);
                    ids.push(K::from_u64(id_u64));
                },
                None => {},
            }
        }
        (map, ids)
    }

    /// Reserves the next identifier, builds the value from it with `f`, and
    /// stores the value under it.
    pub fn insert_cyclic<F>(&mut self, f: F) -> (id: K) where F: FnOnce(K) -> V
        requires
            old(self).counter() < u64::MAX,
            forall|k: K| k.raw() == old(self).counter() + 1 ==> f.requires((k,)),
        ensures
            id.raw() == old(self).counter() + 1,
            final(self).counter() == old(self).counter() + 1,
            final(self).entries().contains_key(id.raw()),
            f.ensures((id,), final(self).entries()[id.raw()]),
            final(self).entries() == old(self).entries().insert(
                id.raw(),
                final(self).entries()[id.raw()],
            ),
    {
        self.max_id = self.max_id + 1;
        let new_id = K::from_u64(self.max_id);
        let value = f(new_id);
        self.inner.insert(self.max_id, value);
        new_id
    }

    /// The value stored under `id`, if any.
    pub fn get(&self, id: K) -> (value: Option<&V>)
        ensures
            value == if self.entries().contains_key(id.raw()) {
                Some(&self.entries()[id.raw()])
            } else {
                None
            },
    {
        let key: u64 = id.as_u64();
        self.inner.get(&key)
    }

    /// A mutable borrow of the value stored under `id`, if any. Writing
    /// through it replaces that value; the counter and every other value
    /// stay as they were.
    pub fn get_mut(&mut self, id: K) -> (slot: Option<&mut V>)
        ensures
            slot.is_some() == old(self).entries().contains_key(id.raw()),
            final(self).counter() == old(self).counter(),
            match slot {
                Some(v) => *v == old(self).entries()[id.raw()] && final(self).entries() == old(
                    self,
                ).entries().insert(id.raw(), *final(v)),
                None => final(self).entries() == old(self).entries(),
            },
    {
        let key: u64 = id.as_u64();
        table_get_mut(&mut self.inner, key)
    }

    /// Removes and returns the value stored under `id`. The counter stays.
    pub fn remove(&mut self, id: K) -> (value: Option<V>)
        ensures
            old(self).removed(id, final(self)),
            value == if old(self).entries().contains_key(id.raw()) {
                Some(old(self).entries()[id.raw()])
            } else {
                None
            },
    {
        let key: u64 = id.as_u64();
        self.inner.remove(&key)
    }

    /// Whether a value is stored under `id`.
    pub fn contains_id(&self, id: K) -> (found: bool)
        ensures
            found == self.entries().contains_key(id.raw()),
    {
        let key: u64 = id.as_u64();
        self.inner.contains_key(&key)
    }

    /// The highest identifier ever issued or supplied.
    pub fn max_id(&self) -> (id: K)
        ensures
            id.raw() == self.counter(),
    {
        K::from_u64(self.max_id)
    }

    /// The number of values stored.
    pub fn len(&self) -> (n: usize)
        ensures
            n == self.entries().len(),
    {
        self.inner.len()
    }

    /// Whether no value is stored.
    pub fn is_empty(&self) -> (empty: bool)
        ensures
            empty == self.entries().is_empty(),
    {
        self.inner.is_empty()
    }

    /// Drops every value and keeps the counter, so that identifiers handed
    /// out before are never issued again.
    pub fn clear(&mut self)
        ensures
            old(self).cleared(final(self)),
    {
        self.inner.clear();
    }
}

impl<K: Id, V: Clone> Clone for IdMap<K, V> {
    /// A store with the same counter and the same entries.
    fn clone(&self) -> (copy: Self)
        ensures
            copy.counter() == self.counter(),
            copy.entries() == self.entries(),
    {
        IdMap { inner: self.inner.clone(), max_id: self.max_id, _marker: PhantomData }
    }
}

impl<K: Id, V> std::ops::Index<K> for IdMap<K, V> {
    type Output = V;

    /// The value stored under `id`, which must be there.
    fn index(&self, id: K) -> (value: &V)
        ensures
            *value == self.entries()[id.raw()],
    {
        match self.get(id) {
            Some(value) => value,
            None => unreached(),
        }
    }
}

impl<K: Id, V> vstd::std_specs::core::IndexSpecImpl<K> for IdMap<K, V> {
    open spec fn index_req(&self, id: &K) -> bool {
        self.entries().contains_key(id.raw())
    }
}

} // verus!
