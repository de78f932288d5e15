//! Records and the objects they carry.

use crate::id_map::Id;
use vstd::prelude::*;

verus! {

/// A record: an object together with the identifier it was stored under.
#[derive(Debug, Clone, Copy, PartialEq, Eq, PartialOrd, Ord, Hash)]
pub struct Obj<K: Id, O>(pub K, pub O);

impl<K: Id, O> std::ops::Deref for Obj<K, O> {
    type Target = O;

    /// The object the record carries.
    fn deref(&self) -> (object: &O)
        ensures
            *object == self.1,
    {
        &self.1
    }
}

impl<K: Id, O> std::ops::DerefMut for Obj<K, O> {
    /// A mutable borrow of the object the record carries.
    fn deref_mut(&mut self) -> (object: &mut O)
        ensures
            *object == old(self).1,
            final(self).1 == *final(object),
            final(self).0 == old(self).0,
    {
        &mut self.1
    }
}

/// A stored object: the scalar `key` it is indexed by, and its payload.
#[derive(Debug, Clone, Copy, PartialEq, Eq, Hash, Structural)]
pub struct Item {
    pub key: u64,
    pub data: u64,
}

impl Item {
    /// The scalar this object is indexed by.
    pub fn value(&self) -> (v: u64)
        ensures
            v == self.key,
    {
        self.key
    }

    /// A borrow of the scalar this object is indexed by.
    pub fn value_ref(&self) -> (v: &u64)
        ensures
            *v == self.key,
    {
        &self.key
    }

    /// A mutable borrow of the scalar this object is indexed by; writing
    /// through it changes the scalar and leaves the payload alone.
    pub fn value_mut(&mut self) -> (v: &mut u64)
        ensures
            *v == old(self).key,
            final(self).key == *final(v),
            final(self).data == old(self).data,
    {
        &mut self.key
    }
}

/// Puts `item` in place of the object that `record` carries and returns the
/// object that was there. The record keeps its identifier.
pub fn replace_object<K: Id>(record: &mut Obj<K, Item>, item: Item) -> (prior: Item)
    ensures
        prior == old(record).1,
        final(record).1 == item,
        final(record).0 == old(record).0,
{
    let prior = record.1;
    record.1 = item;
    prior
}

} // verus!
