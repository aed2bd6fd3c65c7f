//! The in-memory part of the store.
use vstd::prelude::*;

use crate::sorted;
use crate::sorted::{Slot, SortedMap, Table};

verus! {

/// In-memory sorted key-value map. A tombstone marks a deleted key.
#[derive(Debug)]
pub struct MemTable {
    data: SortedMap,
    size_bytes: usize,
}

impl View for MemTable {
    type V = Table;

    closed spec fn view(&self) -> Table {
        self.data@
    }
}

impl MemTable {
    /// How many bytes of keys and values have been written since the last drain.
    pub closed spec fn size(&self) -> nat {
        self.size_bytes as nat
    }

    /// An empty table.
    pub fn new() -> (table: Self)
        ensures
            table@ == Map::<Seq<u8>, Slot>::empty(),
            table.size() == 0,
    {
        MemTable { data: SortedMap::new(), size_bytes: 0 }
    }

    /// Inserts a key-value pair.
    pub fn put(&mut self, key: Vec<u8>, value: Vec<u8>)
        requires
            old(self).size() + key@.len() + value@.len() <= usize::MAX,
        ensures
            final(self)@ == old(self)@.insert(key@, Some(value@)),
            final(self).size() == old(self).size() + key@.len() + value@.len(),
    {
        self.size_bytes = self.size_bytes + key.len() + value.len();
        self.data.insert(key, Some(value));
    }

    /// Marks a key as deleted.
    pub fn delete(&mut self, key: Vec<u8>)
        requires
            old(self).size() + key@.len() <= usize::MAX,
        ensures
            final(self)@ == old(self)@.insert(key@, None),
            final(self).size() == old(self).size() + key@.len(),
    {
        self.size_bytes = self.size_bytes + key.len();
        self.data.insert(key, None);
    }

    /// Looks up a key: a value, a tombstone, or nothing where the key is not in
    /// the table.
    pub fn get(&self, key: &[u8]) -> (slot: Option<&Option<Vec<u8>>>)
        ensures
            match slot {
                Some(slot) => self@.contains_key(key@) && self@[key@] == sorted::slot_view(*slot),
                None => !self@.contains_key(key@),
            },
    {
        self.data.get(key)
    }

    /// Approximate size in bytes, for the decision to flush.
    pub fn size_bytes(&self) -> (size: usize)
        ensures
            size == self.size(),
    {
        self.size_bytes
    }

    /// The number of keys, tombstones included.
    pub fn len(&self) -> (n: usize)
        ensures
            n == self@.dom().len(),
            self@.dom().finite(),
    {
        self.data.len()
    }

    /// Whether the table holds no key.
    pub fn is_empty(&self) -> (empty: bool)
        ensures
            empty == (self@ == Map::<Seq<u8>, Slot>::empty()),
    {
        self.data.is_empty()
    }

    /// Takes all entries out, for flushing.
    pub fn drain(&mut self) -> (data: SortedMap)
        ensures
            data@ == old(self)@,
            final(self)@ == Map::<Seq<u8>, Slot>::empty(),
            final(self).size() == 0,
    {
        self.size_bytes = 0;
        let mut data = SortedMap::new();
        std::mem::swap(&mut data, &mut self.data);
        data
    }
}

impl Default for MemTable {
    fn default() -> (table: Self)
        ensures
            table@ == Map::<Seq<u8>, Slot>::empty(),
            table.size() == 0,
    {
        MemTable::new()
    }
}

} // verus!
