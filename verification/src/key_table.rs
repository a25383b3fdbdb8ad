//! The record of the keys of an index: for each key the band keys that it
//! was last filed under.

use crate::band_table::{key_laws, HashValuePart};
use std::collections::HashMap;
use std::hash::Hash;
use vstd::prelude::*;

verus! {

/// The band keys of a record, as sequences of slot values.
pub open spec fn parts_view(parts: Seq<HashValuePart>) -> Seq<Seq<u64>> {
    Seq::new(parts.len(), |i: int| parts[i]@)
}

/// The records of the keys. As a map it takes each key to its band keys.
#[derive(Clone)]
pub struct KeyTable<K> {
    records: HashMap<K, Vec<HashValuePart>>,
}

impl<K> View for KeyTable<K> {
    type V = Map<K, Seq<Seq<u64>>>;

    closed spec fn view(&self) -> Map<K, Seq<Seq<u64>>> {
        Map::new(|key: K| self.records@.contains_key(key), |key: K| parts_view(self.records@[key]@))
    }
}

impl<K: Eq + Hash + Clone> KeyTable<K> {
    /// A table without records.
    pub fn new() -> (table: KeyTable<K>)
        ensures
            table@ == Map::<K, Seq<Seq<u64>>>::empty(),
    {
        let table = KeyTable { records: HashMap::new() };
        assert(table@ =~= Map::<K, Seq<Seq<u64>>>::empty());
        table
    }

    /// Whether the key has a record.
    pub fn contains_key(&self, key: &K) -> (found: bool)
        requires
            key_laws::<K>(),
        ensures
            found == self@.dom().contains(*key),
    {
        self.records.contains_key(key)
    }

    /// The band keys of a key, if it has a record.
    pub fn get(&self, key: &K) -> (found: Option<&Vec<HashValuePart>>)
        requires
            key_laws::<K>(),
        ensures
            match found {
                Some(parts) => self@.dom().contains(*key) && parts_view(parts@) == self@[*key],
                None => !self@.dom().contains(*key),
            },
    {
        self.records.get(key)
    }

    /// Records the band keys of a key, in place of those it had.
    pub fn insert(&mut self, key: K, parts: Vec<HashValuePart>)
        requires
            key_laws::<K>(),
        ensures
            final(self)@ == old(self)@.insert(key, parts_view(parts@)),
    {
        self.records.insert(key, parts);
        assert(self@ =~= old(self)@.insert(key, parts_view(parts@)));
    }

    /// Drops the record of a key. Says whether there was one.
    pub fn remove(&mut self, key: &K) -> (removed: bool)
        requires
            key_laws::<K>(),
        ensures
            removed == old(self)@.dom().contains(*key),
            final(self)@ == old(self)@.remove(*key),
    {
        let dropped = self.records.remove(key);
        assert(self@ =~= old(self)@.remove(*key));
        dropped.is_some()
    }

    /// The number of records.
    pub fn len(&self) -> (count: usize)
        requires
            key_laws::<K>(),
        ensures
            self@.dom().finite(),
            count == self@.dom().len(),
    {
        assert(self@.dom() =~= self.records@.dom());
        self.records.len()
    }
}

} // verus!
