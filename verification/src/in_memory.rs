//! The in-memory variant of the database: the same contract as the façade's
//! cache path, with no durable tree behind it. A deleted key stays gone, and
//! no operation can fail.

use vstd::prelude::*;

use crate::record::record_view;
use crate::record::Data;
use crate::record::DataView;
use crate::record::OperationType;
use crate::store::distinct_keys;
use crate::store::partition_map;
use crate::store::store_contains;
use crate::store::store_insert_spec;
use crate::store::store_lookup;
use crate::store::store_remove_spec;
use crate::store::Store;

verus! {

/// A database backed only by the in-memory index: no durability, no I/O,
/// and no failing operation.
pub struct InMemoryDatabase {
    store: Store,
}

impl View for InMemoryDatabase {
    type V = Map<Seq<char>, Map<Seq<char>, DataView>>;

    closed spec fn view(&self) -> Map<Seq<char>, Map<Seq<char>, DataView>> {
        self.store@
    }
}

impl InMemoryDatabase {
    pub closed spec fn wf(&self) -> bool {
        self.store.wf()
    }

    /// Creates an empty database.
    pub fn new() -> (r: InMemoryDatabase)
        ensures
            r.wf(),
            r@ == Map::<Seq<char>, Map<Seq<char>, DataView>>::empty(),
    {
        InMemoryDatabase { store: Store::new() }
    }

    /// Inserts or overwrites the value under the composite key, stored as a
    /// record tagged `Insert`.
    pub fn insert(&mut self, partition_key: String, sort_key: String, value: String)
        requires
            old(self).wf(),
        ensures
            final(self).wf(),
            final(self)@ == store_insert_spec(
                old(self)@,
                partition_key@,
                sort_key@,
                record_view(partition_key@, sort_key@, value@),
            ),
    {
        let data = Data {
            partition_key: partition_key.clone(),
            sort_key: sort_key.clone(),
            value,
            operation_type: OperationType::Insert,
        };
        self.store.insert(partition_key, sort_key, data);
    }

    /// Returns the record under the composite key, or nothing. A read after
    /// a delete of the key always returns nothing: there is no disk to
    /// reload from.
    pub fn get(&self, partition_key: String, sort_key: String) -> (r: Option<Data>)
        requires
            self.wf(),
        ensures
            match r {
                Some(d) => store_contains(self@, partition_key@, sort_key@) && d@ == store_lookup(
                    self@,
                    partition_key@,
                    sort_key@,
                ),
                None => !store_contains(self@, partition_key@, sort_key@),
            },
    {
        match self.store.get(&partition_key, &sort_key) {
            Some(d) => Some(d.clone()),
            None => None,
        }
    }

    /// Removes the entry under the composite key if present; a no-op
    /// otherwise.
    pub fn delete(&mut self, partition_key: String, sort_key: String)
        requires
            old(self).wf(),
        ensures
            final(self).wf(),
            final(self)@ == store_remove_spec(old(self)@, partition_key@, sort_key@),
    {
        self.store.delete(&partition_key, &sort_key);
    }

    /// Returns the whole partition as its entry list, if it exists.
    pub fn get_all(&self, partition_key: String) -> (r: Option<&Vec<(String, Data)>>)
        requires
            self.wf(),
        ensures
            match r {
                Some(entries) => self@.contains_key(partition_key@) && partition_map(entries@)
                    == self@[partition_key@] && distinct_keys(entries@),
                None => !self@.contains_key(partition_key@),
            },
    {
        self.store.get_all(&partition_key)
    }
}

} // verus!
