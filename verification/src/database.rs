//! The façade over the in-memory index and the durable layout: a
//! write-through cache with lazy load-on-miss and batched mutation.
//!
//! The façade performs no I/O itself. Every mutating call updates the cache
//! and returns a description of the file operation that makes the change
//! durable; a cache miss names the file to read. The caller carries the
//! operation out and, for a miss, hands the payload back to
//! [`Database::resolve_miss`].

use vstd::prelude::*;

use crate::codec::decode_record;
use crate::codec::decode_spec;
use crate::codec::encode_spec;
use crate::persistence::data_path_spec;
use crate::persistence::partition_dir_spec;
use crate::persistence::Persistence;
use crate::persistence::WriteRequest;
use crate::record::record_view;
use crate::record::Data;
use crate::record::DataView;
use crate::record::DbError;
use crate::record::OperationType;
use crate::store::store_contains;
use crate::store::store_insert_spec;
use crate::store::store_lookup;
use crate::store::store_remove_spec;
use crate::store::Store;

verus! {

/// What a cache-first read finds: the cached record, or the path of the file
/// that may hold the record durably.
#[derive(Debug)]
pub enum GetOutcome {
    Hit(Data),
    Miss(String),
}

/// One file operation that makes a mutation durable.
#[derive(Debug)]
pub enum DiskRequest {
    Write(WriteRequest),
    Remove(String),
}

/// One file of the durable tree, as the caller found it: the partition
/// directory's name, the file's name, and the payload read from it.
#[derive(Debug)]
pub struct FileEntry {
    pub partition_key: String,
    pub sort_key: String,
    pub contents: String,
}

/// True when every listed payload is the frame of a record.
pub open spec fn all_decode(files: Seq<FileEntry>) -> bool {
    forall|i: int| 0 <= i < files.len() ==> decode_spec(#[trigger] files[i].contents@) is Some
}

/// The cache after merging the listed files into `m`, in order: each file's
/// decoded record is inserted under the keys the file was found at. Entries
/// already cached and not named by a file are left untouched; a later file
/// for a key overrides an earlier one.
pub open spec fn merged_entries(
    m: Map<Seq<char>, Map<Seq<char>, DataView>>,
    files: Seq<FileEntry>,
) -> Map<Seq<char>, Map<Seq<char>, DataView>>
    decreases files.len(),
{
    if files.len() == 0 {
        m
    } else {
        let f = files.last();
        store_insert_spec(
            merged_entries(m, files.drop_last()),
            f.partition_key@,
            f.sort_key@,
            decode_spec(f.contents@)->Some_0,
        )
    }
}

/// The database façade: one in-memory index, one persistence layout, no I/O
/// of its own. Concurrent callers share it behind their own lock; every
/// mutating method takes the database exclusively, so mutations are
/// serialized by construction.
pub struct Database {
    store: Store,
    persistence: Persistence,
}

impl Database {
    /// The index is well formed.
    pub closed spec fn wf(&self) -> bool {
        self.store.wf()
    }

    /// The cache's two-level mapping.
    pub closed spec fn cache(&self) -> Map<Seq<char>, Map<Seq<char>, DataView>> {
        self.store@
    }

    /// The root of the durable tree.
    pub closed spec fn root(&self) -> Seq<char> {
        self.persistence@
    }

    /// A database with an empty cache over the given root. The caller
    /// creates the root directory itself if it does not exist yet.
    pub fn new(root_path: String) -> (r: Database)
        ensures
            r.wf(),
            r.cache() == Map::<Seq<char>, Map<Seq<char>, DataView>>::empty(),
            r.root() == root_path@,
    {
        Database { store: Store::new(), persistence: Persistence::new(root_path) }
    }

    /// Cache-first read: a hit returns a copy of the cached record; a miss
    /// names the file that may hold the record, whose payload
    /// [`Database::resolve_miss`] then takes.
    pub fn get(&self, partition_key: String, sort_key: String) -> (r: GetOutcome)
        requires
            self.wf(),
        ensures
            match r {
                GetOutcome::Hit(d) => store_contains(self.cache(), partition_key@, sort_key@)
                    && d@ == store_lookup(self.cache(), partition_key@, sort_key@),
                GetOutcome::Miss(path) => !store_contains(self.cache(), partition_key@, sort_key@)
                    && path@ == data_path_spec(self.root(), partition_key@, sort_key@),
            },
    {
        match self.store.get(&partition_key, &sort_key) {
            Some(d) => GetOutcome::Hit(d.clone()),
            None => GetOutcome::Miss(self.persistence.data_path(&partition_key, &sort_key)),
        }
    }

    /// Completes a cache miss: decodes the payload read from the record's
    /// file, populates the cache under the requested keys, and returns the
    /// record. A payload that is not the frame of a record is a
    /// `SerializationError` and leaves the cache untouched.
    pub fn resolve_miss(&mut self, partition_key: String, sort_key: String, contents: &str) -> (r:
        Result<Data, DbError>)
        requires
            old(self).wf(),
        ensures
            final(self).wf(),
            final(self).root() == old(self).root(),
            match r {
                Ok(d) => decode_spec(contents@) == Some(d@) && final(self).cache()
                    == store_insert_spec(old(self).cache(), partition_key@, sort_key@, d@),
                Err(e) => e == DbError::SerializationError && decode_spec(contents@) is None
                    && final(self).cache() == old(self).cache(),
            },
    {
        match decode_record(contents) {
            Ok(d) => {
                self.store.insert(partition_key, sort_key, d.clone());
                Ok(d)
            },
            Err(e) => Err(e),
        }
    }

    /// Write-through insert: stores a record tagged `Insert` in the cache
    /// and returns the write that makes it durable. The cache holds the new
    /// record as soon as this returns, whether or not the caller's write
    /// then succeeds; a failed write leaves a cache entry with no durable
    /// backing.
    pub fn insert(&mut self, partition_key: String, sort_key: String, value: String) -> (r:
        WriteRequest)
        requires
            old(self).wf(),
        ensures
            final(self).wf(),
            final(self).root() == old(self).root(),
            final(self).cache() == store_insert_spec(
                old(self).cache(),
                partition_key@,
                sort_key@,
                record_view(partition_key@, sort_key@, value@),
            ),
            r.dir@ == partition_dir_spec(old(self).root(), partition_key@),
            r.file@ == data_path_spec(old(self).root(), partition_key@, sort_key@),
            r.contents@ == encode_spec(record_view(partition_key@, sort_key@, value@)),
    {
        let data = Data {
            partition_key: partition_key.clone(),
            sort_key: sort_key.clone(),
            value,
            operation_type: OperationType::Insert,
        };
        let req = self.persistence.save_request(&data);
        self.store.insert(partition_key, sort_key, data);
        req
    }

    /// Removes the key from the cache and returns the path of its backing
    /// file, for the caller to remove; a file absent there is the caller's
    /// `NotFound`, even when the cached entry existed.
    pub fn delete(&mut self, partition_key: String, sort_key: String) -> (r: String)
        requires
            old(self).wf(),
        ensures
            final(self).wf(),
            final(self).root() == old(self).root(),
            final(self).cache() == store_remove_spec(old(self).cache(), partition_key@, sort_key@),
            r@ == data_path_spec(old(self).root(), partition_key@, sort_key@),
    {
        self.store.delete(&partition_key, &sort_key);
        self.persistence.data_path(&partition_key, &sort_key)
    }

    /// One entry of a batch: `Insert` and `Update` both write through as an
    /// insert, `Delete` removes. The returned file operation makes the step
    /// durable; the caller applies entries in order and stops at its first
    /// failed operation, leaving earlier entries applied.
    pub fn batch_step(&mut self, item: Data) -> (r: DiskRequest)
        requires
            old(self).wf(),
        ensures
            final(self).wf(),
            final(self).root() == old(self).root(),
            item.operation_type != OperationType::Delete ==> {
                &&& final(self).cache() == store_insert_spec(
                    old(self).cache(),
                    item.partition_key@,
                    item.sort_key@,
                    record_view(item.partition_key@, item.sort_key@, item.value@),
                )
                &&& r matches DiskRequest::Write(w) && w.dir@ == partition_dir_spec(
                    old(self).root(),
                    item.partition_key@,
                ) && w.file@ == data_path_spec(
                    old(self).root(),
                    item.partition_key@,
                    item.sort_key@,
                ) && w.contents@ == encode_spec(
                    record_view(item.partition_key@, item.sort_key@, item.value@),
                )
            },
            item.operation_type == OperationType::Delete ==> {
                &&& final(self).cache() == store_remove_spec(
                    old(self).cache(),
                    item.partition_key@,
                    item.sort_key@,
                )
                &&& r matches DiskRequest::Remove(path) && path@ == data_path_spec(
                    old(self).root(),
                    item.partition_key@,
                    item.sort_key@,
                )
            },
    {
        match item.operation_type {
            OperationType::Insert | OperationType::Update => DiskRequest::Write(
                self.insert(item.partition_key, item.sort_key, item.value),
            ),
            OperationType::Delete => DiskRequest::Remove(
                self.delete(item.partition_key, item.sort_key),
            ),
        }
    }

    /// Seeds the cache from the durable tree: decodes every listed payload
    /// and merges the records into the cache in order, under the keys each
    /// file was found at. Cached entries that no file names are left
    /// untouched. One malformed payload aborts the whole load with the cache
    /// unchanged.
    pub fn load_all_data(&mut self, files: Vec<FileEntry>) -> (r: Result<(), DbError>)
        requires
            old(self).wf(),
        ensures
            final(self).wf(),
            final(self).root() == old(self).root(),
            match r {
                Ok(_) => all_decode(files@) && final(self).cache() == merged_entries(
                    old(self).cache(),
                    files@,
                ),
                Err(e) => e == DbError::SerializationError && !all_decode(files@)
                    && final(self).cache() == old(self).cache(),
            },
    {
        let n: usize = files.len();
        let decoded: Vec<Data> = match decode_all(&files) {
            Some(ds) => ds,
            None => {
                return Err(DbError::SerializationError);
            },
        };
        let ghost m0 = self.store@;
        let mut k: usize = 0;
        while k < n
            invariant
                n == files@.len(),
                k <= n,
                decoded@.len() == n,
                forall|j: int|
                    0 <= j < n ==> decode_spec(#[trigger] files@[j].contents@) == Some(
                        decoded@[j]@,
                    ),
                self.store.wf(),
                self.store@ == merged_entries(m0, files@.take(k as int)),
                self.persistence == old(self).persistence,
            decreases n - k,
        {
            let entry = &files[k];
            self.store.insert(
                entry.partition_key.clone(),
                entry.sort_key.clone(),
                decoded[k].clone(),
            );
            proof {
                assert(files@.take(k + 1).drop_last() =~= files@.take(k as int));
            }
            k = k + 1;
        }
        proof {
            assert(files@.take(n as int) =~= files@);
        }
        Ok(())
    }
}

fn decode_all(files: &Vec<FileEntry>) -> (r: Option<Vec<Data>>)
    ensures
        match r {
            Some(ds) => ds@.len() == files@.len() && forall|j: int|
                0 <= j < files@.len() ==> decode_spec(#[trigger] files@[j].contents@) == Some(
                    ds@[j]@,
                ),
            None => !all_decode(files@),
        },
{
    let n: usize = files.len();
    let mut decoded: Vec<Data> = Vec::new();
    let mut i: usize = 0;
    while i < n
        invariant
            n == files@.len(),
            i <= n,
            decoded@.len() == i,
            forall|j: int|
                0 <= j < i ==> decode_spec(#[trigger] files@[j].contents@) == Some(decoded@[j]@),
        decreases n - i,
    {
        match decode_record(files[i].contents.as_str()) {
            Ok(d) => {
                decoded.push(d);
            },
            Err(_e) => {
                return None;
            },
        }
        i = i + 1;
    }
    Some(decoded)
}

/// Law: a record just inserted under a composite key is exactly what a read
/// of that key then finds — its keys, its value, and its `Insert` tag.
pub proof fn lemma_insert_then_get(
    m: Map<Seq<char>, Map<Seq<char>, DataView>>,
    partition_key: Seq<char>,
    sort_key: Seq<char>,
    value: Seq<char>,
)
    ensures
        store_contains(
            store_insert_spec(
                m,
                partition_key,
                sort_key,
                record_view(partition_key, sort_key, value),
            ),
            partition_key,
            sort_key,
        ),
        store_lookup(
            store_insert_spec(
                m,
                partition_key,
                sort_key,
                record_view(partition_key, sort_key, value),
            ),
            partition_key,
            sort_key,
        ) == record_view(partition_key, sort_key, value),
{
}

/// Law: of two inserts under one composite key, the later one wins; there is
/// no versioning.
pub proof fn lemma_last_write_wins(
    m: Map<Seq<char>, Map<Seq<char>, DataView>>,
    partition_key: Seq<char>,
    sort_key: Seq<char>,
    first_value: Seq<char>,
    second_value: Seq<char>,
)
    ensures
        store_lookup(
            store_insert_spec(
                store_insert_spec(
                    m,
                    partition_key,
                    sort_key,
                    record_view(partition_key, sort_key, first_value),
                ),
                partition_key,
                sort_key,
                record_view(partition_key, sort_key, second_value),
            ),
            partition_key,
            sort_key,
        ) == record_view(partition_key, sort_key, second_value),
{
}

/// Law: an insert followed by a delete of the same composite key leaves the
/// cache with no record under that key.
pub proof fn lemma_insert_then_delete(
    m: Map<Seq<char>, Map<Seq<char>, DataView>>,
    partition_key: Seq<char>,
    sort_key: Seq<char>,
    value: Seq<char>,
)
    ensures
        !store_contains(
            store_remove_spec(
                store_insert_spec(
                    m,
                    partition_key,
                    sort_key,
                    record_view(partition_key, sort_key, value),
                ),
                partition_key,
                sort_key,
            ),
            partition_key,
            sort_key,
        ),
{
}

/// Law: a write-through is coherent: the payload an insert sends to disk
/// decodes to exactly the record the insert leaves in the cache, so the
/// cache is never stale for a key written through the façade.
pub proof fn lemma_write_through_coherent(
    m: Map<Seq<char>, Map<Seq<char>, DataView>>,
    partition_key: Seq<char>,
    sort_key: Seq<char>,
    value: Seq<char>,
)
    ensures
        decode_spec(encode_spec(record_view(partition_key, sort_key, value))) == Some(
            store_lookup(
                store_insert_spec(
                    m,
                    partition_key,
                    sort_key,
                    record_view(partition_key, sort_key, value),
                ),
                partition_key,
                sort_key,
            ),
        ),
{
    crate::codec::lemma_encode_then_decode(record_view(partition_key, sort_key, value));
    lemma_insert_then_get(m, partition_key, sort_key, value);
}

/// Law: an insert under one composite key leaves every other composite key
/// exactly as it was. Writers of distinct keys, however their writes are
/// ordered, each find their own record afterwards.
pub proof fn lemma_other_keys_unchanged(
    m: Map<Seq<char>, Map<Seq<char>, DataView>>,
    partition_key: Seq<char>,
    sort_key: Seq<char>,
    record: DataView,
    other_partition_key: Seq<char>,
    other_sort_key: Seq<char>,
)
    requires
        partition_key != other_partition_key || sort_key != other_sort_key,
    ensures
        store_contains(
            store_insert_spec(m, partition_key, sort_key, record),
            other_partition_key,
            other_sort_key,
        ) == store_contains(m, other_partition_key, other_sort_key),
        store_contains(m, other_partition_key, other_sort_key) ==> store_lookup(
            store_insert_spec(m, partition_key, sort_key, record),
            other_partition_key,
            other_sort_key,
        ) == store_lookup(m, other_partition_key, other_sort_key),
{
}

} // verus!
