//! An embedded key-value store addressed by a composite (partition key,
//! sort key) pair.
//!
//! The store is a stack of three components: [`store::Store`], an in-memory
//! two-level index; [`persistence::Persistence`], which maps keys to
//! filesystem paths and frames records for durable storage; and
//! [`database::Database`], the façade that combines the two into a
//! write-through cache with lazy load-on-miss and batched mutation.
//! [`in_memory::InMemoryDatabase`] offers the same contract without
//! durability.
//!
//! The library itself performs no I/O: every mutating call on
//! [`database::Database`] returns a description of the file operation that
//! makes the change durable, and the caller carries it out against the
//! filesystem.

mod codec;
mod config;
mod database;
mod in_memory;
mod persistence;
mod record;
mod store;

pub use codec::decode_record;
pub use codec::decode_spec;
pub use codec::encode_record;
pub use codec::encode_spec;
pub use codec::lemma_encode_then_decode;
pub use config::Config;
pub use database::all_decode;
pub use database::lemma_insert_then_delete;
pub use database::lemma_insert_then_get;
pub use database::lemma_last_write_wins;
pub use database::lemma_other_keys_unchanged;
pub use database::lemma_write_through_coherent;
pub use database::merged_entries;
pub use database::Database;
pub use database::DiskRequest;
pub use database::FileEntry;
pub use database::GetOutcome;
pub use in_memory::InMemoryDatabase;
pub use persistence::data_path_spec;
pub use persistence::partition_dir_spec;
pub use persistence::Persistence;
pub use persistence::WriteRequest;
pub use record::record_view;
pub use record::Data;
pub use record::DataView;
pub use record::DbError;
pub use record::OperationType;
pub use store::distinct_keys;
pub use store::has_key;
pub use store::loaded_map;
pub use store::merged_partition;
pub use store::partition_map;
pub use store::store_contains;
pub use store::store_insert_spec;
pub use store::store_lookup;
pub use store::store_map;
pub use store::store_remove_spec;
pub use store::Store;
