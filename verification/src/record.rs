use vstd::prelude::*;

verus! {

/// Tags the origin of a record in a batch. `Insert` and `Update` are handled
/// identically by the write path (both overwrite); `Delete` requests removal.
#[derive(Clone, Copy, Debug, PartialEq, Eq, Structural)]
pub enum OperationType {
    Insert,
    Update,
    Delete,
}

/// The errors of the storage stack. `NotFound`: the requested key has no
/// backing file. `IoError`: a filesystem fault. `SerializationError`: a
/// payload that is not a JSON serialization of any record.
#[derive(Clone, Copy, Debug, PartialEq, Eq, Structural)]
pub enum DbError {
    NotFound,
    IoError,
    SerializationError,
}

/// The unit of storage: a composite key, an opaque payload, and the tag of
/// the operation that produced the record.
#[derive(Debug)]
pub struct Data {
    pub partition_key: String,
    pub sort_key: String,
    pub value: String,
    pub operation_type: OperationType,
}

/// The mathematical model of a record: the same four fields with each string
/// replaced by its sequence of characters.
pub struct DataView {
    pub partition_key: Seq<char>,
    pub sort_key: Seq<char>,
    pub value: Seq<char>,
    pub operation_type: OperationType,
}

/// The record that a plain insert of `value` under a composite key stores:
/// the key pair, the value, and the `Insert` tag.
pub open spec fn record_view(
    partition_key: Seq<char>,
    sort_key: Seq<char>,
    value: Seq<char>,
) -> DataView {
    DataView { partition_key, sort_key, value, operation_type: OperationType::Insert }
}

impl View for Data {
    type V = DataView;

    open spec fn view(&self) -> DataView {
        DataView {
            partition_key: self.partition_key@,
            sort_key: self.sort_key@,
            value: self.value@,
            operation_type: self.operation_type,
        }
    }
}

impl Clone for Data {
    fn clone(&self) -> (r: Self)
        ensures
            r == *self,
    {
        Data {
            partition_key: self.partition_key.clone(),
            sort_key: self.sort_key.clone(),
            value: self.value.clone(),
            operation_type: self.operation_type,
        }
    }
}

impl PartialEq for Data {
    fn eq(&self, other: &Self) -> (r: bool) {
        self.partition_key == other.partition_key && self.sort_key == other.sort_key
            && self.value == other.value && self.operation_type == other.operation_type
    }
}

impl vstd::std_specs::cmp::PartialEqSpecImpl for Data {
    open spec fn obeys_eq_spec() -> bool {
        true
    }

    open spec fn eq_spec(&self, other: &Self) -> bool {
        self@ == other@
    }
}

} // verus!
