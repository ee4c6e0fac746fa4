//! The durable layout: one directory per partition under a root, one file
//! per sort key, each file holding the frame of one record. This component
//! decides paths and payloads; carrying them out against a filesystem is the
//! caller's part.

use vstd::prelude::*;
use vstd::string::StringExecFns;

use crate::codec::encode_record;
use crate::codec::encode_spec;
use crate::record::Data;

verus! {

/// The path of the file that holds one record: `root/partition/sort`.
pub open spec fn data_path_spec(
    root: Seq<char>,
    partition_key: Seq<char>,
    sort_key: Seq<char>,
) -> Seq<char> {
    root + "/"@ + partition_key + "/"@ + sort_key
}

/// The path of one partition's directory: `root/partition`.
pub open spec fn partition_dir_spec(root: Seq<char>, partition_key: Seq<char>) -> Seq<char> {
    root + "/"@ + partition_key
}

/// One write against the durable tree: create `dir` if it is absent, then
/// replace the contents of `file` with `contents`.
#[derive(Debug)]
pub struct WriteRequest {
    pub dir: String,
    pub file: String,
    pub contents: String,
}

/// The persistence layer: maps composite keys to paths under its root and
/// frames records for the files there.
pub struct Persistence {
    root: String,
}

impl View for Persistence {
    type V = Seq<char>;

    closed spec fn view(&self) -> Seq<char> {
        self.root@
    }
}

impl Persistence {
    /// Remembers the root of the durable tree. The caller creates the root
    /// directory itself if it does not exist yet.
    pub fn new(root: String) -> (r: Persistence)
        ensures
            r@ == root@,
    {
        Persistence { root }
    }

    /// The directory that holds one partition's files.
    pub fn partition_dir(&self, partition_key: &String) -> (r: String)
        ensures
            r@ == partition_dir_spec(self@, partition_key@),
    {
        let mut out = self.root.clone();
        out.append("/");
        out.append(partition_key.as_str());
        proof {
            assert(out@ =~= partition_dir_spec(self@, partition_key@));
        }
        out
    }

    /// The file that holds the record under the composite key.
    pub fn data_path(&self, partition_key: &String, sort_key: &String) -> (r: String)
        ensures
            r@ == data_path_spec(self@, partition_key@, sort_key@),
    {
        let mut out = self.root.clone();
        out.append("/");
        out.append(partition_key.as_str());
        out.append("/");
        out.append(sort_key.as_str());
        proof {
            assert(out@ =~= data_path_spec(self@, partition_key@, sort_key@));
        }
        out
    }

    /// The write that makes a record durable: its partition's directory, its
    /// file, and the framed payload.
    pub fn save_request(&self, data: &Data) -> (r: WriteRequest)
        ensures
            r.dir@ == partition_dir_spec(self@, data.partition_key@),
            r.file@ == data_path_spec(self@, data.partition_key@, data.sort_key@),
            r.contents@ == encode_spec(data@),
    {
        WriteRequest {
            dir: self.partition_dir(&data.partition_key),
            file: self.data_path(&data.partition_key, &data.sort_key),
            contents: encode_record(data),
        }
    }
}

} // verus!
