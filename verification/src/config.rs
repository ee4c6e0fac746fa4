use vstd::prelude::*;

verus! {

/// Runtime configuration: where the database keeps its directory tree.
pub struct Config {
    pub db_path: String,
}

impl Config {
    pub fn new(db_path: String) -> (r: Self)
        ensures
            r.db_path == db_path,
    {
        Config { db_path }
    }
}

} // verus!
