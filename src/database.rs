//! Location of the vault's relational store.
use vstd::prelude::*;

verus! {

/// Handle on the store file; opening and querying it is left to the caller.
pub struct DatabaseService {
    pub db_path: String,
}

impl DatabaseService {
    /// A handle on the store at `db_path`.
    pub fn new(db_path: &str) -> (r: Self)
        ensures
            r.db_path@ == db_path@,
    {
        DatabaseService { db_path: db_path.to_string() }
    }

    /// The path the handle was made with.
    pub fn get_path(&self) -> (r: &str)
        ensures
            r@ == self.db_path@,
    {
        self.db_path.as_str()
    }
}

} // verus!
