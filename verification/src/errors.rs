//! The error taxonomy of the record store and backup manager.

use vstd::prelude::*;

verus! {

/// Why a store or backup operation failed. A missing source file is
/// not an error: reading a missing record file yields an empty
/// collection, and backing up a missing source yields no backup.
#[derive(Debug)]
pub enum StoreError {
    /// A filesystem access failed; the operation was aborted.
    IoError(String),
    /// A row failed to decode; the whole load was aborted and no
    /// partial collection returned.
    MalformedRecord(String),
    /// A shared or exclusive lock could not be obtained.
    LockContention,
}

impl StoreError {
    /// A human-readable description of the error.
    pub fn message(&self) -> (r: String)
        ensures
            match self {
                StoreError::IoError(m) => r@ == m@,
                StoreError::MalformedRecord(m) => r@ == m@,
                StoreError::LockContention => r@ == "lock contention"@,
            },
    {
        match self {
            StoreError::IoError(m) => m.clone(),
            StoreError::MalformedRecord(m) => m.clone(),
            StoreError::LockContention => String::from_str("lock contention"),
        }
    }
}

} // verus!
