//! The one kind of failure a storage backend reports.
use vstd::prelude::*;

verus! {

/// A storage-level failure (I/O, encoding, exhausted resources), with a
/// description. Absence of a record is never an error.
#[derive(Debug, Clone, PartialEq, Eq)]
pub enum StorageError {
    Backend(String),
}

impl StorageError {
    pub fn message(&self) -> (r: String)
        ensures
            match self {
                StorageError::Backend(m) => r@ == m@,
            },
    {
        match self {
            StorageError::Backend(m) => m.clone(),
        }
    }
}

} // verus!
