//! The failure taxonomy of the store: engine failures, records that do
//! not decode, and internal invariants that did not hold.
use vstd::prelude::*;

verus! {

/// What a store operation can fail with.
#[derive(Debug)]
pub enum StoreError {
    /// The engine failed to open the store or a partition, or to read or
    /// write a key.  Fatal to the caller; never retried here.
    Io(sled::Error),
    /// Stored bytes did not decode as the record type of their partition.
    /// The store only ever reads what it itself wrote, so this signals
    /// foreign or corrupted data.
    Serialization,
    /// An internal invariant did not hold; a logic error in the store
    /// itself, not a caller mistake.
    Bug(&'static str),
}

impl StoreError {
    /// A short label for the error kind, for reporting.
    pub fn kind_str(&self) -> (r: &'static str)
        ensures
            r@ == match self {
                StoreError::Io(_) => "io"@,
                StoreError::Serialization => "serialization"@,
                StoreError::Bug(_) => "bug"@,
            },
    {
        match self {
            StoreError::Io(_) => "io",
            StoreError::Serialization => "serialization",
            StoreError::Bug(_) => "bug",
        }
    }
}

} // verus!
