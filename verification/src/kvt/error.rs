//! Errors reported by key-value operations.
use vstd::prelude::*;

verus! {

/// Error type for key-value operations.
#[derive(Debug)]
pub enum KeyValueError {
    OutOfMemory,
    KeyNotFound,
    KeyExists,
    InvalidKey(String),
    InvalidValue(String),
    StorageCorruption(String),
    LockTimeout,
    WriteConflict,
    LockPoisoned,
    SnapshotExpired,
    ReadOnly,
    Closed,
    StorageFull,
    KeyTooLarge { size: usize, max: usize },
    ValueTooLarge { size: usize, max: usize },
    Consensus(String),
    InvalidOperation(String),
    InvalidSnapshotFormat,
    UnsupportedSnapshotVersion,
    Serialization(String),
    Deserialization(String),
    Internal(String),
}

/// Result type for key-value operations.
pub type KeyValueResult<T> = Result<T, KeyValueError>;

impl KeyValueError {
    /// This error reports corrupted storage with the message `msg`.
    pub open spec fn is_storage_corruption(self, msg: Seq<char>) -> bool {
        self matches KeyValueError::StorageCorruption(m) && m@ == msg
    }
}

/// A storage-corruption error carrying `msg`.
pub fn storage_corruption(msg: &str) -> (e: KeyValueError)
    ensures
        e.is_storage_corruption(msg@),
{
    KeyValueError::StorageCorruption(msg.to_owned())
}

} // verus!
