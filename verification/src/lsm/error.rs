//! Errors of the LSM tree, with their severity and whether they can be recovered from.
use vstd::prelude::*;
use vstd::string::StringExecFns;
use crate::kvt::error::KeyValueError;
use crate::text::{dec_digits, dec_padded, hex_digits, push_dec, push_dec_padded, push_hex};

verus! {

/// LSM tree specific errors.
#[derive(Debug)]
pub enum LSMError {
    /// MemTable is full and cannot accept more writes
    MemTableFull { current_size: usize, max_size: usize },
    /// Flush operation failed
    FlushFailed { reason: String },
    /// Compaction operation failed
    CompactionFailed { level: usize, reason: String },
    /// SSTable is corrupted
    SSTableCorrupted { file_number: u64, reason: String },
    /// Bloom filter error
    BloomFilterError { reason: String },
    /// Index is corrupted
    IndexCorrupted { file_number: u64, reason: String },
    /// Footer validation failed
    InvalidFooter { file_number: u64, expected_magic: u64, found_magic: u64 },
    /// Block checksum mismatch
    ChecksumMismatch { file_number: u64, block_offset: u64, expected: u32, found: u32 },
    /// File I/O error; `source` is the message of the underlying I/O error
    IoError { operation: String, path: String, source: String },
    /// Invalid configuration
    InvalidConfiguration { parameter: String, reason: String },
    /// Level not found
    LevelNotFound { level: usize },
    /// SSTable not found
    SSTableNotFound { file_number: u64 },
    /// Concurrent operation conflict
    ConcurrentOperationConflict { operation: String },
    /// Recovery failed
    RecoveryFailed { reason: String },
}

/// Error severity levels, in increasing order.
#[derive(Debug, Clone, Copy, PartialEq, Eq, PartialOrd, Ord, Structural)]
pub enum ErrorSeverity {
    Warning,
    Error,
    Critical,
}

/// A file number as the messages show it: at least six digits.
pub open spec fn file_no(n: u64) -> Seq<char> {
    dec_padded(n, 6)
}

impl LSMError {
    /// The human-readable description of the error.
    pub open spec fn context_text(&self) -> Seq<char> {
        match self {
            LSMError::MemTableFull { current_size, max_size } => "MemTable is full ("@ + dec_digits(*current_size as u64)
                + " bytes / "@ + dec_digits(*max_size as u64) + " bytes max). Flush is needed."@,
            LSMError::FlushFailed { reason } => "Failed to flush memtable to disk: "@ + reason@,
            LSMError::CompactionFailed { level, reason } => "Compaction failed at level "@ + dec_digits(*level as u64) + ": "@
                + reason@,
            LSMError::SSTableCorrupted { file_number, reason } => "SSTable "@ + file_no(*file_number) + " is corrupted: "@
                + reason@,
            LSMError::BloomFilterError { reason } => "Bloom filter error: "@ + reason@,
            LSMError::IndexCorrupted { file_number, reason } => "Index in SSTable "@ + file_no(*file_number)
                + " is corrupted: "@ + reason@,
            LSMError::InvalidFooter { file_number, expected_magic, found_magic } => "Invalid footer in SSTable "@
                + file_no(*file_number) + ": expected magic "@ + hex_digits(*expected_magic, 16) + ", found "@
                + hex_digits(*found_magic, 16),
            LSMError::ChecksumMismatch { file_number, block_offset, expected, found } => "Checksum mismatch in SSTable "@
                + file_no(*file_number) + " at offset "@ + dec_digits(*block_offset) + ": expected "@ + hex_digits(
                *expected as u64,
                8,
            ) + ", found "@ + hex_digits(*found as u64, 8),
            LSMError::IoError { operation, path, source } => "I/O error during "@ + operation@ + ": "@ + path@ + " ("@
                + source@ + ")"@,
            LSMError::InvalidConfiguration { parameter, reason } => "Invalid configuration for "@ + parameter@ + ": "@
                + reason@,
            LSMError::LevelNotFound { level } => "Level "@ + dec_digits(*level as u64) + " not found in LSM tree"@,
            LSMError::SSTableNotFound { file_number } => "SSTable "@ + file_no(*file_number) + " not found"@,
            LSMError::ConcurrentOperationConflict { operation } => "Concurrent operation conflict: "@ + operation@,
            LSMError::RecoveryFailed { reason } => "Recovery failed: "@ + reason@,
        }
    }

    /// A human-readable description of the error.
    pub fn context(&self) -> (r: String)
        ensures
            r@ == self.context_text(),
    {
        let mut m = String::new();
        match self {
            LSMError::MemTableFull { current_size, max_size } => {
                m.append("MemTable is full (");
                push_dec(&mut m, *current_size as u64);
                m.append(" bytes / ");
                push_dec(&mut m, *max_size as u64);
                m.append(" bytes max). Flush is needed.");
            },
            LSMError::FlushFailed { reason } => {
                m.append("Failed to flush memtable to disk: ");
                m.append(reason.as_str());
            },
            LSMError::CompactionFailed { level, reason } => {
                m.append("Compaction failed at level ");
                push_dec(&mut m, *level as u64);
                m.append(": ");
                m.append(reason.as_str());
            },
            LSMError::SSTableCorrupted { file_number, reason } => {
                m.append("SSTable ");
                push_dec_padded(&mut m, *file_number, 6);
                m.append(" is corrupted: ");
                m.append(reason.as_str());
            },
            LSMError::BloomFilterError { reason } => {
                m.append("Bloom filter error: ");
                m.append(reason.as_str());
            },
            LSMError::IndexCorrupted { file_number, reason } => {
                m.append("Index in SSTable ");
                push_dec_padded(&mut m, *file_number, 6);
                m.append(" is corrupted: ");
                m.append(reason.as_str());
            },
            LSMError::InvalidFooter { file_number, expected_magic, found_magic } => {
                m.append("Invalid footer in SSTable ");
                push_dec_padded(&mut m, *file_number, 6);
                m.append(": expected magic ");
                push_hex(&mut m, *expected_magic, 16);
                m.append(", found ");
                push_hex(&mut m, *found_magic, 16);
            },
            LSMError::ChecksumMismatch { file_number, block_offset, expected, found } => {
                m.append("Checksum mismatch in SSTable ");
                push_dec_padded(&mut m, *file_number, 6);
                m.append(" at offset ");
                push_dec(&mut m, *block_offset);
                m.append(": expected ");
                push_hex(&mut m, *expected as u64, 8);
                m.append(", found ");
                push_hex(&mut m, *found as u64, 8);
            },
            LSMError::IoError { operation, path, source } => {
                m.append("I/O error during ");
                m.append(operation.as_str());
                m.append(": ");
                m.append(path.as_str());
                m.append(" (");
                m.append(source.as_str());
                m.append(")");
            },
            LSMError::InvalidConfiguration { parameter, reason } => {
                m.append("Invalid configuration for ");
                m.append(parameter.as_str());
                m.append(": ");
                m.append(reason.as_str());
            },
            LSMError::LevelNotFound { level } => {
                m.append("Level ");
                push_dec(&mut m, *level as u64);
                m.append(" not found in LSM tree");
            },
            LSMError::SSTableNotFound { file_number } => {
                m.append("SSTable ");
                push_dec_padded(&mut m, *file_number, 6);
                m.append(" not found");
            },
            LSMError::ConcurrentOperationConflict { operation } => {
                m.append("Concurrent operation conflict: ");
                m.append(operation.as_str());
            },
            LSMError::RecoveryFailed { reason } => {
                m.append("Recovery failed: ");
                m.append(reason.as_str());
            },
        }
        m
    }

    /// The error as it is displayed: its context.
    pub fn to_string(&self) -> (r: String)
        ensures
            r@ == self.context_text(),
    {
        self.context()
    }

    /// Whether retrying can succeed: a full memtable (flush first) or a conflict.
    pub fn is_recoverable(&self) -> (r: bool)
        ensures
            r == (self is MemTableFull || self is ConcurrentOperationConflict),
    {
        match self {
            LSMError::MemTableFull { .. } => true,
            LSMError::ConcurrentOperationConflict { .. } => true,
            _ => false,
        }
    }

    /// The severity of the error.
    pub open spec fn severity_spec(&self) -> ErrorSeverity {
        match self {
            LSMError::MemTableFull { .. } | LSMError::ConcurrentOperationConflict { .. } => ErrorSeverity::Warning,
            LSMError::SSTableCorrupted { .. } | LSMError::IndexCorrupted { .. } | LSMError::ChecksumMismatch { .. }
            | LSMError::InvalidFooter { .. } | LSMError::RecoveryFailed { .. } => ErrorSeverity::Critical,
            _ => ErrorSeverity::Error,
        }
    }

    /// The severity of the error.
    pub fn severity(&self) -> (r: ErrorSeverity)
        ensures
            r == self.severity_spec(),
    {
        match self {
            LSMError::MemTableFull { .. } => ErrorSeverity::Warning,
            LSMError::ConcurrentOperationConflict { .. } => ErrorSeverity::Warning,
            LSMError::FlushFailed { .. } => ErrorSeverity::Error,
            LSMError::CompactionFailed { .. } => ErrorSeverity::Error,
            LSMError::SSTableCorrupted { .. } => ErrorSeverity::Critical,
            LSMError::IndexCorrupted { .. } => ErrorSeverity::Critical,
            LSMError::ChecksumMismatch { .. } => ErrorSeverity::Critical,
            LSMError::InvalidFooter { .. } => ErrorSeverity::Critical,
            LSMError::RecoveryFailed { .. } => ErrorSeverity::Critical,
            _ => ErrorSeverity::Error,
        }
    }

    /// An I/O error of unknown operation and path with the message `message`.
    pub fn from_io_message(message: String) -> (r: Self)
        ensures
            r matches LSMError::IoError { operation, path, source } && operation@ == "unknown"@ && path@ == "unknown"@
                && source@ == message@,
    {
        LSMError::IoError { operation: "unknown".to_owned(), path: "unknown".to_owned(), source: message }
    }

    /// The key-value error this becomes: a full memtable is out of memory, a conflict
    /// is a write conflict, and the rest report storage corruption with the reason
    /// (or the I/O message, or else the whole description).
    pub fn into_key_value_error(self) -> (r: KeyValueError)
        ensures
            match self {
                LSMError::MemTableFull { .. } => r is OutOfMemory,
                LSMError::ConcurrentOperationConflict { .. } => r is WriteConflict,
                LSMError::SSTableCorrupted { reason, .. } | LSMError::IndexCorrupted { reason, .. }
                | LSMError::FlushFailed { reason } | LSMError::CompactionFailed { reason, .. }
                | LSMError::RecoveryFailed { reason } => r.is_storage_corruption(reason@),
                LSMError::IoError { source, .. } => r.is_storage_corruption(source@),
                _ => r.is_storage_corruption(self.context_text()),
            },
    {
        let text = self.context();
        match self {
            LSMError::MemTableFull { .. } => KeyValueError::OutOfMemory,
            LSMError::SSTableCorrupted { reason, .. } => KeyValueError::StorageCorruption(reason),
            LSMError::IndexCorrupted { reason, .. } => KeyValueError::StorageCorruption(reason),
            LSMError::FlushFailed { reason } => KeyValueError::StorageCorruption(reason),
            LSMError::CompactionFailed { reason, .. } => KeyValueError::StorageCorruption(reason),
            LSMError::RecoveryFailed { reason } => KeyValueError::StorageCorruption(reason),
            LSMError::IoError { source, .. } => KeyValueError::StorageCorruption(source),
            LSMError::ConcurrentOperationConflict { .. } => KeyValueError::WriteConflict,
            _ => KeyValueError::StorageCorruption(text),
        }
    }
}

/// Result type for LSM operations.
pub type LSMResult<T> = Result<T, LSMError>;

} // verus!
