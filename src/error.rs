//! Errors reported by the storage engine.
use vstd::prelude::*;

verus! {

/// What went wrong in an engine operation.
#[derive(Debug, Clone, PartialEq, Eq)]
pub enum DbError {
    /// A key of the offset index could not be read back during compaction.
    CompactionKeyNotFound(String),
    /// The shared lock was poisoned by a thread that panicked while holding it.
    MutexLockError,
    /// A record payload is shorter than its declared lengths, or its text is
    /// not UTF-8.
    CorruptRecord,
    /// The record encoder refused a key-value pair.
    EncodingFailed,
}

impl DbError {
    /// A human-readable description of the error.
    pub fn message(&self) -> (r: String) {
        match self {
            DbError::CompactionKeyNotFound(key) => {
                let mut s = String::from_str("key not found in index during compaction: ");
                s.append(key.as_str());
                s
            },
            DbError::MutexLockError => String::from_str(
                "Failed to acquire mutex lock: a thread panicked while holding the lock.",
            ),
            DbError::CorruptRecord => String::from_str("corrupt record in the log"),
            DbError::EncodingFailed => String::from_str("the record could not be encoded"),
        }
    }
}

} // verus!
