//! Errors reported by the library.

use vstd::prelude::*;

verus! {

/// Errors that KoruDelta operations report.
#[derive(Debug)]
pub enum DeltaError {
    /// Data failed validation.
    InvalidData { reason: String },
    /// A storage operation failed.
    StorageError(String),
    /// No value is stored under the key.
    KeyNotFound { namespace: String, key: String },
    /// The key has no version at or before the time asked for (seconds, UTC).
    NoValueAtTimestamp { namespace: String, key: String, timestamp: i64 },
}

/// Result type for KoruDelta operations.
pub type DeltaResult<T> = Result<T, DeltaError>;

} // verus!
