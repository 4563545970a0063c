//! The failures that the transaction layer reports.
use vstd::prelude::*;

verus! {

/// A failure reported by the underlying store, carried through unchanged.
#[derive(Debug, Clone, PartialEq, Eq)]
pub struct StorageError {
    pub message: String,
}

/// Why an operation of the transaction layer did not complete.
#[derive(Debug, Clone, PartialEq, Eq)]
pub enum Error {
    /// The key was written by a transaction that the writer cannot see.
    WriteConflict,
    /// Stored bytes did not have the expected shape.
    InternalError(String),
    /// The underlying store failed.
    Storage(StorageError),
}

/// The text of the error for stored bytes that are too few for a version.
pub const MALFORMED_VERSION: &'static str = "stored version is shorter than eight bytes";

/// The text of the error for a version that could not be made into bytes.
pub const UNWRITTEN_VERSION: &'static str = "version could not be brought into its stored form";

/// The text of the error for stored bytes that are the key of nothing.
pub const MALFORMED_KEY: &'static str = "stored key does not belong to any key family";

/// The text of the error for a key of another family among the markers.
pub const UNEXPECTED_ACTIVE_KEY: &'static str = "unexpected key when scanning active transactions";

/// The text of the error for a key of another family among the values.
pub const UNEXPECTED_VERSION_KEY: &'static str = "unexpected key when scanning versions";

/// The text of the error for a key of another family in a write log.
pub const UNEXPECTED_WRITE_KEY: &'static str = "unexpected key when scanning txn writes";

/// The text of the error for a counter that holds the version that no
/// transaction gets.
pub const VERSION_RESERVED: &'static str = "the next version is 0, which no transaction gets";

/// The text of the error for a counter that has come to its end.
pub const VERSIONS_EXHAUSTED: &'static str = "no version is left to allocate";

/// The text of a write conflict.
pub const WRITE_CONFLICT: &'static str = "write conflict";

impl Error {
    /// This is an internal error with exactly the text `text`.
    pub open spec fn is_internal(self, text: Seq<char>) -> bool {
        self matches Error::InternalError(message) && message@ == text
    }

    /// The error in words: `WRITE_CONFLICT` for a write conflict, and for
    /// the others the text that they carry.
    pub open spec fn text(self) -> Seq<char> {
        match self {
            Error::WriteConflict => WRITE_CONFLICT@,
            Error::InternalError(message) => message@,
            Error::Storage(e) => e.message@,
        }
    }

    /// The error in words.
    pub fn message(&self) -> (message: String)
        ensures
            message@ == self.text(),
    {
        match self {
            Error::WriteConflict => WRITE_CONFLICT.to_owned(),
            Error::InternalError(message) => message.clone(),
            Error::Storage(e) => e.message.clone(),
        }
    }

    /// An internal error that carries `text`.
    pub fn internal(text: &str) -> (e: Error)
        ensures
            e.is_internal(text@),
    {
        Error::InternalError(text.to_owned())
    }
}

} // verus!
