//! A multi-version concurrency control layer over an ordered byte-keyed store.
//!
//! Every transaction is stamped with a [`Version`]; the values it writes are kept
//! side by side with those of other transactions under order-preserving keys, and
//! a fixed visibility rule decides which of them a transaction reads.
pub mod error;
pub mod schema;
pub mod storage;

pub use error::{Error, StorageError};
pub use schema::{Column, DataType, Row, Table, TableView, Value};
pub use storage::key::{MvccKey, MvccKeyPrefix};
pub use storage::memory::Memory;
pub use storage::mvcc::Mvcc;
pub use storage::version::Version;
pub use storage::{KeyRange, Storage};
