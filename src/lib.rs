//! An embedded log-structured key-value store: a write-ahead log, an
//! in-memory sorted buffer, immutable sorted runs with a sparse index, and
//! the engine that reads across them newest first.

pub mod keys;
pub mod format;
pub mod error;
pub mod codec;
pub mod sstable;
pub mod memtable;
pub mod wal;
pub mod engine;
