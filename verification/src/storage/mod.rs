//! Persistence: the vector file, the write-ahead log and the metadata snapshot.
pub mod compaction;
pub mod durability;
pub mod format;
pub mod header;
pub mod history;
pub mod snapshot;
pub mod vecstore;
pub mod wal;
