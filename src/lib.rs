//! A log-structured key-value store: the record codec, the position-tracking
//! writer, the in-memory index, recovery and compaction, with their contracts.
pub mod codec;
pub mod command;
pub mod error;
pub mod kv;
pub mod segment;
pub mod writer;
