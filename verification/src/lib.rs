//! An embedded key-value store organised as a log-structured merge tree.

pub mod api;
pub mod bytes;
pub mod engine;
pub mod error;
pub mod helper;
pub mod laws;
pub mod mem_table;
pub mod memtable;
pub mod order;
pub mod sst;
pub mod wal;
pub mod write_ahead_log;
