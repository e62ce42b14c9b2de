//! Sorted string tables and what they are built of.

pub mod bloom_filter;
pub mod sst_block;
pub mod sst_writer;
pub mod sstable;
