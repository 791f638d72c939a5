//! An embedded log-structured merge key-value store for 32-bit signed
//! integer keys and byte-string values, with point `put`, `get` and
//! `delete`, tombstoning, block-compressed immutable runs, Bloom filters,
//! fence pointers and size-ratio compaction.

pub mod bloom_filter;
pub mod codec;
pub mod compress;
pub mod fence_pointer;
pub mod handler;
pub mod lsm;
pub mod memtable;
pub mod merge;
pub mod message;
pub mod run;
pub mod rust_store;
pub mod workload_generator;

pub use rust_store::{Config, RustStore, RustStoreError};
