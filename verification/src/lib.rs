//! Trine KV: the verified core of an embedded LSM MVCC key-value store.
//!
//! This crate holds the logic of the store that can be stated and proved:
//! byte-key ordering, internal-key ordering, range tombstones, bloom filters,
//! the block cache policy, the blob, manifest and recovery-report file
//! formats, compaction planning and compaction record selection, scan
//! selection, and the maintenance bookkeeping state machine.

pub mod bytes;
pub mod error;
pub mod types;
pub mod codec;
pub mod options;
pub mod prefix;
pub mod internal_key;
pub mod search;
pub mod range_tombstone;
pub mod bucket;
pub mod keyspace;
pub mod stats;
pub mod text;
pub mod wire;
pub mod blob_format;
pub mod blob;
pub mod blob_round_trip;
pub mod paths;
pub mod filter;
pub mod table;
pub mod table_block;
pub mod table_format;
pub mod table_block_round_trip;
pub mod table_file;
pub mod table_build;
pub mod table_payload;
pub mod cache;
pub mod lsm;
pub mod blob_accounting;
pub mod maintenance;
pub mod compaction;
pub mod validation;
pub mod recovery;
pub mod storage_names;
pub mod iterator;
pub mod scan;
pub mod transaction;
pub mod manifest;
pub mod manifest_format;
pub mod manifest_round_trip;
pub mod blob_gc;
pub mod compaction_cleanup;
pub mod point_read;
pub mod compaction_run;
pub mod flush_run;
pub mod references;
pub mod open_plan;
