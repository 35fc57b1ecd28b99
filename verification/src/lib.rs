//! Verified core of the metashrew indexer framework: byte codecs, the
//! height-versioned key/value chain, sparse Merkle trees, snapshots and the
//! reorganisation decisions of the sync loop.

pub mod adapter;
pub mod byte_map;
pub mod byte_view;
pub mod bytes;
pub mod codec;
pub mod compression;
pub mod diff;
pub mod flush_codec;
pub mod harness;
pub mod guest_cache;
pub mod hashing;
pub mod cursor;
pub mod indexer;
pub mod keccak_smt;
pub mod key_format;
pub mod interval_snapshot;
pub mod le;
pub mod merkle;
pub mod merkleized;
pub mod report;
pub mod repo;
pub mod repo_snapshot;
pub mod rpc;
pub mod runtime;
pub mod smt_helper;
pub mod store;
pub mod view;
pub mod sync;
