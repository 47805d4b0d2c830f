//! Core of a log-structured merge tree: internal keys and their order, the
//! memtable, the merging of sorted runs, the records, metadata and trailer of
//! segments, the level manifest, compaction strategies, the decisions of
//! key-value separation, and the binary coding that they share.
//!
//! The library reads no file and takes no lock. Contracts are stated over
//! mathematical views: a memtable is a map from internal keys to values, a
//! written value a sequence of bytes.

use vstd::prelude::*;

pub mod byte_order;
pub mod blob_tree;
pub mod coding;
pub mod compaction;
pub mod config;
pub mod error;
pub mod levels;
pub mod memtable;
pub mod merge;
pub mod segment;
pub mod time;
pub mod value;

verus! {

/// User-supplied key, compared lexicographically.
pub type UserKey = Vec<u8>;

/// User-supplied value.
pub type UserValue = Vec<u8>;

/// Version stamp of a write; a higher number is a newer write.
pub type SeqNo = u64;

/// Identifier of a segment on disk.
pub type SegmentId = u64;

} // verus!
