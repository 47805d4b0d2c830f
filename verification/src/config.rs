//! The part of the configuration that is stored with the tree.

use crate::segment::meta::CompressionType;
use vstd::prelude::*;

verus! {

/// Tree configuration that is persisted with the tree and must not change
/// afterwards
#[derive(Copy, Clone, Debug, PartialEq, Eq, Structural)]
pub struct PersistedConfig {
    /// Block size of data and index blocks
    pub block_size: u32,
    /// Number of levels of the tree
    pub level_count: u8,
    /// What type of compression is used
    pub compression: CompressionType,
}

impl Default for PersistedConfig {
    fn default() -> (r: Self)
        ensures
            r == (PersistedConfig {
                block_size: 4096,
                level_count: 7,
                compression: CompressionType::Lz4,
            }),
    {
        PersistedConfig { block_size: 4096, level_count: 7, compression: CompressionType::Lz4 }
    }
}

} // verus!
