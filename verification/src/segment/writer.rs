//! What the writer of a segment leaves for its trailer.

use vstd::prelude::*;

verus! {

/// Where in the file of a segment its parts behind the data blocks begin
#[derive(Copy, Clone, Debug, Default, PartialEq, Eq, Structural)]
pub struct FileOffsets {
    pub index_block_ptr: u64,
    pub tli_ptr: u64,
    pub bloom_ptr: u64,
    pub range_tombstone_ptr: u64,
}

} // verus!
