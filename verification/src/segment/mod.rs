//! Segments: the immutable sorted files of the tree, as far as the tree
//! reasons about them in memory.

use vstd::prelude::*;

pub mod block;
pub mod meta;
pub mod trailer;
pub mod writer;

verus! {

/// Disk segment, as the level manifest and the compaction strategies see
/// it: by its metadata.
#[derive(Debug, PartialEq, Eq)]
pub struct Segment {
    pub metadata: meta::Metadata,
}

impl View for Segment {
    type V = meta::MetadataView;

    open spec fn view(&self) -> meta::MetadataView {
        self.metadata@
    }
}

impl Clone for Segment {
    fn clone(&self) -> (r: Self)
        ensures
            r@ == self@,
    {
        Segment { metadata: self.metadata.clone() }
    }
}

} // verus!
