//! Compaction strategies: what to do with the segments of a tree.

use crate::config::PersistedConfig;
use crate::levels::LevelManifest;
use crate::segment::meta::MetadataView;
use crate::SegmentId;
use vstd::prelude::*;

pub mod fifo;
pub mod maintenance;

verus! {

/// Describes what to do (compact or not)
#[derive(Debug, PartialEq, Eq)]
pub enum Choice {
    /// Just do nothing.
    DoNothing,
    /// Merges the segments `ids` of `level` into `target_level`.
    Merge {
        level: u8,
        ids: Vec<SegmentId>,
        target_level: u8,
    },
    /// Delete segments without doing compaction.
    DeleteSegments(Vec<SegmentId>),
}

/// A choice as a mathematical value.
pub enum ChoiceView {
    DoNothing,
    Merge { level: u8, ids: Seq<SegmentId>, target_level: u8 },
    DeleteSegments(Seq<SegmentId>),
}

impl View for Choice {
    type V = ChoiceView;

    open spec fn view(&self) -> ChoiceView {
        match self {
            Choice::DoNothing => ChoiceView::DoNothing,
            Choice::Merge { level, ids, target_level } => ChoiceView::Merge {
                level: *level,
                ids: ids@,
                target_level: *target_level,
            },
            Choice::DeleteSegments(ids) => ChoiceView::DeleteSegments(ids@),
        }
    }
}

/// The identifiers of segments, in their order.
pub open spec fn ids_of(segments: Seq<MetadataView>) -> Seq<SegmentId> {
    segments.map_values(|m: MetadataView| m.id)
}

/// Trait for a compaction strategy
///
/// The strategy receives the levels of the LSM-tree as argument
/// and emits a choice on what to do.
pub trait CompactionStrategy {
    /// Decides on what to do based on the current state of the LSM-tree's levels
    fn make_choice(&self, levels: &LevelManifest, config: &PersistedConfig) -> Choice
        requires
            levels.wf(),
    ;
}

} // verus!
