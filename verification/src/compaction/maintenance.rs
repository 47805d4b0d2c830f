//! Keeps the first level from growing without bound.

use super::{ids_of, Choice, ChoiceView, CompactionStrategy};
use crate::config::PersistedConfig;
use crate::levels::{level_view, visible_part, LevelManifest, LevelsView};
use crate::segment::Segment;
use crate::SegmentId;
use vstd::prelude::*;

verus! {

/// How many segments the first level may have before some are merged.
pub const L0_SEGMENT_CAP: usize = 20;

/// What maintenance does with the levels: with more than
/// [`L0_SEGMENT_CAP`] segments in the first level that are not hidden, it
/// merges the oldest of them, as many as bring the level back to the cap,
/// into one segment of the first level.
pub open spec fn maintenance_choice(levels: LevelsView) -> ChoiceView {
    let first = visible_part(levels.levels[0], levels.hidden);
    if first.len() > L0_SEGMENT_CAP {
        ChoiceView::Merge {
            level: 0,
            ids: ids_of(first.skip(L0_SEGMENT_CAP as int - 1)),
            target_level: 0,
        }
    } else {
        ChoiceView::DoNothing
    }
}

/// The identifiers of the segments of `level` from `from` on.
pub fn ids_from(level: &Vec<Segment>, from: usize) -> (r: Vec<SegmentId>)
    requires
        from <= level@.len(),
    ensures
        r@ == ids_of(level_view(level@).skip(from as int)),
{
    let mut ids: Vec<SegmentId> = Vec::new();
    let mut i: usize = from;
    let ghost rest = level_view(level@).skip(from as int);
    while i < level.len()
        invariant
            from <= i <= level@.len(),
            rest == level_view(level@).skip(from as int),
            ids@ == ids_of(rest.take(i - from)),
        decreases level@.len() - i,
    {
        let ghost before = ids@;
        ids.push(level[i].metadata.id);
        proof {
            assert(rest.take(i + 1 - from) =~= rest.take(i - from).push(rest[i - from]));
            assert(ids@ =~= ids_of(rest.take(i + 1 - from)));
        }
        i += 1;
    }
    proof {
        assert(rest.take(i - from) =~= rest);
    }
    ids
}

/// Maintenance compactor
///
/// This is a hidden compaction strategy that may be called by other strategies.
///
/// It cleans up L0 if it grows too large.
#[derive(Default)]
pub struct Strategy;

impl CompactionStrategy for Strategy {
    fn make_choice(&self, levels: &LevelManifest, _config: &PersistedConfig) -> (r: Choice)
        ensures
            r@ == maintenance_choice(levels@),
    {
        let resolved_view = levels.resolved_view();
        proof {
            levels.lemma_has_first_level();
        }
        let first_level = &resolved_view[0];
        if first_level.len() > L0_SEGMENT_CAP {
            Choice::Merge {
                level: 0,
                ids: ids_from(first_level, L0_SEGMENT_CAP - 1),
                target_level: 0,
            }
        } else {
            Choice::DoNothing
        }
    }
}

} // verus!
