//! FIFO-style compaction.

use super::maintenance::maintenance_choice;
use super::{ids_of, Choice, ChoiceView, CompactionStrategy};
use crate::config::PersistedConfig;
use crate::levels::{level_view, total_size, visible_part, LevelManifest, LevelsView};
use crate::segment::meta::MetadataView;
use crate::time::unix_timestamp_micros;
use crate::SegmentId;
use vstd::prelude::*;

verus! {

/// Microseconds in a second.
pub const MICROS_PER_SECOND: u128 = 1_000_000;

/// FIFO-style compaction.
///
/// Limits the tree size to roughly `limit` bytes, deleting the oldest segment(s)
/// when the threshold is reached.
///
/// Will also merge segments if the amount of segments in level 0 grows too much, which
/// could cause write stalls.
///
/// Additionally, a TTL can be configured to drop old segments.
///
/// ###### Caution
///
/// Only use it for specific workloads where:
///
/// 1) You only want to store recent data (unimportant logs, ...)
/// 2) Your keyspace grows monotonically (time series)
/// 3) You only insert new data
pub struct Strategy {
    /// Data set size limit in bytes
    limit: u64,
    /// TTL in seconds, will be disabled if 0 or None
    ttl_seconds: Option<u64>,
}

/// Whether a segment created at `created_at` has lived for more than
/// `ttl_seconds` whole seconds at `now` (both in µs). A lifetime of just
/// `ttl_seconds` is not more; a segment from the future has lived for less
/// than no time.
pub open spec fn expired(created_at: u128, now: u128, ttl_seconds: u64) -> bool {
    (now as int - created_at as int) / (MICROS_PER_SECOND as int) > ttl_seconds as int
}

/// The segments of the first level that a TTL drops at `now`, newest first.
pub open spec fn ttl_victims(first: Seq<MetadataView>, now: u128, ttl_seconds: Option<u64>) -> Seq<
    SegmentId,
> {
    match ttl_seconds {
        Some(ttl) => if ttl > 0 {
            ids_of(first.filter(|m: MetadataView| expired(m.created_at, now, ttl)))
        } else {
            Seq::empty()
        },
        None => Seq::empty(),
    }
}

/// The segments that go to free `excess` bytes: from the oldest on, as many
/// as it takes, each counted with its size on disk.
pub open spec fn evicted(oldest_first: Seq<MetadataView>, excess: nat) -> Seq<SegmentId>
    decreases oldest_first.len(),
{
    if excess == 0 || oldest_first.len() == 0 {
        Seq::empty()
    } else {
        let size = oldest_first[0].file_size as nat;
        let rest = if size >= excess {
            0
        } else {
            (excess - size) as nat
        };
        seq![oldest_first[0].id] + evicted(oldest_first.skip(1), rest)
    }
}

/// The bytes that segments have on disk, together.
pub open spec fn size_of_all(segments: Seq<MetadataView>) -> nat
    decreases segments.len(),
{
    if segments.len() == 0 {
        0
    } else {
        segments[0].file_size as nat + size_of_all(segments.skip(1))
    }
}

/// The segments that go to free `excess` bytes are the oldest `n`, where
/// `n` is the least number of them that frees as much, or all of them if
/// all together do not free as much.
pub proof fn lemma_evicted_least(oldest_first: Seq<MetadataView>, excess: nat)
    ensures
        ({
            let n = evicted(oldest_first, excess).len() as int;
            &&& n <= oldest_first.len()
            &&& evicted(oldest_first, excess) == ids_of(oldest_first.take(n))
            &&& n < oldest_first.len() ==> size_of_all(oldest_first.take(n)) >= excess
            &&& forall|m: int| 0 <= m < n ==> size_of_all(#[trigger] oldest_first.take(m)) < excess
        }),
    decreases oldest_first.len(),
{
    let n = evicted(oldest_first, excess).len() as int;
    if excess == 0 || oldest_first.len() == 0 {
        assert(oldest_first.take(0) =~= Seq::<MetadataView>::empty());
        assert(ids_of(oldest_first.take(0)) =~= Seq::<SegmentId>::empty());
    } else {
        let size = oldest_first[0].file_size as nat;
        let left = if size >= excess {
            0
        } else {
            (excess - size) as nat
        };
        let rest = oldest_first.skip(1);
        lemma_evicted_least(rest, left);
        let k = evicted(rest, left).len() as int;
        assert(n == k + 1);
        assert(oldest_first.take(n).skip(1) =~= rest.take(k));
        assert(evicted(oldest_first, excess) =~= ids_of(oldest_first.take(n)));
        assert forall|m: int| 0 <= m < n implies size_of_all(#[trigger] oldest_first.take(m))
            < excess by {
            if m > 0 {
                assert(oldest_first.take(m).skip(1) =~= rest.take(m - 1));
                assert(size_of_all(rest.take(m - 1)) < left);
            }
        }
    }
}

/// The segments of the first level that go because the tree, with
/// `db_size` bytes, is over its limit: the oldest first.
pub open spec fn size_victims(first: Seq<MetadataView>, db_size: nat, limit: u64) -> Seq<
    SegmentId,
> {
    if db_size > limit {
        evicted(first.reverse(), (db_size - limit) as nat)
    } else {
        Seq::empty()
    }
}

/// What the strategy with `limit` and `ttl_seconds` chooses at `now` (in
/// µs): it deletes the segments that the TTL drops and those that the limit
/// drops, one list after the other; with nothing to delete it leaves the
/// choice to maintenance.
pub open spec fn fifo_choice(
    limit: u64,
    ttl_seconds: Option<u64>,
    levels: LevelsView,
    now: u128,
) -> ChoiceView {
    let first = visible_part(levels.levels[0], levels.hidden);
    let delete = ttl_victims(first, now, ttl_seconds) + size_victims(
        first,
        total_size(levels.levels),
        limit,
    );
    if delete.len() > 0 {
        ChoiceView::DeleteSegments(delete)
    } else {
        maintenance_choice(levels)
    }
}

impl Strategy {
    /// The size limit of the data set in bytes.
    pub closed spec fn limit(&self) -> u64 {
        self.limit
    }

    /// The TTL in seconds.
    pub closed spec fn ttl_seconds(&self) -> Option<u64> {
        self.ttl_seconds
    }

    /// Configures a new `Fifo` compaction strategy
    #[must_use]
    pub fn new(limit: u64, ttl_seconds: Option<u64>) -> (r: Self)
        ensures
            r.limit() == limit,
            r.ttl_seconds() == ttl_seconds,
    {
        Self { limit, ttl_seconds }
    }

    /// Decides on what to do at the time `now`, in µs since the Unix epoch.
    pub fn make_choice_at(&self, levels: &LevelManifest, config: &PersistedConfig, now: u128) -> (r:
        Choice)
        requires
            levels.wf(),
        ensures
            r@ == fifo_choice(self.limit(), self.ttl_seconds(), levels@, now),
    {
        let resolved_view = levels.resolved_view();
        proof {
            levels.lemma_has_first_level();
        }
        let first_level = &resolved_view[0];
        let ghost first = level_view(first_level@);

        let mut segment_ids_to_delete: Vec<SegmentId> = Vec::new();

        if let Some(ttl_seconds) = self.ttl_seconds {
            if ttl_seconds > 0 {
                let ghost pred = |m: MetadataView| expired(m.created_at, now, ttl_seconds);
                let mut i: usize = 0;
                proof {
                    reveal(Seq::filter);
                    assert(first.take(0).filter(pred) =~= Seq::<MetadataView>::empty());
                }
                while i < first_level.len()
                    invariant
                        i <= first_level@.len(),
                        first == level_view(first_level@),
                        pred == |m: MetadataView| expired(m.created_at, now, ttl_seconds),
                        segment_ids_to_delete@ == ids_of(first.take(i as int).filter(pred)),
                    decreases first_level@.len() - i,
                {
                    let created_at: u128 = first_level[i].metadata.created_at;
                    proof {
                        reveal(Seq::filter);
                        assert(first.take(i + 1).drop_last() =~= first.take(i as int));
                    }
                    if now >= created_at && (now - created_at) / MICROS_PER_SECOND
                        > ttl_seconds as u128 {
                        let ghost before = first.take(i as int).filter(pred);
                        segment_ids_to_delete.push(first_level[i].metadata.id);
                        proof {
                            assert(segment_ids_to_delete@ =~= ids_of(
                                before.push(first[i as int]),
                            ));
                        }
                    }
                    i += 1;
                }
                proof {
                    assert(first.take(i as int) =~= first);
                }
            }
        }
        assert(segment_ids_to_delete@ == ttl_victims(first, now, self.ttl_seconds));

        let db_size: u64 = levels.size();

        if db_size > self.limit {
            let mut bytes_to_delete: u64 = db_size - self.limit;
            let ghost ttl_part = segment_ids_to_delete@;
            let ghost oldest_first = first.reverse();
            let ghost wanted = evicted(oldest_first, bytes_to_delete as nat);

            // NOTE: The level is sorted from newest to oldest, so the
            // oldest segment is the last
            let mut left: usize = first_level.len();
            proof {
                assert(oldest_first.skip(0) =~= oldest_first);
            }
            while left > 0 && bytes_to_delete > 0
                invariant
                    left <= first_level@.len(),
                    first == level_view(first_level@),
                    oldest_first == first.reverse(),
                    segment_ids_to_delete@ + evicted(
                        oldest_first.skip(first.len() - left),
                        bytes_to_delete as nat,
                    ) == ttl_part + wanted,
                decreases left,
            {
                let segment = &first_level[left - 1];
                let ghost at = first.len() - left;
                let ghost before = segment_ids_to_delete@;
                let ghost rest_before = evicted(oldest_first.skip(at), bytes_to_delete as nat);
                proof {
                    assert(oldest_first.skip(at)[0] == first[left - 1]);
                    assert(oldest_first.skip(at).skip(1) =~= oldest_first.skip(at + 1));
                }
                bytes_to_delete = bytes_to_delete.saturating_sub(segment.metadata.file_size);
                segment_ids_to_delete.push(segment.metadata.id);
                left -= 1;
                proof {
                    let rest_after = evicted(oldest_first.skip(at + 1), bytes_to_delete as nat);
                    assert(rest_before =~= seq![first[left as int].id] + rest_after);
                    assert(segment_ids_to_delete@ + rest_after =~= before + rest_before);
                }
            }
            proof {
                let rest = evicted(
                    oldest_first.skip(first.len() - left),
                    bytes_to_delete as nat,
                );
                assert(rest =~= Seq::<SegmentId>::empty());
                assert(segment_ids_to_delete@ =~= ttl_part + wanted);
            }
        } else {
            proof {
                assert(segment_ids_to_delete@ =~= segment_ids_to_delete@ + Seq::<
                    SegmentId,
                >::empty());
            }
        }

        if segment_ids_to_delete.is_empty() {
            super::maintenance::Strategy.make_choice(levels, config)
        } else {
            Choice::DeleteSegments(segment_ids_to_delete)
        }
    }
}

impl CompactionStrategy for Strategy {
    /// Reads the clock and decides for that time.
    fn make_choice(&self, levels: &LevelManifest, config: &PersistedConfig) -> (r: Choice)
        ensures
            exists|now: u128|
                r@ == #[trigger] fifo_choice(self.limit(), self.ttl_seconds(), levels@, now),
    {
        let now: u128 = unix_timestamp_micros();
        self.make_choice_at(levels, config, now)
    }
}

} // verus!
