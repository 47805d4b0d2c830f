//! The level manifest: which segments the tree has, level by level.

use crate::segment::meta::MetadataView;
use crate::segment::Segment;
use crate::SegmentId;
use vstd::prelude::*;

verus! {

/// The views of the segments of a level.
pub open spec fn level_view(level: Seq<Segment>) -> Seq<MetadataView> {
    level.map_values(|s: Segment| s@)
}

/// The bytes that the segments of a level have on disk, together.
pub open spec fn level_size(level: Seq<MetadataView>) -> nat
    decreases level.len(),
{
    if level.len() == 0 {
        0
    } else {
        level_size(level.drop_last()) + level.last().file_size as nat
    }
}

/// The bytes that all segments have on disk, together.
pub open spec fn total_size(levels: Seq<Seq<MetadataView>>) -> nat
    decreases levels.len(),
{
    if levels.len() == 0 {
        0
    } else {
        total_size(levels.drop_last()) + level_size(levels.last())
    }
}

/// The segments of a level that are not hidden, in their order.
pub open spec fn visible_part(level: Seq<MetadataView>, hidden: Set<SegmentId>) -> Seq<
    MetadataView,
> {
    level.filter(|m: MetadataView| !hidden.contains(m.id))
}

/// A level manifest as a mathematical value.
pub struct LevelsView {
    /// The segments of each level; level 0 holds the newest first.
    pub levels: Seq<Seq<MetadataView>>,
    /// The segments that a compaction works on.
    pub hidden: Set<SegmentId>,
}

/// Represents the levels of a log-structured merge tree.
pub struct LevelManifest {
    /// Actual levels containing segments
    levels: Vec<Vec<Segment>>,
    /// Set of segment IDs that are masked
    ///
    /// While consuming segments (because of compaction) they will not appear
    /// in the list of segments as to not cause conflicts between multiple
    /// compaction threads (compacting the same segments)
    hidden_set: Vec<SegmentId>,
}

impl View for LevelManifest {
    type V = LevelsView;

    closed spec fn view(&self) -> LevelsView {
        LevelsView {
            levels: self.levels@.map_values(|l: Vec<Segment>| level_view(l@)),
            hidden: self.hidden_set@.to_set(),
        }
    }
}

/// The sizes add up over the parts of a level.
pub proof fn lemma_level_size_add(a: Seq<MetadataView>, b: Seq<MetadataView>)
    ensures
        level_size(a + b) == level_size(a) + level_size(b),
    decreases b.len(),
{
    if b.len() == 0 {
        assert(a + b =~= a);
    } else {
        assert((a + b).drop_last() =~= a + b.drop_last());
        lemma_level_size_add(a, b.drop_last());
    }
}

/// A part of the levels at their front is no larger than all of them.
pub proof fn lemma_total_size_prefix(levels: Seq<Seq<MetadataView>>, n: int)
    requires
        0 <= n <= levels.len(),
    ensures
        total_size(levels.take(n)) <= total_size(levels),
    decreases levels.len(),
{
    if n == levels.len() {
        assert(levels.take(n) =~= levels);
    } else {
        assert(levels.drop_last().take(n) =~= levels.take(n));
        lemma_total_size_prefix(levels.drop_last(), n);
    }
}

/// A part of a level at its front is no larger than the level.
pub proof fn lemma_level_size_prefix(level: Seq<MetadataView>, n: int)
    requires
        0 <= n <= level.len(),
    ensures
        level_size(level.take(n)) <= level_size(level),
{
    assert(level =~= level.take(n) + level.skip(n));
    lemma_level_size_add(level.take(n), level.skip(n));
}

/// Where one level changes, the total changes by what that level changes.
pub proof fn lemma_total_size_update(
    levels: Seq<Seq<MetadataView>>,
    i: int,
    level: Seq<MetadataView>,
)
    requires
        0 <= i < levels.len(),
    ensures
        total_size(levels.update(i, level)) + level_size(levels[i]) == total_size(levels)
            + level_size(level),
    decreases levels.len(),
{
    if i == levels.len() - 1 {
        assert(levels.update(i, level).drop_last() =~= levels.drop_last());
    } else {
        assert(levels.update(i, level).drop_last() =~= levels.drop_last().update(i, level));
        lemma_total_size_update(levels.drop_last(), i, level);
    }
}

/// Levels without segments have no bytes.
pub proof fn lemma_total_size_empty(levels: Seq<Seq<MetadataView>>)
    requires
        forall|i: int| 0 <= i < levels.len() ==> (#[trigger] levels[i]).len() == 0,
    ensures
        total_size(levels) == 0,
    decreases levels.len(),
{
    if levels.len() > 0 {
        lemma_total_size_empty(levels.drop_last());
    }
}

/// A list with one more identifier holds what it held and that one.
pub proof fn lemma_push_to_set(ids: Seq<SegmentId>, id: SegmentId)
    ensures
        ids.push(id).to_set() == ids.to_set().insert(id),
{
    let longer = ids.push(id);
    assert forall|x: SegmentId| longer.contains(x) <==> ids.contains(x) || x == id by {
        if ids.contains(x) {
            let k = choose|k: int| 0 <= k < ids.len() && ids[k] == x;
            assert(longer[k] == x);
        }
        if x == id {
            assert(longer[ids.len() as int] == x);
        }
        if longer.contains(x) {
            let k = choose|k: int| 0 <= k < longer.len() && longer[k] == x;
            if k < ids.len() {
                assert(ids[k] == x);
            }
        }
    }
    assert(longer.to_set() =~= ids.to_set().insert(id));
}

/// Whether `ids` holds `id`.
pub fn contains_id(ids: &[SegmentId], id: SegmentId) -> (r: bool)
    ensures
        r <==> ids@.contains(id),
{
    let mut i: usize = 0;
    while i < ids.len()
        invariant
            i <= ids.len(),
            forall|j: int| 0 <= j < i ==> ids@[j] != id,
        decreases ids.len() - i,
    {
        if ids[i] == id {
            return true;
        }
        i += 1;
    }
    false
}

impl LevelManifest {
    /// A manifest has a first level, and the bytes of its segments can be
    /// counted in 64 bits.
    pub closed spec fn wf(&self) -> bool {
        &&& self.levels@.len() >= 1
        &&& total_size(self@.levels) <= u64::MAX
    }

    /// The first level always exists.
    pub proof fn lemma_has_first_level(&self)
        requires
            self.wf(),
        ensures
            self@.levels.len() >= 1,
    {
    }

    /// A manifest of `level_count` levels without segments.
    pub fn create_new(level_count: u8) -> (r: Self)
        requires
            level_count > 0,
        ensures
            r.wf(),
            r@.levels == Seq::new(level_count as nat, |i: int| Seq::<MetadataView>::empty()),
            r@.hidden == Set::<SegmentId>::empty(),
    {
        let mut levels: Vec<Vec<Segment>> = Vec::new();
        let mut i: u8 = 0;
        while i < level_count
            invariant
                i <= level_count,
                levels@.len() == i,
                forall|j: int| 0 <= j < i ==> (#[trigger] levels@[j])@.len() == 0,
            decreases level_count - i,
        {
            levels.push(Vec::new());
            i += 1;
        }
        let r = LevelManifest { levels, hidden_set: Vec::new() };
        proof {
            assert(r@.levels =~= Seq::new(
                level_count as nat,
                |i: int| Seq::<MetadataView>::empty(),
            )) by {
                assert forall|j: int| 0 <= j < level_count implies #[trigger] r@.levels[j]
                    == Seq::<MetadataView>::empty() by {
                    assert(level_view(r.levels@[j]@) =~= Seq::<MetadataView>::empty());
                }
            }
            lemma_total_size_empty(r@.levels);
            assert(r@.hidden =~= Set::<SegmentId>::empty());
        }
        r
    }

    /// Number of levels.
    pub fn depth(&self) -> (n: usize)
        ensures
            n == self@.levels.len(),
    {
        self.levels.len()
    }

    /// Adds a segment to the first level, in front of the others: the
    /// first level holds the newest segment first.
    pub fn add(&mut self, segment: Segment)
        requires
            old(self).wf(),
            total_size(old(self)@.levels) + segment@.file_size <= u64::MAX,
        ensures
            final(self).wf(),
            final(self)@.levels == old(self)@.levels.update(
                0,
                seq![segment@] + old(self)@.levels[0],
            ),
            final(self)@.hidden == old(self)@.hidden,
    {
        let mut first: Vec<Segment> = self.levels.remove(0);
        let ghost first_before = level_view(first@);
        first.insert(0, segment);
        proof {
            assert(level_view(first@) =~= seq![segment@] + first_before);
        }
        self.levels.insert(0, first);
        proof {
            let before = old(self)@.levels;
            let level = seq![segment@] + before[0];
            assert(first_before == before[0]);
            assert(self@.levels =~= before.update(0, level));
            lemma_total_size_update(before, 0, level);
            lemma_level_size_add(seq![segment@], before[0]);
            reveal_with_fuel(level_size, 2);
            assert(seq![segment@].drop_last() =~= Seq::<MetadataView>::empty());
        }
    }

    /// The bytes that all segments have on disk, hidden ones too.
    pub fn size(&self) -> (r: u64)
        requires
            self.wf(),
        ensures
            r == total_size(self@.levels),
    {
        let mut total: u64 = 0;
        let mut i: usize = 0;
        while i < self.levels.len()
            invariant
                i <= self.levels@.len(),
                total == total_size(self@.levels.take(i as int)),
                total_size(self@.levels) <= u64::MAX,
            decreases self.levels@.len() - i,
        {
            let level = &self.levels[i];
            let ghost lv = self@.levels[i as int];
            let ghost done = total_size(self@.levels.take(i as int));
            proof {
                assert(self@.levels.take(i + 1).drop_last() =~= self@.levels.take(i as int));
                lemma_total_size_prefix(self@.levels, i + 1);
            }
            let mut j: usize = 0;
            while j < level.len()
                invariant
                    j <= level@.len(),
                    lv == level_view(level@),
                    total == done + level_size(lv.take(j as int)),
                    done + level_size(lv) <= u64::MAX,
                decreases level@.len() - j,
            {
                proof {
                    assert(lv.take(j + 1).drop_last() =~= lv.take(j as int));
                    lemma_level_size_prefix(lv, j + 1);
                }
                total = total + level[j].metadata.file_size;
                j += 1;
            }
            proof {
                assert(lv.take(j as int) =~= lv);
            }
            i += 1;
        }
        proof {
            assert(self@.levels.take(i as int) =~= self@.levels);
        }
        total
    }

    /// The segments level by level, without those that are hidden.
    pub fn resolved_view(&self) -> (r: Vec<Vec<Segment>>)
        ensures
            is_resolved_view(r@, self@),
    {
        let mut output: Vec<Vec<Segment>> = Vec::with_capacity(self.levels.len());
        let mut i: usize = 0;
        while i < self.levels.len()
            invariant
                i <= self.levels@.len(),
                output@.len() == i,
                forall|k: int|
                    0 <= k < i ==> level_view((#[trigger] output@[k])@) == visible_part(
                        self@.levels[k],
                        self@.hidden,
                    ),
            decreases self.levels@.len() - i,
        {
            let raw = &self.levels[i];
            let ghost lv = self@.levels[i as int];
            let mut level: Vec<Segment> = Vec::new();
            let mut j: usize = 0;
            proof {
                reveal(Seq::filter);
                assert(level_view(level@) =~= visible_part(lv.take(0), self@.hidden));
            }
            while j < raw.len()
                invariant
                    j <= raw@.len(),
                    lv == level_view(raw@),
                    level_view(level@) == visible_part(lv.take(j as int), self@.hidden),
                decreases raw@.len() - j,
            {
                proof {
                    reveal(Seq::filter);
                    assert(lv.take(j + 1).drop_last() =~= lv.take(j as int));
                }
                if !contains_id(self.hidden_set.as_slice(), raw[j].metadata.id) {
                    let ghost before = level_view(level@);
                    level.push(raw[j].clone());
                    proof {
                        assert(level_view(level@) =~= before.push(lv[j as int]));
                    }
                }
                j += 1;
            }
            proof {
                assert(lv.take(j as int) =~= lv);
            }
            output.push(level);
            i += 1;
        }
        output
    }

    /// Marks segments as being worked on by a compaction, so that no other
    /// compaction chooses them.
    pub fn hide_segments(&mut self, ids: &[SegmentId])
        ensures
            final(self)@.levels == old(self)@.levels,
            final(self)@.hidden == old(self)@.hidden.union(ids@.to_set()),
            old(self).wf() ==> final(self).wf(),
    {
        let mut i: usize = 0;
        while i < ids.len()
            invariant
                i <= ids.len(),
                self.levels == old(self).levels,
                self@.hidden == old(self)@.hidden.union(ids@.take(i as int).to_set()),
            decreases ids.len() - i,
        {
            let ghost before = self.hidden_set@;
            self.hidden_set.push(ids[i]);
            proof {
                lemma_push_to_set(before, ids@[i as int]);
                assert(ids@.take(i + 1) =~= ids@.take(i as int).push(ids@[i as int]));
                lemma_push_to_set(ids@.take(i as int), ids@[i as int]);
                assert(self@.hidden =~= old(self)@.hidden.union(ids@.take(i + 1).to_set()));
            }
            i += 1;
        }
        proof {
            assert(ids@.take(i as int) =~= ids@);
        }
    }

    /// Takes the mark off segments again.
    pub fn show_segments(&mut self, ids: &[SegmentId])
        ensures
            final(self)@.levels == old(self)@.levels,
            final(self)@.hidden == old(self)@.hidden.difference(ids@.to_set()),
            old(self).wf() ==> final(self).wf(),
    {
        let mut kept: Vec<SegmentId> = Vec::new();
        let mut i: usize = 0;
        while i < self.hidden_set.len()
            invariant
                i <= self.hidden_set@.len(),
                self.hidden_set == old(self).hidden_set,
                self.levels == old(self).levels,
                forall|x: SegmentId|
                    kept@.contains(x) <==> self.hidden_set@.take(i as int).contains(x)
                        && !ids@.contains(x),
            decreases self.hidden_set@.len() - i,
        {
            let id: SegmentId = self.hidden_set[i];
            let ghost before = kept@;
            let ghost seen = self.hidden_set@.take(i as int);
            let ghost seen_after = self.hidden_set@.take(i + 1);
            let keep: bool = !contains_id(ids, id);
            if keep {
                kept.push(id);
            }
            proof {
                assert forall|x: SegmentId|
                    kept@.contains(x) <==> seen_after.contains(x) && !ids@.contains(x) by {
                    if seen.contains(x) {
                        let k = choose|k: int| 0 <= k < seen.len() && seen[k] == x;
                        assert(seen_after[k] == x);
                    }
                    if before.contains(x) {
                        let k = choose|k: int| 0 <= k < before.len() && before[k] == x;
                        assert(kept@[k] == x);
                    }
                    if x == id {
                        assert(seen_after[i as int] == x);
                        if keep {
                            assert(kept@[before.len() as int] == x);
                        }
                    }
                    if seen_after.contains(x) {
                        let k = choose|k: int| 0 <= k < seen_after.len() && seen_after[k] == x;
                        if k < i {
                            assert(seen[k] == x);
                        }
                    }
                    if kept@.contains(x) {
                        let k = choose|k: int| 0 <= k < kept@.len() && kept@[k] == x;
                        if k < before.len() {
                            assert(before[k] == x);
                        }
                    }
                }
            }
            i += 1;
        }
        proof {
            assert(self.hidden_set@.take(i as int) =~= self.hidden_set@);
            assert(kept@.to_set() =~= old(self)@.hidden.difference(ids@.to_set()));
        }
        self.hidden_set = kept;
    }
}

/// Whether `resolved` holds, level by level, the segments of the manifest
/// that are not hidden, in their order.
pub open spec fn is_resolved_view(resolved: Seq<Vec<Segment>>, manifest: LevelsView) -> bool {
    &&& resolved.len() == manifest.levels.len()
    &&& forall|k: int|
        0 <= k < resolved.len() ==> level_view((#[trigger] resolved[k])@) == visible_part(
            manifest.levels[k],
            manifest.hidden,
        )
}

} // verus!
