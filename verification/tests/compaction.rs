use lsm_tree::compaction::fifo::Strategy;
use lsm_tree::compaction::maintenance::{ids_from, Strategy as Maintenance, L0_SEGMENT_CAP};
use lsm_tree::compaction::{Choice, CompactionStrategy};
use lsm_tree::config::PersistedConfig;
use lsm_tree::levels::{contains_id, LevelManifest};
use lsm_tree::segment::meta::{CompressionType, KeyRange, Metadata, TableType};
use lsm_tree::segment::Segment;
use lsm_tree::time::{timestamp_from, unix_timestamp_micros};

fn segment(id: u64, created_at: u128, file_size: u64) -> Segment {
    Segment {
        metadata: Metadata {
            block_count: 0,
            block_size: 0,
            created_at,
            id,
            file_size,
            compression: CompressionType::Lz4,
            table_type: TableType::Block,
            item_count: 0,
            key_count: 0,
            key_range: KeyRange::new((vec![], vec![])),
            tombstone_count: 0,
            range_tombstone_count: 0,
            uncompressed_size: 0,
            seqnos: (0, 0),
        },
    }
}

fn levels(segments: Vec<Segment>) -> LevelManifest {
    let mut levels = LevelManifest::create_new(4);
    for s in segments {
        levels.add(s);
    }
    levels
}

const SECOND: u128 = 1_000_000;

#[test]
fn ttl_equal_to_lifetime_keeps_the_segment() {
    let config = PersistedConfig::default();
    let manifest = levels(vec![segment(1, 1_000, 1)]);
    let strategy = Strategy::new(u64::MAX, Some(10));
    // 10 whole seconds: not more than the TTL
    for now in [1_000 + 10 * SECOND, 1_000 + 11 * SECOND - 1] {
        assert_eq!(
            strategy.make_choice_at(&manifest, &config, now),
            Choice::DoNothing
        );
    }
    assert_eq!(
        strategy.make_choice_at(&manifest, &config, 1_000 + 11 * SECOND),
        Choice::DeleteSegments(vec![1])
    );
}

#[test]
fn ttl_of_zero_is_disabled() {
    let config = PersistedConfig::default();
    let manifest = levels(vec![segment(1, 0, 1)]);
    let strategy = Strategy::new(u64::MAX, Some(0));
    assert_eq!(
        strategy.make_choice_at(&manifest, &config, u128::MAX),
        Choice::DoNothing
    );
    assert_eq!(
        Strategy::new(u64::MAX, None).make_choice_at(&manifest, &config, u128::MAX),
        Choice::DoNothing
    );
}

#[test]
fn segment_from_the_future_is_kept() {
    let config = PersistedConfig::default();
    let manifest = levels(vec![segment(1, 50 * SECOND, 1)]);
    let strategy = Strategy::new(u64::MAX, Some(1));
    assert_eq!(
        strategy.make_choice_at(&manifest, &config, 0),
        Choice::DoNothing
    );
}

#[test]
fn ttl_lists_newest_first_and_limit_oldest_first() {
    let config = PersistedConfig::default();
    let manifest = levels(vec![
        segment(1, 0, 10),
        segment(2, 0, 10),
        segment(3, 100 * SECOND, 10),
    ]);
    // both old segments are expired; 5 bytes over the limit take the oldest too
    let strategy = Strategy::new(25, Some(10));
    assert_eq!(
        strategy.make_choice_at(&manifest, &config, 100 * SECOND),
        Choice::DeleteSegments(vec![2, 1, 1])
    );
}

#[test]
fn limit_takes_as_many_as_needed() {
    let config = PersistedConfig::default();
    let manifest = levels(vec![
        segment(1, 0, 3),
        segment(2, 0, 4),
        segment(3, 0, 5),
        segment(4, 0, 6),
    ]);
    let choice = |limit: u64| Strategy::new(limit, None).make_choice_at(&manifest, &config, 0);
    assert_eq!(choice(18), Choice::DoNothing);
    assert_eq!(choice(17), Choice::DeleteSegments(vec![1]));
    assert_eq!(choice(15), Choice::DeleteSegments(vec![1]));
    assert_eq!(choice(14), Choice::DeleteSegments(vec![1, 2]));
    assert_eq!(choice(11), Choice::DeleteSegments(vec![1, 2]));
    assert_eq!(choice(10), Choice::DeleteSegments(vec![1, 2, 3]));
    assert_eq!(choice(0), Choice::DeleteSegments(vec![1, 2, 3, 4]));
}

#[test]
fn hidden_segments_are_not_chosen_but_counted() {
    let config = PersistedConfig::default();
    let mut manifest = levels(vec![segment(1, 0, 1), segment(2, 0, 1), segment(3, 0, 1)]);
    manifest.hide_segments(&[1]);
    let strategy = Strategy::new(2, None);
    assert_eq!(
        strategy.make_choice_at(&manifest, &config, 0),
        Choice::DeleteSegments(vec![2])
    );
    manifest.show_segments(&[1]);
    assert_eq!(
        strategy.make_choice_at(&manifest, &config, 0),
        Choice::DeleteSegments(vec![1])
    );
}

#[test]
fn clock_before_the_epoch_counts_as_the_epoch() {
    assert_eq!(timestamp_from(None), 0);
    assert_eq!(timestamp_from(Some(0)), 0);
    assert_eq!(timestamp_from(Some(1_577_836_800 * SECOND)), 1_577_836_800 * SECOND);
    assert_eq!(timestamp_from(Some(u128::MAX)), u128::MAX);
}

#[test]
fn clock_is_after_2020() {
    assert!(unix_timestamp_micros() > 1_577_836_800 * SECOND);
}

#[test]
fn maintenance_merges_oldest_over_cap() {
    let config = PersistedConfig::default();
    let mut manifest = LevelManifest::create_new(4);
    for id in 1..=L0_SEGMENT_CAP as u64 {
        manifest.add(segment(id, 0, 1));
        assert_eq!(Maintenance.make_choice(&manifest, &config), Choice::DoNothing);
    }
    manifest.add(segment(21, 0, 1));
    assert_eq!(
        Maintenance.make_choice(&manifest, &config),
        Choice::Merge {
            level: 0,
            ids: vec![2, 1],
            target_level: 0
        }
    );
    manifest.add(segment(22, 0, 1));
    assert_eq!(
        Maintenance.make_choice(&manifest, &config),
        Choice::Merge {
            level: 0,
            ids: vec![3, 2, 1],
            target_level: 0
        }
    );
    // FIFO hands over to maintenance when it deletes nothing
    assert_eq!(
        Strategy::new(u64::MAX, None).make_choice(&manifest, &config),
        Choice::Merge {
            level: 0,
            ids: vec![3, 2, 1],
            target_level: 0
        }
    );
}

#[test]
fn manifest_levels() {
    let mut manifest = LevelManifest::create_new(3);
    assert_eq!(manifest.depth(), 3);
    assert_eq!(manifest.size(), 0);
    assert_eq!(manifest.resolved_view(), vec![vec![], vec![], vec![]]);
    manifest.add(segment(1, 0, 5));
    manifest.add(segment(2, 0, 7));
    assert_eq!(manifest.size(), 12);
    assert_eq!(
        manifest.resolved_view(),
        vec![vec![segment(2, 0, 7), segment(1, 0, 5)], vec![], vec![]]
    );
    manifest.hide_segments(&[2, 9]);
    assert_eq!(manifest.size(), 12);
    assert_eq!(
        manifest.resolved_view(),
        vec![vec![segment(1, 0, 5)], vec![], vec![]]
    );
    manifest.show_segments(&[9]);
    assert_eq!(manifest.resolved_view()[0], vec![segment(1, 0, 5)]);
    manifest.show_segments(&[2]);
    assert_eq!(manifest.resolved_view()[0].len(), 2);
    assert_eq!(ids_from(&manifest.resolved_view()[0], 1), vec![1]);
    assert!(contains_id(&[1, 2], 2));
    assert!(!contains_id(&[1, 2], 3));
}
