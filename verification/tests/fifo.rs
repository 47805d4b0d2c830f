use lsm_tree::compaction::fifo::Strategy;
use lsm_tree::compaction::{Choice, CompactionStrategy};
use lsm_tree::config::PersistedConfig;
use lsm_tree::levels::LevelManifest;
use lsm_tree::segment::meta::{CompressionType, KeyRange, Metadata, TableType};
use lsm_tree::segment::Segment;
use lsm_tree::time::unix_timestamp_micros;
use lsm_tree::SegmentId;

fn fixture_segment(id: SegmentId, created_at: u128) -> Segment {
    Segment {
        metadata: Metadata {
            block_count: 0,
            block_size: 0,
            created_at,
            id,
            file_size: 1,
            compression: CompressionType::Lz4,
            table_type: TableType::Block,
            item_count: 0,
            key_count: 0,
            key_range: KeyRange::new((vec![], vec![])),
            tombstone_count: 0,
            range_tombstone_count: 0,
            uncompressed_size: 0,
            seqnos: (0, created_at as u64),
        },
    }
}

#[test]
fn ttl() {
    let compactor = Strategy::new(u64::MAX, Some(5_000));

    let mut levels = LevelManifest::create_new(4);

    levels.add(fixture_segment(1, 1));
    levels.add(fixture_segment(2, unix_timestamp_micros()));

    assert_eq!(
        compactor.make_choice(&levels, &PersistedConfig::default()),
        Choice::DeleteSegments(vec![1])
    );
}

#[test]
fn empty_levels() {
    let compactor = Strategy::new(1, None);

    let levels = LevelManifest::create_new(4);

    assert_eq!(
        compactor.make_choice(&levels, &PersistedConfig::default()),
        Choice::DoNothing
    );
}

#[test]
fn below_limit() {
    let compactor = Strategy::new(4, None);

    let mut levels = LevelManifest::create_new(4);

    levels.add(fixture_segment(1, 1));
    assert_eq!(
        compactor.make_choice(&levels, &PersistedConfig::default()),
        Choice::DoNothing
    );

    levels.add(fixture_segment(2, 2));
    assert_eq!(
        compactor.make_choice(&levels, &PersistedConfig::default()),
        Choice::DoNothing
    );

    levels.add(fixture_segment(3, 3));
    assert_eq!(
        compactor.make_choice(&levels, &PersistedConfig::default()),
        Choice::DoNothing
    );

    levels.add(fixture_segment(4, 4));
    assert_eq!(
        compactor.make_choice(&levels, &PersistedConfig::default()),
        Choice::DoNothing
    );
}

#[test]
fn more_than_limit() {
    let compactor = Strategy::new(2, None);

    let mut levels = LevelManifest::create_new(4);
    levels.add(fixture_segment(1, 1));
    levels.add(fixture_segment(2, 2));
    levels.add(fixture_segment(3, 3));
    levels.add(fixture_segment(4, 4));

    assert_eq!(
        compactor.make_choice(&levels, &PersistedConfig::default()),
        Choice::DeleteSegments(vec![1, 2])
    );
}
