use lsm_tree::memtable::MemTable;
use lsm_tree::merge::{emit, less_entry, merge_runs, Merger};
use lsm_tree::value::{Value, ValueType};

fn value(key: &[u8], seqno: u64) -> Value {
    Value::new(key.to_vec(), seqno.to_be_bytes().to_vec(), seqno, ValueType::Value)
}

fn tombstone(key: &[u8], seqno: u64) -> Value {
    Value::new(key.to_vec(), vec![], seqno, ValueType::Tombstone)
}

#[test]
fn merger_count() {
    let mut state: u64 = 0x2545_F491_4F6C_DD1D;
    let memtables: Vec<MemTable> = (0..30)
        .map(|_| {
            let mut table = MemTable::default();
            for _ in 0..100 {
                state ^= state << 13;
                state ^= state >> 7;
                state ^= state << 17;
                table.insert(Value::new(
                    state.to_be_bytes().to_vec(),
                    vec![],
                    0,
                    ValueType::Value,
                ));
            }
            table
        })
        .collect();
    let runs: Vec<Vec<Value>> = memtables.iter().map(|table| table.iter()).collect();
    assert!(runs.iter().all(|run| run.len() == 100));

    let merger = Merger::new(runs);

    let merged = merger.collect();
    assert_eq!(30 * 100, merged.len());
    assert!(merged.windows(2).all(|pair| !less_entry(&pair[1], &pair[0])));
}

#[test]
fn merge_interleaves_runs() {
    let runs = vec![
        vec![value(b"a", 3), value(b"c", 1)],
        vec![],
        vec![value(b"a", 5), value(b"b", 2), value(b"d", 0)],
        vec![tombstone(b"a", 4)],
    ];
    assert_eq!(
        merge_runs(&runs),
        vec![
            value(b"a", 5),
            tombstone(b"a", 4),
            value(b"a", 3),
            value(b"b", 2),
            value(b"c", 1),
            value(b"d", 0),
        ]
    );
    assert_eq!(merge_runs(&vec![]), vec![]);
    assert_eq!(merge_runs(&vec![vec![], vec![]]), vec![]);
}

#[test]
fn merge_keeps_equal_entries() {
    let runs = vec![vec![value(b"a", 1)], vec![value(b"a", 1)]];
    assert_eq!(merge_runs(&runs), vec![value(b"a", 1), value(b"a", 1)]);
}

#[test]
fn merger_dedup_keeps_newest_version() {
    let runs = vec![
        vec![value(b"a", 3), value(b"c", 1)],
        vec![value(b"a", 5), value(b"b", 2), value(b"c", 7)],
        vec![tombstone(b"b", 4)],
    ];
    let out = Merger::new(runs).evict_old_versions(true).collect();
    assert_eq!(out, vec![value(b"a", 5), tombstone(b"b", 4), value(b"c", 7)]);
}

#[test]
fn merger_snapshot_drops_newer_entries() {
    let runs = || {
        vec![
            vec![value(b"a", 3), value(b"c", 1)],
            vec![value(b"a", 5), value(b"b", 2), value(b"c", 7)],
        ]
    };
    let out = Merger::new(runs()).snapshot_seqno(3).collect();
    assert_eq!(out, vec![value(b"a", 3), value(b"b", 2), value(b"c", 1)]);
    let out = Merger::new(runs())
        .evict_old_versions(true)
        .snapshot_seqno(5)
        .collect();
    assert_eq!(out, vec![value(b"a", 5), value(b"b", 2), value(b"c", 1)]);
    let out = Merger::new(runs())
        .evict_old_versions(true)
        .snapshot_seqno(0)
        .collect();
    assert_eq!(out, vec![]);
}

#[test]
fn emit_passes_everything_without_options() {
    let stream = vec![value(b"a", 5), value(b"a", 3), value(b"b", 2)];
    assert_eq!(emit(&stream, false, None), stream);
    assert_eq!(
        emit(&stream, true, None),
        vec![value(b"a", 5), value(b"b", 2)]
    );
    assert_eq!(
        emit(&stream, true, Some(4)),
        vec![value(b"a", 3), value(b"b", 2)]
    );
}
