use lsm_tree::memtable::MemTable;
use lsm_tree::value::{ParsedInternalKey, Value, ValueType};

fn value(key: &[u8], value: &[u8], seqno: u64) -> Value {
    Value::new(key.to_vec(), value.to_vec(), seqno, ValueType::Value)
}

fn tombstone(key: &[u8], seqno: u64) -> Value {
    Value::new(key.to_vec(), vec![], seqno, ValueType::Tombstone)
}

#[test]
fn empty_memtable() {
    let memtable = MemTable::new();
    assert!(memtable.is_empty());
    assert_eq!(memtable.len(), 0);
    assert_eq!(memtable.size(), 0);
    assert_eq!(memtable.get(b"abc", None), None);
    assert_eq!(memtable.get(b"abc", Some(7)), None);
    assert_eq!(memtable.get(b"", None), None);
    assert_eq!(memtable.get_lsn(), None);
    assert!(memtable.iter().is_empty());
    assert!(memtable.prefix(b"a").is_empty());
}

#[test]
fn snapshot_before_any_write_sees_nothing() {
    let mut memtable = MemTable::default();
    memtable.insert(value(b"abc", b"1", 5));
    assert_eq!(memtable.get(b"abc", Some(5)), None);
    assert_eq!(memtable.get(b"abc", Some(0)), None);
    assert_eq!(memtable.get(b"abc", Some(6)), Some(value(b"abc", b"1", 5)));
}

#[test]
fn insert_counts_sizes() {
    let mut memtable = MemTable::default();
    // 3 bytes of key, 4 of value, 8 of sequence number, 1 of type
    assert_eq!(memtable.insert(value(b"abc", b"defg", 0)), (16, 16));
    assert_eq!(memtable.insert(value(b"", b"", 1)), (9, 25));
    assert_eq!(memtable.insert(tombstone(b"abc", 2)), (12, 37));
    assert_eq!(memtable.size(), 37);
    assert_eq!(memtable.len(), 3);
    assert!(!memtable.is_empty());
    assert_eq!(value(b"abc", b"defg", 0).size(), 16);
}

#[test]
fn insert_replaces_same_internal_key() {
    let mut memtable = MemTable::default();
    memtable.insert(value(b"abc", b"old", 1));
    memtable.insert(value(b"abc", b"new", 1));
    assert_eq!(memtable.len(), 1);
    assert_eq!(memtable.get(b"abc", None), Some(value(b"abc", b"new", 1)));
}

#[test]
fn tombstone_and_value_of_one_seqno_coexist_tombstone_first() {
    let mut memtable = MemTable::default();
    memtable.insert(value(b"abc", b"v", 1));
    memtable.insert(tombstone(b"abc", 1));
    assert_eq!(memtable.len(), 2);
    assert_eq!(memtable.get(b"abc", None), Some(tombstone(b"abc", 1)));
    assert_eq!(
        memtable.iter(),
        vec![tombstone(b"abc", 1), value(b"abc", b"v", 1)]
    );
}

#[test]
fn highest_seqno_is_found() {
    let mut memtable = MemTable::default();
    memtable.insert(value(b"abc", b"v", u64::MAX));
    memtable.insert(value(b"abc", b"w", 3));
    assert_eq!(
        memtable.get(b"abc", None),
        Some(value(b"abc", b"v", u64::MAX))
    );
    assert_eq!(
        memtable.get(b"abc", Some(u64::MAX)),
        Some(value(b"abc", b"w", 3))
    );
    assert_eq!(memtable.get_lsn(), Some(u64::MAX));
}

#[test]
fn iteration_is_in_internal_key_order() {
    let mut memtable = MemTable::default();
    memtable.insert(value(b"b", b"1", 1));
    memtable.insert(value(b"a", b"2", 2));
    memtable.insert(value(b"ab", b"3", 0));
    memtable.insert(value(b"a", b"4", 7));
    memtable.insert(tombstone(b"", 4));
    memtable.insert(value(b"b", b"5", 9));
    let all = memtable.iter();
    assert_eq!(
        all,
        vec![
            tombstone(b"", 4),
            value(b"a", b"4", 7),
            value(b"a", b"2", 2),
            value(b"ab", b"3", 0),
            value(b"b", b"5", 9),
            value(b"b", b"1", 1),
        ]
    );
    for pair in all.windows(2) {
        let a = ParsedInternalKey::new(pair[0].key.clone(), pair[0].seqno, pair[0].value_type);
        let b = ParsedInternalKey::new(pair[1].key.clone(), pair[1].seqno, pair[1].value_type);
        assert!(a.less_than(&b));
        assert!(!b.less_than(&a));
    }
    assert_eq!(memtable.get_lsn(), Some(9));
}

#[test]
fn prefix_lists_matching_keys_only() {
    let mut memtable = MemTable::default();
    memtable.insert(value(b"a", b"1", 1));
    memtable.insert(value(b"ab", b"2", 2));
    memtable.insert(value(b"abc", b"3", 3));
    memtable.insert(value(b"abc", b"4", 4));
    memtable.insert(value(b"abd", b"5", 5));
    memtable.insert(value(b"ac", b"6", 6));
    memtable.insert(value(b"b", b"7", 7));
    assert_eq!(
        memtable.prefix(b"ab"),
        vec![
            value(b"ab", b"2", 2),
            value(b"abc", b"4", 4),
            value(b"abc", b"3", 3),
            value(b"abd", b"5", 5),
        ]
    );
    assert_eq!(memtable.prefix(b"b"), vec![value(b"b", b"7", 7)]);
    assert!(memtable.prefix(b"c").is_empty());
    assert_eq!(memtable.prefix(b"").len(), 7);
}

#[test]
fn tombstone_visibility() {
    let mut memtable = MemTable::default();
    memtable.insert(value(b"k", b"v", 10));
    memtable.insert(tombstone(b"k", 20));
    let read = |seqno: u64| {
        memtable
            .get(b"k", Some(seqno))
            .filter(|entry| !entry.is_tombstone())
            .map(|entry| entry.value)
    };
    assert_eq!(read(21), None);
    assert_eq!(read(u64::MAX), None);
    assert_eq!(read(20), Some(b"v".to_vec()));
    assert_eq!(read(11), Some(b"v".to_vec()));
    assert_eq!(read(10), None);
}

#[test]
fn later_snapshot_sees_same_or_newer() {
    let mut memtable = MemTable::default();
    for seqno in [2u64, 5, 9] {
        memtable.insert(value(b"k", &seqno.to_be_bytes(), seqno));
    }
    let mut last: Option<u64> = None;
    for snapshot in 0..12u64 {
        let found = memtable.get(b"k", Some(snapshot)).map(|e| e.seqno);
        assert!(found >= last);
        if found != last {
            assert!(found.unwrap() >= snapshot - 1);
        }
        last = found;
    }
    assert_eq!(last, Some(9));
}

#[test]
fn internal_key_order() {
    let key = |k: &[u8], s: u64, t: ValueType| ParsedInternalKey::new(k.to_vec(), s, t);
    let a1 = key(b"a", 1, ValueType::Value);
    let a2 = key(b"a", 2, ValueType::Value);
    let a2t = key(b"a", 2, ValueType::Tombstone);
    let b0 = key(b"b", 0, ValueType::Value);
    let ab = key(b"ab", 9, ValueType::Value);
    assert!(a2.less_than(&a1));
    assert!(!a1.less_than(&a2));
    assert!(a2t.less_than(&a2));
    assert!(!a2.less_than(&a2t));
    assert!(a1.less_than(&b0));
    assert!(a1.less_than(&ab));
    assert!(ab.less_than(&b0));
    assert!(!a1.less_than(&a1));
    assert!(a2t.is_tombstone());
    assert!(!a2.is_tombstone());
    assert_eq!(a1.clone(), a1);
}
