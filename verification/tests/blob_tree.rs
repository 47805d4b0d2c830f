use lsm_tree::blob_tree::value::{MaybeInlineValue, ValueHandle};
use lsm_tree::blob_tree::{
    gc_scan_entry, indirect_value, inline_value, parse_stored, point_read, raw_insert,
    resolve_fetched, resolve_value_handle, separate, PointRead, Resolve, Separation,
    DEFAULT_BLOB_THRESHOLD,
};
use lsm_tree::coding::DecodeError;
use lsm_tree::error::Error;
use lsm_tree::memtable::MemTable;
use lsm_tree::value::{Value, ValueType};

const HANDLE: ValueHandle = ValueHandle {
    segment_id: 3,
    offset: 99,
};

#[test]
fn stored_bytes() {
    assert_eq!(inline_value(b"ab"), vec![0, 0, 0, 0, 2, b'a', b'b']);
    assert_eq!(
        indirect_value(HANDLE, 4096),
        vec![1, 0, 0, 0, 0, 0, 0, 0, 3, 0, 0, 0, 0, 0, 0, 0, 99, 0, 0, 16, 0]
    );
    assert_eq!(
        parse_stored(&inline_value(b"ab")).unwrap(),
        MaybeInlineValue::Inline(b"ab".to_vec())
    );
    assert_eq!(
        parse_stored(&indirect_value(HANDLE, 7)).unwrap(),
        MaybeInlineValue::Indirect {
            handle: HANDLE,
            size: 7
        }
    );
}

#[test]
fn small_values_stay_inline() {
    assert_eq!(DEFAULT_BLOB_THRESHOLD, 2048);
    for len in [0usize, 1, 2047] {
        let stored = inline_value(&vec![5; len]);
        assert_eq!(
            separate(&stored, DEFAULT_BLOB_THRESHOLD).unwrap(),
            Separation::Inline(stored.clone())
        );
    }
}

#[test]
fn large_values_go_to_the_value_log() {
    for len in [2048usize, 2049, 100_000] {
        let stored = inline_value(&vec![5; len]);
        assert_eq!(
            separate(&stored, DEFAULT_BLOB_THRESHOLD).unwrap(),
            Separation::Blob {
                value: vec![5; len],
                size: len as u32
            }
        );
    }
    assert_eq!(
        separate(&inline_value(b"abc"), 3).unwrap(),
        Separation::Blob {
            value: b"abc".to_vec(),
            size: 3
        }
    );
    assert_eq!(
        separate(&inline_value(b""), 0).unwrap(),
        Separation::Blob {
            value: vec![],
            size: 0
        }
    );
}

#[test]
fn separation_of_bad_entries() {
    assert_eq!(
        separate(&indirect_value(HANDLE, 1), 2048).unwrap(),
        Separation::AlreadyIndirect
    );
    assert!(matches!(
        separate(&[7], 2048),
        Err(DecodeError::InvalidTag(("MaybeInlineValue", 7)))
    ));
    assert!(matches!(separate(&[], 2048), Err(DecodeError::Io(_))));
}

#[test]
fn gc_scan() {
    assert_eq!(gc_scan_entry(&inline_value(b"abc")).map(|r| r.ok()), None);
    assert_eq!(
        gc_scan_entry(&indirect_value(HANDLE, 12)).map(|r| r.unwrap()),
        Some((HANDLE, 12))
    );
    assert!(matches!(
        gc_scan_entry(&[9]),
        Some(Err(DecodeError::InvalidTag(("MaybeInlineValue", 9))))
    ));
    assert!(matches!(
        gc_scan_entry(&[1, 2]),
        Some(Err(DecodeError::Io(_)))
    ));
}

#[test]
fn resolve_inline_and_indirect() {
    let key = b"k".to_vec();
    match resolve_value_handle(Ok((key.clone(), inline_value(b"value")))) {
        Resolve::Done(Ok((k, v))) => {
            assert_eq!(k, key);
            assert_eq!(v, b"value".to_vec());
        }
        _ => panic!("expected a value"),
    }
    match resolve_value_handle(Ok((key.clone(), indirect_value(HANDLE, 5)))) {
        Resolve::Fetch { key: k, handle } => {
            assert_eq!(k, key);
            assert_eq!(handle, HANDLE);
        }
        _ => panic!("expected a handle"),
    }
    assert!(matches!(
        resolve_value_handle(Ok((key, vec![4]))),
        Resolve::Done(Err(Error::Decode(DecodeError::InvalidTag((
            "MaybeInlineValue",
            4
        )))))
    ));
    assert!(matches!(
        resolve_value_handle(Err(Error::SegmentNotFound)),
        Resolve::Done(Err(Error::SegmentNotFound))
    ));
}

#[test]
fn resolve_what_the_value_log_gave() {
    let key = b"k".to_vec();
    assert_eq!(
        resolve_fetched(key.clone(), Ok(Some(b"blob".to_vec()))).unwrap(),
        (key.clone(), b"blob".to_vec())
    );
    assert!(matches!(
        resolve_fetched(key.clone(), Ok(None)),
        Err(Error::Corruption)
    ));
    assert!(matches!(
        resolve_fetched(key, Err(Error::CompactionConflict)),
        Err(Error::CompactionConflict)
    ));
}

#[test]
fn point_reads() {
    assert_eq!(point_read(None), PointRead::Done(None));
    assert_eq!(
        point_read(Some(MaybeInlineValue::Inline(b"v".to_vec()))),
        PointRead::Done(Some(b"v".to_vec()))
    );
    assert_eq!(
        point_read(Some(MaybeInlineValue::Indirect {
            handle: HANDLE,
            size: 1
        })),
        PointRead::Fetch(HANDLE)
    );
}

#[test]
fn raw_insert_writes_inline() {
    let mut memtable = MemTable::default();
    // key 1 + stored value 5 + 3 + overhead 9
    assert_eq!(
        raw_insert(&mut memtable, b"k", b"abc", 4, ValueType::Value),
        (18, 18)
    );
    assert_eq!(
        raw_insert(&mut memtable, b"k", b"", 5, ValueType::Tombstone),
        (15, 33)
    );
    assert_eq!(
        memtable.get(b"k", Some(5)),
        Some(Value::new(
            b"k".to_vec(),
            inline_value(b"abc"),
            4,
            ValueType::Value
        ))
    );
    assert!(memtable.get(b"k", None).unwrap().is_tombstone());
}
