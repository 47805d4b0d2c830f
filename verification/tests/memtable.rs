use lsm_tree::memtable::MemTable;
use lsm_tree::value::{Value, ValueType};

#[test]
fn memtable_mvcc_point_read() {
    let mut memtable = MemTable::default();

    memtable.insert(Value::new(
        b"hello-key-999991".to_vec(),
        b"hello-value-999991".to_vec(),
        0,
        ValueType::Value,
    ));

    let item = memtable.get(b"hello-key-99999", None);
    assert_eq!(None, item);

    let item = memtable.get(b"hello-key-999991", None);
    assert_eq!(*b"hello-value-999991", &*item.unwrap().value);

    memtable.insert(Value::new(
        b"hello-key-999991".to_vec(),
        b"hello-value-999991-2".to_vec(),
        1,
        ValueType::Value,
    ));

    let item = memtable.get(b"hello-key-99999", None);
    assert_eq!(None, item);

    let item = memtable.get(b"hello-key-999991", None);
    assert_eq!((*b"hello-value-999991-2"), &*item.unwrap().value);

    let item = memtable.get(b"hello-key-99999", Some(1));
    assert_eq!(None, item);

    let item = memtable.get(b"hello-key-999991", Some(1));
    assert_eq!((*b"hello-value-999991"), &*item.unwrap().value);

    let item = memtable.get(b"hello-key-99999", Some(2));
    assert_eq!(None, item);

    let item = memtable.get(b"hello-key-999991", Some(2));
    assert_eq!((*b"hello-value-999991-2"), &*item.unwrap().value);
}

#[test]
fn memtable_get() {
    let mut memtable = MemTable::default();

    let value = Value::new(b"abc".to_vec(), b"abc".to_vec(), 0, ValueType::Value);

    memtable.insert(value.clone());

    assert_eq!(Some(value), memtable.get(b"abc", None));
}

#[test]
fn memtable_get_highest_seqno() {
    let mut memtable = MemTable::default();

    memtable.insert(Value::new(
        b"abc".to_vec(),
        b"abc".to_vec(),
        0,
        ValueType::Value,
    ));
    memtable.insert(Value::new(
        b"abc".to_vec(),
        b"abc".to_vec(),
        1,
        ValueType::Value,
    ));
    memtable.insert(Value::new(
        b"abc".to_vec(),
        b"abc".to_vec(),
        2,
        ValueType::Value,
    ));
    memtable.insert(Value::new(
        b"abc".to_vec(),
        b"abc".to_vec(),
        3,
        ValueType::Value,
    ));
    memtable.insert(Value::new(
        b"abc".to_vec(),
        b"abc".to_vec(),
        4,
        ValueType::Value,
    ));

    assert_eq!(
        Some(Value::new(
            b"abc".to_vec(),
            b"abc".to_vec(),
            4,
            ValueType::Value,
        )),
        memtable.get(b"abc", None)
    );
}

#[test]
fn memtable_get_prefix() {
    let mut memtable = MemTable::default();

    memtable.insert(Value::new(
        b"abc0".to_vec(),
        b"abc".to_vec(),
        0,
        ValueType::Value,
    ));
    memtable.insert(Value::new(
        b"abc".to_vec(),
        b"abc".to_vec(),
        255,
        ValueType::Value,
    ));

    assert_eq!(
        Some(Value::new(
            b"abc".to_vec(),
            b"abc".to_vec(),
            255,
            ValueType::Value,
        )),
        memtable.get(b"abc", None)
    );

    assert_eq!(
        Some(Value::new(
            b"abc0".to_vec(),
            b"abc".to_vec(),
            0,
            ValueType::Value,
        )),
        memtable.get(b"abc0", None)
    );
}

#[test]
fn memtable_get_old_version() {
    let mut memtable = MemTable::default();

    memtable.insert(Value::new(
        b"abc".to_vec(),
        b"abc".to_vec(),
        0,
        ValueType::Value,
    ));
    memtable.insert(Value::new(
        b"abc".to_vec(),
        b"abc".to_vec(),
        99,
        ValueType::Value,
    ));
    memtable.insert(Value::new(
        b"abc".to_vec(),
        b"abc".to_vec(),
        255,
        ValueType::Value,
    ));

    assert_eq!(
        Some(Value::new(
            b"abc".to_vec(),
            b"abc".to_vec(),
            255,
            ValueType::Value,
        )),
        memtable.get(b"abc", None)
    );

    assert_eq!(
        Some(Value::new(
            b"abc".to_vec(),
            b"abc".to_vec(),
            99,
            ValueType::Value,
        )),
        memtable.get(b"abc", Some(100))
    );

    assert_eq!(
        Some(Value::new(
            b"abc".to_vec(),
            b"abc".to_vec(),
            0,
            ValueType::Value,
        )),
        memtable.get(b"abc", Some(50))
    );
}
