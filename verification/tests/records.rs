use lsm_tree::coding::{ByteReader, Decode, DecodeError, Encode};
use lsm_tree::merge::{run_is_sorted, Merger};
use lsm_tree::segment::block::{decode_block, encode_block};
use lsm_tree::segment::meta::{CompressionType, KeyRange, Metadata, TableType};
use lsm_tree::segment::trailer::SegmentFileTrailer;
use lsm_tree::segment::writer::FileOffsets;
use lsm_tree::value::{bytes_eq, bytes_less, clone_bytes, starts_with, Value, ValueType};

fn value(key: &[u8], value: &[u8], seqno: u64) -> Value {
    Value::new(key.to_vec(), value.to_vec(), seqno, ValueType::Value)
}

fn tombstone(key: &[u8], seqno: u64) -> Value {
    Value::new(key.to_vec(), vec![], seqno, ValueType::Tombstone)
}

#[test]
fn entry_bytes() {
    assert_eq!(
        value(b"ab", b"xyz", 0x0102).encode_into_vec().unwrap(),
        vec![0, 0, 0, 0, 0, 0, 0, 1, 2, 0, 2, b'a', b'b', 0, 0, 0, 3, b'x', b'y', b'z']
    );
    assert_eq!(
        tombstone(b"", u64::MAX).encode_into_vec().unwrap(),
        vec![1, 255, 255, 255, 255, 255, 255, 255, 255, 0, 0, 0, 0, 0, 0]
    );
}

#[test]
fn entry_round_trip() {
    for entry in [
        value(b"", b"", 0),
        value(b"key", &[3; 70_000], 77),
        tombstone(&[9; 65_535], 1 << 40),
    ] {
        let mut bytes = entry.encode_into_vec().unwrap();
        bytes.push(0xEE);
        let mut reader = ByteReader::new(&bytes);
        assert_eq!(Value::decode_from(&mut reader).unwrap(), entry);
        assert_eq!(reader.len(), 1);
    }
}

#[test]
fn entry_errors() {
    let mut reader = ByteReader::new(&[2, 0, 0]);
    assert!(matches!(
        Value::decode_from(&mut reader),
        Err(DecodeError::InvalidTag(("ValueType", 2)))
    ));
    let bytes = value(b"ab", b"xyz", 1).encode_into_vec().unwrap();
    for len in 0..bytes.len() {
        let mut reader = ByteReader::new(&bytes[..len]);
        assert!(matches!(
            Value::decode_from(&mut reader),
            Err(DecodeError::Io(_))
        ));
    }
}

#[test]
fn value_type_tags() {
    assert_eq!(ValueType::Value.tag(), 0);
    assert_eq!(ValueType::Tombstone.tag(), 1);
    assert_eq!(ValueType::from_tag(0).unwrap(), ValueType::Value);
    assert_eq!(ValueType::from_tag(1).unwrap(), ValueType::Tombstone);
    assert!(matches!(
        ValueType::from_tag(255),
        Err(DecodeError::InvalidTag(("ValueType", 255)))
    ));
    assert_eq!(ValueType::Tombstone.order_rank(), 0);
    assert_eq!(ValueType::Value.order_rank(), 1);
}

#[test]
fn block_round_trip() {
    let entries = vec![
        value(b"a", b"1", 9),
        tombstone(b"a", 4),
        value(b"a", b"0", 2),
        value(b"b", &[1; 300], 5),
    ];
    let bytes = encode_block(&entries);
    assert_eq!(&bytes[..4], &[0, 0, 0, 4]);
    assert_eq!(decode_block(&bytes).unwrap(), entries);

    let empty = encode_block(&vec![]);
    assert_eq!(empty, vec![0, 0, 0, 0]);
    assert_eq!(decode_block(&empty).unwrap(), vec![]);

    let one = encode_block(&vec![value(b"k", b"v", 1)]);
    assert_eq!(decode_block(&one).unwrap(), vec![value(b"k", b"v", 1)]);
}

#[test]
fn block_errors() {
    assert!(matches!(decode_block(&[0, 0, 0]), Err(DecodeError::Io(_))));
    assert!(matches!(
        decode_block(&[0, 0, 0, 1]),
        Err(DecodeError::Io(_))
    ));
    let mut bytes = encode_block(&vec![value(b"k", b"v", 1), value(b"l", b"w", 1)]);
    let last = bytes.len() - 1;
    assert!(matches!(
        decode_block(&bytes[..last]),
        Err(DecodeError::Io(_))
    ));
    bytes[4] = 7;
    assert!(matches!(
        decode_block(&bytes),
        Err(DecodeError::InvalidTag(("ValueType", 7)))
    ));
}

#[test]
fn sorted_runs_are_recognised() {
    assert!(run_is_sorted(&vec![]));
    assert!(run_is_sorted(&vec![value(b"a", b"", 1)]));
    assert!(run_is_sorted(&vec![
        value(b"a", b"", 2),
        value(b"a", b"", 2),
        value(b"a", b"", 1),
        value(b"b", b"", 9)
    ]));
    assert!(!run_is_sorted(&vec![
        value(b"a", b"", 1),
        value(b"a", b"", 2)
    ]));
    assert!(!run_is_sorted(&vec![
        value(b"a", b"", 1),
        value(b"b", b"", 1),
        value(b"a", b"", 0)
    ]));
    assert!(Merger::new(vec![vec![], vec![value(b"a", b"", 1)]]).is_mergeable());
    assert!(
        !Merger::new(vec![vec![], vec![value(b"b", b"", 1), value(b"a", b"", 1)]]).is_mergeable()
    );
}

#[test]
fn byte_strings() {
    assert!(bytes_eq(b"abc", b"abc"));
    assert!(!bytes_eq(b"abc", b"abd"));
    assert!(!bytes_eq(b"abc", b"ab"));
    assert!(bytes_less(b"", b"a"));
    assert!(bytes_less(b"a", b"ab"));
    assert!(bytes_less(b"ab", b"b"));
    assert!(bytes_less(&[1, 255], &[2]));
    assert!(!bytes_less(b"a", b"a"));
    assert!(!bytes_less(b"b", b"ab"));
    assert!(!bytes_less(b"", b""));
    assert!(starts_with(b"abc", b"ab"));
    assert!(starts_with(b"abc", b""));
    assert!(starts_with(b"abc", b"abc"));
    assert!(!starts_with(b"abc", b"abcd"));
    assert!(!starts_with(b"abc", b"b"));
    assert_eq!(clone_bytes(&vec![1, 2, 3]), vec![1, 2, 3]);
}

#[test]
fn trailer_fits_up_to_114_bytes_of_keys() {
    let trailer = |min: usize, max: usize| SegmentFileTrailer {
        metadata: Metadata {
            id: 1,
            created_at: 0,
            item_count: 0,
            key_count: 0,
            tombstone_count: 0,
            range_tombstone_count: 0,
            file_size: 0,
            uncompressed_size: 0,
            block_size: 0,
            block_count: 0,
            compression: CompressionType::Uncompressed,
            table_type: TableType::Block,
            seqnos: (0, 0),
            key_range: KeyRange::new((vec![1; min], vec![2; max])),
        },
        offsets: FileOffsets::default(),
    };
    for (min, max, fits) in [
        (0, 0, true),
        (57, 57, true),
        (114, 0, true),
        (0, 114, true),
        (58, 57, false),
        (0, 115, false),
        (200, 0, false),
    ] {
        let t = trailer(min, max);
        assert_eq!(t.fits(), fits);
        let bytes = t.encode_into_vec().unwrap();
        assert_eq!(bytes.len(), 256);
        let mut reader = ByteReader::new(&bytes);
        let read = SegmentFileTrailer::decode_from(&mut reader);
        assert_eq!(read.map(|r| r == t).unwrap_or(false), fits);
    }
}
