use lsm_tree::coding::{ByteReader, Decode, DecodeError, Encode};
use lsm_tree::segment::meta::{CompressionType, KeyRange, Metadata, TableType};
use lsm_tree::segment::trailer::{SegmentFileTrailer, TRAILER_MAGIC, TRAILER_SIZE};
use lsm_tree::segment::writer::FileOffsets;

fn metadata(min: &[u8], max: &[u8]) -> Metadata {
    Metadata {
        id: 1,
        created_at: 2,
        item_count: 3,
        key_count: 4,
        tombstone_count: 5,
        range_tombstone_count: 6,
        file_size: 7,
        uncompressed_size: 8,
        block_size: 9,
        block_count: 10,
        compression: CompressionType::Lz4,
        table_type: TableType::Block,
        seqnos: (11, 12),
        key_range: KeyRange::new((min.to_vec(), max.to_vec())),
    }
}

fn trailer(min: &[u8], max: &[u8]) -> SegmentFileTrailer {
    SegmentFileTrailer {
        metadata: metadata(min, max),
        offsets: FileOffsets {
            index_block_ptr: 13,
            tli_ptr: 14,
            bloom_ptr: 15,
            range_tombstone_ptr: 16,
        },
    }
}

#[test]
fn metadata_bytes() {
    let bytes = metadata(b"a", b"bc").encode_into_vec().unwrap();
    let mut expected = vec![];
    expected.extend(1u64.to_be_bytes());
    expected.extend(2u128.to_be_bytes());
    for n in 3..=8u64 {
        expected.extend(n.to_be_bytes());
    }
    expected.extend(9u32.to_be_bytes());
    expected.extend(10u32.to_be_bytes());
    expected.extend([1, 0]);
    expected.extend(11u64.to_be_bytes());
    expected.extend(12u64.to_be_bytes());
    expected.extend([0, 1, b'a', 0, 2, b'b', b'c']);
    assert_eq!(bytes, expected);
    assert_eq!(bytes.len(), 98 + 7);
}

#[test]
fn metadata_round_trip() {
    let m = metadata(b"first", b"last");
    let mut bytes = m.encode_into_vec().unwrap();
    bytes.extend([42; 5]);
    let mut reader = ByteReader::new(&bytes);
    assert_eq!(Metadata::decode_from(&mut reader).unwrap(), m);
    assert_eq!(reader.len(), 5);
}

#[test]
fn metadata_invalid_tags() {
    let mut bytes = metadata(b"a", b"b").encode_into_vec().unwrap();
    bytes[81] = 3;
    let mut reader = ByteReader::new(&bytes);
    assert!(matches!(
        Metadata::decode_from(&mut reader),
        Err(DecodeError::InvalidTag(("TableType", 3)))
    ));
    bytes[80] = 9;
    let mut reader = ByteReader::new(&bytes);
    assert!(matches!(
        Metadata::decode_from(&mut reader),
        Err(DecodeError::InvalidTag(("CompressionType", 9)))
    ));
}

#[test]
fn metadata_short_input() {
    let bytes = metadata(b"abc", b"def").encode_into_vec().unwrap();
    for len in [0, 97, 98, 99, 100, 102, bytes.len() - 1] {
        let mut reader = ByteReader::new(&bytes[..len]);
        assert!(matches!(
            Metadata::decode_from(&mut reader),
            Err(DecodeError::Io(_))
        ));
    }
}

#[test]
fn compression_tags() {
    assert_eq!(CompressionType::Uncompressed.tag(), 0);
    assert_eq!(CompressionType::Lz4.tag(), 1);
    assert_eq!(
        CompressionType::from_tag(0).unwrap(),
        CompressionType::Uncompressed
    );
    assert_eq!(CompressionType::from_tag(1).unwrap(), CompressionType::Lz4);
    assert!(matches!(
        CompressionType::from_tag(2),
        Err(DecodeError::InvalidTag(("CompressionType", 2)))
    ));
    assert_eq!(TableType::Block.tag(), 0);
    assert_eq!(TableType::from_tag(0).unwrap(), TableType::Block);
    assert!(matches!(
        TableType::from_tag(1),
        Err(DecodeError::InvalidTag(("TableType", 1)))
    ));
}

#[test]
fn trailer_has_256_bytes_and_ends_with_magic() {
    for keys in [(&b""[..], &b""[..]), (b"a", b"z"), (&[7; 57], &[8; 57])] {
        let bytes = trailer(keys.0, keys.1).encode_into_vec().unwrap();
        assert_eq!(bytes.len(), 256);
        assert_eq!(bytes.len(), TRAILER_SIZE);
        assert_eq!(&bytes[248..], b"LSMTTRL1");
        assert_eq!(&bytes[248..], &TRAILER_MAGIC);
    }
}

#[test]
fn trailer_layout() {
    let bytes = trailer(b"a", b"bc").encode_into_vec().unwrap();
    let meta = metadata(b"a", b"bc").encode_into_vec().unwrap();
    assert_eq!(&bytes[..meta.len()], &meta[..]);
    let mut offsets = vec![];
    for n in 13..=16u64 {
        offsets.extend(n.to_be_bytes());
    }
    assert_eq!(&bytes[meta.len()..meta.len() + 32], &offsets[..]);
    assert!(bytes[meta.len() + 32..248].iter().all(|b| *b == 0));
}

#[test]
fn trailer_round_trip() {
    for keys in [(&b""[..], &b""[..]), (b"a", b"z"), (&[7; 57], &[8; 57])] {
        let t = trailer(keys.0, keys.1);
        let bytes = t.encode_into_vec().unwrap();
        let mut reader = ByteReader::new(&bytes);
        assert_eq!(SegmentFileTrailer::decode_from(&mut reader).unwrap(), t);
    }
}

#[test]
fn trailer_appends_to_writer() {
    let mut out = vec![1, 2, 3];
    trailer(b"a", b"b").encode_into(&mut out).unwrap();
    assert_eq!(out.len(), 259);
    assert_eq!(&out[..3], &[1, 2, 3]);
}

#[test]
fn trailer_with_long_keys_loses_its_end() {
    let t = trailer(&[7; 100], &[8; 100]);
    let bytes = t.encode_into_vec().unwrap();
    assert_eq!(bytes.len(), 256);
    assert_eq!(&bytes[248..], b"LSMTTRL1");
    let mut reader = ByteReader::new(&bytes);
    assert!(SegmentFileTrailer::decode_from(&mut reader)
        .map(|read| read != t)
        .unwrap_or(true));
}

#[test]
fn trailer_short_input() {
    let bytes = trailer(b"a", b"b").encode_into_vec().unwrap();
    let meta_len = 98 + 6;
    let mut reader = ByteReader::new(&bytes[..meta_len + 31]);
    assert!(matches!(
        SegmentFileTrailer::decode_from(&mut reader),
        Err(DecodeError::Io(_))
    ));
    let mut reader = ByteReader::new(&bytes[..meta_len + 32]);
    assert!(SegmentFileTrailer::decode_from(&mut reader).is_ok());
}
