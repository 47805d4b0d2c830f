use lsm_tree::blob_tree::value::{MaybeInlineValue, ValueHandle};
use lsm_tree::coding::{
    get_u128, get_u32, get_u64, write_bytes, write_u128, write_u16, write_u32, write_u64,
    write_u8, ByteReader, Decode, DecodeError, Encode, EncodeError,
};
use lsm_tree::error::Error;

#[test]
fn integers_are_written_big_endian() {
    let mut v = vec![0xAA];
    write_u8(&mut v, 7);
    write_u16(&mut v, 0x0102);
    write_u32(&mut v, 0x0304_0506);
    write_u64(&mut v, 0x0708_090A_0B0C_0D0E);
    write_u128(&mut v, 0x1011_1213_1415_1617_1819_1A1B_1C1D_1E1F);
    write_bytes(&mut v, &[0xFE, 0xFF]);
    let mut expected = vec![0xAA, 7];
    expected.extend(1..=0x0Eu8);
    expected.extend(0x10..=0x1Fu8);
    expected.extend([0xFE, 0xFF]);
    assert_eq!(v, expected);
}

#[test]
fn byteorder_example_is_reproduced() {
    let mut v = Vec::new();
    write_u64(&mut v, 918733457491587);
    write_u64(&mut v, 143);
    assert_eq!(
        v,
        b"\x00\x03\x43\x95\x4d\x60\x86\x83\x00\x00\x00\x00\x00\x00\x00\x8f".to_vec()
    );
}

#[test]
fn reader_reads_big_endian_and_moves_on() {
    let bytes: Vec<u8> = (1..=20u8).collect();
    let mut reader = ByteReader::new(&bytes);
    assert_eq!(reader.len(), 20);
    assert_eq!(reader.read_u8().unwrap(), 1);
    assert_eq!(reader.read_u16().unwrap(), 0x0203);
    assert_eq!(reader.read_u32().unwrap(), 0x0405_0607);
    assert_eq!(reader.read_u64().unwrap(), 0x0809_0A0B_0C0D_0E0F);
    assert_eq!(reader.read_bytes(3).unwrap(), vec![16, 17, 18]);
    assert_eq!(reader.take(2).unwrap(), &[19, 20]);
    assert_eq!(reader.len(), 0);
}

#[test]
fn reader_fails_on_short_input_and_consumes_nothing() {
    let bytes = [1u8, 2, 3];
    let mut reader = ByteReader::new(&bytes);
    assert!(matches!(reader.read_u32(), Err(DecodeError::Io(_))));
    assert!(matches!(reader.read_u64(), Err(DecodeError::Io(_))));
    assert!(matches!(reader.read_bytes(4), Err(DecodeError::Io(_))));
    assert!(matches!(reader.take(4), Err(DecodeError::Io(_))));
    assert_eq!(reader.len(), 3);
    assert_eq!(reader.read_u16().unwrap(), 0x0102);
    assert_eq!(reader.read_u8().unwrap(), 3);
    assert!(matches!(reader.read_u8(), Err(DecodeError::Io(_))));
    assert!(matches!(reader.read_u16(), Err(DecodeError::Io(_))));
}

#[test]
fn short_read_is_unexpected_eof() {
    let mut reader = ByteReader::new(&[]);
    match reader.read_u8() {
        Err(DecodeError::Io(e)) => assert_eq!(e.kind(), std::io::ErrorKind::UnexpectedEof),
        _ => panic!("expected an I/O error"),
    }
}

#[test]
fn numbers_at_offsets() {
    let bytes: Vec<u8> = (0..32u8).collect();
    assert_eq!(get_u32(&bytes, 1), 0x0102_0304);
    assert_eq!(get_u64(&bytes, 2), 0x0203_0405_0607_0809);
    assert_eq!(
        get_u128(&bytes, 16),
        0x1011_1213_1415_1617_1819_1A1B_1C1D_1E1F
    );
}

#[test]
fn inline_value_bytes() {
    let v = MaybeInlineValue::Inline(b"abc".to_vec());
    assert_eq!(
        v.encode_into_vec().unwrap(),
        vec![0, 0, 0, 0, 3, b'a', b'b', b'c']
    );
}

#[test]
fn indirect_value_bytes() {
    let v = MaybeInlineValue::Indirect {
        handle: ValueHandle {
            segment_id: 0x0102,
            offset: 0x0304,
        },
        size: 0x0506,
    };
    assert_eq!(
        v.encode_into_vec().unwrap(),
        vec![1, 0, 0, 0, 0, 0, 0, 1, 2, 0, 0, 0, 0, 0, 0, 3, 4, 0, 0, 5, 6]
    );
}

#[test]
fn maybe_inline_round_trip() {
    let values = vec![
        MaybeInlineValue::Inline(vec![]),
        MaybeInlineValue::Inline(vec![9; 3000]),
        MaybeInlineValue::Indirect {
            handle: ValueHandle {
                segment_id: u64::MAX,
                offset: 77,
            },
            size: u32::MAX,
        },
    ];
    for v in values {
        let mut bytes = v.encode_into_vec().unwrap();
        let len = bytes.len();
        bytes.extend([1, 2, 3]);
        let mut reader = ByteReader::new(&bytes);
        assert_eq!(MaybeInlineValue::decode_from(&mut reader).unwrap(), v);
        assert_eq!(reader.len(), bytes.len() - len);
    }
}

#[test]
fn maybe_inline_invalid_tag() {
    let mut reader = ByteReader::new(&[2, 0, 0, 0, 0]);
    assert!(matches!(
        MaybeInlineValue::decode_from(&mut reader),
        Err(DecodeError::InvalidTag(("MaybeInlineValue", 2)))
    ));
}

#[test]
fn maybe_inline_short_input() {
    for bytes in [
        vec![],
        vec![0],
        vec![0, 0, 0, 0],
        vec![0, 0, 0, 0, 2, 1],
        vec![1, 0, 0, 0, 0, 0, 0, 0, 0, 0, 0, 0, 0, 0, 0, 0, 0, 0, 0, 0],
    ] {
        let mut reader = ByteReader::new(&bytes);
        assert!(matches!(
            MaybeInlineValue::decode_from(&mut reader),
            Err(DecodeError::Io(_))
        ));
    }
}

#[test]
fn errors_convert() {
    let io = || std::io::Error::from(std::io::ErrorKind::Other);
    assert!(matches!(EncodeError::from(io()), EncodeError::Io(_)));
    assert!(matches!(DecodeError::from(io()), DecodeError::Io(_)));
    let utf8 = std::str::from_utf8(&[0xFF]).unwrap_err();
    assert!(matches!(DecodeError::from(utf8), DecodeError::Utf8(_)));
    assert!(matches!(Error::from(io()), Error::Io(_)));
    assert!(matches!(
        Error::from(DecodeError::InvalidVersion),
        Error::Decode(DecodeError::InvalidVersion)
    ));
    assert!(matches!(
        Error::from(EncodeError::Io(io())),
        Error::Encode(EncodeError::Io(_))
    ));
}
