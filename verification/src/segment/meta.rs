//! What is known of a segment as a whole, and how it is written.

use crate::byte_order::{
    be_bytes, lemma_be_bytes_len, lemma_be_bytes_mod, lemma_byte_ranges, lemma_read_written,
};
use crate::coding::{
    get_u128, get_u32, get_u64, u128_at, u16_at, u32_at, u64_at, write_bytes, write_u128,
    write_u16, write_u32, write_u64, write_u8, ByteReader, Decode, DecodeError, DecodeFault,
    Encode, EncodeError,
};
use crate::value::clone_bytes;
use crate::{SegmentId, SeqNo, UserKey};
use vstd::prelude::*;

verus! {

/// Compression algorithm of the blocks of a segment
#[derive(Copy, Clone, Debug, PartialEq, Eq, Structural)]
pub enum CompressionType {
    /// No compression
    Uncompressed,
    /// LZ4 compression
    Lz4,
}

impl CompressionType {
    /// The byte that stands for the type.
    pub open spec fn spec_tag(self) -> u8 {
        match self {
            CompressionType::Uncompressed => 0,
            CompressionType::Lz4 => 1,
        }
    }

    /// The type that a byte stands for, if any.
    pub open spec fn of_tag(tag: u8) -> Option<CompressionType> {
        if tag == 0 {
            Some(CompressionType::Uncompressed)
        } else if tag == 1 {
            Some(CompressionType::Lz4)
        } else {
            None
        }
    }

    pub fn tag(self) -> (t: u8)
        ensures
            t == self.spec_tag(),
    {
        match self {
            CompressionType::Uncompressed => 0,
            CompressionType::Lz4 => 1,
        }
    }

    pub fn from_tag(tag: u8) -> (r: Result<Self, DecodeError>)
        ensures
            match r {
                Ok(c) => Self::of_tag(tag) == Some(c),
                Err(e) => Self::of_tag(tag) is None && e@ == DecodeFault::InvalidTag(
                    "CompressionType"@,
                    tag,
                ),
            },
    {
        if tag == 0 {
            Ok(CompressionType::Uncompressed)
        } else if tag == 1 {
            Ok(CompressionType::Lz4)
        } else {
            Err(DecodeError::InvalidTag(("CompressionType", tag)))
        }
    }
}

/// Layout of a segment
#[derive(Copy, Clone, Debug, PartialEq, Eq, Structural)]
pub enum TableType {
    /// Data blocks with a block index
    Block,
}

impl TableType {
    /// The byte that stands for the type.
    pub open spec fn spec_tag(self) -> u8 {
        0
    }

    /// The type that a byte stands for, if any.
    pub open spec fn of_tag(tag: u8) -> Option<TableType> {
        if tag == 0 {
            Some(TableType::Block)
        } else {
            None
        }
    }

    pub fn tag(self) -> (t: u8)
        ensures
            t == self.spec_tag(),
    {
        0
    }

    pub fn from_tag(tag: u8) -> (r: Result<Self, DecodeError>)
        ensures
            match r {
                Ok(c) => Self::of_tag(tag) == Some(c),
                Err(e) => Self::of_tag(tag) is None && e@ == DecodeFault::InvalidTag(
                    "TableType"@,
                    tag,
                ),
            },
    {
        if tag == 0 {
            Ok(TableType::Block)
        } else {
            Err(DecodeError::InvalidTag(("TableType", tag)))
        }
    }
}

/// The lowest and the highest user key of a segment
#[derive(Debug, PartialEq, Eq)]
pub struct KeyRange(pub (UserKey, UserKey));

impl View for KeyRange {
    type V = (Seq<u8>, Seq<u8>);

    open spec fn view(&self) -> (Seq<u8>, Seq<u8>) {
        (self.0.0@, self.0.1@)
    }
}

impl KeyRange {
    pub fn new(range: (UserKey, UserKey)) -> (r: Self)
        ensures
            r@ == (range.0@, range.1@),
    {
        KeyRange(range)
    }
}

impl Clone for KeyRange {
    fn clone(&self) -> (r: Self)
        ensures
            r@ == self@,
    {
        KeyRange((clone_bytes(&self.0.0), clone_bytes(&self.0.1)))
    }
}

/// Metadata of a segment
#[derive(Debug, PartialEq, Eq)]
pub struct Metadata {
    /// Segment ID
    pub id: SegmentId,
    /// Creation time as unix timestamp (in µs)
    pub created_at: u128,
    /// Number of items in the segment; this may include tombstones and
    /// several versions of one key
    pub item_count: u64,
    /// Number of unique keys in the segment
    pub key_count: u64,
    /// Number of tombstones
    pub tombstone_count: u64,
    /// Number of range tombstones
    pub range_tombstone_count: u64,
    /// Compressed size in bytes (on disk)
    pub file_size: u64,
    /// True size in bytes (if no compression were used)
    pub uncompressed_size: u64,
    /// Block size (uncompressed)
    pub block_size: u32,
    /// Number of written blocks
    pub block_count: u32,
    /// What type of compression is used
    pub compression: CompressionType,
    /// Type of table (unused)
    pub table_type: TableType,
    /// Sequence number range
    pub seqnos: (SeqNo, SeqNo),
    /// Key range
    pub key_range: KeyRange,
}

/// The metadata of a segment as a mathematical value.
pub struct MetadataView {
    pub id: SegmentId,
    pub created_at: u128,
    pub item_count: u64,
    pub key_count: u64,
    pub tombstone_count: u64,
    pub range_tombstone_count: u64,
    pub file_size: u64,
    pub uncompressed_size: u64,
    pub block_size: u32,
    pub block_count: u32,
    pub compression: CompressionType,
    pub table_type: TableType,
    pub seqnos: (SeqNo, SeqNo),
    pub key_range: (Seq<u8>, Seq<u8>),
}

impl View for Metadata {
    type V = MetadataView;

    open spec fn view(&self) -> MetadataView {
        MetadataView {
            id: self.id,
            created_at: self.created_at,
            item_count: self.item_count,
            key_count: self.key_count,
            tombstone_count: self.tombstone_count,
            range_tombstone_count: self.range_tombstone_count,
            file_size: self.file_size,
            uncompressed_size: self.uncompressed_size,
            block_size: self.block_size,
            block_count: self.block_count,
            compression: self.compression,
            table_type: self.table_type,
            seqnos: self.seqnos,
            key_range: self.key_range@,
        }
    }
}

impl Clone for Metadata {
    fn clone(&self) -> (r: Self)
        ensures
            r@ == self@,
    {
        Metadata {
            id: self.id,
            created_at: self.created_at,
            item_count: self.item_count,
            key_count: self.key_count,
            tombstone_count: self.tombstone_count,
            range_tombstone_count: self.range_tombstone_count,
            file_size: self.file_size,
            uncompressed_size: self.uncompressed_size,
            block_size: self.block_size,
            block_count: self.block_count,
            compression: self.compression,
            table_type: self.table_type,
            seqnos: self.seqnos,
            key_range: self.key_range.clone(),
        }
    }
}

/// Length of the part of written metadata that has a fixed layout: all but
/// the key range.
pub const METADATA_FIXED_LEN: usize = 98;

/// A key with its length in two bytes before it. Of a length that two bytes
/// cannot hold, the low-order part is written.
pub open spec fn encoded_key(key: Seq<u8>) -> Seq<u8> {
    be_bytes(key.len(), 2) + key
}

/// The part of written metadata with a fixed layout: the numbers most
/// significant byte first, each type as its tag.
pub open spec fn encoded_fixed(v: MetadataView) -> Seq<u8> {
    be_bytes(v.id as nat, 8) + be_bytes(v.created_at as nat, 16) + be_bytes(v.item_count as nat, 8)
        + be_bytes(v.key_count as nat, 8) + be_bytes(v.tombstone_count as nat, 8) + be_bytes(
        v.range_tombstone_count as nat,
        8,
    ) + be_bytes(v.file_size as nat, 8) + be_bytes(v.uncompressed_size as nat, 8) + be_bytes(
        v.block_size as nat,
        4,
    ) + be_bytes(v.block_count as nat, 4) + seq![v.compression.spec_tag()] + seq![
        v.table_type.spec_tag(),
    ] + be_bytes(v.seqnos.0 as nat, 8) + be_bytes(v.seqnos.1 as nat, 8)
}

/// What the front of `input` holds as a key with its length before it.
pub open spec fn decoded_key(input: Seq<u8>) -> Result<(Seq<u8>, nat), DecodeFault> {
    if input.len() < 2 {
        Err(DecodeFault::Io)
    } else {
        let len = u16_at(input, 0) as nat;
        if input.len() < 2 + len {
            Err(DecodeFault::Io)
        } else {
            Ok((input.subrange(2, 2 + len as int), 2 + len))
        }
    }
}

/// The metadata that `head`, the part with a fixed layout, and a key range
/// make up, if both tags in `head` are known.
pub open spec fn decoded_fixed(head: Seq<u8>, key_range: (Seq<u8>, Seq<u8>)) -> Result<
    MetadataView,
    DecodeFault,
> {
    match CompressionType::of_tag(head[80]) {
        None => Err(DecodeFault::InvalidTag("CompressionType"@, head[80])),
        Some(compression) => match TableType::of_tag(head[81]) {
            None => Err(DecodeFault::InvalidTag("TableType"@, head[81])),
            Some(table_type) => Ok(
                MetadataView {
                    id: u64_at(head, 0),
                    created_at: u128_at(head, 8),
                    item_count: u64_at(head, 24),
                    key_count: u64_at(head, 32),
                    tombstone_count: u64_at(head, 40),
                    range_tombstone_count: u64_at(head, 48),
                    file_size: u64_at(head, 56),
                    uncompressed_size: u64_at(head, 64),
                    block_size: u32_at(head, 72),
                    block_count: u32_at(head, 76),
                    compression,
                    table_type,
                    seqnos: (u64_at(head, 82), u64_at(head, 90)),
                    key_range,
                },
            ),
        },
    }
}

impl Encode for Metadata {
    open spec fn encodable(v: MetadataView) -> bool {
        true
    }

    /// The part with a fixed layout, then the lowest and the highest key.
    open spec fn encoded(v: MetadataView) -> Seq<u8> {
        encoded_fixed(v) + encoded_key(v.key_range.0) + encoded_key(v.key_range.1)
    }

    fn encode_into(&self, writer: &mut Vec<u8>) -> (r: Result<(), EncodeError>)
        ensures
            r is Ok,
    {
        write_u64(writer, self.id);
        write_u128(writer, self.created_at);
        write_u64(writer, self.item_count);
        write_u64(writer, self.key_count);
        write_u64(writer, self.tombstone_count);
        write_u64(writer, self.range_tombstone_count);
        write_u64(writer, self.file_size);
        write_u64(writer, self.uncompressed_size);
        write_u32(writer, self.block_size);
        write_u32(writer, self.block_count);
        write_u8(writer, self.compression.tag());
        write_u8(writer, self.table_type.tag());
        write_u64(writer, self.seqnos.0);
        write_u64(writer, self.seqnos.1);
        proof {
            reveal_with_fuel(be_bytes, 2);
            assert(be_bytes(self.compression.spec_tag() as nat, 1) =~= seq![
                self.compression.spec_tag(),
            ]);
            assert(be_bytes(self.table_type.spec_tag() as nat, 1) =~= seq![
                self.table_type.spec_tag(),
            ]);
            assert(writer@ =~= old(writer)@ + encoded_fixed(self@));
        }
        write_key(writer, &self.key_range.0.0);
        write_key(writer, &self.key_range.0.1);
        assert(writer@ =~= old(writer)@ + Self::encoded(self@));
        Ok(())
    }
}

/// Appends a key with its length before it.
fn write_key(writer: &mut Vec<u8>, key: &Vec<u8>)
    ensures
        final(writer)@ == old(writer)@ + encoded_key(key@),
{
    let len: u64 = (key.len() as u64) % 0x1_0000;
    write_u16(writer, len as u16);
    write_bytes(writer, key.as_slice());
    proof {
        lemma_byte_ranges();
        lemma_be_bytes_mod(key@.len(), 2);
        assert(writer@ =~= old(writer)@ + encoded_key(key@));
    }
}

/// Reads a key with its length before it.
fn read_key(reader: &mut ByteReader<'_>) -> (r: Result<Vec<u8>, DecodeError>)
    ensures
        match r {
            Ok(key) => decoded_key(old(reader).remaining()) matches Ok((k, n)) && k == key@ && n
                <= old(reader).remaining().len() && final(reader).remaining() == old(
                reader,
            ).remaining().skip(n as int),
            Err(e) => decoded_key(old(reader).remaining()) == Err::<(Seq<u8>, nat), _>(e@),
        },
{
    let ghost input = reader.remaining();
    let len: u16 = match reader.read_u16() {
        Ok(n) => n,
        Err(e) => { return Err(e); },
    };
    proof {
        assert(input.take(2) =~= input.subrange(0, 2));
    }
    match reader.read_bytes(len as usize) {
        Ok(key) => {
            proof {
                assert(key@ =~= input.subrange(2, 2 + len));
                assert(reader.remaining() =~= input.skip(2 + len));
            }
            Ok(key)
        },
        Err(e) => Err(e),
    }
}

impl Decode for Metadata {
    /// An input shorter than the fixed part is an I/O error; then come the
    /// compression tag, the table tag and the two keys, and the first of
    /// them that is wrong decides the error.
    open spec fn decoded(input: Seq<u8>) -> Result<(MetadataView, nat), DecodeFault> {
        if input.len() < METADATA_FIXED_LEN {
            Err(DecodeFault::Io)
        } else {
            let head = input.subrange(0, METADATA_FIXED_LEN as int);
            match decoded_fixed(head, (Seq::empty(), Seq::empty())) {
                Err(fault) => Err(fault),
                Ok(_) => match decoded_key(input.skip(METADATA_FIXED_LEN as int)) {
                    Err(fault) => Err(fault),
                    Ok((min, n)) => match decoded_key(
                        input.skip(METADATA_FIXED_LEN as int).skip(n as int),
                    ) {
                        Err(fault) => Err(fault),
                        Ok((max, m)) => match decoded_fixed(head, (min, max)) {
                            Err(fault) => Err(fault),
                            Ok(v) => Ok((v, METADATA_FIXED_LEN as nat + n + m)),
                        },
                    },
                },
            }
        }
    }

    fn decode_from(reader: &mut ByteReader<'_>) -> (r: Result<Self, DecodeError>) {
        let ghost input = reader.remaining();
        let head = match reader.take(METADATA_FIXED_LEN) {
            Ok(bytes) => bytes,
            Err(e) => { return Err(e); },
        };
        proof {
            assert(head@ =~= input.subrange(0, METADATA_FIXED_LEN as int));
        }
        let compression = match CompressionType::from_tag(head[80]) {
            Ok(c) => c,
            Err(e) => { return Err(e); },
        };
        let table_type = match TableType::from_tag(head[81]) {
            Ok(t) => t,
            Err(e) => { return Err(e); },
        };
        let ghost after_head = reader.remaining();
        let min = match read_key(reader) {
            Ok(key) => key,
            Err(e) => { return Err(e); },
        };
        let ghost after_min = reader.remaining();
        let max = match read_key(reader) {
            Ok(key) => key,
            Err(e) => { return Err(e); },
        };
        proof {
            let n = decoded_key(after_head)->Ok_0.1;
            let m = decoded_key(after_min)->Ok_0.1;
            assert(reader.remaining() =~= input.skip(METADATA_FIXED_LEN + n + m));
        }
        Ok(
            Metadata {
                id: get_u64(head, 0),
                created_at: get_u128(head, 8),
                item_count: get_u64(head, 24),
                key_count: get_u64(head, 32),
                tombstone_count: get_u64(head, 40),
                range_tombstone_count: get_u64(head, 48),
                file_size: get_u64(head, 56),
                uncompressed_size: get_u64(head, 64),
                block_size: get_u32(head, 72),
                block_count: get_u32(head, 76),
                compression,
                table_type,
                seqnos: (get_u64(head, 82), get_u64(head, 90)),
                key_range: KeyRange((min, max)),
            },
        )
    }
}

/// The part of written metadata with a fixed layout has its length, and
/// each number is read back from its place in it.
pub proof fn lemma_fixed_round_trip(v: MetadataView, key_range: (Seq<u8>, Seq<u8>))
    ensures
        encoded_fixed(v).len() == METADATA_FIXED_LEN,
        decoded_fixed(encoded_fixed(v), key_range) == Ok::<MetadataView, DecodeFault>(
            MetadataView { key_range, ..v },
        ),
{
    let f0 = be_bytes(v.id as nat, 8);
    let f1 = be_bytes(v.created_at as nat, 16);
    let f2 = be_bytes(v.item_count as nat, 8);
    let f3 = be_bytes(v.key_count as nat, 8);
    let f4 = be_bytes(v.tombstone_count as nat, 8);
    let f5 = be_bytes(v.range_tombstone_count as nat, 8);
    let f6 = be_bytes(v.file_size as nat, 8);
    let f7 = be_bytes(v.uncompressed_size as nat, 8);
    let f8 = be_bytes(v.block_size as nat, 4);
    let f9 = be_bytes(v.block_count as nat, 4);
    let f10 = seq![v.compression.spec_tag()];
    let f11 = seq![v.table_type.spec_tag()];
    let f12 = be_bytes(v.seqnos.0 as nat, 8);
    let f13 = be_bytes(v.seqnos.1 as nat, 8);
    lemma_be_bytes_len(v.id as nat, 8);
    lemma_be_bytes_len(v.created_at as nat, 16);
    lemma_be_bytes_len(v.item_count as nat, 8);
    lemma_be_bytes_len(v.key_count as nat, 8);
    lemma_be_bytes_len(v.tombstone_count as nat, 8);
    lemma_be_bytes_len(v.range_tombstone_count as nat, 8);
    lemma_be_bytes_len(v.file_size as nat, 8);
    lemma_be_bytes_len(v.uncompressed_size as nat, 8);
    lemma_be_bytes_len(v.block_size as nat, 4);
    lemma_be_bytes_len(v.block_count as nat, 4);
    lemma_be_bytes_len(v.seqnos.0 as nat, 8);
    lemma_be_bytes_len(v.seqnos.1 as nat, 8);
    lemma_byte_ranges();
    let s = encoded_fixed(v);
    assert(s.len() == METADATA_FIXED_LEN);
    let none = Seq::<u8>::empty();
    assert(u64_at(s, 0) == v.id) by {
        let after = f1 + f2 + f3 + f4 + f5 + f6 + f7 + f8 + f9 + f10 + f11 + f12 + f13;
        assert(s =~= none + f0 + after);
        lemma_read_written(none, v.id as nat, 8, after);
    }
    assert(u128_at(s, 8) == v.created_at) by {
        let after = f2 + f3 + f4 + f5 + f6 + f7 + f8 + f9 + f10 + f11 + f12 + f13;
        assert(s =~= f0 + f1 + after);
        lemma_read_written(f0, v.created_at as nat, 16, after);
    }
    assert(u64_at(s, 24) == v.item_count) by {
        let before = f0 + f1;
        let after = f3 + f4 + f5 + f6 + f7 + f8 + f9 + f10 + f11 + f12 + f13;
        assert(s =~= before + f2 + after);
        lemma_read_written(before, v.item_count as nat, 8, after);
    }
    assert(u64_at(s, 32) == v.key_count) by {
        let before = f0 + f1 + f2;
        let after = f4 + f5 + f6 + f7 + f8 + f9 + f10 + f11 + f12 + f13;
        assert(s =~= before + f3 + after);
        lemma_read_written(before, v.key_count as nat, 8, after);
    }
    assert(u64_at(s, 40) == v.tombstone_count) by {
        let before = f0 + f1 + f2 + f3;
        let after = f5 + f6 + f7 + f8 + f9 + f10 + f11 + f12 + f13;
        assert(s =~= before + f4 + after);
        lemma_read_written(before, v.tombstone_count as nat, 8, after);
    }
    assert(u64_at(s, 48) == v.range_tombstone_count) by {
        let before = f0 + f1 + f2 + f3 + f4;
        let after = f6 + f7 + f8 + f9 + f10 + f11 + f12 + f13;
        assert(s =~= before + f5 + after);
        lemma_read_written(before, v.range_tombstone_count as nat, 8, after);
    }
    assert(u64_at(s, 56) == v.file_size) by {
        let before = f0 + f1 + f2 + f3 + f4 + f5;
        let after = f7 + f8 + f9 + f10 + f11 + f12 + f13;
        assert(s =~= before + f6 + after);
        lemma_read_written(before, v.file_size as nat, 8, after);
    }
    assert(u64_at(s, 64) == v.uncompressed_size) by {
        let before = f0 + f1 + f2 + f3 + f4 + f5 + f6;
        let after = f8 + f9 + f10 + f11 + f12 + f13;
        assert(s =~= before + f7 + after);
        lemma_read_written(before, v.uncompressed_size as nat, 8, after);
    }
    assert(u32_at(s, 72) == v.block_size) by {
        let before = f0 + f1 + f2 + f3 + f4 + f5 + f6 + f7;
        let after = f9 + f10 + f11 + f12 + f13;
        assert(s =~= before + f8 + after);
        lemma_read_written(before, v.block_size as nat, 4, after);
    }
    assert(u32_at(s, 76) == v.block_count) by {
        let before = f0 + f1 + f2 + f3 + f4 + f5 + f6 + f7 + f8;
        let after = f10 + f11 + f12 + f13;
        assert(s =~= before + f9 + after);
        lemma_read_written(before, v.block_count as nat, 4, after);
    }
    assert(s[80] == v.compression.spec_tag());
    assert(s[81] == v.table_type.spec_tag());
    assert(u64_at(s, 82) == v.seqnos.0) by {
        let before = f0 + f1 + f2 + f3 + f4 + f5 + f6 + f7 + f8 + f9 + f10 + f11;
        assert(s =~= before + f12 + f13);
        lemma_read_written(before, v.seqnos.0 as nat, 8, f13);
    }
    assert(u64_at(s, 90) == v.seqnos.1) by {
        let before = f0 + f1 + f2 + f3 + f4 + f5 + f6 + f7 + f8 + f9 + f10 + f11 + f12;
        assert(s =~= before + f13 + none);
        lemma_read_written(before, v.seqnos.1 as nat, 8, none);
    }
}

/// A key of at most 65535 bytes is read back as it was written, whatever
/// follows it.
pub proof fn lemma_key_round_trip(key: Seq<u8>, rest: Seq<u8>)
    requires
        key.len() <= u16::MAX,
    ensures
        encoded_key(key).len() == 2 + key.len(),
        decoded_key(encoded_key(key) + rest) == Ok::<(Seq<u8>, nat), DecodeFault>(
            (key, 2 + key.len()),
        ),
{
    let input = encoded_key(key) + rest;
    lemma_be_bytes_len(key.len(), 2);
    lemma_byte_ranges();
    lemma_read_written(Seq::empty(), key.len(), 2, key + rest);
    assert(input =~= Seq::<u8>::empty() + be_bytes(key.len(), 2) + (key + rest));
    assert(input.subrange(2, 2 + key.len() as int) =~= key);
}

/// Metadata whose keys have at most 65535 bytes each is read back as it was
/// written, whatever follows it.
pub proof fn lemma_metadata_round_trip(v: MetadataView, rest: Seq<u8>)
    requires
        v.key_range.0.len() <= u16::MAX,
        v.key_range.1.len() <= u16::MAX,
    ensures
        Metadata::encoded(v).len() == METADATA_FIXED_LEN + 4 + v.key_range.0.len()
            + v.key_range.1.len(),
        Metadata::decoded(Metadata::encoded(v) + rest) == Ok::<(MetadataView, nat), DecodeFault>(
            (v, Metadata::encoded(v).len()),
        ),
{
    let input = Metadata::encoded(v) + rest;
    let min = v.key_range.0;
    let max = v.key_range.1;
    lemma_fixed_round_trip(v, (Seq::empty(), Seq::empty()));
    lemma_fixed_round_trip(v, v.key_range);
    lemma_key_round_trip(min, encoded_key(max) + rest);
    lemma_key_round_trip(max, rest);
    assert(input.subrange(0, METADATA_FIXED_LEN as int) =~= encoded_fixed(v));
    assert(input.skip(METADATA_FIXED_LEN as int) =~= encoded_key(min) + (encoded_key(max) + rest));
    assert(input.skip(METADATA_FIXED_LEN as int).skip(2 + min.len() as int) =~= encoded_key(max) + rest);
}

} // verus!
