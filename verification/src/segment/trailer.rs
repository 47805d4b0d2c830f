//! The trailer: the last 256 bytes of a segment file.

use super::meta::{lemma_metadata_round_trip, Metadata, MetadataView, METADATA_FIXED_LEN};
use super::writer::FileOffsets;
use crate::byte_order::{be_bytes, lemma_be_bytes_len, lemma_byte_ranges, lemma_read_written};
use crate::coding::{
    u64_at, write_bytes, write_u64, ByteReader, Decode, DecodeError, DecodeFault, Encode,
    EncodeError,
};
use vstd::prelude::*;

verus! {

/// The bytes that end every trailer: `LSMTTRL1`.
pub const TRAILER_MAGIC: [u8; 8] = [0x4C, 0x53, 0x4D, 0x54, 0x54, 0x52, 0x4C, 0x31];

/// Length of a written trailer.
pub const TRAILER_SIZE: usize = 256;

/// Length of the four file offsets in a trailer.
pub const OFFSETS_LEN: usize = 32;

/// The bytes that end every trailer, as a sequence.
pub open spec fn trailer_magic() -> Seq<u8> {
    seq![0x4Cu8, 0x53u8, 0x4Du8, 0x54u8, 0x54u8, 0x52u8, 0x4Cu8, 0x31u8]
}

/// Metadata of a segment and the offsets of its parts, as the trailer of the
/// file holds them
#[derive(Debug, PartialEq, Eq)]
pub struct SegmentFileTrailer {
    pub metadata: Metadata,
    pub offsets: FileOffsets,
}

/// A trailer as a mathematical value.
pub struct TrailerView {
    pub metadata: MetadataView,
    pub offsets: FileOffsets,
}

impl View for SegmentFileTrailer {
    type V = TrailerView;

    open spec fn view(&self) -> TrailerView {
        TrailerView { metadata: self.metadata@, offsets: self.offsets }
    }
}

/// The four offsets, eight bytes each.
pub open spec fn encoded_offsets(o: FileOffsets) -> Seq<u8> {
    be_bytes(o.index_block_ptr as nat, 8) + be_bytes(o.tli_ptr as nat, 8) + be_bytes(
        o.bloom_ptr as nat,
        8,
    ) + be_bytes(o.range_tombstone_ptr as nat, 8)
}

/// What a trailer says: the metadata, then the offsets.
pub open spec fn trailer_payload(v: TrailerView) -> Seq<u8> {
    Metadata::encoded(v.metadata) + encoded_offsets(v.offsets)
}

/// `s` brought to the length `len`: cut there, or filled up with zeros.
pub open spec fn resized(s: Seq<u8>, len: nat) -> Seq<u8> {
    if s.len() >= len {
        s.take(len as int)
    } else {
        s + Seq::new((len - s.len()) as nat, |i: int| 0u8)
    }
}

/// Whether the trailer has room for all that `v` says. The keys of the key
/// range decide: together they may have 114 bytes.
pub open spec fn fits_trailer(v: TrailerView) -> bool {
    trailer_payload(v).len() <= TRAILER_SIZE - 8
}

impl Encode for SegmentFileTrailer {
    open spec fn encodable(v: TrailerView) -> bool {
        true
    }

    /// The payload brought to 248 bytes, then the magic bytes. A payload
    /// that is longer loses its end.
    open spec fn encoded(v: TrailerView) -> Seq<u8> {
        resized(trailer_payload(v), (TRAILER_SIZE - 8) as nat) + trailer_magic()
    }

    fn encode_into(&self, writer: &mut Vec<u8>) -> (r: Result<(), EncodeError>)
        ensures
            r is Ok,
            Self::encoded(self@).len() == TRAILER_SIZE,
    {
        let mut v: Vec<u8> = Vec::with_capacity(TRAILER_SIZE);
        match self.metadata.encode_into(&mut v) {
            Ok(()) => {},
            Err(e) => { return Err(e); },
        }
        write_u64(&mut v, self.offsets.index_block_ptr);
        write_u64(&mut v, self.offsets.tli_ptr);
        write_u64(&mut v, self.offsets.bloom_ptr);
        write_u64(&mut v, self.offsets.range_tombstone_ptr);
        assert(v@ =~= trailer_payload(self@));
        v.resize(TRAILER_SIZE - 8, 0);
        proof {
            let payload = trailer_payload(self@);
            if payload.len() < TRAILER_SIZE - 8 {
                assert(v@.subrange(0, payload.len() as int) == payload);
                assert(v@ =~= resized(payload, (TRAILER_SIZE - 8) as nat));
            }
        }
        write_bytes(&mut v, TRAILER_MAGIC.as_slice());
        assert(TRAILER_MAGIC@ =~= trailer_magic());
        assert(v@.len() == TRAILER_SIZE);
        write_bytes(writer, v.as_slice());
        Ok(())
    }
}

impl Decode for SegmentFileTrailer {
    /// The metadata, then four offsets of eight bytes each; an input that
    /// ends before the last of them is an I/O error. What follows them, the
    /// padding and the magic bytes, is not read.
    open spec fn decoded(input: Seq<u8>) -> Result<(TrailerView, nat), DecodeFault> {
        match Metadata::decoded(input) {
            Err(fault) => Err(fault),
            Ok((metadata, n)) => {
                let rest = input.skip(n as int);
                if rest.len() < OFFSETS_LEN {
                    Err(DecodeFault::Io)
                } else {
                    Ok(
                        (
                            TrailerView {
                                metadata,
                                offsets: FileOffsets {
                                    index_block_ptr: u64_at(rest, 0),
                                    tli_ptr: u64_at(rest, 8),
                                    bloom_ptr: u64_at(rest, 16),
                                    range_tombstone_ptr: u64_at(rest, 24),
                                },
                            },
                            n + OFFSETS_LEN as nat,
                        ),
                    )
                }
            },
        }
    }

    fn decode_from(reader: &mut ByteReader<'_>) -> (r: Result<Self, DecodeError>) {
        let ghost input = reader.remaining();
        let metadata = match Metadata::decode_from(reader) {
            Ok(m) => m,
            Err(e) => { return Err(e); },
        };
        let ghost rest = reader.remaining();
        let index_block_ptr: u64 = match reader.read_u64() {
            Ok(n) => n,
            Err(e) => { return Err(e); },
        };
        let tli_ptr: u64 = match reader.read_u64() {
            Ok(n) => n,
            Err(e) => { return Err(e); },
        };
        let bloom_ptr: u64 = match reader.read_u64() {
            Ok(n) => n,
            Err(e) => { return Err(e); },
        };
        let range_tombstone_ptr: u64 = match reader.read_u64() {
            Ok(n) => n,
            Err(e) => { return Err(e); },
        };
        proof {
            let n = Metadata::decoded(input)->Ok_0.1;
            assert(rest.take(8) =~= rest.subrange(0, 8));
            assert(rest.skip(8).take(8) =~= rest.subrange(8, 16));
            assert(rest.skip(8).skip(8).take(8) =~= rest.subrange(16, 24));
            assert(rest.skip(8).skip(8).skip(8).take(8) =~= rest.subrange(24, 32));
            assert(reader.remaining() =~= input.skip(n + OFFSETS_LEN));
        }
        Ok(
            SegmentFileTrailer {
                metadata,
                offsets: FileOffsets { index_block_ptr, tli_ptr, bloom_ptr, range_tombstone_ptr },
            },
        )
    }
}

/// What a trailer says takes 134 bytes and the bytes of the two keys.
pub proof fn lemma_payload_len(v: TrailerView)
    ensures
        trailer_payload(v).len() == METADATA_FIXED_LEN + 4 + OFFSETS_LEN
            + v.metadata.key_range.0.len() + v.metadata.key_range.1.len(),
{
    let o = v.offsets;
    crate::segment::meta::lemma_fixed_round_trip(v.metadata, v.metadata.key_range);
    lemma_be_bytes_len(v.metadata.key_range.0.len(), 2);
    lemma_be_bytes_len(v.metadata.key_range.1.len(), 2);
    lemma_be_bytes_len(o.index_block_ptr as nat, 8);
    lemma_be_bytes_len(o.tli_ptr as nat, 8);
    lemma_be_bytes_len(o.bloom_ptr as nat, 8);
    lemma_be_bytes_len(o.range_tombstone_ptr as nat, 8);
}

impl SegmentFileTrailer {
    /// Whether the trailer has room for all that it says, so that it can be
    /// read back as it is written.
    pub fn fits(&self) -> (r: bool)
        ensures
            r <==> fits_trailer(self@),
    {
        proof {
            lemma_payload_len(self@);
        }
        let room: usize = TRAILER_SIZE - 8 - METADATA_FIXED_LEN - 4 - OFFSETS_LEN;
        let min: usize = self.metadata.key_range.0.0.len();
        let max: usize = self.metadata.key_range.0.1.len();
        min <= room && max <= room - min
    }
}

/// A written trailer has 256 bytes, and it ends with the magic bytes.
pub proof fn lemma_trailer_len(v: TrailerView)
    ensures
        SegmentFileTrailer::encoded(v).len() == TRAILER_SIZE,
        SegmentFileTrailer::encoded(v).skip(TRAILER_SIZE - 8) == trailer_magic(),
{
    let padded = resized(trailer_payload(v), (TRAILER_SIZE - 8) as nat);
    assert(SegmentFileTrailer::encoded(v).skip(TRAILER_SIZE - 8) =~= trailer_magic());
}

/// A trailer that has room for what it says is read back as it was
/// written.
pub proof fn lemma_trailer_round_trip(v: TrailerView)
    requires
        fits_trailer(v),
    ensures
        SegmentFileTrailer::decoded(SegmentFileTrailer::encoded(v)) == Ok::<
            (TrailerView, nat),
            DecodeFault,
        >((v, trailer_payload(v).len())),
{
    let meta = Metadata::encoded(v.metadata);
    let o = v.offsets;
    let payload = trailer_payload(v);
    let written = SegmentFileTrailer::encoded(v);
    let f0 = be_bytes(o.index_block_ptr as nat, 8);
    let f1 = be_bytes(o.tli_ptr as nat, 8);
    let f2 = be_bytes(o.bloom_ptr as nat, 8);
    let f3 = be_bytes(o.range_tombstone_ptr as nat, 8);
    lemma_be_bytes_len(o.index_block_ptr as nat, 8);
    lemma_be_bytes_len(o.tli_ptr as nat, 8);
    lemma_be_bytes_len(o.bloom_ptr as nat, 8);
    lemma_be_bytes_len(o.range_tombstone_ptr as nat, 8);
    lemma_byte_ranges();
    let tail = Seq::new((TRAILER_SIZE - 8 - payload.len()) as nat, |i: int| 0u8) + trailer_magic();
    assert(written =~= meta + (encoded_offsets(o) + tail));
    crate::segment::meta::lemma_fixed_round_trip(v.metadata, v.metadata.key_range);
    lemma_be_bytes_len(v.metadata.key_range.0.len(), 2);
    lemma_be_bytes_len(v.metadata.key_range.1.len(), 2);
    lemma_metadata_round_trip(v.metadata, encoded_offsets(o) + tail);
    let rest = written.skip(meta.len() as int);
    assert(rest =~= encoded_offsets(o) + tail);
    let none = Seq::<u8>::empty();
    assert(u64_at(rest, 0) == o.index_block_ptr) by {
        assert(rest =~= none + f0 + (f1 + f2 + f3 + tail));
        lemma_read_written(none, o.index_block_ptr as nat, 8, f1 + f2 + f3 + tail);
    }
    assert(u64_at(rest, 8) == o.tli_ptr) by {
        assert(rest =~= f0 + f1 + (f2 + f3 + tail));
        lemma_read_written(f0, o.tli_ptr as nat, 8, f2 + f3 + tail);
    }
    assert(u64_at(rest, 16) == o.bloom_ptr) by {
        assert(rest =~= (f0 + f1) + f2 + (f3 + tail));
        lemma_read_written(f0 + f1, o.bloom_ptr as nat, 8, f3 + tail);
    }
    assert(u64_at(rest, 24) == o.range_tombstone_ptr) by {
        assert(rest =~= (f0 + f1 + f2) + f3 + tail);
        lemma_read_written(f0 + f1 + f2, o.range_tombstone_ptr as nat, 8, tail);
    }
}

} // verus!
