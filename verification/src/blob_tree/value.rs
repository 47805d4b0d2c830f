//! What the index tree of a key-value-separated tree stores for a key: the
//! value itself, or where the value log holds it.

use crate::byte_order::{
    be_bytes, lemma_be_bytes_len, lemma_be_bytes_mod, lemma_byte_ranges, lemma_read_written,
};
use crate::coding::{
    u32_at, u64_at, write_bytes, write_u32, write_u64, write_u8, ByteReader, Decode, DecodeError,
    DecodeFault, Encode, EncodeError,
};
use crate::UserValue;
use vstd::prelude::*;

verus! {

/// Where a blob lies in the value log: the blob file and the offset in it.
#[derive(Copy, Clone, Debug, PartialEq, Eq, Structural)]
pub struct ValueHandle {
    /// Segment (blob file) of the value log
    pub segment_id: u64,
    /// Offset in the file
    pub offset: u64,
}

/// A value that is stored inline, or a pointer to a blob
#[derive(Clone, Debug, PartialEq, Eq)]
pub enum MaybeInlineValue {
    /// Inlined value (classic LSM-tree)
    Inline(UserValue),
    /// The value is a handle (pointer) into the value log
    Indirect {
        handle: ValueHandle,
        size: u32,
    },
}

/// A [`MaybeInlineValue`] as a mathematical value.
pub enum MaybeInlineView {
    Inline(Seq<u8>),
    Indirect { handle: ValueHandle, size: u32 },
}

impl View for MaybeInlineValue {
    type V = MaybeInlineView;

    open spec fn view(&self) -> MaybeInlineView {
        match self {
            MaybeInlineValue::Inline(bytes) => MaybeInlineView::Inline(bytes@),
            MaybeInlineValue::Indirect { handle, size } => MaybeInlineView::Indirect {
                handle: *handle,
                size: *size,
            },
        }
    }
}

/// Tag byte of an inline value.
pub const TAG_INLINE: u8 = 0;

/// Tag byte of a handle.
pub const TAG_INDIRECT: u8 = 1;

/// Length of a written handle: tag, segment, offset, size.
pub const INDIRECT_LEN: usize = 21;

/// Length of what stands before the bytes of an inline value: tag and length.
pub const INLINE_HEADER_LEN: usize = 5;

impl Encode for MaybeInlineValue {
    open spec fn encodable(v: MaybeInlineView) -> bool {
        true
    }

    /// The tag byte; then for an inline value its length in four bytes and
    /// its bytes, for a handle the segment, the offset and the size.
    open spec fn encoded(v: MaybeInlineView) -> Seq<u8> {
        match v {
            MaybeInlineView::Inline(bytes) => seq![TAG_INLINE] + be_bytes(bytes.len(), 4) + bytes,
            MaybeInlineView::Indirect { handle, size } => seq![TAG_INDIRECT] + be_bytes(
                handle.segment_id as nat,
                8,
            ) + be_bytes(handle.offset as nat, 8) + be_bytes(size as nat, 4),
        }
    }

    fn encode_into(&self, writer: &mut Vec<u8>) -> (r: Result<(), EncodeError>)
        ensures
            r is Ok,
    {
        proof {
            reveal_with_fuel(be_bytes, 2);
        }
        match self {
            MaybeInlineValue::Inline(bytes) => {
                let len: u64 = (bytes.len() as u64) % 0x1_0000_0000;
                write_u8(writer, TAG_INLINE);
                write_u32(writer, len as u32);
                write_bytes(writer, bytes.as_slice());
                proof {
                    lemma_byte_ranges();
                    lemma_be_bytes_mod(bytes@.len(), 4);
                    assert(be_bytes(TAG_INLINE as nat, 1) =~= seq![TAG_INLINE]);
                }
            },
            MaybeInlineValue::Indirect { handle, size } => {
                write_u8(writer, TAG_INDIRECT);
                write_u64(writer, handle.segment_id);
                write_u64(writer, handle.offset);
                write_u32(writer, *size);
                proof {
                    assert(be_bytes(TAG_INDIRECT as nat, 1) =~= seq![TAG_INDIRECT]);
                }
            },
        }
        assert(writer@ =~= old(writer)@ + Self::encoded(self@));
        Ok(())
    }
}

impl Decode for MaybeInlineValue {
    /// Reads the tag, then what the tag announces. An input that ends too
    /// early is an I/O error, another tag an invalid tag.
    open spec fn decoded(input: Seq<u8>) -> Result<(MaybeInlineView, nat), DecodeFault> {
        if input.len() < 1 {
            Err(DecodeFault::Io)
        } else if input[0] == TAG_INLINE {
            if input.len() < INLINE_HEADER_LEN {
                Err(DecodeFault::Io)
            } else {
                let len = u32_at(input, 1) as nat;
                if input.len() < INLINE_HEADER_LEN + len {
                    Err(DecodeFault::Io)
                } else {
                    Ok(
                        (
                            MaybeInlineView::Inline(
                                input.subrange(
                                    INLINE_HEADER_LEN as int,
                                    INLINE_HEADER_LEN + len,
                                ),
                            ),
                            INLINE_HEADER_LEN as nat + len,
                        ),
                    )
                }
            }
        } else if input[0] == TAG_INDIRECT {
            if input.len() < INDIRECT_LEN {
                Err(DecodeFault::Io)
            } else {
                Ok(
                    (
                        MaybeInlineView::Indirect {
                            handle: ValueHandle {
                                segment_id: u64_at(input, 1),
                                offset: u64_at(input, 9),
                            },
                            size: u32_at(input, 17),
                        },
                        INDIRECT_LEN as nat,
                    ),
                )
            }
        } else {
            Err(DecodeFault::InvalidTag("MaybeInlineValue"@, input[0]))
        }
    }

    fn decode_from(reader: &mut ByteReader<'_>) -> (r: Result<Self, DecodeError>) {
        let ghost input = reader.remaining();
        let tag: u8 = match reader.read_u8() {
            Ok(t) => t,
            Err(e) => { return Err(e); },
        };
        if tag == TAG_INLINE {
            let len: u32 = match reader.read_u32() {
                Ok(n) => n,
                Err(e) => { return Err(e); },
            };
            proof {
                assert(input.skip(1).take(4) =~= input.subrange(1, 5));
            }
            let bytes = match reader.read_bytes(len as usize) {
                Ok(b) => b,
                Err(e) => { return Err(e); },
            };
            proof {
                assert(input.skip(1).skip(4) =~= input.skip(5));
                assert(bytes@ =~= input.subrange(5, 5 + len));
                assert(reader.remaining() =~= input.skip(5 + len));
            }
            Ok(MaybeInlineValue::Inline(bytes))
        } else if tag == TAG_INDIRECT {
            let segment_id: u64 = match reader.read_u64() {
                Ok(n) => n,
                Err(e) => { return Err(e); },
            };
            let offset: u64 = match reader.read_u64() {
                Ok(n) => n,
                Err(e) => { return Err(e); },
            };
            let size: u32 = match reader.read_u32() {
                Ok(n) => n,
                Err(e) => { return Err(e); },
            };
            proof {
                assert(input.skip(1).take(8) =~= input.subrange(1, 9));
                assert(input.skip(1).skip(8).take(8) =~= input.subrange(9, 17));
                assert(input.skip(1).skip(8).skip(8).take(4) =~= input.subrange(17, 21));
                assert(reader.remaining() =~= input.skip(21));
            }
            Ok(MaybeInlineValue::Indirect { handle: ValueHandle { segment_id, offset }, size })
        } else {
            Err(DecodeError::InvalidTag(("MaybeInlineValue", tag)))
        }
    }
}

/// An inline value of fewer than 2^32 bytes, and every handle, is read
/// back as it was written, whatever follows it.
pub proof fn lemma_maybe_inline_round_trip(v: MaybeInlineView, rest: Seq<u8>)
    requires
        v matches MaybeInlineView::Inline(bytes) ==> bytes.len() <= u32::MAX,
    ensures
        MaybeInlineValue::decoded(MaybeInlineValue::encoded(v) + rest) == Ok::<
            (MaybeInlineView, nat),
            DecodeFault,
        >((v, MaybeInlineValue::encoded(v).len())),
{
    let input = MaybeInlineValue::encoded(v) + rest;
    lemma_byte_ranges();
    match v {
        MaybeInlineView::Inline(bytes) => {
            let tag = seq![TAG_INLINE];
            lemma_be_bytes_len(bytes.len(), 4);
            assert(input =~= tag + be_bytes(bytes.len(), 4) + (bytes + rest));
            lemma_read_written(tag, bytes.len(), 4, bytes + rest);
            assert(input.subrange(5, 5 + bytes.len() as int) =~= bytes);
        },
        MaybeInlineView::Indirect { handle, size } => {
            let tag = seq![TAG_INDIRECT];
            let segment = be_bytes(handle.segment_id as nat, 8);
            let offset = be_bytes(handle.offset as nat, 8);
            let len = be_bytes(size as nat, 4);
            lemma_be_bytes_len(handle.segment_id as nat, 8);
            lemma_be_bytes_len(handle.offset as nat, 8);
            lemma_be_bytes_len(size as nat, 4);
            assert(u64_at(input, 1) == handle.segment_id) by {
                assert(input =~= tag + segment + (offset + len + rest));
                lemma_read_written(tag, handle.segment_id as nat, 8, offset + len + rest);
            }
            assert(u64_at(input, 9) == handle.offset) by {
                assert(input =~= (tag + segment) + offset + (len + rest));
                lemma_read_written(tag + segment, handle.offset as nat, 8, len + rest);
            }
            assert(u32_at(input, 17) == size) by {
                assert(input =~= (tag + segment + offset) + len + rest);
                lemma_read_written(tag + segment + offset, size as nat, 4, rest);
            }
        },
    }
}

} // verus!
