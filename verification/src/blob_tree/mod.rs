//! Key-value separation: what a tree with a value log decides about the
//! values that its index tree stores. Reading and writing the value log is
//! left to the caller; the decisions before and after are made here.

use crate::coding::{ByteReader, Decode, DecodeError, Encode};
use crate::error::Error;
use crate::memtable::MemTable;
use crate::value::{EntryView, KeyView, Value, ValueType};
use crate::{SeqNo, UserKey, UserValue};
use value::{MaybeInlineValue, MaybeInlineView, ValueHandle};
use vstd::prelude::*;
use vstd::slice::slice_to_vec;

pub mod value;

verus! {

/// Values of fewer bytes than this stay in the index tree, unless the
/// caller sets another threshold.
pub const DEFAULT_BLOB_THRESHOLD: u64 = 2048;

/// What an index tree stores for a value that stays inline.
pub open spec fn inline_bytes(value: Seq<u8>) -> Seq<u8> {
    MaybeInlineValue::encoded(MaybeInlineView::Inline(value))
}

/// What an index tree stores for a value that the value log holds.
pub open spec fn indirect_bytes(handle: ValueHandle, size: u32) -> Seq<u8> {
    MaybeInlineValue::encoded(MaybeInlineView::Indirect { handle, size })
}

/// The bytes that the index tree stores for a value that is written
/// inline, as every value is at first.
pub fn inline_value(value: &[u8]) -> (r: Vec<u8>)
    ensures
        r@ == inline_bytes(value@),
{
    let item = MaybeInlineValue::Inline(slice_to_vec(value));
    let mut out: Vec<u8> = Vec::new();
    let _ = item.encode_into(&mut out);
    assert(out@ =~= inline_bytes(value@));
    out
}

/// The bytes that the index tree stores for a value of `size` bytes that
/// lies in the value log at `handle`.
pub fn indirect_value(handle: ValueHandle, size: u32) -> (r: Vec<u8>)
    ensures
        r@ == indirect_bytes(handle, size),
{
    let item = MaybeInlineValue::Indirect { handle, size };
    let mut out: Vec<u8> = Vec::new();
    let _ = item.encode_into(&mut out);
    assert(out@ =~= indirect_bytes(handle, size));
    out
}

/// Reads what the index tree stores for a key. What follows the value in
/// `stored` is not looked at.
pub fn parse_stored(stored: &[u8]) -> (r: Result<MaybeInlineValue, DecodeError>)
    ensures
        match r {
            Ok(v) => MaybeInlineValue::decoded(stored@) matches Ok((w, _)) && w == v@,
            Err(e) => MaybeInlineValue::decoded(stored@) == Err::<(MaybeInlineView, nat), _>(e@),
        },
{
    let mut reader = ByteReader::new(stored);
    MaybeInlineValue::decode_from(&mut reader)
}

/// Writes a value into the memtable of the index tree: inline, whatever its
/// size. A flush separates the large values later.
pub fn raw_insert(
    memtable: &mut MemTable,
    key: &[u8],
    value: &[u8],
    seqno: SeqNo,
    value_type: ValueType,
) -> (r: (u32, u32))
    ensures
        final(memtable)@ == old(memtable)@.insert(
            KeyView { user_key: key@, seqno, value_type },
            inline_bytes(value@),
        ),
        r.0 == Value::spec_size(
            EntryView { key: key@, value: inline_bytes(value@), seqno, value_type },
        ) % 0x1_0000_0000,
        r.1 == (old(memtable).spec_size() + r.0) % 0x1_0000_0000,
        final(memtable).spec_size() == r.1,
{
    // NOTE: Initially, we always write an inline value
    // On memtable flush, depending on the values' sizes, they will be separated
    // into inline or indirect values
    let stored = inline_value(value);
    let item = Value::new(slice_to_vec(key), stored, seqno, value_type);
    memtable.insert(item)
}

/// What a flush does with one entry of the memtable.
#[derive(Debug, PartialEq, Eq)]
pub enum Separation {
    /// The entry goes into the segment with these bytes as its value: the
    /// value stays inline.
    Inline(Vec<u8>),
    /// The value goes into the value log; what the segment gets is known
    /// when the value log has said where it put the value.
    Blob {
        value: UserValue,
        size: u32,
    },
    /// The memtable held a handle already. Values are written inline at
    /// first, so this never happens to a memtable that `raw_insert` filled.
    AlreadyIndirect,
}

/// What a flush does with what the memtable holds for a key: a value of
/// fewer than `threshold` bytes stays inline, a larger one goes into the
/// value log. The size of a blob is counted in 32 bits.
pub fn separate(stored: &[u8], threshold: u64) -> (r: Result<Separation, DecodeError>)
    ensures
        match MaybeInlineValue::decoded(stored@) {
            Err(fault) => r matches Err(e) && e@ == fault,
            Ok((MaybeInlineView::Inline(bytes), _)) => if bytes.len() < threshold {
                r matches Ok(Separation::Inline(kept)) && kept@ == inline_bytes(bytes)
            } else {
                r matches Ok(Separation::Blob { value, size }) && value@ == bytes && size
                    == bytes.len() % 0x1_0000_0000
            },
            Ok((MaybeInlineView::Indirect { .. }, _)) => r == Ok::<_, DecodeError>(
                Separation::AlreadyIndirect,
            ),
        },
{
    match parse_stored(stored) {
        Err(e) => Err(e),
        Ok(MaybeInlineValue::Indirect { .. }) => Ok(Separation::AlreadyIndirect),
        Ok(MaybeInlineValue::Inline(value)) => {
            let len: u64 = value.len() as u64;
            if len < threshold {
                Ok(Separation::Inline(inline_value(value.as_slice())))
            } else {
                let size: u64 = len % 0x1_0000_0000;
                Ok(Separation::Blob { value, size: size as u32 })
            }
        },
    }
}

/// What a scan for the statistics of the value log takes from one entry
/// of the index tree: the handle and the size of a value that lies in the
/// value log, nothing of an inline value, and the error of an entry that
/// cannot be read.
pub fn gc_scan_entry(stored: &[u8]) -> (r: Option<Result<(ValueHandle, u32), DecodeError>>)
    ensures
        match MaybeInlineValue::decoded(stored@) {
            Err(fault) => r matches Some(Err(e)) && e@ == fault,
            Ok((MaybeInlineView::Inline(_), _)) => r is None,
            Ok((MaybeInlineView::Indirect { handle, size }, _)) => r == Some(
                Ok::<_, DecodeError>((handle, size)),
            ),
        },
{
    match parse_stored(stored) {
        Err(e) => Some(Err(e)),
        Ok(MaybeInlineValue::Inline(_)) => None,
        Ok(MaybeInlineValue::Indirect { handle, size }) => Some(Ok((handle, size))),
    }
}

/// How far a read has come that may have to go to the value log.
#[derive(Debug)]
pub enum Resolve {
    /// The read is done, with this item or this error.
    Done(Result<(UserKey, UserValue), Error>),
    /// The value of `key` lies in the value log at `handle`.
    Fetch {
        key: UserKey,
        handle: ValueHandle,
    },
}

/// Turns an item of the index tree into an item for the user: an error
/// stays, an inline value is unpacked, and for a handle the value log has
/// to be asked.
pub fn resolve_value_handle(item: Result<(UserKey, UserValue), Error>) -> (r: Resolve)
    ensures
        match item {
            Err(e) => r == Resolve::Done(Err(e)),
            Ok((key, stored)) => match MaybeInlineValue::decoded(stored@) {
                Err(fault) => r matches Resolve::Done(Err(Error::Decode(e))) && e@ == fault,
                Ok((MaybeInlineView::Inline(bytes), _)) => r matches Resolve::Done(Ok((k, v)))
                    && k == key && v@ == bytes,
                Ok((MaybeInlineView::Indirect { handle, size }, _)) => r == (Resolve::Fetch {
                    key,
                    handle,
                }),
            },
        },
{
    match item {
        Err(e) => Resolve::Done(Err(e)),
        Ok((key, stored)) => match parse_stored(stored.as_slice()) {
            Err(e) => Resolve::Done(Err(Error::Decode(e))),
            Ok(MaybeInlineValue::Inline(bytes)) => Resolve::Done(Ok((key, bytes))),
            Ok(MaybeInlineValue::Indirect { handle, .. }) => Resolve::Fetch { key, handle },
        },
    }
}

/// Ends a read with what the value log gave for a handle: the blob, the
/// error of the value log, or, where it holds no blob there, a corruption
/// error.
pub fn resolve_fetched(key: UserKey, fetched: Result<Option<UserValue>, Error>) -> (r: Result<
    (UserKey, UserValue),
    Error,
>)
    ensures
        r == match fetched {
            Ok(Some(bytes)) => Ok::<(UserKey, UserValue), Error>((key, bytes)),
            Ok(None) => Err(Error::Corruption),
            Err(e) => Err(e),
        },
{
    match fetched {
        Ok(Some(bytes)) => Ok((key, bytes)),
        Ok(None) => Err(Error::Corruption),
        Err(e) => Err(e),
    }
}

/// How far a point read has come.
#[derive(Debug, PartialEq, Eq)]
pub enum PointRead {
    /// The read is done: the key has this value, or none.
    Done(Option<UserValue>),
    /// The value lies in the value log at this handle.
    Fetch(ValueHandle),
}

/// What a point read makes of what the index tree found for the key.
pub fn point_read(found: Option<MaybeInlineValue>) -> (r: PointRead)
    ensures
        match found {
            None => r == PointRead::Done(None),
            Some(MaybeInlineValue::Inline(bytes)) => r == PointRead::Done(Some(bytes)),
            Some(MaybeInlineValue::Indirect { handle, size }) => r == PointRead::Fetch(handle),
        },
{
    match found {
        None => PointRead::Done(None),
        Some(MaybeInlineValue::Inline(bytes)) => PointRead::Done(Some(bytes)),
        Some(MaybeInlineValue::Indirect { handle, .. }) => PointRead::Fetch(handle),
    }
}

} // verus!
