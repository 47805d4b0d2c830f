//! The records of a data block: entries one after the other, with their
//! number before them.

use crate::byte_order::{be_bytes, lemma_be_bytes_len, lemma_be_bytes_mod, lemma_byte_ranges,
    lemma_read_written};
use crate::coding::{
    u32_at, write_u32, ByteReader, Decode, DecodeError, DecodeFault, Encode,
};
use crate::value::{entry_views, fits_record, lemma_entry_round_trip, EntryView, Value};
use vstd::prelude::*;

verus! {

/// The entries written one after the other.
pub open spec fn encoded_records(entries: Seq<EntryView>) -> Seq<u8>
    decreases entries.len(),
{
    if entries.len() == 0 {
        Seq::empty()
    } else {
        Value::encoded(entries[0]) + encoded_records(entries.skip(1))
    }
}

/// The entries with their number in four bytes before them. Of a number
/// that four bytes cannot hold, the low-order part is written.
pub open spec fn encoded_block(entries: Seq<EntryView>) -> Seq<u8> {
    be_bytes(entries.len(), 4) + encoded_records(entries)
}

/// What the front of `input` holds as `count` entries one after the other,
/// with the number of bytes that they take: the error of the first entry
/// that cannot be read, if there is one.
pub open spec fn decoded_records(input: Seq<u8>, count: nat) -> Result<
    (Seq<EntryView>, nat),
    DecodeFault,
>
    decreases count,
{
    if count == 0 {
        Ok((Seq::empty(), 0))
    } else {
        match Value::decoded(input) {
            Err(fault) => Err(fault),
            Ok((entry, n)) => match decoded_records(input.skip(n as int), (count - 1) as nat) {
                Err(fault) => Err(fault),
                Ok((rest, m)) => Ok((seq![entry] + rest, n + m)),
            },
        }
    }
}

/// What `input` holds as a block: the number of entries, then the entries.
pub open spec fn decoded_block(input: Seq<u8>) -> Result<Seq<EntryView>, DecodeFault> {
    if input.len() < 4 {
        Err(DecodeFault::Io)
    } else {
        match decoded_records(input.skip(4), u32_at(input, 0) as nat) {
            Err(fault) => Err(fault),
            Ok((entries, _)) => Ok(entries),
        }
    }
}

/// An entry more at the end is written behind the others.
pub proof fn lemma_records_push(entries: Seq<EntryView>, e: EntryView)
    ensures
        encoded_records(entries.push(e)) == encoded_records(entries) + Value::encoded(e),
    decreases entries.len(),
{
    let longer = entries.push(e);
    reveal_with_fuel(encoded_records, 2);
    if entries.len() == 0 {
        assert(longer.skip(1) =~= Seq::<EntryView>::empty());
        assert(encoded_records(longer) =~= Value::encoded(e));
        assert(encoded_records(entries) + Value::encoded(e) =~= Value::encoded(e));
    } else {
        assert(longer.skip(1) =~= entries.skip(1).push(e));
        lemma_records_push(entries.skip(1), e);
        assert(encoded_records(longer) =~= encoded_records(entries) + Value::encoded(e));
    }
}

/// Writes the entries as a block.
pub fn encode_block(entries: &Vec<Value>) -> (out: Vec<u8>)
    ensures
        out@ == encoded_block(entry_views(entries@)),
{
    let ghost s = entry_views(entries@);
    let mut out: Vec<u8> = Vec::new();
    let count: u64 = (entries.len() as u64) % 0x1_0000_0000;
    write_u32(&mut out, count as u32);
    proof {
        lemma_byte_ranges();
        lemma_be_bytes_mod(s.len(), 4);
        assert(out@ =~= be_bytes(s.len(), 4) + encoded_records(s.take(0)));
    }
    let mut i: usize = 0;
    while i < entries.len()
        invariant
            i <= entries@.len(),
            s == entry_views(entries@),
            out@ == be_bytes(s.len(), 4) + encoded_records(s.take(i as int)),
        decreases entries@.len() - i,
    {
        let _ = entries[i].encode_into(&mut out);
        proof {
            assert(s.take(i + 1) =~= s.take(i as int).push(s[i as int]));
            lemma_records_push(s.take(i as int), s[i as int]);
            assert(out@ =~= be_bytes(s.len(), 4) + encoded_records(s.take(i + 1)));
        }
        i += 1;
    }
    proof {
        assert(s.take(i as int) =~= s);
    }
    out
}

/// What a reading of records has come to: `done` entries that took `used`
/// bytes, and what the rest of the input gives.
pub open spec fn with_front(
    done: Seq<EntryView>,
    used: nat,
    rest: Result<(Seq<EntryView>, nat), DecodeFault>,
) -> Result<(Seq<EntryView>, nat), DecodeFault> {
    match rest {
        Err(fault) => Err(fault),
        Ok((entries, n)) => Ok((done + entries, used + n)),
    }
}

/// Reads a block.
pub fn decode_block(bytes: &[u8]) -> (r: Result<Vec<Value>, DecodeError>)
    ensures
        match r {
            Ok(entries) => decoded_block(bytes@) == Ok::<Seq<EntryView>, DecodeFault>(
                entry_views(entries@),
            ),
            Err(e) => decoded_block(bytes@) == Err::<Seq<EntryView>, DecodeFault>(e@),
        },
{
    let mut reader = ByteReader::new(bytes);
    let count: u32 = match reader.read_u32() {
        Ok(n) => n,
        Err(e) => { return Err(e); },
    };
    let ghost records = bytes@.skip(4);
    let ghost whole = decoded_records(records, count as nat);
    proof {
        assert(bytes@.take(4) =~= bytes@.subrange(0, 4));
        assert(records.skip(0) =~= records);
        assert(with_front(Seq::empty(), 0, whole) == whole) by {
            if whole is Ok {
                assert(Seq::<EntryView>::empty() + whole->Ok_0.0 =~= whole->Ok_0.0);
            }
        }
    }
    let mut out: Vec<Value> = Vec::new();
    let ghost mut used: nat = 0;
    let mut i: u32 = 0;
    while i < count
        invariant
            i <= count,
            bytes@.len() >= 4,
            count == u32_at(bytes@, 0),
            records == bytes@.skip(4),
            whole == decoded_records(records, count as nat),
            used <= records.len(),
            reader.remaining() == records.skip(used as int),
            with_front(
                entry_views(out@),
                used,
                decoded_records(records.skip(used as int), (count - i) as nat),
            ) == whole,
        decreases count - i,
    {
        let ghost before = entry_views(out@);
        let ghost input = records.skip(used as int);
        match Value::decode_from(&mut reader) {
            Err(e) => {
                proof {
                    assert(decoded_records(input, (count - i) as nat) == Err::<
                        (Seq<EntryView>, nat),
                        DecodeFault,
                    >(e@));
                }
                return Err(e);
            },
            Ok(entry) => {
                proof {
                    let n = Value::decoded(input)->Ok_0.1;
                    assert(input.skip(n as int) =~= records.skip((used + n) as int));
                    let next = decoded_records(input.skip(n as int), (count - i - 1) as nat);
                    if next is Ok {
                        assert(before + (seq![entry@] + next->Ok_0.0) =~= before.push(entry@)
                            + next->Ok_0.0);
                    }
                    used = used + n;
                }
                out.push(entry);
                proof {
                    assert(entry_views(out@) =~= before.push(entry@));
                }
            },
        }
        i += 1;
    }
    proof {
        assert(entry_views(out@) + Seq::<EntryView>::empty() =~= entry_views(out@));
    }
    Ok(out)
}

/// Entries whose lengths fit are read back as they were written: the same
/// entries, as many, in the same order.
pub proof fn lemma_records_round_trip(entries: Seq<EntryView>, rest: Seq<u8>)
    requires
        forall|i: int| 0 <= i < entries.len() ==> fits_record(#[trigger] entries[i]),
    ensures
        decoded_records(encoded_records(entries) + rest, entries.len()) == Ok::<
            (Seq<EntryView>, nat),
            DecodeFault,
        >((entries, encoded_records(entries).len())),
    decreases entries.len(),
{
    if entries.len() == 0 {
        assert(entries =~= Seq::<EntryView>::empty());
    } else {
        let first = entries[0];
        let others = entries.skip(1);
        let input = encoded_records(entries) + rest;
        assert(input =~= Value::encoded(first) + (encoded_records(others) + rest));
        lemma_entry_round_trip(first, encoded_records(others) + rest);
        lemma_records_round_trip(others, rest);
        assert(input.skip(Value::encoded(first).len() as int) =~= encoded_records(others) + rest);
        assert(seq![first] + others =~= entries);
    }
}

/// A block of fewer than 2^32 entries whose lengths fit is read back as it
/// was written.
pub proof fn lemma_block_round_trip(entries: Seq<EntryView>)
    requires
        entries.len() <= u32::MAX,
        forall|i: int| 0 <= i < entries.len() ==> fits_record(#[trigger] entries[i]),
    ensures
        decoded_block(encoded_block(entries)) == Ok::<Seq<EntryView>, DecodeFault>(entries),
{
    let input = encoded_block(entries);
    let count = be_bytes(entries.len(), 4);
    let records = encoded_records(entries);
    assert(count.len() == 4) by {
        lemma_be_bytes_len(entries.len(), 4);
    }
    assert(u32_at(input, 0) == entries.len()) by {
        lemma_byte_ranges();
        lemma_read_written(Seq::empty(), entries.len(), 4, records);
        assert(input =~= Seq::<u8>::empty() + count + records);
    }
    assert(input.skip(4) == records + Seq::<u8>::empty()) by {
        assert(input.skip(4) =~= records + Seq::<u8>::empty());
    }
    lemma_records_round_trip(entries, Seq::empty());
}

} // verus!
