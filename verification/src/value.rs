//! Internal keys, their order, and the entries that the tree stores.

use crate::byte_order::{
    be_bytes, lemma_be_bytes_len, lemma_be_bytes_mod, lemma_byte_ranges, lemma_read_written,
};
use crate::coding::{
    u16_at, u32_at, u64_at, write_bytes, write_u16, write_u32, write_u64, write_u8, ByteReader,
    Decode, DecodeError, DecodeFault, Encode, EncodeError,
};
use crate::{SeqNo, UserKey, UserValue};
use vstd::prelude::*;

verus! {

/// Value type (regular value or tombstone)
#[derive(Copy, Clone, Debug, PartialEq, Eq, Structural)]
pub enum ValueType {
    /// Existing value
    Value,
    /// Deleted value
    Tombstone,
}

impl ValueType {
    /// Where a type stands among entries of one key and one sequence number:
    /// the tombstone comes first.
    pub open spec fn rank(self) -> u8 {
        match self {
            ValueType::Tombstone => 0,
            ValueType::Value => 1,
        }
    }

    /// The byte that stands for the type.
    pub open spec fn spec_tag(self) -> u8 {
        match self {
            ValueType::Value => 0,
            ValueType::Tombstone => 1,
        }
    }

    /// The type that a byte stands for, if any.
    pub open spec fn of_tag(tag: u8) -> Option<ValueType> {
        if tag == 0 {
            Some(ValueType::Value)
        } else if tag == 1 {
            Some(ValueType::Tombstone)
        } else {
            None
        }
    }

    pub fn tag(self) -> (t: u8)
        ensures
            t == self.spec_tag(),
    {
        match self {
            ValueType::Value => 0,
            ValueType::Tombstone => 1,
        }
    }

    pub fn from_tag(tag: u8) -> (r: Result<Self, DecodeError>)
        ensures
            match r {
                Ok(t) => Self::of_tag(tag) == Some(t),
                Err(e) => Self::of_tag(tag) is None && e@ == DecodeFault::InvalidTag(
                    "ValueType"@,
                    tag,
                ),
            },
    {
        if tag == 0 {
            Ok(ValueType::Value)
        } else if tag == 1 {
            Ok(ValueType::Tombstone)
        } else {
            Err(DecodeError::InvalidTag(("ValueType", tag)))
        }
    }

    /// Computes [`ValueType::rank`].
    pub fn order_rank(self) -> (r: u8)
        ensures
            r == self.rank(),
    {
        match self {
            ValueType::Tombstone => 0,
            ValueType::Value => 1,
        }
    }
}

/// Whether `a` comes before `b` in the lexicographic order of byte strings.
pub open spec fn bytes_lt(a: Seq<u8>, b: Seq<u8>) -> bool
    decreases a.len(),
{
    if b.len() == 0 {
        false
    } else if a.len() == 0 {
        true
    } else if a[0] != b[0] {
        a[0] < b[0]
    } else {
        bytes_lt(a.skip(1), b.skip(1))
    }
}

/// Whether `p` is a prefix of `s`.
pub open spec fn is_prefix_of(p: Seq<u8>, s: Seq<u8>) -> bool {
    p.len() <= s.len() && s.take(p.len() as int) == p
}

/// An internal key as a mathematical value.
pub struct KeyView {
    pub user_key: Seq<u8>,
    pub seqno: SeqNo,
    pub value_type: ValueType,
}

/// The order of internal keys: ascending user key, then descending sequence
/// number, then the rank of the value type.
pub open spec fn key_lt(a: KeyView, b: KeyView) -> bool {
    bytes_lt(a.user_key, b.user_key) || (a.user_key == b.user_key && (a.seqno > b.seqno || (a.seqno
        == b.seqno && a.value_type.rank() < b.value_type.rank())))
}

pub open spec fn key_le(a: KeyView, b: KeyView) -> bool {
    a == b || key_lt(a, b)
}

pub proof fn lemma_bytes_lt_irreflexive(a: Seq<u8>)
    ensures
        !bytes_lt(a, a),
    decreases a.len(),
{
    if a.len() > 0 {
        lemma_bytes_lt_irreflexive(a.skip(1));
    }
}

pub proof fn lemma_bytes_lt_asymmetric(a: Seq<u8>, b: Seq<u8>)
    ensures
        !(bytes_lt(a, b) && bytes_lt(b, a)),
    decreases a.len(),
{
    if a.len() > 0 && b.len() > 0 && a[0] == b[0] {
        lemma_bytes_lt_asymmetric(a.skip(1), b.skip(1));
    }
}

pub proof fn lemma_bytes_lt_transitive(a: Seq<u8>, b: Seq<u8>, c: Seq<u8>)
    requires
        bytes_lt(a, b),
        bytes_lt(b, c),
    ensures
        bytes_lt(a, c),
    decreases a.len(),
{
    if a.len() > 0 && a[0] == b[0] && b[0] == c[0] {
        lemma_bytes_lt_transitive(a.skip(1), b.skip(1), c.skip(1));
    }
}

/// Of two different byte strings one comes before the other.
pub proof fn lemma_bytes_lt_connected(a: Seq<u8>, b: Seq<u8>)
    ensures
        a == b || bytes_lt(a, b) || bytes_lt(b, a),
    decreases a.len(),
{
    if a.len() == 0 || b.len() == 0 {
        if a.len() == 0 && b.len() == 0 {
            assert(a =~= b);
        }
    } else if a[0] == b[0] {
        lemma_bytes_lt_connected(a.skip(1), b.skip(1));
        if a.skip(1) == b.skip(1) {
            assert(a =~= seq![a[0]] + a.skip(1));
            assert(b =~= seq![b[0]] + b.skip(1));
        }
    }
}

/// The order of internal keys is a strict total order.
pub proof fn lemma_key_order(a: KeyView, b: KeyView, c: KeyView)
    ensures
        !key_lt(a, a),
        !(key_lt(a, b) && key_lt(b, a)),
        key_lt(a, b) && key_lt(b, c) ==> key_lt(a, c),
        a == b || key_lt(a, b) || key_lt(b, a),
{
    lemma_bytes_lt_irreflexive(a.user_key);
    lemma_bytes_lt_irreflexive(b.user_key);
    lemma_bytes_lt_asymmetric(a.user_key, b.user_key);
    lemma_bytes_lt_connected(a.user_key, b.user_key);
    if key_lt(a, b) && key_lt(b, c) {
        if bytes_lt(a.user_key, b.user_key) && bytes_lt(b.user_key, c.user_key) {
            lemma_bytes_lt_transitive(a.user_key, b.user_key, c.user_key);
        }
    }
}

/// Whether two byte strings are the same.
pub fn bytes_eq(a: &[u8], b: &[u8]) -> (r: bool)
    ensures
        r <==> a@ == b@,
{
    if a.len() != b.len() {
        return false;
    }
    let mut i: usize = 0;
    while i < a.len()
        invariant
            a.len() == b.len(),
            i <= a.len(),
            forall|j: int| 0 <= j < i ==> a@[j] == b@[j],
        decreases a.len() - i,
    {
        if a[i] != b[i] {
            return false;
        }
        i += 1;
    }
    assert(a@ =~= b@);
    true
}

/// Whether `a` comes before `b` in the lexicographic order.
pub fn bytes_less(a: &[u8], b: &[u8]) -> (r: bool)
    ensures
        r <==> bytes_lt(a@, b@),
{
    let mut i: usize = 0;
    proof {
        assert(a@.skip(0) =~= a@);
        assert(b@.skip(0) =~= b@);
    }
    while i < a.len() && i < b.len()
        invariant
            i <= a.len(),
            i <= b.len(),
            bytes_lt(a@, b@) <==> bytes_lt(a@.skip(i as int), b@.skip(i as int)),
        decreases a.len() - i,
    {
        proof {
            assert(a@.skip(i as int).skip(1) =~= a@.skip(i + 1));
            assert(b@.skip(i as int).skip(1) =~= b@.skip(i + 1));
        }
        if a[i] != b[i] {
            return a[i] < b[i];
        }
        i += 1;
    }
    i < b.len()
}

/// Whether `s` starts with `p`.
pub fn starts_with(s: &[u8], p: &[u8]) -> (r: bool)
    ensures
        r <==> is_prefix_of(p@, s@),
{
    if p.len() > s.len() {
        return false;
    }
    let mut i: usize = 0;
    while i < p.len()
        invariant
            p.len() <= s.len(),
            i <= p.len(),
            forall|j: int| 0 <= j < i ==> s@[j] == p@[j],
        decreases p.len() - i,
    {
        if s[i] != p[i] {
            assert(s@.take(p.len() as int)[i as int] != p@[i as int]);
            return false;
        }
        i += 1;
    }
    assert(s@.take(p.len() as int) =~= p@);
    true
}

/// A copy of a byte string.
pub fn clone_bytes(bytes: &Vec<u8>) -> (r: Vec<u8>)
    ensures
        r@ == bytes@,
{
    let r = bytes.clone();
    assert(r@ =~= bytes@);
    r
}

/// The key that entries are sorted by: user key, sequence number and value
/// type.
#[derive(Debug, PartialEq, Eq)]
pub struct ParsedInternalKey {
    pub user_key: UserKey,
    pub seqno: SeqNo,
    pub value_type: ValueType,
}

impl View for ParsedInternalKey {
    type V = KeyView;

    open spec fn view(&self) -> KeyView {
        KeyView { user_key: self.user_key@, seqno: self.seqno, value_type: self.value_type }
    }
}

impl ParsedInternalKey {
    pub fn new(user_key: UserKey, seqno: SeqNo, value_type: ValueType) -> (r: Self)
        ensures
            r@ == (KeyView { user_key: user_key@, seqno, value_type }),
    {
        ParsedInternalKey { user_key, seqno, value_type }
    }

    pub fn is_tombstone(&self) -> (r: bool)
        ensures
            r <==> self.value_type == ValueType::Tombstone,
    {
        match self.value_type {
            ValueType::Tombstone => true,
            ValueType::Value => false,
        }
    }

    /// Whether `self` comes before `other` in the order of internal keys.
    pub fn less_than(&self, other: &ParsedInternalKey) -> (r: bool)
        ensures
            r <==> key_lt(self@, other@),
    {
        if bytes_less(self.user_key.as_slice(), other.user_key.as_slice()) {
            true
        } else if bytes_eq(self.user_key.as_slice(), other.user_key.as_slice()) {
            self.seqno > other.seqno || (self.seqno == other.seqno
                && self.value_type.order_rank() < other.value_type.order_rank())
        } else {
            false
        }
    }
}

/// An entry as a mathematical value.
pub struct EntryView {
    pub key: Seq<u8>,
    pub value: Seq<u8>,
    pub seqno: SeqNo,
    pub value_type: ValueType,
}

impl EntryView {
    /// The internal key of the entry.
    pub open spec fn internal_key(self) -> KeyView {
        KeyView { user_key: self.key, seqno: self.seqno, value_type: self.value_type }
    }
}

/// Bytes that an entry is counted with besides its key and its value: the
/// sequence number and the value type.
pub const ENTRY_OVERHEAD: u64 = 9;

/// Represents a value in the LSM-tree: a user key and value with the sequence
/// number and the type of the write.
#[derive(Debug, PartialEq, Eq)]
pub struct Value {
    /// User-defined key - an arbitrary byte array
    pub key: UserKey,
    /// User-defined value - an arbitrary byte array
    pub value: UserValue,
    /// Sequence number
    pub seqno: SeqNo,
    /// Tombstone marker
    pub value_type: ValueType,
}

impl View for Value {
    type V = EntryView;

    open spec fn view(&self) -> EntryView {
        EntryView {
            key: self.key@,
            value: self.value@,
            seqno: self.seqno,
            value_type: self.value_type,
        }
    }
}

impl Value {
    /// Creates a new entry.
    pub fn new(key: UserKey, value: UserValue, seqno: SeqNo, value_type: ValueType) -> (r: Self)
        ensures
            r@ == (EntryView { key: key@, value: value@, seqno, value_type }),
    {
        Value { key, value, seqno, value_type }
    }

    /// Puts a key and a value together.
    pub fn from_parts(key: ParsedInternalKey, value: UserValue) -> (r: Self)
        ensures
            r@.internal_key() == key@,
            r@.value == value@,
    {
        Value { key: key.user_key, value, seqno: key.seqno, value_type: key.value_type }
    }

    pub fn is_tombstone(&self) -> (r: bool)
        ensures
            r <==> self@.value_type == ValueType::Tombstone,
    {
        match self.value_type {
            ValueType::Tombstone => true,
            ValueType::Value => false,
        }
    }

    /// The size that the entry is counted with, as a number of any size.
    pub open spec fn spec_size(e: EntryView) -> nat {
        e.key.len() + e.value.len() + ENTRY_OVERHEAD as nat
    }

    /// The size of the entry in bytes, cut to 32 bits.
    pub fn size(&self) -> (r: u32)
        ensures
            r == Self::spec_size(self@) % 0x1_0000_0000,
    {
        let k: u64 = (self.key.len() as u64) % 0x1_0000_0000;
        let v: u64 = (self.value.len() as u64) % 0x1_0000_0000;
        let total: u64 = (k + v + ENTRY_OVERHEAD) % 0x1_0000_0000;
        proof {
            let a = self.key@.len() as int;
            let b = self.value@.len() as int;
            let m = 0x1_0000_0000int;
            vstd::arithmetic::div_mod::lemma_add_mod_noop(a, b, m);
            vstd::arithmetic::div_mod::lemma_add_mod_noop(a + b, 9, m);
            vstd::arithmetic::div_mod::lemma_add_mod_noop(a % m + b % m, 9, m);
        }
        total as u32
    }
}

impl Clone for ParsedInternalKey {
    fn clone(&self) -> (r: Self)
        ensures
            r@ == self@,
    {
        ParsedInternalKey {
            user_key: clone_bytes(&self.user_key),
            seqno: self.seqno,
            value_type: self.value_type,
        }
    }
}

impl Clone for Value {
    fn clone(&self) -> (r: Self)
        ensures
            r@ == self@,
    {
        Value {
            key: clone_bytes(&self.key),
            value: clone_bytes(&self.value),
            seqno: self.seqno,
            value_type: self.value_type,
        }
    }
}

/// The views of the entries of a list.
pub open spec fn entry_views(entries: Seq<Value>) -> Seq<EntryView> {
    entries.map_values(|v: Value| v@)
}

/// Whether entry `a` does not come after entry `b` in the order of internal
/// keys.
pub open spec fn entry_le(a: EntryView, b: EntryView) -> bool {
    key_le(a.internal_key(), b.internal_key())
}

/// Whether no entry of `s` comes before one that stands before it.
pub open spec fn is_sorted(s: Seq<EntryView>) -> bool {
    forall|i: int, j: int| 0 <= i < j < s.len() ==> entry_le(#[trigger] s[i], #[trigger] s[j])
}

/// Length of what stands before the key of a written entry: the tag of the
/// type, the sequence number and the length of the key.
pub const ENTRY_HEADER_LEN: usize = 11;

impl Encode for Value {
    open spec fn encodable(v: EntryView) -> bool {
        true
    }

    /// The tag of the type, the sequence number in eight bytes, the key with
    /// its length in two bytes before it, the value with its length in four
    /// bytes before it. Of a length that does not fit, the low-order part is
    /// written.
    open spec fn encoded(v: EntryView) -> Seq<u8> {
        seq![v.value_type.spec_tag()] + be_bytes(v.seqno as nat, 8) + be_bytes(v.key.len(), 2)
            + v.key + be_bytes(v.value.len(), 4) + v.value
    }

    fn encode_into(&self, writer: &mut Vec<u8>) -> (r: Result<(), EncodeError>)
        ensures
            r is Ok,
    {
        let key_len: u64 = (self.key.len() as u64) % 0x1_0000;
        let value_len: u64 = (self.value.len() as u64) % 0x1_0000_0000;
        write_u8(writer, self.value_type.tag());
        write_u64(writer, self.seqno);
        write_u16(writer, key_len as u16);
        write_bytes(writer, self.key.as_slice());
        write_u32(writer, value_len as u32);
        write_bytes(writer, self.value.as_slice());
        proof {
            reveal_with_fuel(be_bytes, 2);
            lemma_byte_ranges();
            lemma_be_bytes_mod(self.key@.len(), 2);
            lemma_be_bytes_mod(self.value@.len(), 4);
            assert(be_bytes(self.value_type.spec_tag() as nat, 1) =~= seq![
                self.value_type.spec_tag(),
            ]);
            assert(writer@ =~= old(writer)@ + Self::encoded(self@));
        }
        Ok(())
    }
}

impl Decode for Value {
    /// Reads the parts of an entry one after the other. A tag that stands
    /// for no type is an invalid tag, an input that ends too early an I/O
    /// error.
    open spec fn decoded(input: Seq<u8>) -> Result<(EntryView, nat), DecodeFault> {
        if input.len() < 1 {
            Err(DecodeFault::Io)
        } else {
            match ValueType::of_tag(input[0]) {
                None => Err(DecodeFault::InvalidTag("ValueType"@, input[0])),
                Some(value_type) => if input.len() < ENTRY_HEADER_LEN {
                    Err(DecodeFault::Io)
                } else {
                    let key_len = u16_at(input, 9) as int;
                    let key_end = ENTRY_HEADER_LEN + key_len;
                    if input.len() < key_end + 4 {
                        Err(DecodeFault::Io)
                    } else {
                        let value_len = u32_at(input, key_end) as int;
                        let end = key_end + 4 + value_len;
                        if input.len() < end {
                            Err(DecodeFault::Io)
                        } else {
                            Ok(
                                (
                                    EntryView {
                                        key: input.subrange(ENTRY_HEADER_LEN as int, key_end),
                                        value: input.subrange(key_end + 4, end),
                                        seqno: u64_at(input, 1),
                                        value_type,
                                    },
                                    end as nat,
                                ),
                            )
                        }
                    }
                },
            }
        }
    }

    fn decode_from(reader: &mut ByteReader<'_>) -> (r: Result<Self, DecodeError>) {
        let ghost input = reader.remaining();
        let tag: u8 = match reader.read_u8() {
            Ok(t) => t,
            Err(e) => { return Err(e); },
        };
        let value_type = match ValueType::from_tag(tag) {
            Ok(t) => t,
            Err(e) => { return Err(e); },
        };
        let seqno: SeqNo = match reader.read_u64() {
            Ok(n) => n,
            Err(e) => { return Err(e); },
        };
        let key_len: u16 = match reader.read_u16() {
            Ok(n) => n,
            Err(e) => { return Err(e); },
        };
        proof {
            assert(input.skip(1).take(8) =~= input.subrange(1, 9));
            assert(input.skip(1).skip(8).take(2) =~= input.subrange(9, 11));
            assert(input.skip(1).skip(8).skip(2) =~= input.skip(11));
        }
        let key = match reader.read_bytes(key_len as usize) {
            Ok(b) => b,
            Err(e) => { return Err(e); },
        };
        let ghost key_end = ENTRY_HEADER_LEN + key_len;
        proof {
            assert(key@ =~= input.subrange(ENTRY_HEADER_LEN as int, key_end));
            assert(reader.remaining() =~= input.skip(key_end));
        }
        let value_len: u32 = match reader.read_u32() {
            Ok(n) => n,
            Err(e) => { return Err(e); },
        };
        proof {
            assert(input.skip(key_end).take(4) =~= input.subrange(key_end, key_end + 4));
            assert(input.skip(key_end).skip(4) =~= input.skip(key_end + 4));
        }
        let value = match reader.read_bytes(value_len as usize) {
            Ok(b) => b,
            Err(e) => { return Err(e); },
        };
        proof {
            assert(value@ =~= input.subrange(key_end + 4, key_end + 4 + value_len));
            assert(reader.remaining() =~= input.skip(key_end + 4 + value_len));
        }
        Ok(Value { key, value, seqno, value_type })
    }
}

/// Whether the lengths of the key and the value of an entry fit into the
/// bytes that the written entry has for them.
pub open spec fn fits_record(e: EntryView) -> bool {
    e.key.len() <= u16::MAX && e.value.len() <= u32::MAX
}

/// An entry whose lengths fit is read back as it was written, whatever
/// follows it.
pub proof fn lemma_entry_round_trip(e: EntryView, rest: Seq<u8>)
    requires
        fits_record(e),
    ensures
        Value::encoded(e).len() == ENTRY_HEADER_LEN + e.key.len() + 4 + e.value.len(),
        Value::decoded(Value::encoded(e) + rest) == Ok::<(EntryView, nat), DecodeFault>(
            (e, Value::encoded(e).len()),
        ),
{
    let tag = seq![e.value_type.spec_tag()];
    let seqno = be_bytes(e.seqno as nat, 8);
    let key_len = be_bytes(e.key.len(), 2);
    let value_len = be_bytes(e.value.len(), 4);
    let input = Value::encoded(e) + rest;
    lemma_be_bytes_len(e.seqno as nat, 8);
    lemma_be_bytes_len(e.key.len(), 2);
    lemma_be_bytes_len(e.value.len(), 4);
    lemma_byte_ranges();
    assert(input[0] == e.value_type.spec_tag());
    assert(u64_at(input, 1) == e.seqno) by {
        let after = key_len + e.key + value_len + e.value + rest;
        assert(input =~= tag + seqno + after);
        lemma_read_written(tag, e.seqno as nat, 8, after);
    }
    assert(u16_at(input, 9) == e.key.len()) by {
        let after = e.key + value_len + e.value + rest;
        assert(input =~= (tag + seqno) + key_len + after);
        lemma_read_written(tag + seqno, e.key.len(), 2, after);
    }
    let key_end = ENTRY_HEADER_LEN + e.key.len();
    assert(u32_at(input, key_end as int) == e.value.len()) by {
        let before = tag + seqno + key_len + e.key;
        let after = e.value + rest;
        assert(input =~= before + value_len + after);
        lemma_read_written(before, e.value.len(), 4, after);
    }
    assert(input.subrange(ENTRY_HEADER_LEN as int, key_end as int) =~= e.key);
    assert(input.subrange(key_end + 4, key_end + 4 + e.value.len()) =~= e.value);
}

} // verus!
