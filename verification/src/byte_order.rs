//! Big-endian integers, as every fixed-width number of the binary format is
//! written.

use byteorder::{BigEndian, ByteOrder};
use vstd::prelude::*;

verus! {

/// The number that the bytes `s` spell, most significant byte first.
pub open spec fn be_value(s: Seq<u8>) -> nat
    decreases s.len(),
{
    if s.len() == 0 {
        0
    } else {
        be_value(s.drop_last()) * 256 + s.last() as nat
    }
}

/// The `width` low-order bytes of `n`, most significant byte first.
pub open spec fn be_bytes(n: nat, width: nat) -> Seq<u8>
    decreases width,
{
    if width == 0 {
        Seq::empty()
    } else {
        be_bytes(n / 256, (width - 1) as nat).push((n % 256) as u8)
    }
}

/// 256 to the power `width`: the number of values that `width` bytes can spell.
pub open spec fn byte_range(width: nat) -> nat
    decreases width,
{
    if width == 0 {
        1
    } else {
        256 * byte_range((width - 1) as nat)
    }
}

pub proof fn lemma_be_bytes_len(n: nat, width: nat)
    ensures
        be_bytes(n, width).len() == width,
    decreases width,
{
    if width > 0 {
        lemma_be_bytes_len(n / 256, (width - 1) as nat);
    }
}

/// Reading back what was written gives the number again, as far as it fits
/// into `width` bytes.
pub proof fn lemma_be_value_of_bytes(n: nat, width: nat)
    ensures
        be_value(be_bytes(n, width)) == n % byte_range(width),
    decreases width,
{
    if width > 0 {
        let w = (width - 1) as nat;
        let s = be_bytes(n, width);
        lemma_be_value_of_bytes(n / 256, w);
        assert(s.drop_last() =~= be_bytes(n / 256, w));
        lemma_byte_range_positive(w);
        let r = byte_range(w);
        vstd::arithmetic::div_mod::lemma_breakdown(n as int, 256, r as int);
    }
}

pub proof fn lemma_byte_range_positive(width: nat)
    ensures
        byte_range(width) > 0,
    decreases width,
{
    if width > 0 {
        lemma_byte_range_positive((width - 1) as nat);
    }
}

} // verus!

verus! {

/// Calls `byteorder::BigEndian::write_u16` on a fresh buffer of two bytes:
/// the result spells `n`, most significant byte first.
#[verifier::external_body]
pub(crate) fn u16_to_be(n: u16) -> (bytes: [u8; 2])
    ensures
        bytes@ == be_bytes(n as nat, 2),
{
    let mut buf = [0u8; 2];
    BigEndian::write_u16(&mut buf, n);
    buf
}

/// Calls `byteorder::BigEndian::write_u32` on a fresh buffer of four bytes:
/// the result spells `n`, most significant byte first.
#[verifier::external_body]
pub(crate) fn u32_to_be(n: u32) -> (bytes: [u8; 4])
    ensures
        bytes@ == be_bytes(n as nat, 4),
{
    let mut buf = [0u8; 4];
    BigEndian::write_u32(&mut buf, n);
    buf
}

/// Calls `byteorder::BigEndian::write_u64` on a fresh buffer of eight bytes:
/// the result spells `n`, most significant byte first.
#[verifier::external_body]
pub(crate) fn u64_to_be(n: u64) -> (bytes: [u8; 8])
    ensures
        bytes@ == be_bytes(n as nat, 8),
{
    let mut buf = [0u8; 8];
    BigEndian::write_u64(&mut buf, n);
    buf
}

/// Calls `byteorder::BigEndian::write_u128` on a fresh buffer of sixteen
/// bytes: the result spells `n`, most significant byte first.
#[verifier::external_body]
pub(crate) fn u128_to_be(n: u128) -> (bytes: [u8; 16])
    ensures
        bytes@ == be_bytes(n as nat, 16),
{
    let mut buf = [0u8; 16];
    BigEndian::write_u128(&mut buf, n);
    buf
}

/// Calls `byteorder::BigEndian::read_u16`, which panics on fewer than two
/// bytes: the result is the number that the first two bytes spell.
#[verifier::external_body]
pub(crate) fn u16_from_be(buf: &[u8]) -> (n: u16)
    requires
        buf@.len() >= 2,
    ensures
        n as nat == be_value(buf@.subrange(0, 2)),
{
    BigEndian::read_u16(buf)
}

/// Calls `byteorder::BigEndian::read_u32`, which panics on fewer than four
/// bytes: the result is the number that the first four bytes spell.
#[verifier::external_body]
pub(crate) fn u32_from_be(buf: &[u8]) -> (n: u32)
    requires
        buf@.len() >= 4,
    ensures
        n as nat == be_value(buf@.subrange(0, 4)),
{
    BigEndian::read_u32(buf)
}

/// Calls `byteorder::BigEndian::read_u64`, which panics on fewer than eight
/// bytes: the result is the number that the first eight bytes spell.
#[verifier::external_body]
pub(crate) fn u64_from_be(buf: &[u8]) -> (n: u64)
    requires
        buf@.len() >= 8,
    ensures
        n as nat == be_value(buf@.subrange(0, 8)),
{
    BigEndian::read_u64(buf)
}

/// Calls `byteorder::BigEndian::read_u128`, which panics on fewer than
/// sixteen bytes: the result is the number that the first sixteen bytes spell.
#[verifier::external_body]
pub(crate) fn u128_from_be(buf: &[u8]) -> (n: u128)
    requires
        buf@.len() >= 16,
    ensures
        n as nat == be_value(buf@.subrange(0, 16)),
{
    BigEndian::read_u128(buf)
}

/// The ranges of the integer widths that the format uses.
pub proof fn lemma_byte_ranges()
    ensures
        byte_range(1) == 0x100,
        byte_range(2) == 0x1_0000,
        byte_range(4) == 0x1_0000_0000,
        byte_range(8) == 0x1_0000_0000_0000_0000,
        byte_range(16) == 0x1_0000_0000_0000_0000_0000_0000_0000_0000,
{
    reveal_with_fuel(byte_range, 17);
}

} // verus!

verus! {

/// Only the part of a number that fits into `width` bytes is written.
pub proof fn lemma_be_bytes_mod(n: nat, width: nat)
    ensures
        be_bytes(n % byte_range(width), width) == be_bytes(n, width),
    decreases width,
{
    if width > 0 {
        let w = (width - 1) as nat;
        let r = byte_range(w);
        lemma_byte_range_positive(w);
        vstd::arithmetic::div_mod::lemma_breakdown(n as int, 256, r as int);
        let m = n % byte_range(width);
        assert(m == 256 * ((n / 256) % r) + n % 256);
        assert(m / 256 == (n / 256) % r);
        assert(m % 256 == n % 256);
        lemma_be_bytes_mod(n / 256, w);
    }
}

} // verus!

verus! {

/// A number written between other bytes is read back from its place.
pub proof fn lemma_read_written(before: Seq<u8>, n: nat, width: nat, after: Seq<u8>)
    ensures
        be_value(
            (before + be_bytes(n, width) + after).subrange(
                before.len() as int,
                before.len() as int + width,
            ),
        ) == n % byte_range(width),
{
    lemma_be_bytes_len(n, width);
    lemma_be_value_of_bytes(n, width);
    assert((before + be_bytes(n, width) + after).subrange(
        before.len() as int,
        before.len() as int + width,
    ) =~= be_bytes(n, width));
}

} // verus!
