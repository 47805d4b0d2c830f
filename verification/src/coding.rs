//! Errors of the binary coding, the two coding traits, and a reader over a
//! byte slice.

use crate::byte_order::{
    be_bytes, be_value, u128_from_be, u128_to_be, u16_from_be, u16_to_be, u32_from_be, u32_to_be,
    u64_from_be, u64_to_be,
};
use vstd::prelude::*;
use vstd::slice::{slice_subrange, slice_to_vec};

verus! {

#[verifier::external_type_specification]
#[verifier::external_body]
pub struct ExIoError(std::io::Error);

#[verifier::external_type_specification]
#[verifier::external_body]
pub struct ExUtf8Error(std::str::Utf8Error);

/// Error during serialization
#[derive(Debug)]
pub enum EncodeError {
    /// I/O error
    Io(std::io::Error),
}

/// Error during deserialization
#[derive(Debug)]
pub enum DecodeError {
    /// I/O error; the input ending too early is one
    Io(std::io::Error),
    /// A string of the input is no UTF-8
    Utf8(std::str::Utf8Error),
    /// Unknown format version
    InvalidVersion,
    /// Invalid enum tag: the name of the type and the byte found
    InvalidTag((&'static str, u8)),
    /// Invalid segment trailer
    InvalidTrailer,
    /// Invalid header; the string says of what
    InvalidHeader(&'static str),
}

/// What went wrong in a decoding, without the value that an outside error
/// carries.
pub enum DecodeFault {
    Io,
    Utf8,
    InvalidVersion,
    InvalidTag(Seq<char>, u8),
    InvalidTrailer,
    InvalidHeader(Seq<char>),
}

impl View for DecodeError {
    type V = DecodeFault;

    open spec fn view(&self) -> DecodeFault {
        match self {
            DecodeError::Io(_) => DecodeFault::Io,
            DecodeError::Utf8(_) => DecodeFault::Utf8,
            DecodeError::InvalidVersion => DecodeFault::InvalidVersion,
            DecodeError::InvalidTag((name, tag)) => DecodeFault::InvalidTag(name@, *tag),
            DecodeError::InvalidTrailer => DecodeFault::InvalidTrailer,
            DecodeError::InvalidHeader(what) => DecodeFault::InvalidHeader(what@),
        }
    }
}

impl From<std::io::Error> for EncodeError {
    fn from(value: std::io::Error) -> (r: Self) {
        EncodeError::Io(value)
    }
}

impl vstd::std_specs::convert::FromSpecImpl<std::io::Error> for EncodeError {
    open spec fn obeys_from_spec() -> bool {
        true
    }

    open spec fn from_spec(value: std::io::Error) -> Self {
        EncodeError::Io(value)
    }
}

impl From<std::io::Error> for DecodeError {
    fn from(value: std::io::Error) -> (r: Self) {
        DecodeError::Io(value)
    }
}

impl vstd::std_specs::convert::FromSpecImpl<std::io::Error> for DecodeError {
    open spec fn obeys_from_spec() -> bool {
        true
    }

    open spec fn from_spec(value: std::io::Error) -> Self {
        DecodeError::Io(value)
    }
}

impl From<std::str::Utf8Error> for DecodeError {
    fn from(value: std::str::Utf8Error) -> (r: Self) {
        DecodeError::Utf8(value)
    }
}

impl vstd::std_specs::convert::FromSpecImpl<std::str::Utf8Error> for DecodeError {
    open spec fn obeys_from_spec() -> bool {
        true
    }

    open spec fn from_spec(value: std::str::Utf8Error) -> Self {
        DecodeError::Utf8(value)
    }
}

/// Makes the error that `std::io::Read::read_exact` gives on a short input:
/// `std::io::Error::from` on `ErrorKind::UnexpectedEof`.
#[verifier::external_body]
fn unexpected_eof() -> std::io::Error {
    std::io::Error::from(std::io::ErrorKind::UnexpectedEof)
}

/// Appends `bytes` to `writer`.
pub fn write_bytes(writer: &mut Vec<u8>, bytes: &[u8])
    ensures
        final(writer)@ == old(writer)@ + bytes@,
{
    writer.extend_from_slice(bytes);
    assert(writer@ =~= old(writer)@ + bytes@);
}

/// Appends one byte.
pub fn write_u8(writer: &mut Vec<u8>, n: u8)
    ensures
        final(writer)@ == old(writer)@ + be_bytes(n as nat, 1),
{
    writer.push(n);
    proof {
        reveal_with_fuel(be_bytes, 2);
        assert(writer@ =~= old(writer)@ + be_bytes(n as nat, 1));
    }
}

/// Appends `n` as two bytes, most significant first.
pub fn write_u16(writer: &mut Vec<u8>, n: u16)
    ensures
        final(writer)@ == old(writer)@ + be_bytes(n as nat, 2),
{
    let bytes = u16_to_be(n);
    write_bytes(writer, bytes.as_slice());
}

/// Appends `n` as four bytes, most significant first.
pub fn write_u32(writer: &mut Vec<u8>, n: u32)
    ensures
        final(writer)@ == old(writer)@ + be_bytes(n as nat, 4),
{
    let bytes = u32_to_be(n);
    write_bytes(writer, bytes.as_slice());
}

/// Appends `n` as eight bytes, most significant first.
pub fn write_u64(writer: &mut Vec<u8>, n: u64)
    ensures
        final(writer)@ == old(writer)@ + be_bytes(n as nat, 8),
{
    let bytes = u64_to_be(n);
    write_bytes(writer, bytes.as_slice());
}

/// Appends `n` as sixteen bytes, most significant first.
pub fn write_u128(writer: &mut Vec<u8>, n: u128)
    ensures
        final(writer)@ == old(writer)@ + be_bytes(n as nat, 16),
{
    let bytes = u128_to_be(n);
    write_bytes(writer, bytes.as_slice());
}

/// A position in a byte slice, from which values are read front to back.
pub struct ByteReader<'a> {
    buf: &'a [u8],
    pos: usize,
}

impl<'a> ByteReader<'a> {
    #[verifier::type_invariant]
    spec fn in_bounds(self) -> bool {
        self.pos <= self.buf@.len()
    }

    /// The bytes not yet read.
    pub closed spec fn remaining(&self) -> Seq<u8> {
        self.buf@.subrange(self.pos as int, self.buf@.len() as int)
    }

    /// A reader at the start of `buf`.
    pub fn new(buf: &'a [u8]) -> (r: Self)
        ensures
            r.remaining() == buf@,
    {
        let r = ByteReader { buf, pos: 0 };
        assert(r.remaining() =~= buf@);
        r
    }

    /// How many bytes are left.
    pub fn len(&self) -> (n: usize)
        ensures
            n == self.remaining().len(),
    {
        proof {
            use_type_invariant(self);
        }
        self.buf.len() - self.pos
    }

    /// The next `n` bytes as a slice, or an I/O error where fewer are left;
    /// then nothing is consumed.
    pub fn take(&mut self, n: usize) -> (r: Result<&'a [u8], DecodeError>)
        ensures
            match r {
                Ok(bytes) => n <= old(self).remaining().len()
                    && bytes@ == old(self).remaining().take(n as int)
                    && final(self).remaining() == old(self).remaining().skip(n as int),
                Err(e) => n > old(self).remaining().len() && e is Io
                    && final(self).remaining() == old(self).remaining(),
            },
    {
        proof {
            use_type_invariant(&*self);
        }
        if n > self.buf.len() - self.pos {
            return Err(DecodeError::Io(unexpected_eof()));
        }
        let start: usize = self.pos;
        let bytes = slice_subrange(self.buf, start, start + n);
        self.pos = start + n;
        proof {
            assert(bytes@ =~= old(self).remaining().take(n as int));
            assert(self.remaining() =~= old(self).remaining().skip(n as int));
        }
        Ok(bytes)
    }

    /// Reads one byte.
    pub fn read_u8(&mut self) -> (r: Result<u8, DecodeError>)
        ensures
            match r {
                Ok(n) => 1 <= old(self).remaining().len() && n == old(self).remaining()[0]
                    && final(self).remaining() == old(self).remaining().skip(1),
                Err(e) => old(self).remaining().len() < 1 && e is Io
                    && final(self).remaining() == old(self).remaining(),
            },
    {
        match self.take(1) {
            Ok(bytes) => Ok(bytes[0]),
            Err(e) => Err(e),
        }
    }

    /// Reads two bytes as a number, most significant byte first.
    pub fn read_u16(&mut self) -> (r: Result<u16, DecodeError>)
        ensures
            match r {
                Ok(n) => 2 <= old(self).remaining().len()
                    && n as nat == be_value(old(self).remaining().take(2))
                    && final(self).remaining() == old(self).remaining().skip(2),
                Err(e) => old(self).remaining().len() < 2 && e is Io
                    && final(self).remaining() == old(self).remaining(),
            },
    {
        match self.take(2) {
            Ok(bytes) => {
                assert(bytes@.subrange(0, 2) =~= bytes@);
                Ok(u16_from_be(bytes))
            },
            Err(e) => Err(e),
        }
    }

    /// Reads four bytes as a number, most significant byte first.
    pub fn read_u32(&mut self) -> (r: Result<u32, DecodeError>)
        ensures
            match r {
                Ok(n) => 4 <= old(self).remaining().len()
                    && n as nat == be_value(old(self).remaining().take(4))
                    && final(self).remaining() == old(self).remaining().skip(4),
                Err(e) => old(self).remaining().len() < 4 && e is Io
                    && final(self).remaining() == old(self).remaining(),
            },
    {
        match self.take(4) {
            Ok(bytes) => {
                assert(bytes@.subrange(0, 4) =~= bytes@);
                Ok(u32_from_be(bytes))
            },
            Err(e) => Err(e),
        }
    }

    /// Reads eight bytes as a number, most significant byte first.
    pub fn read_u64(&mut self) -> (r: Result<u64, DecodeError>)
        ensures
            match r {
                Ok(n) => 8 <= old(self).remaining().len()
                    && n as nat == be_value(old(self).remaining().take(8))
                    && final(self).remaining() == old(self).remaining().skip(8),
                Err(e) => old(self).remaining().len() < 8 && e is Io
                    && final(self).remaining() == old(self).remaining(),
            },
    {
        match self.take(8) {
            Ok(bytes) => {
                assert(bytes@.subrange(0, 8) =~= bytes@);
                Ok(u64_from_be(bytes))
            },
            Err(e) => Err(e),
        }
    }

    /// Reads the next `n` bytes into a vector of their own.
    pub fn read_bytes(&mut self, n: usize) -> (r: Result<Vec<u8>, DecodeError>)
        ensures
            match r {
                Ok(bytes) => n <= old(self).remaining().len()
                    && bytes@ == old(self).remaining().take(n as int)
                    && final(self).remaining() == old(self).remaining().skip(n as int),
                Err(e) => n > old(self).remaining().len() && e is Io
                    && final(self).remaining() == old(self).remaining(),
            },
    {
        match self.take(n) {
            Ok(bytes) => Ok(slice_to_vec(bytes)),
            Err(e) => Err(e),
        }
    }
}

/// The number that the eight bytes of `s` from `at` on spell.
pub open spec fn u64_at(s: Seq<u8>, at: int) -> u64 {
    be_value(s.subrange(at, at + 8)) as u64
}

/// The number that the four bytes of `s` from `at` on spell.
pub open spec fn u32_at(s: Seq<u8>, at: int) -> u32 {
    be_value(s.subrange(at, at + 4)) as u32
}

/// The number that the two bytes of `s` from `at` on spell.
pub open spec fn u16_at(s: Seq<u8>, at: int) -> u16 {
    be_value(s.subrange(at, at + 2)) as u16
}

/// The number that the sixteen bytes of `s` from `at` on spell.
pub open spec fn u128_at(s: Seq<u8>, at: int) -> u128 {
    be_value(s.subrange(at, at + 16)) as u128
}

/// The number at offset `at` of `bytes`, eight bytes wide.
pub fn get_u64(bytes: &[u8], at: usize) -> (n: u64)
    requires
        at + 8 <= bytes.len(),
    ensures
        n == u64_at(bytes@, at as int),
{
    let part = slice_subrange(bytes, at, at + 8);
    assert(part@.subrange(0, 8) =~= part@);
    u64_from_be(part)
}

/// The number at offset `at` of `bytes`, four bytes wide.
pub fn get_u32(bytes: &[u8], at: usize) -> (n: u32)
    requires
        at + 4 <= bytes.len(),
    ensures
        n == u32_at(bytes@, at as int),
{
    let part = slice_subrange(bytes, at, at + 4);
    assert(part@.subrange(0, 4) =~= part@);
    u32_from_be(part)
}

/// The number at offset `at` of `bytes`, sixteen bytes wide.
pub fn get_u128(bytes: &[u8], at: usize) -> (n: u128)
    requires
        at + 16 <= bytes.len(),
    ensures
        n == u128_at(bytes@, at as int),
{
    let part = slice_subrange(bytes, at, at + 16);
    assert(part@.subrange(0, 16) =~= part@);
    u128_from_be(part)
}

/// Trait to serialize stuff
pub trait Encode: View {
    /// Whether a value can be written at all.
    spec fn encodable(v: Self::V) -> bool;

    /// The bytes that a value is written as.
    spec fn encoded(v: Self::V) -> Seq<u8>;

    /// Serializes into writer: appends the value's bytes to it.
    fn encode_into(&self, writer: &mut Vec<u8>) -> (r: Result<(), EncodeError>)
        ensures
            r is Ok <==> Self::encodable(self@),
            r is Ok ==> final(writer)@ == old(writer)@ + Self::encoded(self@),
    ;

    /// Serializes into vector.
    fn encode_into_vec(&self) -> (r: Result<Vec<u8>, EncodeError>)
        ensures
            r is Ok <==> Self::encodable(self@),
            r matches Ok(v) ==> v@ == Self::encoded(self@),
    {
        let mut v: Vec<u8> = Vec::new();
        match self.encode_into(&mut v) {
            Ok(()) => {
                assert(v@ =~= Self::encoded(self@));
                Ok(v)
            },
            Err(e) => Err(e),
        }
    }
}

/// Trait to deserialize stuff
pub trait Decode: Sized + View {
    /// What the front of `input` decodes to, with the number of bytes that
    /// the value took, or what is wrong with it.
    spec fn decoded(input: Seq<u8>) -> Result<(Self::V, nat), DecodeFault>;

    /// Deserializes from reader, which moves on behind the value.
    fn decode_from(reader: &mut ByteReader<'_>) -> (r: Result<Self, DecodeError>)
        ensures
            match r {
                Ok(v) => Self::decoded(old(reader).remaining()) matches Ok((w, n)) && w == v@
                    && n <= old(reader).remaining().len()
                    && final(reader).remaining() == old(reader).remaining().skip(n as int),
                Err(e) => Self::decoded(old(reader).remaining()) == Err::<(Self::V, nat), _>(
                    e@,
                ),
            },
    ;
}

} // verus!
