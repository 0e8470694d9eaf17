//! Byte-level primitives of the wire format: little-endian integers,
//! length-prefixed byte blocks, and a cursor over a byte slice.

use vstd::prelude::*;
use vstd::slice::{slice_subrange, slice_to_vec};

verus! {

/// Why a sequence of bytes is not the encoding of a value.
#[derive(Clone, Copy, Debug, PartialEq, Eq, Structural)]
pub enum DeserializationError {
    /// The input ended before the value was complete.
    UnexpectedEOF,
    /// A field holds a value outside of what its type admits.
    InvalidValue(InvalidValue),
}

/// The field that held an inadmissible value.
#[derive(Clone, Copy, Debug, PartialEq, Eq, Structural)]
pub enum InvalidValue {
    /// The field-extension tag is not 1, 2 or 3.
    FieldExtension,
    /// The number of queries is zero or above 255.
    NumQueries,
    /// The blowup factor is not a power of two between 2 and 128.
    BlowupFactor,
    /// The grinding factor is above 32.
    GrindingFactor,
    /// The FRI folding factor is not 2, 4, 8 or 16.
    FriFoldingFactor,
    /// The FRI remainder degree is not one less than a power of two.
    FriRemainderDegree,
    /// The main trace segment has no columns.
    MainSegmentWidth,
    /// The trace as a whole has more than 255 columns.
    TraceWidth,
    /// An auxiliary segment's width and its number of random elements
    /// are not zero together.
    AuxSegmentRands,
    /// The trace length is below 8 or beyond what `usize` holds, or the
    /// domain that the blowup factor extends it to is.
    TraceLength,
    /// The field modulus is shorter than two bytes.
    FieldModulus,
    /// A FRI layer holds no queried evaluation.
    FriLayerValues,
}

// LITTLE-ENDIAN INTEGERS
// ================================================================================================

/// The two bytes of `v`, least significant first.
pub open spec fn le16(v: u16) -> Seq<u8> {
    seq![(v % 256) as u8, (v / 256) as u8]
}

/// The four bytes of `v`, least significant first.
pub open spec fn le32(v: u32) -> Seq<u8> {
    seq![
        (v % 256) as u8,
        (v / 0x100 % 256) as u8,
        (v / 0x1_0000 % 256) as u8,
        (v / 0x100_0000) as u8,
    ]
}

/// The eight bytes of `v`, least significant first.
pub open spec fn le64(v: u64) -> Seq<u8> {
    le32((v % 0x1_0000_0000) as u32) + le32((v / 0x1_0000_0000) as u32)
}

/// The number whose little-endian digits are the first four bytes of `s`.
pub open spec fn value32(s: Seq<u8>) -> int {
    s[0] + 0x100 * s[1] + 0x1_0000 * s[2] + 0x100_0000 * s[3]
}

/// One byte, or the reason why none can be read from `s`.
pub open spec fn decode_u8(s: Seq<u8>) -> Result<(u8, nat), DeserializationError> {
    if s.len() < 1 {
        Err(DeserializationError::UnexpectedEOF)
    } else {
        Ok((s[0], 1))
    }
}

/// A 16-bit integer from the head of `s`.
pub open spec fn decode_u16(s: Seq<u8>) -> Result<(u16, nat), DeserializationError> {
    if s.len() < 2 {
        Err(DeserializationError::UnexpectedEOF)
    } else {
        Ok(((s[0] + 0x100 * s[1]) as u16, 2))
    }
}

/// A 32-bit integer from the head of `s`.
pub open spec fn decode_u32(s: Seq<u8>) -> Result<(u32, nat), DeserializationError> {
    if s.len() < 4 {
        Err(DeserializationError::UnexpectedEOF)
    } else {
        Ok((value32(s) as u32, 4))
    }
}

/// A 64-bit integer from the head of `s`.
pub open spec fn decode_u64(s: Seq<u8>) -> Result<(u64, nat), DeserializationError> {
    if s.len() < 8 {
        Err(DeserializationError::UnexpectedEOF)
    } else {
        Ok(((value32(s) + 0x1_0000_0000 * value32(s.skip(4))) as u64, 8))
    }
}

/// The next `n` bytes of `s`.
pub open spec fn decode_bytes(s: Seq<u8>, n: nat) -> Result<(Seq<u8>, nat), DeserializationError> {
    if s.len() < n {
        Err(DeserializationError::UnexpectedEOF)
    } else {
        Ok((s.take(n as int), n))
    }
}

/// Decoding undoes `le16`, whatever follows the two bytes.
pub proof fn lemma_decode_le16(v: u16, rest: Seq<u8>)
    ensures
        decode_u16(le16(v) + rest) == Ok::<(u16, nat), DeserializationError>((v, 2)),
        (le16(v) + rest).skip(2) == rest,
        le16(v).len() == 2,
{
    assert((le16(v) + rest).skip(2) =~= rest);
}

/// Decoding undoes `le32`, whatever follows the four bytes.
pub proof fn lemma_decode_le32(v: u32, rest: Seq<u8>)
    ensures
        decode_u32(le32(v) + rest) == Ok::<(u32, nat), DeserializationError>((v, 4)),
        (le32(v) + rest).skip(4) == rest,
        le32(v).len() == 4,
{
    assert((le32(v) + rest).skip(4) =~= rest);
}

/// Decoding undoes `le64`, whatever follows the eight bytes.
pub proof fn lemma_decode_le64(v: u64, rest: Seq<u8>)
    ensures
        decode_u64(le64(v) + rest) == Ok::<(u64, nat), DeserializationError>((v, 8)),
        (le64(v) + rest).skip(8) == rest,
        le64(v).len() == 8,
{
    let low = (v % 0x1_0000_0000) as u32;
    let high = (v / 0x1_0000_0000) as u32;
    let s = le64(v) + rest;
    assert(s == le32(low) + (le32(high) + rest)) by {
        assert(s =~= le32(low) + (le32(high) + rest));
    }
    lemma_decode_le32(low, le32(high) + rest);
    lemma_decode_le32(high, rest);
    assert(value32(s) == low);
    assert(value32(s.skip(4)) == high);
    assert(s.skip(8) == rest) by {
        assert(s.skip(4).skip(4) =~= s.skip(8));
    }
    assert(low + 0x1_0000_0000 * high == v);
}

/// What `decode_u16` reads is what `le16` writes.
pub proof fn lemma_encode_decoded_u16(s: Seq<u8>)
    ensures
        decode_u16(s) matches Ok((v, n)) ==> le16(v) == s.take(2),
{
    if s.len() >= 2 {
        assert(le16((s[0] + 0x100 * s[1]) as u16) =~= s.take(2));
    }
}

/// What `decode_u32` reads is what `le32` writes.
pub proof fn lemma_encode_decoded_u32(s: Seq<u8>)
    ensures
        decode_u32(s) matches Ok((v, n)) ==> le32(v) == s.take(4),
{
    if s.len() >= 4 {
        let v = value32(s) as u32;
        assert(v % 256 == s[0]);
        assert(v / 0x100 % 256 == s[1]);
        assert(v / 0x1_0000 % 256 == s[2]);
        assert(v / 0x100_0000 == s[3]);
        assert(le32(v) =~= s.take(4));
    }
}

/// What `decode_u64` reads is what `le64` writes.
pub proof fn lemma_encode_decoded_u64(s: Seq<u8>)
    ensures
        decode_u64(s) matches Ok((v, n)) ==> le64(v) == s.take(8),
{
    if s.len() >= 8 {
        let low = value32(s) as u32;
        let high = value32(s.skip(4)) as u32;
        let v = (low + 0x1_0000_0000 * high) as u64;
        lemma_encode_decoded_u32(s);
        lemma_encode_decoded_u32(s.skip(4));
        assert(v % 0x1_0000_0000 == low);
        assert(v / 0x1_0000_0000 == high);
        assert(s.take(8) =~= s.take(4) + s.skip(4).take(4));
    }
}

/// The first `n + m` items are the first `n`, then the first `m` of what follows.
pub proof fn lemma_take_add(s: Seq<u8>, n: nat, m: nat)
    requires
        n + m <= s.len(),
    ensures
        s.take((n + m) as int) == s.take(n as int) + s.skip(n as int).take(m as int),
{
    assert(s.take((n + m) as int) =~= s.take(n as int) + s.skip(n as int).take(m as int));
}

/// Skipping twice is skipping once by the sum.
pub proof fn lemma_skip_skip(s: Seq<u8>, a: nat, b: nat)
    requires
        a + b <= s.len(),
    ensures
        s.skip(a as int).skip(b as int) == s.skip((a + b) as int),
{
    assert(s.skip(a as int).skip(b as int) =~= s.skip((a + b) as int));
}

// LENGTH-PREFIXED BLOCKS
// ================================================================================================

/// Width of the integer that announces how many bytes a block holds.
#[derive(Clone, Copy, Debug, PartialEq, Eq, Structural)]
pub enum LengthPrefix {
    /// One byte.
    U8,
    /// Two bytes, least significant first.
    U16,
    /// Four bytes, least significant first.
    U32,
}

impl LengthPrefix {
    /// Number of bytes that the prefix takes.
    pub open spec fn width(self) -> nat {
        match self {
            LengthPrefix::U8 => 1,
            LengthPrefix::U16 => 2,
            LengthPrefix::U32 => 4,
        }
    }

    /// Largest length that the prefix can announce.
    pub open spec fn limit(self) -> nat {
        match self {
            LengthPrefix::U8 => 0xff,
            LengthPrefix::U16 => 0xffff,
            LengthPrefix::U32 => 0xffff_ffff,
        }
    }

    /// The prefix that announces `n` bytes.
    pub open spec fn encode(self, n: nat) -> Seq<u8> {
        match self {
            LengthPrefix::U8 => seq![n as u8],
            LengthPrefix::U16 => le16(n as u16),
            LengthPrefix::U32 => le32(n as u32),
        }
    }

    /// The length announced at the head of `s`.
    pub open spec fn decode(self, s: Seq<u8>) -> Result<(nat, nat), DeserializationError> {
        match self {
            LengthPrefix::U8 => match decode_u8(s) {
                Ok((n, k)) => Ok((n as nat, k)),
                Err(e) => Err(e),
            },
            LengthPrefix::U16 => match decode_u16(s) {
                Ok((n, k)) => Ok((n as nat, k)),
                Err(e) => Err(e),
            },
            LengthPrefix::U32 => match decode_u32(s) {
                Ok((n, k)) => Ok((n as nat, k)),
                Err(e) => Err(e),
            },
        }
    }

    /// Largest length that the prefix can announce.
    pub fn max_len(self) -> (n: usize)
        ensures
            n == self.limit(),
    {
        match self {
            LengthPrefix::U8 => 0xff,
            LengthPrefix::U16 => 0xffff,
            LengthPrefix::U32 => 0xffff_ffff,
        }
    }
}

/// A block: the number of bytes, then the bytes.
#[verifier::opaque]
pub open spec fn encode_block(prefix: LengthPrefix, bytes: Seq<u8>) -> Seq<u8> {
    prefix.encode(bytes.len()) + bytes
}

/// The block at the head of `s`.
#[verifier::opaque]
pub open spec fn decode_block(prefix: LengthPrefix, s: Seq<u8>) -> Result<
    (Seq<u8>, nat),
    DeserializationError,
> {
    match prefix.decode(s) {
        Err(e) => Err(e),
        Ok((n, k)) => match decode_bytes(s.skip(k as int), n) {
            Err(e) => Err(e),
            Ok((bytes, _)) => Ok((bytes, k + n)),
        },
    }
}

/// Decoding undoes `encode_block`, whatever follows the block.
pub proof fn lemma_decode_block(prefix: LengthPrefix, bytes: Seq<u8>, rest: Seq<u8>)
    requires
        bytes.len() <= prefix.limit(),
    ensures
        decode_block(prefix, encode_block(prefix, bytes) + rest) == Ok::<
            (Seq<u8>, nat),
            DeserializationError,
        >((bytes, encode_block(prefix, bytes).len())),
        (encode_block(prefix, bytes) + rest).skip(encode_block(prefix, bytes).len() as int)
            == rest,
        encode_block(prefix, bytes).len() == prefix.width() + bytes.len(),
{
    reveal(encode_block);
    reveal(decode_block);
    let n = bytes.len();
    let s = encode_block(prefix, bytes) + rest;
    let k = prefix.width();
    assert(s =~= prefix.encode(n) + (bytes + rest));
    match prefix {
        LengthPrefix::U8 => {},
        LengthPrefix::U16 => {
            lemma_decode_le16(n as u16, bytes + rest);
        },
        LengthPrefix::U32 => {
            lemma_decode_le32(n as u32, bytes + rest);
        },
    }
    assert(s.skip(k as int) =~= bytes + rest);
    assert((bytes + rest).take(n as int) =~= bytes);
    assert(s.skip((k + n) as int) =~= rest);
}

/// What `decode_block` accepts lies within `s` and is no longer than the
/// prefix can announce.
pub proof fn lemma_decode_block_bounds(prefix: LengthPrefix, s: Seq<u8>)
    ensures
        decode_block(prefix, s) matches Ok((bytes, n)) ==> n <= s.len() && bytes.len()
            <= prefix.limit() && n == prefix.width() + bytes.len(),
{
    reveal(decode_block);
}

/// What `decode_block` reads is what `encode_block` writes.
pub proof fn lemma_encode_decoded_block(prefix: LengthPrefix, s: Seq<u8>)
    ensures
        decode_block(prefix, s) matches Ok((bytes, n)) ==> encode_block(prefix, bytes) == s.take(
            n as int,
        ),
{
    reveal(decode_block);
    reveal(encode_block);
    if let Ok((bytes, n)) = decode_block(prefix, s) {
        let k = prefix.width();
        match prefix {
            LengthPrefix::U8 => {
                assert(seq![bytes.len() as u8] =~= s.take(1));
            },
            LengthPrefix::U16 => {
                lemma_encode_decoded_u16(s);
            },
            LengthPrefix::U32 => {
                lemma_encode_decoded_u32(s);
            },
        }
        lemma_take_add(s, k, bytes.len());
    }
}

// WRITING
// ================================================================================================

/// A vector that holds the bytes of `bytes`.
pub fn copy_bytes(bytes: &[u8]) -> (copy: Vec<u8>)
    ensures
        copy@ == bytes@,
{
    slice_to_vec(bytes)
}

/// Appends one byte to `target`.
pub fn write_u8(target: &mut Vec<u8>, value: u8)
    ensures
        final(target)@ == old(target)@ + seq![value],
{
    target.push(value);
    assert(target@ =~= old(target)@ + seq![value]);
}

/// Appends a 16-bit integer to `target`, least significant byte first.
pub fn write_u16(target: &mut Vec<u8>, value: u16)
    ensures
        final(target)@ == old(target)@ + le16(value),
{
    target.push((value % 256) as u8);
    target.push((value / 256) as u8);
    assert(target@ =~= old(target)@ + le16(value));
}

/// Appends a 32-bit integer to `target`, least significant byte first.
pub fn write_u32(target: &mut Vec<u8>, value: u32)
    ensures
        final(target)@ == old(target)@ + le32(value),
{
    target.push((value % 256) as u8);
    target.push((value / 0x100 % 256) as u8);
    target.push((value / 0x1_0000 % 256) as u8);
    target.push((value / 0x100_0000) as u8);
    assert(target@ =~= old(target)@ + le32(value));
}

/// Appends a 64-bit integer to `target`, least significant byte first.
pub fn write_u64(target: &mut Vec<u8>, value: u64)
    ensures
        final(target)@ == old(target)@ + le64(value),
{
    write_u32(target, (value % 0x1_0000_0000) as u32);
    write_u32(target, (value / 0x1_0000_0000) as u32);
    assert(target@ =~= old(target)@ + le64(value));
}

/// Appends `bytes` to `target`.
pub fn write_bytes(target: &mut Vec<u8>, bytes: &[u8])
    ensures
        final(target)@ == old(target)@ + bytes@,
{
    let mut i: usize = 0;
    while i < bytes.len()
        invariant
            i <= bytes.len(),
            target@ == old(target)@ + bytes@.take(i as int),
        decreases bytes.len() - i,
    {
        target.push(bytes[i]);
        assert(bytes@.take(i + 1) =~= bytes@.take(i as int).push(bytes@[i as int]));
        i = i + 1;
    }
    assert(bytes@.take(i as int) =~= bytes@);
}

/// Appends to `target` the length of `bytes` and then `bytes`.
pub fn write_block(target: &mut Vec<u8>, prefix: LengthPrefix, bytes: &[u8])
    requires
        bytes@.len() <= prefix.limit(),
    ensures
        final(target)@ == old(target)@ + encode_block(prefix, bytes@),
{
    reveal(encode_block);
    match prefix {
        LengthPrefix::U8 => write_u8(target, bytes.len() as u8),
        LengthPrefix::U16 => write_u16(target, bytes.len() as u16),
        LengthPrefix::U32 => write_u32(target, bytes.len() as u32),
    }
    write_bytes(target, bytes);
    assert(target@ =~= old(target)@ + encode_block(prefix, bytes@));
}

// READING
// ================================================================================================

/// A cursor that moves forward over a byte slice.
pub struct SliceReader<'a> {
    source: &'a [u8],
    pos: usize,
}

impl<'a> SliceReader<'a> {
    #[verifier::type_invariant]
    closed spec fn inv(self) -> bool {
        self.pos <= self.source@.len()
    }

    /// The bytes that have not been read yet.
    pub closed spec fn remaining(self) -> Seq<u8> {
        self.source@.skip(self.pos as int)
    }

    /// A cursor at the start of `source`.
    pub fn new(source: &'a [u8]) -> (reader: Self)
        ensures
            reader.remaining() == source@,
    {
        assert(source@.skip(0) =~= source@);
        SliceReader { source, pos: 0 }
    }

    /// True while there is at least one byte to read.
    pub fn has_more_bytes(&self) -> (more: bool)
        ensures
            more == (self.remaining().len() > 0),
    {
        proof {
            use_type_invariant(self);
        }
        self.pos < self.source.len()
    }

    /// Reads one byte.
    pub fn read_u8(&mut self) -> (result: Result<u8, DeserializationError>)
        ensures
            match decode_u8(old(self).remaining()) {
                Ok((value, n)) => {
                    &&& result == Ok::<u8, DeserializationError>(value)
                    &&& final(self).remaining() == old(self).remaining().skip(n as int)
                },
                Err(e) => result == Err::<u8, DeserializationError>(e),
            },
    {
        proof {
            use_type_invariant(&*self);
        }
        if self.source.len() - self.pos < 1 {
            return Err(DeserializationError::UnexpectedEOF);
        }
        let value = self.source[self.pos];
        self.pos = self.pos + 1;
        assert(self.remaining() =~= old(self).remaining().skip(1));
        Ok(value)
    }

    /// Reads a 16-bit integer, least significant byte first.
    pub fn read_u16(&mut self) -> (result: Result<u16, DeserializationError>)
        ensures
            match decode_u16(old(self).remaining()) {
                Ok((value, n)) => {
                    &&& result == Ok::<u16, DeserializationError>(value)
                    &&& final(self).remaining() == old(self).remaining().skip(n as int)
                },
                Err(e) => result == Err::<u16, DeserializationError>(e),
            },
    {
        proof {
            use_type_invariant(&*self);
        }
        if self.source.len() - self.pos < 2 {
            return Err(DeserializationError::UnexpectedEOF);
        }
        let b0 = self.source[self.pos] as u16;
        let b1 = self.source[self.pos + 1] as u16;
        self.pos = self.pos + 2;
        assert(self.remaining() =~= old(self).remaining().skip(2));
        Ok(b0 + 0x100 * b1)
    }

    /// Reads a 32-bit integer, least significant byte first.
    pub fn read_u32(&mut self) -> (result: Result<u32, DeserializationError>)
        ensures
            match decode_u32(old(self).remaining()) {
                Ok((value, n)) => {
                    &&& result == Ok::<u32, DeserializationError>(value)
                    &&& final(self).remaining() == old(self).remaining().skip(n as int)
                },
                Err(e) => result == Err::<u32, DeserializationError>(e),
            },
    {
        proof {
            use_type_invariant(&*self);
        }
        if self.source.len() - self.pos < 4 {
            return Err(DeserializationError::UnexpectedEOF);
        }
        let b0 = self.source[self.pos] as u32;
        let b1 = self.source[self.pos + 1] as u32;
        let b2 = self.source[self.pos + 2] as u32;
        let b3 = self.source[self.pos + 3] as u32;
        self.pos = self.pos + 4;
        assert(self.remaining() =~= old(self).remaining().skip(4));
        Ok(b0 + 0x100 * b1 + 0x1_0000 * b2 + 0x100_0000 * b3)
    }

    /// Reads a 64-bit integer, least significant byte first.
    pub fn read_u64(&mut self) -> (result: Result<u64, DeserializationError>)
        ensures
            match decode_u64(old(self).remaining()) {
                Ok((value, n)) => {
                    &&& result == Ok::<u64, DeserializationError>(value)
                    &&& final(self).remaining() == old(self).remaining().skip(n as int)
                },
                Err(e) => result == Err::<u64, DeserializationError>(e),
            },
    {
        proof {
            use_type_invariant(&*self);
        }
        if self.source.len() - self.pos < 8 {
            return Err(DeserializationError::UnexpectedEOF);
        }
        let low = self.read_u32()?;
        let high = self.read_u32()?;
        assert(self.remaining() =~= old(self).remaining().skip(8));
        Ok(low as u64 + 0x1_0000_0000 * (high as u64))
    }

    /// Reads the next `n` bytes.
    pub fn read_vec(&mut self, n: usize) -> (result: Result<Vec<u8>, DeserializationError>)
        ensures
            match decode_bytes(old(self).remaining(), n as nat) {
                Ok((value, k)) => {
                    &&& result matches Ok(bytes)
                    &&& bytes@ == value
                    &&& final(self).remaining() == old(self).remaining().skip(k as int)
                },
                Err(e) => result == Err::<Vec<u8>, DeserializationError>(e),
            },
    {
        proof {
            use_type_invariant(&*self);
        }
        if self.source.len() - self.pos < n {
            return Err(DeserializationError::UnexpectedEOF);
        }
        let bytes = slice_to_vec(slice_subrange(self.source, self.pos, self.pos + n));
        assert(bytes@ =~= self.remaining().take(n as int));
        self.pos = self.pos + n;
        assert(self.remaining() =~= old(self).remaining().skip(n as int));
        Ok(bytes)
    }

    /// Reads a block: its length, then as many bytes.
    pub fn read_block(&mut self, prefix: LengthPrefix) -> (result: Result<
        Vec<u8>,
        DeserializationError,
    >)
        ensures
            match decode_block(prefix, old(self).remaining()) {
                Ok((value, k)) => {
                    &&& result matches Ok(bytes)
                    &&& bytes@ == value
                    &&& bytes@.len() <= prefix.limit()
                    &&& final(self).remaining() == old(self).remaining().skip(k as int)
                },
                Err(e) => result == Err::<Vec<u8>, DeserializationError>(e),
            },
    {
        reveal(decode_block);
        let n: usize = match prefix {
            LengthPrefix::U8 => self.read_u8()? as usize,
            LengthPrefix::U16 => self.read_u16()? as usize,
            LengthPrefix::U32 => self.read_u32()? as usize,
        };
        let bytes = self.read_vec(n)?;
        assert(self.remaining() =~= old(self).remaining().skip((prefix.width() + n) as int));
        Ok(bytes)
    }
}

} // verus!
