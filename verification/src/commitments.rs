//! Commitments that the prover makes during the commit phase: one root per
//! trace segment, one for the constraint composition polynomial, one per FRI
//! layer, as one string of bytes in that order.

use crate::codec::{
    copy_bytes, decode_block, encode_block, lemma_decode_block, lemma_decode_block_bounds,
    lemma_encode_decoded_block, write_block, DeserializationError, LengthPrefix, SliceReader,
};
use vstd::prelude::*;

verus! {

/// The roots can be encoded: they take at most 65535 bytes.
pub open spec fn valid_commitments(roots: Seq<u8>) -> bool {
    roots.len() <= 0xffff
}

/// The roots as a block with a 16-bit length.
pub open spec fn encode_commitments(roots: Seq<u8>) -> Seq<u8> {
    encode_block(LengthPrefix::U16, roots)
}

/// The commitments at the head of `s`.
pub open spec fn decode_commitments(s: Seq<u8>) -> Result<(Seq<u8>, nat), DeserializationError> {
    decode_block(LengthPrefix::U16, s)
}

/// Decoding undoes `encode_commitments`, whatever follows.
pub proof fn lemma_decode_encode_commitments(roots: Seq<u8>, rest: Seq<u8>)
    requires
        valid_commitments(roots),
    ensures
        decode_commitments(encode_commitments(roots) + rest) == Ok::<
            (Seq<u8>, nat),
            DeserializationError,
        >((roots, encode_commitments(roots).len())),
        (encode_commitments(roots) + rest).skip(encode_commitments(roots).len() as int) == rest,
{
    lemma_decode_block(LengthPrefix::U16, roots, rest);
}

/// What `decode_commitments` reads is what `encode_commitments` writes.
pub proof fn lemma_encode_decoded_commitments(s: Seq<u8>)
    ensures
        decode_commitments(s) matches Ok((roots, n)) ==> encode_commitments(roots) == s.take(
            n as int,
        ),
{
    lemma_encode_decoded_block(LengthPrefix::U16, s);
}

/// What `decode_commitments` accepts is valid and lies within `s`.
pub proof fn lemma_decode_commitments_bounds(s: Seq<u8>)
    ensures
        decode_commitments(s) matches Ok((roots, n)) ==> valid_commitments(roots) && n <= s.len(),
{
    lemma_decode_block_bounds(LengthPrefix::U16, s);
}

/// Roots of the commitments made by the prover, in the order in which they were made.
#[derive(Debug, PartialEq, Eq)]
pub struct Commitments {
    roots: Vec<u8>,
}

impl View for Commitments {
    type V = Seq<u8>;

    closed spec fn view(&self) -> Seq<u8> {
        self.roots@
    }
}

impl Clone for Commitments {
    fn clone(&self) -> (copy: Self)
        ensures
            copy@ == self@,
    {
        proof {
            use_type_invariant(self);
        }
        Commitments { roots: copy_bytes(self.roots.as_slice()) }
    }
}

impl Default for Commitments {
    fn default() -> (empty: Self)
        ensures
            empty@ == Seq::<u8>::empty(),
    {
        Commitments { roots: Vec::new() }
    }
}

impl Commitments {
    #[verifier::type_invariant]
    pub open spec fn inv(self) -> bool {
        valid_commitments(self@)
    }

    /// Commitments with the given roots, unless they take more than 65535 bytes.
    pub fn new(roots: Vec<u8>) -> (commitments: Option<Commitments>)
        ensures
            match commitments {
                Some(c) => c@ == roots@ && valid_commitments(roots@),
                None => !valid_commitments(roots@),
            },
    {
        if roots.len() > LengthPrefix::U16.max_len() {
            None
        } else {
            Some(Commitments { roots })
        }
    }

    /// The roots, one after the other.
    pub fn roots(&self) -> (roots: &[u8])
        ensures
            roots@ == self@,
            valid_commitments(self@),
    {
        proof {
            use_type_invariant(self);
        }
        self.roots.as_slice()
    }

    /// Appends the commitments to `target`.
    pub fn write_into(&self, target: &mut Vec<u8>)
        ensures
            final(target)@ == old(target)@ + encode_commitments(self@),
            valid_commitments(self@),
    {
        proof {
            use_type_invariant(self);
        }
        write_block(target, LengthPrefix::U16, self.roots.as_slice());
    }

    /// Reads commitments from `source`.
    pub fn read_from(source: &mut SliceReader) -> (result: Result<
        Commitments,
        DeserializationError,
    >)
        ensures
            match decode_commitments(old(source).remaining()) {
                Ok((value, n)) => {
                    &&& result matches Ok(read)
                    &&& read@ == value
                    &&& valid_commitments(value)
                    &&& final(source).remaining() == old(source).remaining().skip(n as int)
                },
                Err(e) => result == Err::<Commitments, DeserializationError>(e),
            },
    {
        let roots = source.read_block(LengthPrefix::U16)?;
        Ok(Commitments { roots })
    }
}

} // verus!
