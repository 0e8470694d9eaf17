//! Evaluations of the trace polynomials and of the constraint composition
//! polynomial at one point outside of the evaluation domain.

use crate::codec::{
    copy_bytes, decode_block, encode_block, lemma_decode_block, lemma_decode_block_bounds,
    lemma_encode_decoded_block, lemma_skip_skip, lemma_take_add, write_block, DeserializationError,
    LengthPrefix, SliceReader,
};
use vstd::prelude::*;

verus! {

/// What an `OodFrame` value holds.
pub struct OodFrameView {
    pub trace_states: Seq<u8>,
    pub evaluations: Seq<u8>,
}

impl OodFrameView {
    /// Each of the two byte strings takes at most 65535 bytes.
    pub open spec fn valid(self) -> bool {
        self.trace_states.len() <= 0xffff && self.evaluations.len() <= 0xffff
    }

    /// The trace states as a block, then the constraint evaluations as a
    /// block, each with a 16-bit length.
    pub open spec fn encode(self) -> Seq<u8> {
        encode_block(LengthPrefix::U16, self.trace_states) + encode_block(
            LengthPrefix::U16,
            self.evaluations,
        )
    }

    /// The frame at the head of `s`.
    pub open spec fn decode(s: Seq<u8>) -> Result<(OodFrameView, nat), DeserializationError> {
        match decode_block(LengthPrefix::U16, s) {
            Err(e) => Err(e),
            Ok((trace_states, n)) => match decode_block(LengthPrefix::U16, s.skip(n as int)) {
                Err(e) => Err(e),
                Ok((evaluations, m)) => Ok((OodFrameView { trace_states, evaluations }, n + m)),
            },
        }
    }

    /// Decoding undoes `encode`, whatever follows.
    pub proof fn lemma_decode_encode(self, rest: Seq<u8>)
        requires
            self.valid(),
        ensures
            Self::decode(self.encode() + rest) == Ok::<(OodFrameView, nat), DeserializationError>(
                (self, self.encode().len()),
            ),
            (self.encode() + rest).skip(self.encode().len() as int) == rest,
    {
        let first = encode_block(LengthPrefix::U16, self.trace_states);
        let second = encode_block(LengthPrefix::U16, self.evaluations);
        let s = self.encode() + rest;
        assert(s =~= first + (second + rest));
        lemma_decode_block(LengthPrefix::U16, self.trace_states, second + rest);
        lemma_decode_block(LengthPrefix::U16, self.evaluations, rest);
        assert(s.skip(self.encode().len() as int) =~= rest);
    }

    /// What `decode` reads is what `encode` writes.
    pub proof fn lemma_encode_decoded(s: Seq<u8>)
        ensures
            Self::decode(s) matches Ok((value, n)) ==> value.encode() == s.take(n as int),
    {
        if let Ok((value, total)) = Self::decode(s) {
            let n = decode_block(LengthPrefix::U16, s).unwrap().1;
            let m = decode_block(LengthPrefix::U16, s.skip(n as int)).unwrap().1;
            lemma_decode_block_bounds(LengthPrefix::U16, s);
            lemma_decode_block_bounds(LengthPrefix::U16, s.skip(n as int));
            lemma_encode_decoded_block(LengthPrefix::U16, s);
            lemma_encode_decoded_block(LengthPrefix::U16, s.skip(n as int));
            lemma_take_add(s, n, m);
        }
    }

    /// What `decode` accepts is valid and lies within `s`.
    pub proof fn lemma_decode_bounds(s: Seq<u8>)
        ensures
            Self::decode(s) matches Ok((value, n)) ==> value.valid() && n <= s.len(),
    {
        lemma_decode_block_bounds(LengthPrefix::U16, s);
        if let Ok((_, n)) = decode_block(LengthPrefix::U16, s) {
            lemma_decode_block_bounds(LengthPrefix::U16, s.skip(n as int));
        }
    }
}

/// Trace and constraint evaluations at an out-of-domain point.
#[derive(Debug, PartialEq, Eq)]
pub struct OodFrame {
    trace_states: Vec<u8>,
    evaluations: Vec<u8>,
}

impl View for OodFrame {
    type V = OodFrameView;

    closed spec fn view(&self) -> OodFrameView {
        OodFrameView { trace_states: self.trace_states@, evaluations: self.evaluations@ }
    }
}

impl Clone for OodFrame {
    fn clone(&self) -> (copy: Self)
        ensures
            copy@ == self@,
    {
        proof {
            use_type_invariant(self);
        }
        OodFrame {
            trace_states: copy_bytes(self.trace_states.as_slice()),
            evaluations: copy_bytes(self.evaluations.as_slice()),
        }
    }
}

impl Default for OodFrame {
    fn default() -> (empty: Self)
        ensures
            empty@ == (OodFrameView {
                trace_states: Seq::<u8>::empty(),
                evaluations: Seq::<u8>::empty(),
            }),
    {
        OodFrame { trace_states: Vec::new(), evaluations: Vec::new() }
    }
}

impl OodFrame {
    #[verifier::type_invariant]
    pub open spec fn inv(self) -> bool {
        self@.valid()
    }

    /// A frame with the given trace states and constraint evaluations, unless
    /// one of them takes more than 65535 bytes.
    pub fn new(trace_states: Vec<u8>, evaluations: Vec<u8>) -> (frame: Option<OodFrame>)
        ensures
            match frame {
                Some(f) => f@ == (OodFrameView {
                    trace_states: trace_states@,
                    evaluations: evaluations@,
                }) && f@.valid(),
                None => !(OodFrameView {
                    trace_states: trace_states@,
                    evaluations: evaluations@,
                }).valid(),
            },
    {
        if trace_states.len() > LengthPrefix::U16.max_len() || evaluations.len()
            > LengthPrefix::U16.max_len() {
            None
        } else {
            Some(OodFrame { trace_states, evaluations })
        }
    }

    /// Evaluations of the trace polynomials.
    pub fn trace_states(&self) -> (bytes: &[u8])
        ensures
            bytes@ == self@.trace_states,
            self@.valid(),
    {
        proof {
            use_type_invariant(self);
        }
        self.trace_states.as_slice()
    }

    /// Evaluations of the constraint composition polynomial.
    pub fn evaluations(&self) -> (bytes: &[u8])
        ensures
            bytes@ == self@.evaluations,
            self@.valid(),
    {
        proof {
            use_type_invariant(self);
        }
        self.evaluations.as_slice()
    }

    /// Appends the frame to `target`.
    pub fn write_into(&self, target: &mut Vec<u8>)
        ensures
            final(target)@ == old(target)@ + self@.encode(),
            self@.valid(),
    {
        proof {
            use_type_invariant(self);
        }
        write_block(target, LengthPrefix::U16, self.trace_states.as_slice());
        write_block(target, LengthPrefix::U16, self.evaluations.as_slice());
        assert(target@ =~= old(target)@ + self@.encode());
    }

    /// Reads a frame from `source`.
    pub fn read_from(source: &mut SliceReader) -> (result: Result<OodFrame, DeserializationError>)
        ensures
            match OodFrameView::decode(old(source).remaining()) {
                Ok((value, n)) => {
                    &&& result matches Ok(frame)
                    &&& frame@ == value
                    &&& value.valid()
                    &&& final(source).remaining() == old(source).remaining().skip(n as int)
                },
                Err(e) => result == Err::<OodFrame, DeserializationError>(e),
            },
    {
        let ghost s = source.remaining();
        proof {
            OodFrameView::lemma_decode_bounds(s);
            lemma_decode_block_bounds(LengthPrefix::U16, s);
        }
        let trace_states = source.read_block(LengthPrefix::U16)?;
        let ghost n = (2 + trace_states@.len()) as nat;
        let evaluations = source.read_block(LengthPrefix::U16)?;
        proof {
            lemma_decode_block_bounds(LengthPrefix::U16, s.skip(n as int));
            lemma_skip_skip(s, n, (2 + evaluations@.len()) as nat);
        }
        Ok(OodFrame { trace_states, evaluations })
    }
}

} // verus!
