//! Metadata of a proof: the shape of the execution trace, the base field,
//! and the protocol parameters.

use crate::arith::{checked_pow2, floor_log2, lemma_log2_bounds, lemma_power_of_two_log};
use crate::codec::{
    copy_bytes, decode_block, decode_bytes, decode_u8, encode_block, lemma_decode_block,
    lemma_decode_block_bounds, lemma_encode_decoded_block, lemma_skip_skip, lemma_take_add,
    write_block, write_u8, DeserializationError, InvalidValue, LengthPrefix, SliceReader,
};
use crate::options::{ProofOptions, ProofOptionsView};
use crate::trace::{TraceInfo, TraceInfoView, TraceLayout, TraceLayoutView};
use vstd::arithmetic::logarithm::{lemma_log_is_ordered, lemma_log_nonnegative, lemma_log_pow, log};
use vstd::arithmetic::power2::{
    is_pow2, lemma2_to64, lemma_pow2, lemma_pow2_adds, lemma_pow2_strictly_increases, pow2,
};
use vstd::prelude::*;

verus! {

/// Number of bits that the number with the little-endian digits `bytes`
/// takes: none for zero, else one more than the position of its highest
/// set bit.
pub open spec fn bit_length(bytes: Seq<u8>) -> nat
    decreases bytes.len(),
{
    if bytes.len() == 0 {
        0
    } else if bytes.last() != 0 {
        (8 * (bytes.len() - 1) + log(2, bytes.last() as int) + 1) as nat
    } else {
        bit_length(bytes.drop_last())
    }
}

/// The number whose little-endian digits are `bytes`.
pub open spec fn le_number(bytes: Seq<u8>) -> nat
    decreases bytes.len(),
{
    if bytes.len() == 0 {
        0
    } else {
        le_number(bytes.drop_last()) + (bytes.last() as nat) * pow2(
            (8 * (bytes.len() - 1)) as nat,
        )
    }
}

/// A number of `n` digits is below the `n`-th power of 256.
pub proof fn lemma_le_number_upper(bytes: Seq<u8>)
    ensures
        le_number(bytes) < pow2(8 * bytes.len()),
    decreases bytes.len(),
{
    lemma2_to64();
    if bytes.len() > 0 {
        let low = (8 * (bytes.len() - 1)) as nat;
        lemma_le_number_upper(bytes.drop_last());
        lemma_pow2_adds(8, low);
        assert(le_number(bytes.drop_last()) + bytes.last() * pow2(low) < 256 * pow2(low))
            by (nonlinear_arith)
            requires
                le_number(bytes.drop_last()) < pow2(low),
                bytes.last() <= 255,
        ;
    }
}

/// `bit_length` is the number of bits of the number that the bytes stand
/// for: the number is below two to that power, and unless it is zero it
/// reaches two to the power one less.
pub proof fn lemma_bit_length_is_bit_width(bytes: Seq<u8>)
    ensures
        le_number(bytes) < pow2(bit_length(bytes)),
        bit_length(bytes) > 0 ==> pow2((bit_length(bytes) - 1) as nat) <= le_number(bytes),
        bit_length(bytes) <= 8 * bytes.len(),
    decreases bytes.len(),
{
    lemma2_to64();
    if bytes.len() > 0 {
        let front = bytes.drop_last();
        let top = bytes.last() as nat;
        let low = (8 * (bytes.len() - 1)) as nat;
        lemma_bit_length_is_bit_width(front);
        if top != 0 {
            let t = log(2, top as int) as nat;
            lemma_log_nonnegative(2, top as int);
            lemma_log2_bounds(top);
            lemma_log_is_ordered(2, top as int, 255);
            assert(log(2, 255) == 7) by {
                reveal_with_fuel(log, 9);
            }
            lemma_le_number_upper(front);
            lemma_pow2_adds(t, low);
            lemma_pow2_adds(t + 1, low);
            assert(pow2(t) * pow2(low) <= top * pow2(low)) by (nonlinear_arith)
                requires
                    pow2(t) <= top,
            ;
            assert(le_number(front) + top * pow2(low) < pow2(t + 1) * pow2(low))
                by (nonlinear_arith)
                requires
                    le_number(front) < pow2(low),
                    top + 1 <= pow2(t + 1),
            ;
            assert(bit_length(bytes) == low + t + 1);
        }
    }
}

/// What a `Context` value holds.
pub struct ContextView {
    pub trace_layout: TraceLayoutView,
    pub trace_length: nat,
    pub trace_meta: Seq<u8>,
    pub field_modulus_bytes: Seq<u8>,
    pub options: ProofOptionsView,
}

impl ContextView {
    /// Layout and options are admissible; the trace length is a power of
    /// two and at least 8; the extended domain has a size that `usize` holds;
    /// the metadata takes at most 65535 bytes and the modulus between 2 and
    /// 255.
    pub open spec fn valid(self) -> bool {
        &&& self.trace_layout.valid()
        &&& self.trace_length >= 8
        &&& is_pow2(self.trace_length as int)
        &&& self.trace_length * self.options.blowup_factor <= usize::MAX
        &&& self.trace_meta.len() <= 0xffff
        &&& 2 <= self.field_modulus_bytes.len() <= 0xff
        &&& self.options.valid()
    }

    /// Trace shape and metadata as one value.
    pub open spec fn trace_info(self) -> TraceInfoView {
        TraceInfoView {
            layout: self.trace_layout,
            length: self.trace_length,
            meta: self.trace_meta,
        }
    }

    /// Size of the domain over which the trace is extended.
    pub open spec fn lde_domain_size(self) -> nat {
        self.trace_length * self.options.blowup_factor
    }

    /// The layout, the base-2 logarithm of the trace length in one byte, the
    /// metadata as a block with a 16-bit length, the modulus as a block with
    /// an 8-bit length, and the options.
    pub open spec fn encode(self) -> Seq<u8> {
        self.trace_layout.encode() + seq![log(2, self.trace_length as int) as u8] + encode_block(
            LengthPrefix::U16,
            self.trace_meta,
        ) + encode_block(LengthPrefix::U8, self.field_modulus_bytes) + self.options.encode()
    }

    /// The context at the head of `s`. Each field is judged as soon as it
    /// is read; the size of the extended domain is judged last.
    pub open spec fn decode(s: Seq<u8>) -> Result<(ContextView, nat), DeserializationError> {
        match TraceLayoutView::decode(s) {
            Err(e) => Err(e),
            Ok((trace_layout, _)) => match decode_u8(s.skip(3)) {
                Err(e) => Err(e),
                Ok((k, _)) => if k < 3 || pow2(k as nat) > usize::MAX {
                    Err(DeserializationError::InvalidValue(InvalidValue::TraceLength))
                } else {
                    match decode_block(LengthPrefix::U16, s.skip(4)) {
                        Err(e) => Err(e),
                        Ok((trace_meta, n)) => Self::decode_field(
                            s,
                            trace_layout,
                            pow2(k as nat),
                            trace_meta,
                            4 + n,
                        ),
                    }
                },
            },
        }
    }

    /// The rest of a context, from the modulus on, which starts at `at`.
    #[verifier::opaque]
    pub open spec fn decode_field(
        s: Seq<u8>,
        trace_layout: TraceLayoutView,
        trace_length: nat,
        trace_meta: Seq<u8>,
        at: nat,
    ) -> Result<(ContextView, nat), DeserializationError> {
        match decode_u8(s.skip(at as int)) {
            Err(e) => Err(e),
            Ok((len, _)) => if len < 2 {
                Err(DeserializationError::InvalidValue(InvalidValue::FieldModulus))
            } else {
                match decode_bytes(s.skip((at + 1) as int), len as nat) {
                    Err(e) => Err(e),
                    Ok((field_modulus_bytes, _)) => match ProofOptionsView::decode(
                        s.skip((at + 1 + len) as int),
                    ) {
                        Err(e) => Err(e),
                        Ok((options, _)) => if trace_length * options.blowup_factor > usize::MAX {
                            Err(DeserializationError::InvalidValue(InvalidValue::TraceLength))
                        } else {
                            Ok(
                                (
                                    ContextView {
                                        trace_layout,
                                        trace_length,
                                        trace_meta,
                                        field_modulus_bytes,
                                        options,
                                    },
                                    (at + 1 + len + 6) as nat,
                                ),
                            )
                        },
                    },
                }
            },
        }
    }

    /// The logarithm of a valid trace length lies between 3 and 63 and gives
    /// the length back.
    pub proof fn lemma_trace_length_log(n: nat)
        requires
            n >= 8,
            is_pow2(n as int),
            n <= usize::MAX,
        ensures
            3 <= log(2, n as int) < 64,
            pow2(log(2, n as int) as nat) == n,
    {
        lemma_power_of_two_log(n);
        lemma_log_is_ordered(2, 8, n as int);
        assert(log(2, 8) == 3) by {
            reveal_with_fuel(log, 5);
        }
        lemma2_to64();
        let k = log(2, n as int) as nat;
        if k >= 64 {
            if k > 64 {
                lemma_pow2_strictly_increases(64, k);
            }
        }
    }

    /// A power of two with an exponent of at least 3 is a valid trace length.
    pub proof fn lemma_pow2_is_trace_length(k: nat)
        requires
            k >= 3,
        ensures
            pow2(k) >= 8,
            is_pow2(pow2(k) as int),
            log(2, pow2(k) as int) == k,
    {
        lemma2_to64();
        if k > 3 {
            lemma_pow2_strictly_increases(3, k);
        }
        lemma_pow2(k);
        lemma_log_pow(2, k);
        lemma_power_of_two_log(pow2(k));
    }

    /// Decoding the part from the modulus on undoes its encoding.
    proof fn lemma_decode_field_encode(self, s: Seq<u8>, at: nat, rest: Seq<u8>)
        requires
            self.valid(),
            at <= s.len(),
            s.skip(at as int) == encode_block(LengthPrefix::U8, self.field_modulus_bytes) + (
            self.options.encode() + rest),
        ensures
            Self::decode_field(s, self.trace_layout, self.trace_length, self.trace_meta, at)
                == Ok::<(ContextView, nat), DeserializationError>(
                (self, at + 1 + self.field_modulus_bytes.len() + 6),
            ),
            s.skip((at + 1 + self.field_modulus_bytes.len() + 6) as int) == rest,
    {
        reveal(ContextView::decode_field);
        let options = self.options.encode();
        let len = self.field_modulus_bytes.len();
        let tail = s.skip(at as int);
        assert(tail == seq![len as u8] + self.field_modulus_bytes + (options + rest)) by {
            reveal(encode_block);
        }
        assert(decode_u8(tail) == Ok::<(u8, nat), DeserializationError>((len as u8, 1)));
        assert(s.skip((at + 1) as int) == self.field_modulus_bytes + (options + rest)) by {
            assert(tail.skip(1) =~= self.field_modulus_bytes + (options + rest));
            lemma_skip_skip(s, at, 1);
        }
        assert(s.skip((at + 1) as int).take(len as int) == self.field_modulus_bytes) by {
            assert(s.skip((at + 1) as int).take(len as int) =~= self.field_modulus_bytes);
        }
        assert(s.skip((at + 1 + len) as int) == options + rest) by {
            assert(s.skip((at + 1) as int).skip(len as int) =~= options + rest);
            lemma_skip_skip(s, at + 1, len);
        }
        self.options.lemma_decode_encode(rest);
        assert(s.skip((at + 1 + len + 6) as int) == rest) by {
            lemma_skip_skip(s, at + 1 + len, 6);
        }
    }

    /// Decoding undoes `encode`, whatever follows.
    pub proof fn lemma_decode_encode(self, rest: Seq<u8>)
        requires
            self.valid(),
        ensures
            Self::decode(self.encode() + rest) == Ok::<(ContextView, nat), DeserializationError>(
                (self, self.encode().len()),
            ),
            (self.encode() + rest).skip(self.encode().len() as int) == rest,
    {
        let s = self.encode() + rest;
        let layout = self.trace_layout.encode();
        let k = log(2, self.trace_length as int) as u8;
        let meta = encode_block(LengthPrefix::U16, self.trace_meta);
        let modulus = encode_block(LengthPrefix::U8, self.field_modulus_bytes);
        let options = self.options.encode();
        let len = self.field_modulus_bytes.len();
        assert(self.trace_length <= usize::MAX) by (nonlinear_arith)
            requires
                self.trace_length * self.options.blowup_factor <= usize::MAX,
                self.options.blowup_factor >= 1,
        ;
        Self::lemma_trace_length_log(self.trace_length);
        assert(s == layout + (seq![k] + (meta + (modulus + (options + rest))))) by {
            assert(s =~= layout + (seq![k] + (meta + (modulus + (options + rest)))));
        }
        self.trace_layout.lemma_decode_encode(seq![k] + (meta + (modulus + (options + rest))));
        assert(s.skip(3)[0] == k);
        assert(s.skip(4) == meta + (modulus + (options + rest))) by {
            assert(s.skip(4) =~= meta + (modulus + (options + rest)));
        }
        lemma_decode_block(LengthPrefix::U16, self.trace_meta, modulus + (options + rest));
        lemma_decode_block(LengthPrefix::U8, self.field_modulus_bytes, options + rest);
        let at = 4 + meta.len();
        assert(s.skip(at as int) == modulus + (options + rest)) by {
            lemma_skip_skip(s, 4, meta.len());
        }
        self.lemma_decode_field_encode(s, at, rest);
        assert(self.encode().len() == at + 1 + len + 6);
    }

    /// What `decode` reads is what `encode` writes.
    pub proof fn lemma_encode_decoded(s: Seq<u8>)
        ensures
            Self::decode(s) matches Ok((value, n)) ==> value.encode() == s.take(n as int),
    {
        reveal(ContextView::decode_field);
        if let Ok((value, total)) = Self::decode(s) {
            TraceLayoutView::lemma_decode_bounds(s);
            TraceLayoutView::lemma_encode_decoded(s);
            let k = decode_u8(s.skip(3)).unwrap().0;
            Self::lemma_pow2_is_trace_length(k as nat);
            assert(s.skip(3).take(1) == seq![log(2, value.trace_length as int) as u8]) by {
                assert(s.skip(3).take(1) =~= seq![k]);
            }
            lemma_take_add(s, 3, 1);
            lemma_decode_block_bounds(LengthPrefix::U16, s.skip(4));
            lemma_encode_decoded_block(LengthPrefix::U16, s.skip(4));
            let m = decode_block(LengthPrefix::U16, s.skip(4)).unwrap().1;
            lemma_take_add(s, 4, m);
            let at = 4 + m;
            let len = decode_u8(s.skip(at as int)).unwrap().0 as nat;
            assert(encode_block(LengthPrefix::U8, value.field_modulus_bytes) == s.skip(
                at as int,
            ).take((1 + len) as int)) by {
                reveal(encode_block);
                lemma_skip_skip(s, at, 1);
                assert(seq![len as u8] + s.skip((at + 1) as int).take(len as int) =~= s.skip(
                    at as int,
                ).take((1 + len) as int));
            }
            lemma_take_add(s, at, 1 + len);
            ProofOptionsView::lemma_decode_bounds(s.skip((at + 1 + len) as int));
            ProofOptionsView::lemma_encode_decoded(s.skip((at + 1 + len) as int));
            lemma_take_add(s, at + 1 + len, 6);
        }
    }

    /// What `decode` accepts is valid and lies within `s`.
    pub proof fn lemma_decode_bounds(s: Seq<u8>)
        ensures
            Self::decode(s) matches Ok((value, n)) ==> value.valid() && n <= s.len(),
    {
        reveal(ContextView::decode_field);
        if let Ok((value, n)) = Self::decode(s) {
            TraceLayoutView::lemma_decode_bounds(s);
            let k = decode_u8(s.skip(3)).unwrap().0;
            Self::lemma_pow2_is_trace_length(k as nat);
            lemma_decode_block_bounds(LengthPrefix::U16, s.skip(4));
            let m = decode_block(LengthPrefix::U16, s.skip(4)).unwrap().1;
            let at = 4 + m;
            let len = decode_u8(s.skip(at as int)).unwrap().0;
            ProofOptionsView::lemma_decode_bounds(s.skip((at + 1 + len) as int));
        }
    }
}

/// Basic metadata about the computation that a proof is about.
#[derive(Debug, PartialEq, Eq)]
pub struct Context {
    trace_layout: TraceLayout,
    trace_length: usize,
    trace_meta: Vec<u8>,
    field_modulus_bytes: Vec<u8>,
    options: ProofOptions,
}

impl View for Context {
    type V = ContextView;

    closed spec fn view(&self) -> ContextView {
        ContextView {
            trace_layout: self.trace_layout@,
            trace_length: self.trace_length as nat,
            trace_meta: self.trace_meta@,
            field_modulus_bytes: self.field_modulus_bytes@,
            options: self.options@,
        }
    }
}

impl Clone for Context {
    fn clone(&self) -> (copy: Self)
        ensures
            copy@ == self@,
    {
        proof {
            use_type_invariant(self);
        }
        Context {
            trace_layout: self.trace_layout,
            trace_length: self.trace_length,
            trace_meta: copy_bytes(self.trace_meta.as_slice()),
            field_modulus_bytes: copy_bytes(self.field_modulus_bytes.as_slice()),
            options: self.options,
        }
    }
}

impl Context {
    #[verifier::type_invariant]
    pub open spec fn inv(self) -> bool {
        self@.valid()
    }

    /// The context of proofs about a trace of the given shape, over the base
    /// field with the given modulus (little-endian), under the given options.
    pub fn new(
        trace_info: &TraceInfo,
        field_modulus_bytes: Vec<u8>,
        options: ProofOptions,
    ) -> (context: Context)
        requires
            2 <= field_modulus_bytes@.len() <= 0xff,
            trace_info@.length * options@.blowup_factor <= usize::MAX,
        ensures
            context@ == (ContextView {
                trace_layout: trace_info@.layout,
                trace_length: trace_info@.length,
                trace_meta: trace_info@.meta,
                field_modulus_bytes: field_modulus_bytes@,
                options: options@,
            }),
            context@.valid(),
    {
        let trace_layout = *trace_info.layout();
        let trace_length = trace_info.length();
        let trace_meta = copy_bytes(trace_info.meta());
        proof {
            use_type_invariant(&trace_layout);
            use_type_invariant(&options);
        }
        Context { trace_layout, trace_length, trace_meta, field_modulus_bytes, options }
    }

    /// How the columns of the trace are arranged into segments.
    pub fn trace_layout(&self) -> (layout: &TraceLayout)
        ensures
            layout@ == self@.trace_layout,
            self@.valid(),
    {
        proof {
            use_type_invariant(self);
        }
        &self.trace_layout
    }

    /// Number of rows of the trace.
    pub fn trace_length(&self) -> (n: usize)
        ensures
            n == self@.trace_length,
            self@.valid(),
    {
        proof {
            use_type_invariant(self);
        }
        self.trace_length
    }

    /// Shape and metadata of the trace.
    pub fn get_trace_info(&self) -> (info: TraceInfo)
        ensures
            info@ == self@.trace_info(),
            self@.valid(),
    {
        proof {
            use_type_invariant(self);
        }
        TraceInfo::new_multi_segment(
            self.trace_layout,
            self.trace_length,
            copy_bytes(self.trace_meta.as_slice()),
        )
    }

    /// Size of the domain over which the trace is extended.
    pub fn lde_domain_size(&self) -> (n: usize)
        ensures
            n == self@.lde_domain_size(),
            self@.valid(),
    {
        proof {
            use_type_invariant(self);
        }
        self.trace_length * self.options.blowup_factor()
    }

    /// Modulus of the base field, least significant byte first.
    pub fn field_modulus_bytes(&self) -> (bytes: &[u8])
        ensures
            bytes@ == self@.field_modulus_bytes,
            self@.valid(),
    {
        proof {
            use_type_invariant(self);
        }
        self.field_modulus_bytes.as_slice()
    }

    /// Number of bits that the modulus of the base field takes.
    pub fn num_modulus_bits(&self) -> (bits: u32)
        ensures
            bits == bit_length(self@.field_modulus_bytes),
            bits <= 8 * self@.field_modulus_bytes.len(),
            self@.valid(),
    {
        proof {
            use_type_invariant(self);
        }
        let mut i: usize = self.field_modulus_bytes.len();
        assert(self.field_modulus_bytes@.take(i as int) =~= self.field_modulus_bytes@);
        while i > 0
            invariant
                self@.valid(),
                i <= self.field_modulus_bytes@.len() <= 0xff,
                bit_length(self.field_modulus_bytes@) == bit_length(
                    self.field_modulus_bytes@.take(i as int),
                ),
            decreases i,
        {
            let byte = self.field_modulus_bytes[i - 1];
            let ghost upto = self.field_modulus_bytes@.take(i as int);
            assert(upto.last() == byte);
            assert(upto.drop_last() =~= self.field_modulus_bytes@.take(i - 1));
            if byte != 0 {
                let top = floor_log2(byte as u128);
                proof {
                    lemma_log_is_ordered(2, byte as int, 255);
                    assert(log(2, 255) == 7) by {
                        reveal_with_fuel(log, 9);
                    }
                }
                return 8 * (i as u32 - 1) + top + 1;
            }
            i = i - 1;
        }
        assert(self.field_modulus_bytes@.take(0) =~= Seq::<u8>::empty());
        0
    }

    /// The protocol parameters.
    pub fn options(&self) -> (options: &ProofOptions)
        ensures
            options@ == self@.options,
            self@.valid(),
    {
        proof {
            use_type_invariant(self);
        }
        &self.options
    }

    /// Appends the context to `target`.
    pub fn write_into(&self, target: &mut Vec<u8>)
        ensures
            final(target)@ == old(target)@ + self@.encode(),
            self@.valid(),
    {
        proof {
            use_type_invariant(self);
            ContextView::lemma_trace_length_log(self@.trace_length);
        }
        self.trace_layout.write_into(target);
        write_u8(target, floor_log2(self.trace_length as u128) as u8);
        write_block(target, LengthPrefix::U16, self.trace_meta.as_slice());
        write_block(target, LengthPrefix::U8, self.field_modulus_bytes.as_slice());
        self.options.write_into(target);
        assert(target@ =~= old(target)@ + self@.encode());
    }

    /// Reads a context from `source`.
    pub fn read_from(source: &mut SliceReader) -> (result: Result<Context, DeserializationError>)
        ensures
            match ContextView::decode(old(source).remaining()) {
                Ok((value, n)) => {
                    &&& result matches Ok(context)
                    &&& context@ == value
                    &&& value.valid()
                    &&& final(source).remaining() == old(source).remaining().skip(n as int)
                },
                Err(e) => result == Err::<Context, DeserializationError>(e),
            },
    {
        reveal(ContextView::decode_field);
        let ghost s = source.remaining();
        proof {
            ContextView::lemma_decode_bounds(s);
            TraceLayoutView::lemma_decode_bounds(s);
        }
        let trace_layout = TraceLayout::read_from(source)?;
        let k = source.read_u8()?;
        proof {
            lemma_skip_skip(s, 3, 1);
        }
        if k < 3 {
            return Err(DeserializationError::InvalidValue(InvalidValue::TraceLength));
        }
        let trace_length = match checked_pow2(k) {
            Some(n) => n,
            None => {
                return Err(DeserializationError::InvalidValue(InvalidValue::TraceLength));
            },
        };
        proof {
            lemma_decode_block_bounds(LengthPrefix::U16, s.skip(4));
        }
        let trace_meta = source.read_block(LengthPrefix::U16)?;
        let ghost at = (4 + 2 + trace_meta@.len()) as nat;
        proof {
            lemma_skip_skip(s, 4, (2 + trace_meta@.len()) as nat);
        }
        let num_modulus_bytes = source.read_u8()?;
        proof {
            lemma_skip_skip(s, at, 1);
        }
        if num_modulus_bytes < 2 {
            return Err(DeserializationError::InvalidValue(InvalidValue::FieldModulus));
        }
        let field_modulus_bytes = source.read_vec(num_modulus_bytes as usize)?;
        proof {
            lemma_skip_skip(s, at + 1, num_modulus_bytes as nat);
            ProofOptionsView::lemma_decode_bounds(s.skip((at + 1 + num_modulus_bytes) as int));
        }
        let options = ProofOptions::read_from(source)?;
        proof {
            lemma_skip_skip(s, at + 1 + num_modulus_bytes as nat, 6);
            ContextView::lemma_pow2_is_trace_length(k as nat);
        }
        match trace_length.checked_mul(options.blowup_factor()) {
            None => Err(DeserializationError::InvalidValue(InvalidValue::TraceLength)),
            Some(_) => Ok(
                Context { trace_layout, trace_length, trace_meta, field_modulus_bytes, options },
            ),
        }
    }
}

} // verus!
