//! The proof itself: what a prover hands to a verifier, how it travels as
//! bytes, and how much soundness its parameters give.

use crate::codec::{
    decode_u64, decode_u8, le64, lemma_decode_le64, lemma_encode_decoded_u64, lemma_skip_skip,
    lemma_take_add, write_u64, write_u8, DeserializationError, SliceReader,
};
use crate::commitments::{
    decode_commitments, encode_commitments, lemma_decode_commitments_bounds,
    lemma_decode_encode_commitments, lemma_encode_decoded_commitments, valid_commitments,
    Commitments,
};
use crate::context::{bit_length, Context, ContextView};
use crate::fri::{FriProof, FriProofLayerView, FriProofView};
use crate::ood_frame::{OodFrame, OodFrameView};
use crate::options::{FieldExtension, ProofOptions, ProofOptionsView};
use crate::queries::{views, Queries, QueriesView};
use crate::security::{
    conjectured_security, get_conjectured_security, get_proven_security, proven_security_outcome,
    ErrorBits, SecurityError,
};
use crate::trace::{TraceInfo, TraceLayout, TraceLayoutView};
use vstd::arithmetic::logarithm::log;
use vstd::arithmetic::power2::{is_pow2, lemma2_to64};
use vstd::prelude::*;

verus! {

/// What a `StarkProof` value holds.
pub struct StarkProofView {
    pub context: ContextView,
    pub num_unique_queries: u8,
    pub commitments: Seq<u8>,
    pub trace_queries: Seq<QueriesView>,
    pub constraint_queries: QueriesView,
    pub ood_frame: OodFrameView,
    pub fri_proof: FriProofView,
    pub pow_nonce: u64,
}

impl StarkProofView {
    /// Every part of the proof can be encoded.
    pub open spec fn encodable(self) -> bool {
        &&& self.context.valid()
        &&& valid_commitments(self.commitments)
        &&& QueriesView::all_valid(self.trace_queries)
        &&& self.constraint_queries.valid()
        &&& self.ood_frame.valid()
        &&& self.fri_proof.valid()
    }

    /// Every part of the proof can be encoded, and there is one trace
    /// decommitment per trace segment.
    pub open spec fn valid(self) -> bool {
        &&& self.encodable()
        &&& self.trace_queries.len() == self.context.trace_layout.num_segments()
    }

    /// The proof is valid, and the verifier made at least one query and no
    /// more distinct queries than the options ask for.
    pub open spec fn well_formed(self) -> bool {
        &&& self.valid()
        &&& 0 < self.num_unique_queries <= self.context.options.num_queries
    }

    /// The parts of the proof one after the other: context, number of unique
    /// queries in one byte, commitments, trace decommitments, constraint
    /// decommitment, out-of-domain frame, low-degree proof, and the nonce in
    /// eight bytes, least significant first.
    pub open spec fn encode(self) -> Seq<u8> {
        self.context.encode() + seq![self.num_unique_queries] + encode_commitments(
            self.commitments,
        ) + QueriesView::encode_all(self.trace_queries) + self.constraint_queries.encode()
            + self.ood_frame.encode() + self.fri_proof.encode() + le64(self.pow_nonce)
    }

    /// The proof at the head of `s`. The context says how many trace
    /// decommitments follow the commitments.
    pub open spec fn decode(s: Seq<u8>) -> Result<(StarkProofView, nat), DeserializationError> {
        match ContextView::decode(s) {
            Err(e) => Err(e),
            Ok((context, a)) => match decode_u8(s.skip(a as int)) {
                Err(e) => Err(e),
                Ok((num_unique_queries, _)) => match decode_commitments(s.skip((a + 1) as int)) {
                    Err(e) => Err(e),
                    Ok((commitments, b)) => match QueriesView::decode_all(
                        s.skip((a + 1 + b) as int),
                        context.trace_layout.num_segments(),
                    ) {
                        Err(e) => Err(e),
                        Ok((trace_queries, c)) => Self::decode_openings(
                            s,
                            a + 1 + b + c,
                            context,
                            num_unique_queries,
                            commitments,
                            trace_queries,
                        ),
                    },
                },
            },
        }
    }

    /// The rest of a proof, from the constraint decommitment on, which starts at `at`.
    #[verifier::opaque]
    pub open spec fn decode_openings(
        s: Seq<u8>,
        at: nat,
        context: ContextView,
        num_unique_queries: u8,
        commitments: Seq<u8>,
        trace_queries: Seq<QueriesView>,
    ) -> Result<(StarkProofView, nat), DeserializationError> {
        match QueriesView::decode(s.skip(at as int)) {
            Err(e) => Err(e),
            Ok((constraint_queries, d)) => match OodFrameView::decode(s.skip((at + d) as int)) {
                Err(e) => Err(e),
                Ok((ood_frame, e)) => match FriProofView::decode(s.skip((at + d + e) as int)) {
                    Err(e) => Err(e),
                    Ok((fri_proof, f)) => match decode_u64(s.skip((at + d + e + f) as int)) {
                        Err(e) => Err(e),
                        Ok((pow_nonce, _)) => Ok(
                            (
                                StarkProofView {
                                    context,
                                    num_unique_queries,
                                    commitments,
                                    trace_queries,
                                    constraint_queries,
                                    ood_frame,
                                    fri_proof,
                                    pow_nonce,
                                },
                                at + d + e + f + 8,
                            ),
                        ),
                    },
                },
            },
        }
    }

    /// Decoding the part from the constraint decommitment on undoes its encoding.
    proof fn lemma_decode_openings_encode(self, s: Seq<u8>, at: nat, rest: Seq<u8>)
        requires
            self.encodable(),
            at <= s.len(),
            s.skip(at as int) == self.constraint_queries.encode() + (self.ood_frame.encode() + (
            self.fri_proof.encode() + (le64(self.pow_nonce) + rest))),
        ensures
            Self::decode_openings(
                s,
                at,
                self.context,
                self.num_unique_queries,
                self.commitments,
                self.trace_queries,
            ) == Ok::<(StarkProofView, nat), DeserializationError>(
                (
                    self,
                    at + self.constraint_queries.encode().len() + self.ood_frame.encode().len()
                        + self.fri_proof.encode().len() + 8,
                ),
            ),
            s.skip((at + self.constraint_queries.encode().len() + self.ood_frame.encode().len()
                    + self.fri_proof.encode().len() + 8) as int) == rest,
    {
        reveal(StarkProofView::decode_openings);
        let d = self.constraint_queries.encode().len();
        let e = self.ood_frame.encode().len();
        let f = self.fri_proof.encode().len();
        let nonce = le64(self.pow_nonce);
        self.constraint_queries.lemma_decode_encode(
            self.ood_frame.encode() + (self.fri_proof.encode() + (nonce + rest)),
        );
        assert(s.skip(at as int).len() >= d);
        lemma_skip_skip(s, at, d);
        self.ood_frame.lemma_decode_encode(self.fri_proof.encode() + (nonce + rest));
        assert(s.skip((at + d) as int).len() >= e);
        lemma_skip_skip(s, at + d, e);
        self.fri_proof.lemma_decode_encode(nonce + rest);
        assert(s.skip((at + d + e) as int).len() >= f);
        lemma_skip_skip(s, at + d + e, f);
        lemma_decode_le64(self.pow_nonce, rest);
        assert(s.skip((at + d + e + f) as int).len() >= 8);
        lemma_skip_skip(s, at + d + e + f, 8);
    }

    /// Decoding undoes `encode`, whatever follows.
    pub proof fn lemma_decode_encode(self, rest: Seq<u8>)
        requires
            self.valid(),
        ensures
            Self::decode(self.encode() + rest) == Ok::<(StarkProofView, nat), DeserializationError>(
                (self, self.encode().len()),
            ),
            (self.encode() + rest).skip(self.encode().len() as int) == rest,
    {
        let s = self.encode() + rest;
        let openings = self.constraint_queries.encode() + (self.ood_frame.encode() + (
        self.fri_proof.encode() + (le64(self.pow_nonce) + rest)));
        let trace = QueriesView::encode_all(self.trace_queries);
        let commitments = encode_commitments(self.commitments);
        let unique = seq![self.num_unique_queries];
        let a = self.context.encode().len();
        let b = commitments.len();
        let c = trace.len();
        assert(s == self.context.encode() + (unique + (commitments + (trace + openings)))) by {
            assert(s =~= self.context.encode() + (unique + (commitments + (trace + openings))));
        }
        self.context.lemma_decode_encode(unique + (commitments + (trace + openings)));
        assert(s.skip(a as int)[0] == self.num_unique_queries);
        assert(s.skip((a + 1) as int) == commitments + (trace + openings)) by {
            assert((unique + (commitments + (trace + openings))).skip(1) =~= commitments + (trace
                + openings));
            lemma_skip_skip(s, a, 1);
        }
        lemma_decode_encode_commitments(self.commitments, trace + openings);
        lemma_skip_skip(s, a + 1, b);
        QueriesView::lemma_decode_encode_all(self.trace_queries, openings);
        lemma_skip_skip(s, a + 1 + b, c);
        self.lemma_decode_openings_encode(s, a + 1 + b + c, rest);
        lemma_decode_le64(self.pow_nonce, rest);
    }

    /// What `decode` reads is what `encode` writes.
    pub proof fn lemma_encode_decoded(s: Seq<u8>)
        ensures
            Self::decode(s) matches Ok((value, n)) ==> value.encode() == s.take(n as int),
    {
        reveal(StarkProofView::decode_openings);
        if let Ok((value, total)) = Self::decode(s) {
            let count = value.context.trace_layout.num_segments();
            ContextView::lemma_decode_bounds(s);
            ContextView::lemma_encode_decoded(s);
            let a = ContextView::decode(s).unwrap().1;
            assert(s.skip(a as int).take(1) == seq![value.num_unique_queries]) by {
                assert(s.skip(a as int).take(1) =~= seq![value.num_unique_queries]);
            }
            lemma_take_add(s, a, 1);
            lemma_decode_commitments_bounds(s.skip((a + 1) as int));
            lemma_encode_decoded_commitments(s.skip((a + 1) as int));
            let b = decode_commitments(s.skip((a + 1) as int)).unwrap().1;
            lemma_take_add(s, a + 1, b);
            QueriesView::lemma_decode_all_bounds(s.skip((a + 1 + b) as int), count);
            QueriesView::lemma_encode_decoded_all(s.skip((a + 1 + b) as int), count);
            let c = QueriesView::decode_all(s.skip((a + 1 + b) as int), count).unwrap().1;
            lemma_take_add(s, a + 1 + b, c);
            let at = a + 1 + b + c;
            QueriesView::lemma_decode_bounds(s.skip(at as int));
            QueriesView::lemma_encode_decoded(s.skip(at as int));
            let d = QueriesView::decode(s.skip(at as int)).unwrap().1;
            lemma_take_add(s, at, d);
            OodFrameView::lemma_decode_bounds(s.skip((at + d) as int));
            OodFrameView::lemma_encode_decoded(s.skip((at + d) as int));
            let e = OodFrameView::decode(s.skip((at + d) as int)).unwrap().1;
            lemma_take_add(s, at + d, e);
            FriProofView::lemma_decode_bounds(s.skip((at + d + e) as int));
            FriProofView::lemma_encode_decoded(s.skip((at + d + e) as int));
            let f = FriProofView::decode(s.skip((at + d + e) as int)).unwrap().1;
            lemma_take_add(s, at + d + e, f);
            lemma_encode_decoded_u64(s.skip((at + d + e + f) as int));
            lemma_take_add(s, at + d + e + f, 8);
        }
    }

    /// What `decode` accepts is a valid proof that lies within `s`.
    pub proof fn lemma_decode_bounds(s: Seq<u8>)
        ensures
            Self::decode(s) matches Ok((value, n)) ==> value.valid() && n <= s.len(),
    {
        reveal(StarkProofView::decode_openings);
        if let Ok((value, n)) = Self::decode(s) {
            ContextView::lemma_decode_bounds(s);
            let a = ContextView::decode(s).unwrap().1;
            lemma_decode_commitments_bounds(s.skip((a + 1) as int));
            let b = decode_commitments(s.skip((a + 1) as int)).unwrap().1;
            QueriesView::lemma_decode_all_bounds(
                s.skip((a + 1 + b) as int),
                value.context.trace_layout.num_segments(),
            );
            let c = QueriesView::decode_all(
                s.skip((a + 1 + b) as int),
                value.context.trace_layout.num_segments(),
            ).unwrap().1;
            let at = a + 1 + b + c;
            QueriesView::lemma_decode_bounds(s.skip(at as int));
            let d = QueriesView::decode(s.skip(at as int)).unwrap().1;
            OodFrameView::lemma_decode_bounds(s.skip((at + d) as int));
            let e = OodFrameView::decode(s.skip((at + d) as int)).unwrap().1;
            FriProofView::lemma_decode_bounds(s.skip((at + d + e) as int));
        }
    }
}

/// A proof is read from bytes exactly where the bytes start with the
/// encoding of a valid proof, and then it is that proof: decoding never
/// guesses and never skips.
pub proof fn lemma_decode_inverts_encode(s: Seq<u8>, value: StarkProofView, n: nat)
    ensures
        StarkProofView::decode(s) == Ok::<(StarkProofView, nat), DeserializationError>((value, n))
            <==> value.valid() && n <= s.len() && s.take(n as int) == value.encode(),
{
    StarkProofView::lemma_decode_bounds(s);
    StarkProofView::lemma_encode_decoded(s);
    if value.valid() && n <= s.len() && s.take(n as int) == value.encode() {
        value.lemma_decode_encode(s.skip(n as int));
        assert(s.take(n as int) + s.skip(n as int) =~= s);
    }
}

/// Encoding a valid proof and decoding the bytes gives the proof back, equal
/// in every field, and takes all the bytes.
pub proof fn lemma_round_trip(proof_view: StarkProofView)
    requires
        proof_view.valid(),
    ensures
        StarkProofView::decode(proof_view.encode()) == Ok::<
            (StarkProofView, nat),
            DeserializationError,
        >((proof_view, proof_view.encode().len())),
{
    proof_view.lemma_decode_encode(Seq::<u8>::empty());
    assert(proof_view.encode() + Seq::<u8>::empty() =~= proof_view.encode());
}

/// The modulus of the 64-bit base field that the dummy proof is over,
/// least significant byte first.
pub open spec fn dummy_modulus() -> Seq<u8> {
    seq![1u8, 0u8, 0u8, 0u8, 255u8, 255u8, 255u8, 255u8]
}

/// The decommitment that the dummy proof holds for its one trace segment
/// and for the constraint composition polynomial: an opening proof without
/// nodes, and the field element one as the only value.
pub open spec fn dummy_queries() -> QueriesView {
    QueriesView { paths: seq![0u8], values: seq![1u8, 0u8, 0u8, 0u8, 0u8, 0u8, 0u8, 0u8] }
}

/// What the dummy proof holds.
pub open spec fn dummy_proof() -> StarkProofView {
    StarkProofView {
        context: ContextView {
            trace_layout: TraceLayoutView { main_width: 1, aux_width: 0, aux_rands: 0 },
            trace_length: 8,
            trace_meta: Seq::<u8>::empty(),
            field_modulus_bytes: dummy_modulus(),
            options: ProofOptionsView {
                num_queries: 1,
                blowup_factor: 2,
                grinding_factor: 2,
                field_extension: FieldExtension::Base,
                fri_folding_factor: 8,
                fri_remainder_max_degree: 1,
            },
        },
        num_unique_queries: 1,
        commitments: Seq::<u8>::empty(),
        trace_queries: seq![dummy_queries()],
        constraint_queries: dummy_queries(),
        ood_frame: OodFrameView {
            trace_states: Seq::<u8>::empty(),
            evaluations: Seq::<u8>::empty(),
        },
        fri_proof: FriProofView {
            layers: Seq::<FriProofLayerView>::empty(),
            remainder: Seq::<u8>::empty(),
            num_partitions: 0,
        },
        pow_nonce: 0,
    }
}

/// A proof that a computation was executed correctly, with the metadata of
/// the computation, but without its definition and its public inputs.
#[derive(Debug, PartialEq, Eq)]
pub struct StarkProof {
    /// Basic metadata about the execution of the computation.
    pub context: Context,
    /// Number of distinct positions that the verifier queried.
    pub num_unique_queries: u8,
    /// Commitments made by the prover during the commit phase.
    pub commitments: Commitments,
    /// Decommitments of the extended trace, one per trace segment.
    pub trace_queries: Vec<Queries>,
    /// Decommitment of the constraint composition polynomial.
    pub constraint_queries: Queries,
    /// Trace and constraint evaluations at an out-of-domain point.
    pub ood_frame: OodFrame,
    /// Low-degree proof for the composition polynomial.
    pub fri_proof: FriProof,
    /// Proof-of-work nonce for query seed grinding.
    pub pow_nonce: u64,
}

impl View for StarkProof {
    type V = StarkProofView;

    open spec fn view(&self) -> StarkProofView {
        StarkProofView {
            context: self.context@,
            num_unique_queries: self.num_unique_queries,
            commitments: self.commitments@,
            trace_queries: views(self.trace_queries@),
            constraint_queries: self.constraint_queries@,
            ood_frame: self.ood_frame@,
            fri_proof: self.fri_proof@,
            pow_nonce: self.pow_nonce,
        }
    }
}

impl Clone for StarkProof {
    fn clone(&self) -> (copy: Self)
        ensures
            copy@ == self@,
    {
        StarkProof {
            context: self.context.clone(),
            num_unique_queries: self.num_unique_queries,
            commitments: self.commitments.clone(),
            trace_queries: Queries::clone_many(&self.trace_queries),
            constraint_queries: self.constraint_queries.clone(),
            ood_frame: self.ood_frame.clone(),
            fri_proof: self.fri_proof.clone(),
            pow_nonce: self.pow_nonce,
        }
    }
}

impl StarkProof {
    /// The protocol parameters under which the proof was generated.
    pub fn options(&self) -> (options: &ProofOptions)
        ensures
            options@ == self@.context.options,
    {
        self.context.options()
    }

    /// How the columns of the trace are arranged into segments.
    pub fn trace_layout(&self) -> (layout: &TraceLayout)
        ensures
            layout@ == self@.context.trace_layout,
    {
        self.context.trace_layout()
    }

    /// Number of rows of the trace.
    pub fn trace_length(&self) -> (n: usize)
        ensures
            n == self@.context.trace_length,
    {
        self.context.trace_length()
    }

    /// Shape and metadata of the trace.
    pub fn get_trace_info(&self) -> (info: TraceInfo)
        ensures
            info@ == self@.context.trace_info(),
    {
        self.context.get_trace_info()
    }

    /// Size of the domain over which the trace is extended.
    pub fn lde_domain_size(&self) -> (n: usize)
        ensures
            n == self@.context.lde_domain_size(),
    {
        self.context.lde_domain_size()
    }

    /// True when the proof keeps what a proof promises: one trace
    /// decommitment per trace segment, at least one query, and no more
    /// distinct queries than the options ask for.
    pub fn is_well_formed(&self) -> (b: bool)
        ensures
            b == self@.well_formed(),
            self@.encodable(),
    {
        self.parts_are_valid();
        self.trace_queries.len() == self.context.trace_layout().num_segments()
            && self.num_unique_queries > 0 && self.num_unique_queries as usize
            <= self.context.options().num_queries()
    }

    /// Returns the security level of the proof, in bits: the conjectured one
    /// where `conjectured` is true, else the proven one, for which
    /// `candidates` holds the soundness error terms of the proximity
    /// parameters from 3 up to the limit for the trace of this proof.
    /// `collision_resistance` is that of the hash function of the commitments.
    pub fn security_level(
        &self,
        conjectured: bool,
        collision_resistance: u32,
        candidates: &[ErrorBits],
    ) -> (result: Result<u32, SecurityError>)
        ensures
            conjectured ==> result == Ok::<u32, SecurityError>(
                conjectured_security(
                    self@.context.options,
                    bit_length(self@.context.field_modulus_bytes),
                    self@.context.trace_length,
                    collision_resistance as nat,
                ) as u32,
            ),
            !conjectured ==> match proven_security_outcome(
                self@.context.trace_length,
                candidates@,
                collision_resistance as nat,
            ) {
                Ok(bits) => result == Ok::<u32, SecurityError>(bits as u32),
                Err(e) => result == Err::<u32, SecurityError>(e),
            },
            result matches Ok(bits) ==> bits <= collision_resistance,
    {
        if conjectured {
            Ok(
                get_conjectured_security(
                    self.context.options(),
                    self.context.num_modulus_bits(),
                    self.trace_length(),
                    collision_resistance,
                ),
            )
        } else {
            get_proven_security(self.trace_length(), candidates, collision_resistance)
        }
    }

    /// Serializes the proof into a vector of bytes.
    pub fn to_bytes(&self) -> (bytes: Vec<u8>)
        ensures
            bytes@ == self@.encode(),
            self@.encodable(),
    {
        let mut bytes: Vec<u8> = Vec::new();
        self.write_into(&mut bytes);
        assert(bytes@ =~= self@.encode());
        bytes
    }

    /// Returns the proof that `source` starts with, or the reason why it
    /// starts with none. Bytes that follow the proof are left alone.
    pub fn from_bytes(source: &[u8]) -> (result: Result<StarkProof, DeserializationError>)
        ensures
            match StarkProofView::decode(source@) {
                Ok((value, _)) => {
                    &&& result matches Ok(read)
                    &&& read@ == value
                    &&& value.valid()
                },
                Err(e) => result == Err::<StarkProof, DeserializationError>(e),
            },
    {
        let mut reader = SliceReader::new(source);
        StarkProof::read_from(&mut reader)
    }

    /// A small proof with made-up contents, for use in tests. It keeps what
    /// every proof keeps: one query out of the one that its options ask for,
    /// and one trace decommitment for its one trace segment.
    pub fn new_dummy() -> (dummy: StarkProof)
        ensures
            dummy@ == dummy_proof(),
            dummy@.well_formed(),
    {
        proof {
            lemma2_to64();
            reveal_with_fuel(is_pow2, 5);
            reveal_with_fuel(log, 5);
        }
        let modulus: Vec<u8> = vec![1u8, 0u8, 0u8, 0u8, 255u8, 255u8, 255u8, 255u8];
        let paths: Vec<u8> = vec![0u8];
        let values: Vec<u8> = vec![1u8, 0u8, 0u8, 0u8, 0u8, 0u8, 0u8, 0u8];
        proof {
            assert(modulus@ =~= dummy_modulus());
            assert(paths@ =~= dummy_queries().paths);
            assert(values@ =~= dummy_queries().values);
        }
        let constraint_queries = Queries::new(paths, values).unwrap();
        let mut trace_queries: Vec<Queries> = Vec::new();
        trace_queries.push(constraint_queries.clone());
        proof {
            assert(views(trace_queries@) =~= seq![dummy_queries()]);
        }
        let trace_info = TraceInfo::new(1, 8);
        let options = ProofOptions::new(1, 2, 2, FieldExtension::Base, 8, 1);
        assert(trace_info@.length == 8);
        assert(options@.blowup_factor == 2);
        assert(trace_info@.length * options@.blowup_factor == 16);
        StarkProof {
            context: Context::new(&trace_info, modulus, options),
            num_unique_queries: 1,
            commitments: Commitments::default(),
            trace_queries,
            constraint_queries,
            ood_frame: OodFrame::default(),
            fri_proof: FriProof::new_dummy(),
            pow_nonce: 0,
        }
    }

    /// Walks over the parts of the proof to learn that each can be encoded.
    fn parts_are_valid(&self)
        ensures
            self@.encodable(),
    {
        let _ = self.context.trace_length();
        let _ = self.commitments.roots();
        let _ = self.constraint_queries.paths();
        let _ = self.ood_frame.evaluations();
        let _ = self.fri_proof.num_layers();
        let mut i: usize = 0;
        while i < self.trace_queries.len()
            invariant
                i <= self.trace_queries.len(),
                forall|j: int| 0 <= j < i ==> (#[trigger] views(self.trace_queries@)[j]).valid(),
            decreases self.trace_queries.len() - i,
        {
            let _ = self.trace_queries[i].paths();
            i = i + 1;
        }
    }

    /// Appends the proof to `target`.
    pub fn write_into(&self, target: &mut Vec<u8>)
        ensures
            final(target)@ == old(target)@ + self@.encode(),
            self@.encodable(),
    {
        self.context.write_into(target);
        write_u8(target, self.num_unique_queries);
        self.commitments.write_into(target);
        Queries::write_many(&self.trace_queries, target);
        self.constraint_queries.write_into(target);
        self.ood_frame.write_into(target);
        self.fri_proof.write_into(target);
        write_u64(target, self.pow_nonce);
        assert(target@ =~= old(target)@ + self@.encode());
    }

    /// Reads a proof from `source`.
    pub fn read_from(source: &mut SliceReader) -> (result: Result<StarkProof, DeserializationError>)
        ensures
            match StarkProofView::decode(old(source).remaining()) {
                Ok((value, n)) => {
                    &&& result matches Ok(read)
                    &&& read@ == value
                    &&& value.valid()
                    &&& final(source).remaining() == old(source).remaining().skip(n as int)
                },
                Err(e) => result == Err::<StarkProof, DeserializationError>(e),
            },
    {
        reveal(StarkProofView::decode_openings);
        let ghost s = source.remaining();
        proof {
            StarkProofView::lemma_decode_bounds(s);
            ContextView::lemma_decode_bounds(s);
        }
        let context = Context::read_from(source)?;
        let ghost a = ContextView::decode(s).unwrap().1;
        let num_unique_queries = source.read_u8()?;
        proof {
            lemma_skip_skip(s, a, 1);
            lemma_decode_commitments_bounds(s.skip((a + 1) as int));
        }
        let commitments = Commitments::read_from(source)?;
        let ghost b = decode_commitments(s.skip((a + 1) as int)).unwrap().1;
        let num_trace_segments = context.trace_layout().num_segments();
        proof {
            lemma_skip_skip(s, a + 1, b);
            QueriesView::lemma_decode_all_bounds(
                s.skip((a + 1 + b) as int),
                num_trace_segments as nat,
            );
        }
        let trace_queries = Queries::read_many(source, num_trace_segments)?;
        let ghost c = QueriesView::decode_all(
            s.skip((a + 1 + b) as int),
            num_trace_segments as nat,
        ).unwrap().1;
        let ghost at = a + 1 + b + c;
        proof {
            lemma_skip_skip(s, a + 1 + b, c);
            QueriesView::lemma_decode_bounds(s.skip(at as int));
        }
        let constraint_queries = Queries::read_from(source)?;
        let ghost d = QueriesView::decode(s.skip(at as int)).unwrap().1;
        proof {
            lemma_skip_skip(s, at, d);
            OodFrameView::lemma_decode_bounds(s.skip((at + d) as int));
        }
        let ood_frame = OodFrame::read_from(source)?;
        let ghost e = OodFrameView::decode(s.skip((at + d) as int)).unwrap().1;
        proof {
            lemma_skip_skip(s, at + d, e);
            FriProofView::lemma_decode_bounds(s.skip((at + d + e) as int));
        }
        let fri_proof = FriProof::read_from(source)?;
        let ghost f = FriProofView::decode(s.skip((at + d + e) as int)).unwrap().1;
        proof {
            lemma_skip_skip(s, at + d + e, f);
        }
        let pow_nonce = source.read_u64()?;
        proof {
            lemma_skip_skip(s, at + d + e + f, 8);
        }
        Ok(
            StarkProof {
                context,
                num_unique_queries,
                commitments,
                trace_queries,
                constraint_queries,
                ood_frame,
                fri_proof,
                pow_nonce,
            },
        )
    }
}

} // verus!
