use stark_proof::{
    Commitments, Context, DeserializationError, ErrorBits, FieldExtension, FriProof,
    FriProofLayer, InvalidValue, OodFrame, ProofOptions, Queries, SecurityError, StarkProof,
    TraceInfo, TraceLayout,
};

fn modulus() -> Vec<u8> {
    vec![1, 0, 0, 0, 255, 255, 255, 255]
}

fn sample_proof() -> StarkProof {
    let trace_info = TraceInfo::new_multi_segment(TraceLayout::new(3, 2, 1), 16, vec![9, 8]);
    let options = ProofOptions::new(80, 8, 20, FieldExtension::Cubic, 8, 127);
    let layers = vec![
        FriProofLayer::new(vec![2], vec![1]).unwrap(),
        FriProofLayer::new(vec![], vec![3, 4]).unwrap(),
    ];
    StarkProof {
        context: Context::new(&trace_info, modulus(), options),
        num_unique_queries: 79,
        commitments: Commitments::new(vec![0xaa; 6]).unwrap(),
        trace_queries: vec![
            Queries::new(vec![4], vec![1, 2, 3]).unwrap(),
            Queries::new(vec![], vec![]).unwrap(),
        ],
        constraint_queries: Queries::new(vec![8, 9], vec![7]).unwrap(),
        ood_frame: OodFrame::new(vec![5, 5], vec![6]).unwrap(),
        fri_proof: FriProof::new(layers, vec![7, 7, 7], 1).unwrap(),
        pow_nonce: 0x0102030405060708,
    }
}

fn sample_bytes() -> Vec<u8> {
    let mut bytes: Vec<u8> = Vec::new();
    // context: layout, log2 of the trace length, metadata, modulus, options
    bytes.extend_from_slice(&[3, 2, 1]);
    bytes.extend_from_slice(&[4]);
    bytes.extend_from_slice(&[2, 0, 9, 8]);
    bytes.extend_from_slice(&[8, 1, 0, 0, 0, 255, 255, 255, 255]);
    bytes.extend_from_slice(&[80, 8, 20, 3, 8, 127]);
    // number of unique queries
    bytes.extend_from_slice(&[79]);
    // commitments
    bytes.extend_from_slice(&[6, 0, 0xaa, 0xaa, 0xaa, 0xaa, 0xaa, 0xaa]);
    // trace decommitments: values, then paths
    bytes.extend_from_slice(&[3, 0, 0, 0, 1, 2, 3, 1, 0, 0, 0, 4]);
    bytes.extend_from_slice(&[0, 0, 0, 0, 0, 0, 0, 0]);
    // constraint decommitment
    bytes.extend_from_slice(&[1, 0, 0, 0, 7, 2, 0, 0, 0, 8, 9]);
    // out-of-domain frame
    bytes.extend_from_slice(&[2, 0, 5, 5, 1, 0, 6]);
    // low-degree proof: layers, remainder, partitions
    bytes.extend_from_slice(&[2]);
    bytes.extend_from_slice(&[1, 0, 0, 0, 1, 1, 0, 0, 0, 2]);
    bytes.extend_from_slice(&[2, 0, 0, 0, 3, 4, 0, 0, 0, 0]);
    bytes.extend_from_slice(&[3, 0, 7, 7, 7]);
    bytes.extend_from_slice(&[1]);
    // nonce
    bytes.extend_from_slice(&[8, 7, 6, 5, 4, 3, 2, 1]);
    bytes
}

fn invalid(value: InvalidValue) -> DeserializationError {
    DeserializationError::InvalidValue(value)
}

fn decode_with(offset: usize, byte: u8) -> Result<StarkProof, DeserializationError> {
    let mut bytes = sample_bytes();
    bytes[offset] = byte;
    StarkProof::from_bytes(&bytes)
}

#[test]
fn encoding_has_the_documented_layout() {
    let bytes = sample_proof().to_bytes();
    assert_eq!(bytes.len(), 105);
    assert_eq!(bytes, sample_bytes());
}

#[test]
fn decoding_the_encoding_gives_the_proof_back() {
    let proof = sample_proof();
    assert!(proof.is_well_formed());
    let decoded = StarkProof::from_bytes(&proof.to_bytes()).unwrap();
    assert_eq!(decoded, proof);
    assert_eq!(decoded.context, proof.context);
    assert_eq!(decoded.num_unique_queries, 79);
    assert_eq!(decoded.commitments, proof.commitments);
    assert_eq!(decoded.trace_queries, proof.trace_queries);
    assert_eq!(decoded.constraint_queries, proof.constraint_queries);
    assert_eq!(decoded.ood_frame, proof.ood_frame);
    assert_eq!(decoded.fri_proof, proof.fri_proof);
    assert_eq!(decoded.pow_nonce, 0x0102030405060708);
    assert_eq!(decoded.to_bytes(), proof.to_bytes());
}

#[test]
fn decoding_reads_the_fields_in_order() {
    let proof = StarkProof::from_bytes(&sample_bytes()).unwrap();
    assert_eq!(proof.trace_layout().main_trace_width(), 3);
    assert_eq!(proof.trace_layout().aux_trace_width(), 2);
    assert_eq!(proof.trace_layout().aux_rand_elements(), 1);
    assert_eq!(proof.trace_length(), 16);
    assert_eq!(proof.context.field_modulus_bytes(), &modulus()[..]);
    assert_eq!(proof.options().num_queries(), 80);
    assert_eq!(proof.options().blowup_factor(), 8);
    assert_eq!(proof.options().grinding_factor(), 20);
    assert_eq!(proof.options().field_extension(), FieldExtension::Cubic);
    assert_eq!(proof.options().fri_folding_factor(), 8);
    assert_eq!(proof.options().fri_remainder_max_degree(), 127);
    assert_eq!(proof.commitments.roots(), &[0xaa; 6][..]);
    assert_eq!(proof.trace_queries.len(), 2);
    assert_eq!(proof.trace_queries[0].values(), &[1, 2, 3][..]);
    assert_eq!(proof.trace_queries[0].paths(), &[4][..]);
    assert_eq!(proof.trace_queries[1].values().len(), 0);
    assert_eq!(proof.constraint_queries.values(), &[7][..]);
    assert_eq!(proof.constraint_queries.paths(), &[8, 9][..]);
    assert_eq!(proof.ood_frame.trace_states(), &[5, 5][..]);
    assert_eq!(proof.ood_frame.evaluations(), &[6][..]);
    assert_eq!(proof.fri_proof.num_layers(), 2);
    assert_eq!(proof.fri_proof.layers()[0].values(), &[1][..]);
    assert_eq!(proof.fri_proof.layers()[0].paths(), &[2][..]);
    assert_eq!(proof.fri_proof.layers()[1].values(), &[3, 4][..]);
    assert_eq!(proof.fri_proof.remainder(), &[7, 7, 7][..]);
    assert_eq!(proof.fri_proof.num_partitions(), 1);
}

#[test]
fn bytes_after_the_proof_are_left_alone() {
    let mut bytes = sample_bytes();
    bytes.extend_from_slice(&[1, 2, 3]);
    assert_eq!(StarkProof::from_bytes(&bytes), Ok(sample_proof()));
}

#[test]
fn every_truncated_encoding_is_an_underrun() {
    let bytes = sample_bytes();
    for n in 0..bytes.len() {
        assert_eq!(
            StarkProof::from_bytes(&bytes[..n]),
            Err(DeserializationError::UnexpectedEOF),
            "prefix of {} bytes",
            n
        );
    }
}

#[test]
fn the_number_of_trace_decommitments_comes_from_the_context() {
    // with an empty auxiliary segment the same bytes hold one trace decommitment less
    let mut proof = sample_proof();
    let trace_info = TraceInfo::new_multi_segment(TraceLayout::new(3, 0, 0), 16, vec![9, 8]);
    let options = ProofOptions::new(80, 8, 20, FieldExtension::Cubic, 8, 127);
    proof.context = Context::new(&trace_info, modulus(), options);
    assert!(!proof.is_well_formed());
    proof.trace_queries.pop();
    assert!(proof.is_well_formed());
    let bytes = proof.to_bytes();
    assert_eq!(bytes.len(), 97);
    let decoded = StarkProof::from_bytes(&bytes).unwrap();
    assert_eq!(decoded.trace_queries.len(), 1);
    assert_eq!(decoded, proof);
}

#[test]
fn invalid_trace_layouts_are_rejected() {
    assert_eq!(decode_with(0, 0), Err(invalid(InvalidValue::MainSegmentWidth)));
    assert_eq!(decode_with(1, 253), Err(invalid(InvalidValue::TraceWidth)));
    assert_eq!(decode_with(2, 0), Err(invalid(InvalidValue::AuxSegmentRands)));
    let mut bytes = sample_bytes();
    bytes[1] = 0;
    assert_eq!(StarkProof::from_bytes(&bytes), Err(invalid(InvalidValue::AuxSegmentRands)));
}

#[test]
fn invalid_trace_lengths_are_rejected() {
    assert_eq!(decode_with(3, 2), Err(invalid(InvalidValue::TraceLength)));
    assert_eq!(decode_with(3, 0), Err(invalid(InvalidValue::TraceLength)));
    assert_eq!(decode_with(3, 64), Err(invalid(InvalidValue::TraceLength)));
    assert_eq!(decode_with(3, 255), Err(invalid(InvalidValue::TraceLength)));
    // the trace fits, the extended domain does not
    assert_eq!(
        decode_with(3, (usize::BITS - 1) as u8),
        Err(invalid(InvalidValue::TraceLength))
    );
    assert_eq!(decode_with(3, 3).unwrap().trace_length(), 8);
}

#[test]
fn invalid_field_moduli_are_rejected() {
    assert_eq!(decode_with(8, 0), Err(invalid(InvalidValue::FieldModulus)));
    assert_eq!(decode_with(8, 1), Err(invalid(InvalidValue::FieldModulus)));
}

#[test]
fn invalid_options_are_rejected() {
    assert_eq!(decode_with(17, 0), Err(invalid(InvalidValue::NumQueries)));
    assert_eq!(decode_with(18, 3), Err(invalid(InvalidValue::BlowupFactor)));
    assert_eq!(decode_with(18, 1), Err(invalid(InvalidValue::BlowupFactor)));
    assert_eq!(decode_with(18, 0), Err(invalid(InvalidValue::BlowupFactor)));
    assert_eq!(decode_with(19, 33), Err(invalid(InvalidValue::GrindingFactor)));
    assert_eq!(decode_with(20, 0), Err(invalid(InvalidValue::FieldExtension)));
    assert_eq!(decode_with(20, 4), Err(invalid(InvalidValue::FieldExtension)));
    assert_eq!(decode_with(21, 3), Err(invalid(InvalidValue::FriFoldingFactor)));
    assert_eq!(decode_with(21, 32), Err(invalid(InvalidValue::FriFoldingFactor)));
    assert_eq!(decode_with(22, 2), Err(invalid(InvalidValue::FriRemainderDegree)));
    assert_eq!(decode_with(19, 32).unwrap().options().grinding_factor(), 32);
    assert_eq!(decode_with(20, 1).unwrap().options().field_extension(), FieldExtension::Base);
    assert_eq!(decode_with(22, 255).unwrap().options().fri_remainder_max_degree(), 255);
}

#[test]
fn the_first_invalid_option_is_reported() {
    let mut bytes = sample_bytes();
    bytes[17] = 0;
    bytes[18] = 3;
    bytes[22] = 2;
    assert_eq!(StarkProof::from_bytes(&bytes), Err(invalid(InvalidValue::NumQueries)));
    bytes[17] = 1;
    assert_eq!(StarkProof::from_bytes(&bytes), Err(invalid(InvalidValue::BlowupFactor)));
    // the field extension is judged before the numbers are
    bytes[20] = 9;
    assert_eq!(StarkProof::from_bytes(&bytes), Err(invalid(InvalidValue::FieldExtension)));
    assert_eq!(
        StarkProof::from_bytes(&bytes[..21]),
        Err(invalid(InvalidValue::FieldExtension))
    );
}

#[test]
fn fri_layers_without_values_are_rejected() {
    assert_eq!(decode_with(71, 0), Err(invalid(InvalidValue::FriLayerValues)));
    assert!(FriProofLayer::new(vec![1, 2], vec![]).is_none());
    assert!(FriProofLayer::new(vec![], vec![1]).is_some());
}

#[test]
fn a_wrong_length_prefix_is_an_underrun() {
    assert_eq!(decode_with(24, 200), Err(DeserializationError::UnexpectedEOF));
    assert_eq!(decode_with(35, 1), Err(DeserializationError::UnexpectedEOF));
    assert_eq!(decode_with(70, 3), Err(DeserializationError::UnexpectedEOF));
}

#[test]
fn dummy_proof_has_the_documented_contents() {
    let dummy = StarkProof::new_dummy();
    assert_eq!(dummy.trace_layout().main_trace_width(), 1);
    assert_eq!(dummy.trace_layout().num_segments(), 1);
    assert_eq!(dummy.trace_length(), 8);
    assert_eq!(dummy.lde_domain_size(), 16);
    assert_eq!(dummy.context.num_modulus_bits(), 64);
    assert_eq!(dummy.options().num_queries(), 1);
    assert_eq!(dummy.options().blowup_factor(), 2);
    assert_eq!(dummy.options().grinding_factor(), 2);
    assert_eq!(dummy.options().field_extension(), FieldExtension::Base);
    assert_eq!(dummy.options().fri_folding_factor(), 8);
    assert_eq!(dummy.options().fri_remainder_max_degree(), 1);
    assert_eq!(dummy.num_unique_queries, 1);
    assert_eq!(dummy.commitments, Commitments::default());
    assert_eq!(dummy.trace_queries.len(), 1);
    assert_eq!(dummy.trace_queries[0].paths(), &[0][..]);
    assert_eq!(dummy.trace_queries[0].values(), &[1, 0, 0, 0, 0, 0, 0, 0][..]);
    assert_eq!(dummy.constraint_queries.paths(), &[0][..]);
    assert_eq!(dummy.constraint_queries.values(), &[1, 0, 0, 0, 0, 0, 0, 0][..]);
    assert_eq!(dummy.ood_frame, OodFrame::default());
    assert_eq!(dummy.fri_proof, FriProof::new_dummy());
    assert_eq!(dummy.pow_nonce, 0);
    assert_eq!(dummy, StarkProof::new_dummy().clone());
}

#[test]
fn dummy_proof_is_well_formed_and_round_trips() {
    let dummy = StarkProof::new_dummy();
    assert!(dummy.is_well_formed());
    assert!(0 < dummy.num_unique_queries);
    assert!(dummy.num_unique_queries as usize <= dummy.options().num_queries());
    assert_eq!(dummy.trace_queries.len(), dummy.trace_layout().num_segments());
    let bytes = dummy.to_bytes();
    let mut expected: Vec<u8> = Vec::new();
    expected.extend_from_slice(&[1, 0, 0, 3, 0, 0]);
    expected.extend_from_slice(&[8, 1, 0, 0, 0, 255, 255, 255, 255]);
    expected.extend_from_slice(&[1, 2, 2, 1, 8, 1]);
    expected.extend_from_slice(&[1]);
    expected.extend_from_slice(&[0, 0]);
    expected.extend_from_slice(&[8, 0, 0, 0, 1, 0, 0, 0, 0, 0, 0, 0, 1, 0, 0, 0, 0]);
    expected.extend_from_slice(&[8, 0, 0, 0, 1, 0, 0, 0, 0, 0, 0, 0, 1, 0, 0, 0, 0]);
    expected.extend_from_slice(&[0, 0, 0, 0]);
    expected.extend_from_slice(&[0, 0, 0, 0]);
    expected.extend_from_slice(&[0; 8]);
    assert_eq!(bytes.len(), 74);
    assert_eq!(bytes, expected);
    assert_eq!(StarkProof::from_bytes(&bytes), Ok(dummy));
}

#[test]
fn a_container_without_its_trace_decommitment_does_not_round_trip() {
    let mut proof = StarkProof::new_dummy();
    proof.trace_queries.clear();
    assert!(!proof.is_well_formed());
    let bytes = proof.to_bytes();
    assert_eq!(bytes.len(), 57);
    // the constraint decommitment is read in place of the missing one, and the input runs out
    assert_eq!(StarkProof::from_bytes(&bytes), Err(DeserializationError::UnexpectedEOF));
}

#[test]
fn well_formedness_bounds_the_number_of_unique_queries() {
    let mut proof = sample_proof();
    proof.num_unique_queries = 0;
    assert!(!proof.is_well_formed());
    proof.num_unique_queries = 1;
    assert!(proof.is_well_formed());
    proof.num_unique_queries = 80;
    assert!(proof.is_well_formed());
    proof.num_unique_queries = 81;
    assert!(!proof.is_well_formed());
    // such a proof still travels unchanged
    assert_eq!(StarkProof::from_bytes(&proof.to_bytes()), Ok(proof));
}

#[test]
fn accessors_delegate_to_the_context() {
    let proof = sample_proof();
    assert_eq!(proof.options(), proof.context.options());
    assert_eq!(proof.trace_layout(), proof.context.trace_layout());
    assert_eq!(proof.trace_layout().num_segments(), 2);
    assert_eq!(proof.trace_layout().num_aux_segments(), 1);
    assert_eq!(proof.trace_length(), 16);
    assert_eq!(proof.lde_domain_size(), 128);
    let info = proof.get_trace_info();
    assert_eq!(info, TraceInfo::new_multi_segment(TraceLayout::new(3, 2, 1), 16, vec![9, 8]));
    assert_eq!(info.width(), 5);
    assert_eq!(info.length(), 16);
    assert_eq!(info.meta(), &[9, 8][..]);
    assert_eq!(TraceInfo::new(4, 8), TraceInfo::with_meta(4, 8, vec![]));
}

#[test]
fn modulus_bits_count_up_to_the_highest_set_bit() {
    let trace_info = TraceInfo::new(1, 8);
    let options = ProofOptions::new(1, 2, 2, FieldExtension::Base, 8, 1);
    let bits = |modulus: Vec<u8>| Context::new(&trace_info, modulus, options).num_modulus_bits();
    assert_eq!(bits(vec![1, 0, 0, 0, 255, 255, 255, 255]), 64);
    assert_eq!(bits(vec![0, 0]), 0);
    assert_eq!(bits(vec![1, 0]), 1);
    assert_eq!(bits(vec![255, 0]), 8);
    assert_eq!(bits(vec![0, 1]), 9);
    assert_eq!(bits(vec![0, 0x40]), 15);
    assert_eq!(bits(vec![1, 0, 0, 0x80, 0, 0]), 32);
    assert_eq!(bits(vec![0xff; 255]), 2040);
}

#[test]
fn security_level_dispatches_on_the_flag() {
    let proof = sample_proof();
    // field: 3 * 64 - log2(16 * 8) = 185; queries: 3 * 80 + 20 = 260
    assert_eq!(proof.security_level(true, 128, &[]), Ok(128));
    assert_eq!(proof.security_level(true, 512, &[]), Ok(184));
    // a trace of 16 rows leaves the proximity parameters 3 to 8
    let terms = ErrorBits { fri_commit: 90, fri_queries: 75, ali: 99, deep: 93 };
    assert_eq!(proof.security_level(false, 128, &[terms; 6]), Ok(73));
    assert_eq!(proof.security_level(false, 64, &[terms; 6]), Ok(64));
    assert_eq!(proof.security_level(false, 128, &[terms; 5]), Err(SecurityError::CandidateCount));
    assert_eq!(proof.security_level(false, 128, &[]), Err(SecurityError::CandidateCount));
    // the dummy proof has a trace of 8 rows: proximity parameters 3 and 4
    let dummy = StarkProof::new_dummy();
    assert_eq!(dummy.security_level(false, 128, &[terms; 2]), Ok(73));
    // one query of one bit leaves no conjectured security
    assert_eq!(dummy.security_level(true, 128, &[terms; 2]), Ok(0));
}

#[test]
fn parts_that_cannot_be_encoded_are_not_built() {
    assert!(Commitments::new(vec![0; 65535]).is_some());
    assert!(Commitments::new(vec![0; 65536]).is_none());
    assert!(OodFrame::new(vec![0; 65535], vec![0; 65535]).is_some());
    assert!(OodFrame::new(vec![0; 65536], vec![]).is_none());
    assert!(OodFrame::new(vec![], vec![0; 65536]).is_none());
    assert!(FriProof::new(vec![], vec![0; 65535], 0).is_some());
    assert!(FriProof::new(vec![], vec![0; 65536], 0).is_none());
    let layer = FriProofLayer::new(vec![], vec![1]).unwrap();
    assert!(FriProof::new(vec![layer.clone(); 255], vec![], 0).is_some());
    assert!(FriProof::new(vec![layer; 256], vec![], 0).is_none());
}

#[test]
fn long_parts_round_trip() {
    let mut proof = sample_proof();
    proof.commitments = Commitments::new((0..65535u32).map(|i| i as u8).collect()).unwrap();
    proof.constraint_queries =
        Queries::new(vec![3; 70000], (0..100000u32).map(|i| (i * 7) as u8).collect()).unwrap();
    let layer = FriProofLayer::new(vec![1; 300], vec![2; 1000]).unwrap();
    proof.fri_proof = FriProof::new(vec![layer; 255], vec![9; 65535], 8).unwrap();
    proof.pow_nonce = u64::MAX;
    let bytes = proof.to_bytes();
    assert_eq!(StarkProof::from_bytes(&bytes), Ok(proof));
}

#[test]
fn options_are_checked_in_order() {
    let check = |q: usize, b: usize, g: u32, f: usize, d: usize| {
        ProofOptions::check(q, b, g, FieldExtension::Quadratic, f, d)
    };
    assert_eq!(check(80, 8, 20, 8, 127), None);
    assert_eq!(check(255, 128, 32, 16, 255), None);
    assert_eq!(check(1, 2, 0, 2, 0), None);
    assert_eq!(check(0, 8, 20, 8, 127), Some(InvalidValue::NumQueries));
    assert_eq!(check(256, 8, 20, 8, 127), Some(InvalidValue::NumQueries));
    assert_eq!(check(80, 1, 20, 8, 127), Some(InvalidValue::BlowupFactor));
    assert_eq!(check(80, 6, 20, 8, 127), Some(InvalidValue::BlowupFactor));
    assert_eq!(check(80, 256, 20, 8, 127), Some(InvalidValue::BlowupFactor));
    assert_eq!(check(80, 8, 33, 8, 127), Some(InvalidValue::GrindingFactor));
    assert_eq!(check(80, 8, 20, 1, 127), Some(InvalidValue::FriFoldingFactor));
    assert_eq!(check(80, 8, 20, 32, 127), Some(InvalidValue::FriFoldingFactor));
    assert_eq!(check(80, 8, 20, 12, 127), Some(InvalidValue::FriFoldingFactor));
    assert_eq!(check(80, 8, 20, 8, 128), Some(InvalidValue::FriRemainderDegree));
    assert_eq!(check(80, 8, 20, 8, 511), Some(InvalidValue::FriRemainderDegree));
    assert_eq!(check(0, 1, 99, 1, 2), Some(InvalidValue::NumQueries));
    assert_eq!(TraceLayout::check(0, 0, 0), Some(InvalidValue::MainSegmentWidth));
    assert_eq!(TraceLayout::check(255, 1, 1), Some(InvalidValue::TraceWidth));
    assert_eq!(TraceLayout::check(3, 0, 1), Some(InvalidValue::AuxSegmentRands));
    assert_eq!(TraceLayout::check(3, 2, 256), Some(InvalidValue::AuxSegmentRands));
    assert_eq!(TraceLayout::check(250, 5, 255), None);
}

#[test]
fn field_extension_degrees_and_tags() {
    assert_eq!(FieldExtension::Base.degree(), 1);
    assert_eq!(FieldExtension::Quadratic.degree(), 2);
    assert_eq!(FieldExtension::Cubic.degree(), 3);
    assert!(FieldExtension::Base.is_base());
    assert!(!FieldExtension::Cubic.is_base());
    for extension in [FieldExtension::Base, FieldExtension::Quadratic, FieldExtension::Cubic] {
        assert_eq!(FieldExtension::from_tag(extension.tag()), Some(extension));
    }
    assert_eq!(FieldExtension::Cubic.tag(), 3);
    assert_eq!(FieldExtension::from_tag(0), None);
    assert_eq!(FieldExtension::from_tag(4), None);
}
