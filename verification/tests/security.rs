use stark_proof::{
    compute_upper_m, get_conjectured_security, get_proven_security,
    proven_security_protocol_for_m, ErrorBits, FieldExtension, ProofOptions, SecurityError,
};

const BASE_FIELD_BITS: u32 = 64;

/// The operations on double-precision numbers that the error terms need.
struct Math {
    log2: fn(f64) -> f64,
    sqrt: fn(f64) -> f64,
    powf: fn(f64, f64) -> f64,
    ceil: fn(f64) -> f64,
}

const HOST: Math = Math { log2: f64::log2, sqrt: f64::sqrt, powf: f64::powf, ceil: f64::ceil };

const PORTABLE: Math =
    Math { log2: libm::log2, sqrt: libm::sqrt, powf: libm::pow, ceil: libm::ceil };

/// The four soundness error terms for the proximity parameter `m`, in
/// double precision, each cut to whole bits.
fn error_bits(
    math: &Math,
    options: &ProofOptions,
    base_field_bits: u32,
    trace_domain_size: usize,
    m: usize,
) -> ErrorBits {
    let extension_field_bits = (base_field_bits * options.field_extension().degree()) as f64;
    let num_fri_queries = options.num_queries() as f64;
    let m = m as f64;
    let rho = 1.0 / options.blowup_factor() as f64;
    let alpha = (1.0 + 0.5 / m) * (math.sqrt)(rho);
    let max_deg = options.blowup_factor() as f64 + 1.0;

    let lde_domain_size = (trace_domain_size * options.blowup_factor()) as f64;
    let trace_domain_size = trace_domain_size as f64;
    let num_openings = 2.0;
    let rho_plus = (trace_domain_size + num_openings) / lde_domain_size;

    let m_plus = (math.ceil)(1.0 / (2.0 * (alpha / (math.sqrt)(rho_plus) - 1.0)));
    let alpha_plus = (1.0 + 0.5 / m_plus) * (math.sqrt)(rho_plus);
    let theta_plus = 1.0 - alpha_plus;

    let fri_commit_err_bits = extension_field_bits
        - (math.log2)(
            (0.5 * (math.powf)(m + 0.5, 7.0) / (math.powf)(rho, 1.5))
                * (math.powf)(lde_domain_size, 2.0),
        );
    let fri_queries_err_bits = options.grinding_factor() as f64
        - (math.log2)((math.powf)(1.0 - theta_plus, num_fri_queries));

    let l_plus = (2.0 * m_plus + 1.0) / (2.0 * (math.sqrt)(rho_plus));
    let ali_err_bits = -(math.log2)(l_plus) + extension_field_bits;
    let deep_err_bits = -(math.log2)(
        l_plus * (max_deg * (trace_domain_size + num_openings - 1.0) + (trace_domain_size - 1.0)),
    ) + extension_field_bits;

    ErrorBits {
        fri_commit: fri_commit_err_bits as u64,
        fri_queries: fri_queries_err_bits as u64,
        ali: ali_err_bits as u64,
        deep: deep_err_bits as u64,
    }
}

fn candidates(
    math: &Math,
    options: &ProofOptions,
    base_field_bits: u32,
    trace_domain_size: usize,
) -> Vec<ErrorBits> {
    let m_max = compute_upper_m(trace_domain_size) as usize;
    (3..m_max).map(|m| error_bits(math, options, base_field_bits, trace_domain_size, m)).collect()
}

fn proven_security_with(
    math: &Math,
    options: &ProofOptions,
    base_field_bits: u32,
    trace_domain_size: usize,
    collision_resistance: u32,
) -> u32 {
    let terms = candidates(math, options, base_field_bits, trace_domain_size);
    get_proven_security(trace_domain_size, &terms, collision_resistance).unwrap()
}

fn proven_security(
    options: &ProofOptions,
    base_field_bits: u32,
    trace_domain_size: usize,
    collision_resistance: u32,
) -> u32 {
    proven_security_with(&HOST, options, base_field_bits, trace_domain_size, collision_resistance)
}

#[test]
fn get_96_bits_security() {
    let field_extension = FieldExtension::Cubic;
    let base_field_bits = BASE_FIELD_BITS;
    let fri_folding_factor = 8;
    let fri_remainder_max_degree = 127;
    let grinding_factor = 20;
    let blowup_factor = 4;
    let num_queries = 80;
    let collision_resistance = 128;
    let trace_length = 2_usize.pow(18);

    let mut options = ProofOptions::new(
        num_queries,
        blowup_factor,
        grinding_factor,
        field_extension,
        fri_folding_factor as usize,
        fri_remainder_max_degree as usize,
    );
    let security_1 = proven_security(&options, base_field_bits, trace_length, collision_resistance);

    assert_eq!(security_1, 97);

    // increasing the blowup factor should increase the bits of security gained per query
    let blowup_factor = 8;
    let num_queries = 53;

    options = ProofOptions::new(
        num_queries,
        blowup_factor,
        grinding_factor,
        field_extension,
        fri_folding_factor as usize,
        fri_remainder_max_degree as usize,
    );
    let security_2 = proven_security(&options, base_field_bits, trace_length, collision_resistance);

    assert_eq!(security_2, 97);
}

#[test]
fn get_128_bits_security() {
    let field_extension = FieldExtension::Cubic;
    let base_field_bits = BASE_FIELD_BITS;
    let fri_folding_factor = 8;
    let fri_remainder_max_degree = 127;
    let grinding_factor = 20;
    let blowup_factor = 8;
    let num_queries = 85;
    let collision_resistance = 128;
    let trace_length = 2_usize.pow(18);

    let mut options = ProofOptions::new(
        num_queries,
        blowup_factor,
        grinding_factor,
        field_extension,
        fri_folding_factor as usize,
        fri_remainder_max_degree as usize,
    );
    let security_1 = proven_security(&options, base_field_bits, trace_length, collision_resistance);

    assert_eq!(security_1, 128);

    // increasing the blowup factor should increase the bits of security gained per query
    let blowup_factor = 16;
    let num_queries = 65;

    options = ProofOptions::new(
        num_queries,
        blowup_factor,
        grinding_factor,
        field_extension,
        fri_folding_factor as usize,
        fri_remainder_max_degree as usize,
    );
    let security_2 = proven_security(&options, base_field_bits, trace_length, collision_resistance);

    assert_eq!(security_2, 128);
}

#[test]
fn extension_degree() {
    let field_extension = FieldExtension::Quadratic;
    let base_field_bits = BASE_FIELD_BITS;
    let fri_folding_factor = 8;
    let fri_remainder_max_degree = 127;
    let grinding_factor = 20;
    let blowup_factor = 8;
    let num_queries = 85;
    let collision_resistance = 128;
    let trace_length = 2_usize.pow(18);

    let mut options = ProofOptions::new(
        num_queries,
        blowup_factor,
        grinding_factor,
        field_extension,
        fri_folding_factor as usize,
        fri_remainder_max_degree as usize,
    );
    let security_1 = proven_security(&options, base_field_bits, trace_length, collision_resistance);

    assert_eq!(security_1, 67);

    // increasing the extension degree improves the FRI commit phase soundness error and permits
    // reaching 128 bits security
    let field_extension = FieldExtension::Cubic;

    options = ProofOptions::new(
        num_queries,
        blowup_factor,
        grinding_factor,
        field_extension,
        fri_folding_factor as usize,
        fri_remainder_max_degree as usize,
    );
    let security_2 = proven_security(&options, base_field_bits, trace_length, collision_resistance);

    assert_eq!(security_2, 128);
}

#[test]
fn trace_length() {
    let field_extension = FieldExtension::Cubic;
    let base_field_bits = BASE_FIELD_BITS;
    let fri_folding_factor = 8;
    let fri_remainder_max_degree = 127;
    let grinding_factor = 20;
    let blowup_factor = 8;
    let num_queries = 80;
    let collision_resistance = 128;
    let trace_length = 2_usize.pow(20);

    let mut options = ProofOptions::new(
        num_queries,
        blowup_factor,
        grinding_factor,
        field_extension,
        fri_folding_factor as usize,
        fri_remainder_max_degree as usize,
    );
    let security_1 = proven_security(&options, base_field_bits, trace_length, collision_resistance);

    let trace_length = 2_usize.pow(16);

    options = ProofOptions::new(
        num_queries,
        blowup_factor,
        grinding_factor,
        field_extension,
        fri_folding_factor as usize,
        fri_remainder_max_degree as usize,
    );
    let security_2 = proven_security(&options, base_field_bits, trace_length, collision_resistance);

    assert!(security_1 < security_2);
}

#[test]
fn num_fri_queries() {
    let field_extension = FieldExtension::Cubic;
    let base_field_bits = BASE_FIELD_BITS;
    let fri_folding_factor = 8;
    let fri_remainder_max_degree = 127;
    let grinding_factor = 20;
    let blowup_factor = 8;
    let num_queries = 60;
    let collision_resistance = 128;
    let trace_length = 2_usize.pow(20);

    let mut options = ProofOptions::new(
        num_queries,
        blowup_factor,
        grinding_factor,
        field_extension,
        fri_folding_factor as usize,
        fri_remainder_max_degree as usize,
    );
    let security_1 = proven_security(&options, base_field_bits, trace_length, collision_resistance);

    let num_queries = 80;

    options = ProofOptions::new(
        num_queries,
        blowup_factor,
        grinding_factor,
        field_extension,
        fri_folding_factor as usize,
        fri_remainder_max_degree as usize,
    );
    let security_2 = proven_security(&options, base_field_bits, trace_length, collision_resistance);

    assert!(security_1 < security_2);
}

#[test]
fn blowup_factor() {
    let field_extension = FieldExtension::Cubic;
    let base_field_bits = BASE_FIELD_BITS;
    let fri_folding_factor = 8;
    let fri_remainder_max_degree = 127;
    let grinding_factor = 20;
    let blowup_factor = 8;
    let num_queries = 30;
    let collision_resistance = 128;
    let trace_length = 2_usize.pow(20);

    let mut options = ProofOptions::new(
        num_queries,
        blowup_factor,
        grinding_factor,
        field_extension,
        fri_folding_factor as usize,
        fri_remainder_max_degree as usize,
    );
    let security_1 = proven_security(&options, base_field_bits, trace_length, collision_resistance);

    let blowup_factor = 16;

    options = ProofOptions::new(
        num_queries,
        blowup_factor,
        grinding_factor,
        field_extension,
        fri_folding_factor as usize,
        fri_remainder_max_degree as usize,
    );
    let security_2 = proven_security(&options, base_field_bits, trace_length, collision_resistance);

    assert!(security_1 < security_2);
}

#[test]
fn upper_m_matches_the_real_valued_limit() {
    for h in 1usize..5000 {
        let x = h as f64;
        let limit = (0.25 * x * (1.0 + (1.0 + 2.0 / x).sqrt())).ceil() as u64;
        assert_eq!(compute_upper_m(h), limit.min(1000), "h = {}", h);
    }
    for shift in 12..63 {
        let h = 1usize << shift;
        assert_eq!(compute_upper_m(h), 1000);
        assert_eq!(compute_upper_m(h + 1), 1000);
    }
    assert_eq!(compute_upper_m(0), 0);
    assert_eq!(compute_upper_m(4), 3);
    assert_eq!(compute_upper_m(5), 3);
    assert_eq!(compute_upper_m(6), 4);
    assert_eq!(compute_upper_m(1997), 999);
    assert_eq!(compute_upper_m(1998), 1000);
    assert_eq!(compute_upper_m(usize::MAX), 1000);
}

#[test]
fn protocol_bits_for_one_parameter() {
    let terms = ErrorBits { fri_commit: 150, fri_queries: 100, ali: 180, deep: 170 };
    assert_eq!(proven_security_protocol_for_m(&terms), 98);
    let terms = ErrorBits { fri_commit: 150, fri_queries: 100, ali: 60, deep: 170 };
    assert_eq!(proven_security_protocol_for_m(&terms), 59);
    let terms = ErrorBits { fri_commit: 150, fri_queries: 100, ali: 180, deep: 99 };
    assert_eq!(proven_security_protocol_for_m(&terms), 98);
    let terms = ErrorBits { fri_commit: 150, fri_queries: 100, ali: 180, deep: 98 };
    assert_eq!(proven_security_protocol_for_m(&terms), 97);
    let terms = ErrorBits { fri_commit: 70, fri_queries: 100, ali: 180, deep: 170 };
    assert_eq!(proven_security_protocol_for_m(&terms), 68);
}

#[test]
fn protocol_bits_clamp_to_zero() {
    let terms = ErrorBits { fri_commit: 0, fri_queries: 100, ali: 180, deep: 170 };
    assert_eq!(proven_security_protocol_for_m(&terms), 0);
    let terms = ErrorBits { fri_commit: 1, fri_queries: 100, ali: 180, deep: 170 };
    assert_eq!(proven_security_protocol_for_m(&terms), 0);
    let terms = ErrorBits { fri_commit: 2, fri_queries: 100, ali: 180, deep: 170 };
    assert_eq!(proven_security_protocol_for_m(&terms), 0);
    let terms = ErrorBits { fri_commit: 3, fri_queries: 100, ali: 180, deep: 170 };
    assert_eq!(proven_security_protocol_for_m(&terms), 1);
    let terms = ErrorBits { fri_commit: 90, fri_queries: 100, ali: 0, deep: 170 };
    assert_eq!(proven_security_protocol_for_m(&terms), 0);
    let terms = ErrorBits { fri_commit: 90, fri_queries: 100, ali: 180, deep: 1 };
    assert_eq!(proven_security_protocol_for_m(&terms), 0);
    let terms = ErrorBits {
        fri_commit: u64::MAX,
        fri_queries: u64::MAX,
        ali: u64::MAX,
        deep: u64::MAX,
    };
    assert_eq!(proven_security_protocol_for_m(&terms), u64::MAX - 2);
}

#[test]
fn proven_security_takes_the_best_candidate() {
    let low = ErrorBits { fri_commit: 50, fri_queries: 60, ali: 70, deep: 80 };
    let high = ErrorBits { fri_commit: 90, fri_queries: 95, ali: 99, deep: 93 };
    let mid = ErrorBits { fri_commit: 80, fri_queries: 75, ali: 99, deep: 93 };
    // a trace of 10 rows leaves the proximity parameters 3, 4 and 5
    assert_eq!(compute_upper_m(10), 6);
    assert_eq!(get_proven_security(10, &[low, high, mid], 128), Ok(88));
    assert_eq!(get_proven_security(10, &[high, low, mid], 128), Ok(88));
    assert_eq!(get_proven_security(10, &[low, mid, high], 128), Ok(88));
    assert_eq!(get_proven_security(10, &[low, mid, mid], 128), Ok(73));
    assert_eq!(get_proven_security(10, &[low, low, low], 128), Ok(48));
}

#[test]
fn proven_security_is_capped_by_collision_resistance() {
    let high = ErrorBits { fri_commit: 190, fri_queries: 195, ali: 199, deep: 193 };
    assert_eq!(get_proven_security(6, &[high], 128), Ok(128));
    assert_eq!(get_proven_security(6, &[high], 188), Ok(188));
    assert_eq!(get_proven_security(6, &[high], 189), Ok(188));
    assert_eq!(get_proven_security(6, &[high], 0), Ok(0));
    for cr in [0u32, 1, 64, 96, 128, 256] {
        let options = ProofOptions::new(85, 8, 20, FieldExtension::Cubic, 8, 127);
        assert!(proven_security(&options, BASE_FIELD_BITS, 1 << 18, cr) <= cr);
        assert!(get_conjectured_security(&options, BASE_FIELD_BITS, 1 << 18, cr) <= cr);
    }
}

#[test]
fn proven_security_rejects_an_empty_search_space() {
    for h in 0usize..6 {
        assert_eq!(get_proven_security(h, &[], 128), Err(SecurityError::EmptySearchSpace));
    }
    let terms = ErrorBits { fri_commit: 50, fri_queries: 60, ali: 70, deep: 80 };
    assert_eq!(get_proven_security(5, &[terms], 128), Err(SecurityError::EmptySearchSpace));
    assert_eq!(get_proven_security(6, &[terms], 128), Ok(48));
}

#[test]
fn proven_security_rejects_a_wrong_number_of_candidates() {
    let terms = ErrorBits { fri_commit: 50, fri_queries: 60, ali: 70, deep: 80 };
    assert_eq!(get_proven_security(6, &[], 128), Err(SecurityError::CandidateCount));
    assert_eq!(get_proven_security(6, &[terms, terms], 128), Err(SecurityError::CandidateCount));
    assert_eq!(get_proven_security(1 << 18, &[terms], 128), Err(SecurityError::CandidateCount));
    let all = vec![terms; 997];
    assert_eq!(get_proven_security(1 << 18, &all, 128), Ok(48));
}

#[test]
fn conjectured_security_values() {
    let options = ProofOptions::new(80, 4, 20, FieldExtension::Cubic, 8, 127);
    // field: 192 - 20 = 172; queries: 2 * 80 + 20 = 180
    assert_eq!(get_conjectured_security(&options, 64, 1 << 18, 128), 128);
    assert_eq!(get_conjectured_security(&options, 64, 1 << 18, 256), 171);
    // without an extension the field is the limit: 64 - 20 = 44
    let options = ProofOptions::new(80, 4, 20, FieldExtension::Base, 8, 127);
    assert_eq!(get_conjectured_security(&options, 64, 1 << 18, 128), 43);
    // a trace length that is no power of two: floor(log2(3 * 4)) = 3
    assert_eq!(get_conjectured_security(&options, 64, 3, 128), 60);
}

#[test]
fn conjectured_security_counts_grinding_from_80_bits_on() {
    // 2 bits per query: 39 queries give 78 bits, 40 queries give 80 + 20
    let options = ProofOptions::new(39, 4, 20, FieldExtension::Cubic, 8, 127);
    assert_eq!(get_conjectured_security(&options, 64, 1 << 18, 128), 77);
    let options = ProofOptions::new(40, 4, 20, FieldExtension::Cubic, 8, 127);
    assert_eq!(get_conjectured_security(&options, 64, 1 << 18, 128), 99);
}

#[test]
fn conjectured_security_clamps_to_zero() {
    let options = ProofOptions::new(1, 2, 0, FieldExtension::Base, 8, 127);
    // one query of one bit leaves nothing after the margin
    assert_eq!(get_conjectured_security(&options, 64, 1 << 18, 128), 0);
    // a field smaller than the domain
    let options = ProofOptions::new(80, 4, 20, FieldExtension::Base, 8, 127);
    assert_eq!(get_conjectured_security(&options, 8, 1 << 18, 128), 0);
    assert_eq!(get_conjectured_security(&options, 20, 1 << 18, 128), 0);
    assert_eq!(get_conjectured_security(&options, 21, 1 << 18, 128), 0);
    assert_eq!(get_conjectured_security(&options, 22, 1 << 18, 128), 1);
}

#[test]
fn better_error_terms_never_give_less() {
    let lower = ErrorBits { fri_commit: 90, fri_queries: 75, ali: 99, deep: 93 };
    for (dc, dq, da, dd) in [(1, 0, 0, 0), (0, 1, 0, 0), (0, 0, 1, 0), (0, 0, 0, 1), (9, 30, 5, 1)] {
        let upper = ErrorBits {
            fri_commit: lower.fri_commit + dc,
            fri_queries: lower.fri_queries + dq,
            ali: lower.ali + da,
            deep: lower.deep + dd,
        };
        assert!(proven_security_protocol_for_m(&lower) <= proven_security_protocol_for_m(&upper));
        assert!(
            get_proven_security(6, &[lower], 128).unwrap()
                <= get_proven_security(6, &[upper], 128).unwrap()
        );
    }
}

#[test]
fn more_queries_and_larger_extension_never_give_less() {
    let h = 1usize << 18;
    let mut previous = 0;
    for num_queries in [20usize, 40, 53, 60, 80, 85, 120, 255] {
        let options = ProofOptions::new(num_queries, 8, 20, FieldExtension::Cubic, 8, 127);
        let bits = proven_security(&options, BASE_FIELD_BITS, h, 128);
        assert!(previous <= bits);
        previous = bits;
    }
    for num_queries in [20usize, 53, 85, 255] {
        let quadratic = ProofOptions::new(num_queries, 8, 20, FieldExtension::Quadratic, 8, 127);
        let cubic = ProofOptions::new(num_queries, 8, 20, FieldExtension::Cubic, 8, 127);
        assert!(
            proven_security(&quadratic, BASE_FIELD_BITS, h, 128)
                <= proven_security(&cubic, BASE_FIELD_BITS, h, 128)
        );
    }
}

#[test]
fn both_math_backends_give_the_same_levels() {
    let h = 1usize << 18;
    for (num_queries, blowup_factor, extension, expected) in [
        (80usize, 4usize, FieldExtension::Cubic, 97u32),
        (53, 8, FieldExtension::Cubic, 97),
        (85, 8, FieldExtension::Cubic, 128),
        (65, 16, FieldExtension::Cubic, 128),
        (85, 8, FieldExtension::Quadratic, 67),
    ] {
        let options = ProofOptions::new(num_queries, blowup_factor, 20, extension, 8, 127);
        assert_eq!(proven_security_with(&HOST, &options, BASE_FIELD_BITS, h, 128), expected);
        assert_eq!(proven_security_with(&PORTABLE, &options, BASE_FIELD_BITS, h, 128), expected);
    }
}

#[test]
fn error_terms_of_one_parameter() {
    let options = ProofOptions::new(85, 8, 20, FieldExtension::Quadratic, 8, 127);
    let terms = error_bits(&HOST, &options, BASE_FIELD_BITS, 1 << 18, 3);
    assert_eq!(proven_security_protocol_for_m(&terms), 67);
    assert!(terms.fri_commit < terms.fri_queries);
    assert_eq!(terms.fri_commit, 69);
}

#[test]
fn a_longer_trace_can_give_less() {
    let options = ProofOptions::new(80, 8, 20, FieldExtension::Cubic, 8, 127);
    assert_eq!(proven_security(&options, BASE_FIELD_BITS, 1 << 16, 128), 128);
    assert_eq!(proven_security(&options, BASE_FIELD_BITS, 1 << 20, 128), 125);
}

#[test]
fn a_larger_blowup_can_give_less_where_the_commit_phase_decides() {
    let options = ProofOptions::new(85, 8, 20, FieldExtension::Quadratic, 8, 127);
    assert_eq!(proven_security(&options, BASE_FIELD_BITS, 1 << 18, 128), 67);
    let options = ProofOptions::new(85, 16, 20, FieldExtension::Quadratic, 8, 127);
    assert_eq!(proven_security(&options, BASE_FIELD_BITS, 1 << 18, 128), 64);
}

#[test]
fn searches_with_better_terms_end_alike_or_higher() {
    let lower = ErrorBits { fri_commit: 90, fri_queries: 75, ali: 99, deep: 93 };
    let upper = ErrorBits { fri_commit: 154, fri_queries: 75, ali: 163, deep: 157 };
    assert_eq!(get_proven_security(5, &[lower], 128), Err(SecurityError::EmptySearchSpace));
    assert_eq!(get_proven_security(5, &[upper], 128), Err(SecurityError::EmptySearchSpace));
    assert_eq!(get_proven_security(8, &[lower], 128), Err(SecurityError::CandidateCount));
    assert_eq!(get_proven_security(8, &[upper], 128), Err(SecurityError::CandidateCount));
    assert_eq!(get_proven_security(8, &[lower, lower], 128), Ok(73));
    assert_eq!(get_proven_security(8, &[upper, lower], 128), Ok(73));
    assert_eq!(get_proven_security(8, &[upper, upper], 128), Ok(73));
    let upper = ErrorBits { fri_commit: 154, fri_queries: 120, ali: 163, deep: 157 };
    assert_eq!(get_proven_security(8, &[lower, upper], 128), Ok(118));
    assert_eq!(get_proven_security(8, &[upper, upper], 100), Ok(100));
}
