//! Estimators of the soundness, in bits, that a proof configuration achieves:
//! a conjectured bound and a proven bound in the list-decoding regime.
//!
//! The proven bound rests on four soundness error terms per proximity
//! parameter. They are logarithms of real-valued expressions; this module
//! takes them as whole numbers of bits and does everything that follows:
//! it delimits the proximity parameters to try, combines the terms of each,
//! picks the best and caps the outcome.

use crate::arith::floor_log2;
use crate::options::{ProofOptions, ProofOptionsView};
use vstd::arithmetic::logarithm::{lemma_log_is_ordered, log};
use vstd::prelude::*;

verus! {

/// Query security below which grinding adds nothing to the conjectured bound.
pub const GRINDING_CONTRIBUTION_FLOOR: u32 = 80;

/// First proximity parameter that the proven bound tries.
pub const MIN_PROXIMITY_PARAMETER: u64 = 3;

/// Limit that no proximity parameter reaches.
pub const MAX_PROXIMITY_PARAMETER: u64 = 1000;

/// Why no proven bound can be given.
#[derive(Clone, Copy, Debug, PartialEq, Eq, Structural)]
pub enum SecurityError {
    /// The trace is so short that there is no proximity parameter to try.
    EmptySearchSpace,
    /// The error terms handed in are not one set per proximity parameter.
    CandidateCount,
}

/// Soundness error terms of the protocol for one proximity parameter, each
/// rounded down to whole bits and no lower than zero.
#[derive(Clone, Copy, Debug, PartialEq, Eq, Structural)]
pub struct ErrorBits {
    /// Commit phase of FRI.
    pub fri_commit: u64,
    /// Query phase of FRI, grinding included.
    pub fri_queries: u64,
    /// Algebraic linking of the batched polynomial claims.
    pub ali: u64,
    /// Out-of-domain sampling.
    pub deep: u64,
}

// CONJECTURED BOUND
// ================================================================================================

/// The conjectured security level: what the field and the queries allow,
/// whichever is less, with one bit of margin, never below zero and never
/// above the collision resistance of the hash function. Grinding counts
/// only where the queries alone give 80 bits.
pub open spec fn conjectured_security(
    options: ProofOptionsView,
    base_field_bits: nat,
    trace_domain_size: nat,
    collision_resistance: nat,
) -> nat {
    let field_size = base_field_bits * options.field_extension.spec_degree();
    let field_security = field_size - log(
        2,
        (trace_domain_size * options.blowup_factor) as int,
    );
    let security_per_query = log(2, options.blowup_factor as int);
    let query_security = security_per_query * options.num_queries;
    let query_security = if query_security >= 80 {
        query_security + options.grinding_factor
    } else {
        query_security
    };
    let margin = if field_security <= query_security {
        field_security - 1
    } else {
        query_security - 1
    };
    if margin <= 0 {
        0
    } else if margin <= collision_resistance {
        margin as nat
    } else {
        collision_resistance
    }
}

/// Computes the conjectured security level, in bits, of proofs for a trace of
/// `trace_domain_size` rows over a base field of `base_field_bits` bits.
pub fn get_conjectured_security(
    options: &ProofOptions,
    base_field_bits: u32,
    trace_domain_size: usize,
    collision_resistance: u32,
) -> (bits: u32)
    requires
        trace_domain_size > 0,
    ensures
        bits == conjectured_security(
            options@,
            base_field_bits as nat,
            trace_domain_size as nat,
            collision_resistance as nat,
        ),
        bits <= collision_resistance,
{
    let blowup_factor = options.blowup_factor();
    let num_queries = options.num_queries();
    let degree = options.field_extension().degree();
    let field_size: u64 = base_field_bits as u64 * degree as u64;

    assert(trace_domain_size * blowup_factor <= u128::MAX) by (nonlinear_arith)
        requires
            trace_domain_size <= u64::MAX,
            blowup_factor <= 128,
    ;
    assert(trace_domain_size * blowup_factor > 0) by (nonlinear_arith)
        requires
            trace_domain_size > 0,
            blowup_factor >= 2,
    ;
    let lde_domain_size: u128 = trace_domain_size as u128 * blowup_factor as u128;
    let lde_bits: u64 = floor_log2(lde_domain_size) as u64;

    let security_per_query: u64 = floor_log2(blowup_factor as u128) as u64;
    proof {
        lemma_log_is_ordered(2, blowup_factor as int, 128);
        lemma_log2_128();
        assert(security_per_query * num_queries <= 7 * 255) by (nonlinear_arith)
            requires
                security_per_query <= 7,
                num_queries <= 255,
        ;
    }
    let mut query_security: u64 = security_per_query * num_queries as u64;
    if query_security >= GRINDING_CONTRIBUTION_FLOOR as u64 {
        query_security = query_security + options.grinding_factor() as u64;
    }
    if field_size <= lde_bits {
        return 0;
    }
    let field_security: u64 = field_size - lde_bits;
    let lower: u64 = if field_security <= query_security {
        field_security
    } else {
        query_security
    };
    if lower <= 1 {
        0
    } else if lower - 1 <= collision_resistance as u64 {
        (lower - 1) as u32
    } else {
        collision_resistance
    }
}

proof fn lemma_log2_128()
    ensures
        log(2, 128) == 7,
{
    reveal_with_fuel(log, 9);
}

// PROVEN BOUND
// ================================================================================================

/// The limit of the proximity parameters for a trace of `h` rows: the real
/// number `h / 4 * (1 + sqrt(1 + 2 / h))` rounded up, capped at 1000. That
/// number lies strictly between `h / 2` and `h / 2 + 1 / 4`. An empty trace
/// has no proximity parameter.
pub open spec fn upper_m(h: nat) -> nat {
    if h == 0 {
        0
    } else if h / 2 + 1 <= 1000 {
        h / 2 + 1
    } else {
        1000
    }
}

/// `n` is `(h + sqrt(h * h + 2 * h)) / 4` rounded up: four times `n` reaches
/// `h` plus the square root, and four times `n - 1` does not.
pub open spec fn is_rounded_up_limit(h: nat, n: nat) -> bool {
    &&& 4 * n >= h
    &&& (4 * n - h) * (4 * n - h) >= h * h + 2 * h
    &&& (4 * (n - 1) < h || (4 * (n - 1) - h) * (4 * (n - 1) - h) < h * h + 2 * h)
}

/// For a trace that is not empty, `upper_m` is the real-valued limit rounded
/// up, or 1000 where that is less; no other number is the limit rounded up.
pub proof fn lemma_upper_m_rounds_up(h: nat, n: nat)
    requires
        h > 0,
    ensures
        is_rounded_up_limit(h, n) <==> n == h / 2 + 1,
        upper_m(h) == if h / 2 + 1 <= 1000 {
            h / 2 + 1
        } else {
            1000
        },
{
    let k = h / 2 + 1;
    assert((4 * k - h) * (4 * k - h) >= h * h + 2 * h) by (nonlinear_arith)
        requires
            4 * k - h >= h + 2,
            h > 0,
    ;
    assert(4 * (k - 1) < h || (4 * (k - 1) - h) * (4 * (k - 1) - h) < h * h + 2 * h)
        by (nonlinear_arith)
        requires
            4 * (k - 1) - h <= h,
            h > 0,
    ;
    if is_rounded_up_limit(h, n) {
        if n < k {
            assert((4 * n - h) * (4 * n - h) < h * h + 2 * h) by (nonlinear_arith)
                requires
                    0 <= 4 * n - h <= h,
                    h > 0,
            ;
        }
        if n > k {
            assert((4 * (n - 1) - h) * (4 * (n - 1) - h) >= h * h + 2 * h) by (nonlinear_arith)
                requires
                    4 * (n - 1) - h >= h + 2,
                    h > 0,
            ;
        }
    }
}

/// Computes the limit that the proximity parameters for a trace of `h` rows
/// stay below.
pub fn compute_upper_m(h: usize) -> (m_max: u64)
    ensures
        m_max == upper_m(h as nat),
        m_max <= MAX_PROXIMITY_PARAMETER,
{
    if h == 0 {
        0
    } else {
        let m: u64 = (h / 2) as u64 + 1;
        if m <= MAX_PROXIMITY_PARAMETER {
            m
        } else {
            MAX_PROXIMITY_PARAMETER
        }
    }
}

/// The security that one proximity parameter gives: FRI is as sound as the
/// weaker of its two phases; the protocol is as sound as the weakest of FRI,
/// algebraic linking and out-of-domain sampling. Each of the two steps gives
/// up one bit as margin, and a step left with less than one bit gives none.
pub open spec fn protocol_bits(terms: ErrorBits) -> nat {
    let fri = if terms.fri_commit <= terms.fri_queries {
        terms.fri_commit
    } else {
        terms.fri_queries
    };
    if fri < 1 {
        0
    } else {
        let fri = fri - 1;
        let least = if fri <= terms.ali {
            fri
        } else {
            terms.ali as int
        };
        let least = if least <= terms.deep {
            least
        } else {
            terms.deep as int
        };
        if least < 1 {
            0
        } else {
            (least - 1) as nat
        }
    }
}

/// Computes the proven security level, in bits, for one proximity parameter
/// from the soundness error terms that belong to it.
pub fn proven_security_protocol_for_m(terms: &ErrorBits) -> (bits: u64)
    ensures
        bits == protocol_bits(*terms),
{
    let fri_err_bits = if terms.fri_commit <= terms.fri_queries {
        terms.fri_commit
    } else {
        terms.fri_queries
    };
    if fri_err_bits < 1 {
        return 0;
    }
    let fri_err_bits = fri_err_bits - 1;
    let least = if fri_err_bits <= terms.ali {
        fri_err_bits
    } else {
        terms.ali
    };
    let least = if least <= terms.deep {
        least
    } else {
        terms.deep
    };
    if least < 1 {
        return 0;
    }
    least - 1
}

/// The most that any of the candidates gives; zero where there is none.
pub open spec fn best_bits(candidates: Seq<ErrorBits>) -> nat
    decreases candidates.len(),
{
    if candidates.len() == 0 {
        0
    } else {
        let before = best_bits(candidates.drop_last());
        let here = protocol_bits(candidates.last());
        if before >= here {
            before
        } else {
            here
        }
    }
}

/// The proven security level: the best that a proximity parameter gives,
/// never above the collision resistance of the hash function.
pub open spec fn proven_security(candidates: Seq<ErrorBits>, collision_resistance: nat) -> nat {
    if best_bits(candidates) <= collision_resistance {
        best_bits(candidates)
    } else {
        collision_resistance
    }
}

/// What the search for the proven security level comes to: an error where
/// the trace leaves no proximity parameter to try or where the candidates
/// are not one per proximity parameter, else the proven security level.
pub open spec fn proven_security_outcome(
    trace_domain_size: nat,
    candidates: Seq<ErrorBits>,
    collision_resistance: nat,
) -> Result<nat, SecurityError> {
    if upper_m(trace_domain_size) <= 3 {
        Err(SecurityError::EmptySearchSpace)
    } else if candidates.len() != upper_m(trace_domain_size) - 3 {
        Err(SecurityError::CandidateCount)
    } else {
        Ok(proven_security(candidates, collision_resistance))
    }
}

/// Estimates the proven security level, in bits, of proofs for a trace of
/// `trace_domain_size` rows. `candidates` holds the soundness error terms of
/// the proximity parameters from 3 up to, and without, the limit for that
/// trace, in this order.
pub fn get_proven_security(
    trace_domain_size: usize,
    candidates: &[ErrorBits],
    collision_resistance: u32,
) -> (result: Result<u32, SecurityError>)
    ensures
        match proven_security_outcome(
            trace_domain_size as nat,
            candidates@,
            collision_resistance as nat,
        ) {
            Ok(bits) => result == Ok::<u32, SecurityError>(bits as u32) && bits
                <= collision_resistance,
            Err(e) => result == Err::<u32, SecurityError>(e),
        },
{
    let m_max = compute_upper_m(trace_domain_size);
    if m_max <= MIN_PROXIMITY_PARAMETER {
        return Err(SecurityError::EmptySearchSpace);
    }
    if candidates.len() as u64 != m_max - MIN_PROXIMITY_PARAMETER {
        return Err(SecurityError::CandidateCount);
    }
    let mut best: u64 = 0;
    let mut i: usize = 0;
    while i < candidates.len()
        invariant
            i <= candidates.len(),
            best == best_bits(candidates@.take(i as int)),
        decreases candidates.len() - i,
    {
        let bits = proven_security_protocol_for_m(&candidates[i]);
        proof {
            let upto = candidates@.take(i + 1);
            assert(upto.drop_last() =~= candidates@.take(i as int));
            assert(upto.last() == candidates@[i as int]);
        }
        if bits > best {
            best = bits;
        }
        i = i + 1;
    }
    assert(candidates@.take(i as int) =~= candidates@);
    if best <= collision_resistance as u64 {
        Ok(best as u32)
    } else {
        Ok(collision_resistance)
    }
}

// LAWS
// ================================================================================================

/// Neither bound exceeds the collision resistance of the hash function.
pub proof fn lemma_security_is_capped(
    options: ProofOptionsView,
    base_field_bits: nat,
    trace_domain_size: nat,
    candidates: Seq<ErrorBits>,
    collision_resistance: nat,
)
    ensures
        conjectured_security(options, base_field_bits, trace_domain_size, collision_resistance)
            <= collision_resistance,
        proven_security(candidates, collision_resistance) <= collision_resistance,
{
}

/// No candidate gives more than the best, and where there is a candidate the
/// best is what one of them gives.
pub proof fn lemma_best_bits_is_maximum(candidates: Seq<ErrorBits>)
    ensures
        forall|i: int|
            0 <= i < candidates.len() ==> protocol_bits(#[trigger] candidates[i]) <= best_bits(
                candidates,
            ),
        candidates.len() > 0 ==> exists|i: int|
            0 <= i < candidates.len() && best_bits(candidates) == protocol_bits(
                #[trigger] candidates[i],
            ),
    decreases candidates.len(),
{
    if candidates.len() > 0 {
        let front = candidates.drop_last();
        lemma_best_bits_is_maximum(front);
        assert forall|i: int| 0 <= i < candidates.len() implies protocol_bits(
            #[trigger] candidates[i],
        ) <= best_bits(candidates) by {
            if i < front.len() {
                assert(front[i] == candidates[i]);
            }
        }
        if front.len() > 0 && best_bits(front) >= protocol_bits(candidates.last()) {
            let j = choose|j: int|
                0 <= j < front.len() && best_bits(front) == protocol_bits(#[trigger] front[j]);
            assert(front[j] == candidates[j]);
        } else {
            assert(best_bits(candidates) == protocol_bits(candidates[candidates.len() - 1]));
        }
    }
}

/// Error terms that are no smaller give no less security.
pub proof fn lemma_protocol_bits_monotone(lower: ErrorBits, upper: ErrorBits)
    requires
        lower.fri_commit <= upper.fri_commit,
        lower.fri_queries <= upper.fri_queries,
        lower.ali <= upper.ali,
        lower.deep <= upper.deep,
    ensures
        protocol_bits(lower) <= protocol_bits(upper),
{
}

/// Where no error term of any proximity parameter is smaller than before,
/// the proven security level is no lower.
pub proof fn lemma_proven_security_monotone_in_terms(
    lower: Seq<ErrorBits>,
    upper: Seq<ErrorBits>,
    collision_resistance: nat,
)
    requires
        lower.len() == upper.len(),
        forall|i: int|
            0 <= i < lower.len() ==> {
                &&& (#[trigger] lower[i]).fri_commit <= upper[i].fri_commit
                &&& lower[i].fri_queries <= upper[i].fri_queries
                &&& lower[i].ali <= upper[i].ali
                &&& lower[i].deep <= upper[i].deep
            },
    ensures
        proven_security(lower, collision_resistance) <= proven_security(
            upper,
            collision_resistance,
        ),
{
    assert forall|i: int| 0 <= i < lower.len() implies protocol_bits(#[trigger] lower[i])
        <= protocol_bits(upper[i]) by {
        lemma_protocol_bits_monotone(lower[i], upper[i]);
    }
    lemma_proven_security_monotone(lower, upper, collision_resistance, collision_resistance);
}

/// For one trace length and one cap, two searches whose error terms differ
/// only in that none of the second is smaller end alike: both with the same
/// error, or both with a level, and then the second level is no lower.
pub proof fn lemma_proven_outcome_monotone_in_terms(
    trace_domain_size: nat,
    lower: Seq<ErrorBits>,
    upper: Seq<ErrorBits>,
    collision_resistance: nat,
)
    requires
        lower.len() == upper.len(),
        forall|i: int|
            0 <= i < lower.len() ==> {
                &&& (#[trigger] lower[i]).fri_commit <= upper[i].fri_commit
                &&& lower[i].fri_queries <= upper[i].fri_queries
                &&& lower[i].ali <= upper[i].ali
                &&& lower[i].deep <= upper[i].deep
            },
    ensures
        match proven_security_outcome(trace_domain_size, lower, collision_resistance) {
            Ok(bits) => proven_security_outcome(trace_domain_size, upper, collision_resistance)
                matches Ok(more) && bits <= more,
            Err(e) => proven_security_outcome(trace_domain_size, upper, collision_resistance)
                == Err::<nat, SecurityError>(e),
        },
{
    lemma_proven_security_monotone_in_terms(lower, upper, collision_resistance);
}

/// Where every proximity parameter gives no less than before, and the cap is
/// no lower, the proven security level is no lower.
pub proof fn lemma_proven_security_monotone(
    lower: Seq<ErrorBits>,
    upper: Seq<ErrorBits>,
    lower_cap: nat,
    upper_cap: nat,
)
    requires
        lower.len() == upper.len(),
        forall|i: int|
            0 <= i < lower.len() ==> protocol_bits(#[trigger] lower[i]) <= protocol_bits(upper[i]),
        lower_cap <= upper_cap,
    ensures
        best_bits(lower) <= best_bits(upper),
        proven_security(lower, lower_cap) <= proven_security(upper, upper_cap),
    decreases lower.len(),
{
    if lower.len() > 0 {
        assert(protocol_bits(lower[lower.len() - 1]) <= protocol_bits(upper[lower.len() - 1]));
        assert forall|i: int| 0 <= i < lower.drop_last().len() implies protocol_bits(
            #[trigger] lower.drop_last()[i],
        ) <= protocol_bits(upper.drop_last()[i]) by {
            assert(lower.drop_last()[i] == lower[i]);
            assert(upper.drop_last()[i] == upper[i]);
        }
        lemma_proven_security_monotone(lower.drop_last(), upper.drop_last(), lower_cap, upper_cap);
    }
}

} // verus!
