//! Whole-number logarithms and powers of two.

use vstd::arithmetic::logarithm::{
    lemma_log0, lemma_log_nonnegative, lemma_log_pow, lemma_log_s, log,
};
use vstd::arithmetic::power2::{
    is_pow2, is_pow2_equiv, lemma2_to64, lemma_pow2, lemma_pow2_adds, lemma_pow2_strictly_increases,
    lemma_pow2_unfold, pow2,
};
use vstd::arithmetic::power::{lemma_pow_positive, pow};
use vstd::prelude::*;

verus! {

/// Base-2 logarithm of `x`, rounded down.
pub fn floor_log2(x: u128) -> (r: u32)
    requires
        x > 0,
    ensures
        r == log(2, x as int),
        r < 128,
        pow2(r as nat) <= x,
{
    let mut r: u32 = 0;
    let mut y: u128 = x;
    proof {
        lemma2_to64();
    }
    while y >= 2
        invariant
            y >= 1,
            r < 128,
            0 < x,
            log(2, x as int) == r + log(2, y as int),
            y * pow2(r as nat) <= x,
        decreases y,
    {
        proof {
            lemma_log_s(2, y as int);
            lemma_pow2_unfold((r + 1) as nat);
            assert((y / 2) * (2 * pow2(r as nat)) <= y * pow2(r as nat)) by (nonlinear_arith)
                requires
                    y >= 0,
                    pow2(r as nat) >= 0,
            ;
            assert(pow2((r + 1) as nat) <= x) by (nonlinear_arith)
                requires
                    (y / 2) * pow2((r + 1) as nat) <= x,
                    y / 2 >= 1,
                    pow2((r + 1) as nat) >= 0,
            ;
            if r + 1 >= 128 {
                lemma_pow2_128();
                if r + 1 > 128 {
                    lemma_pow2_strictly_increases(128, (r + 1) as nat);
                }
            }
        }
        y = y / 2;
        r = r + 1;
    }
    proof {
        lemma_log0(2, y as int);
        assert(pow2(r as nat) <= x) by (nonlinear_arith)
            requires
                y * pow2(r as nat) <= x,
                y == 1,
        ;
    }
    r
}

/// The value of two to the power 128, one more than `u128` holds.
proof fn lemma_pow2_128()
    ensures
        pow2(128) == 0x1_0000_0000_0000_0000_0000_0000_0000_0000,
{
    lemma2_to64();
    lemma_pow2_adds(64, 64);
}

/// The power of two with exponent `k`, unless `usize` cannot hold it.
pub fn checked_pow2(k: u8) -> (power: Option<usize>)
    ensures
        match power {
            Some(p) => p == pow2(k as nat),
            None => pow2(k as nat) > usize::MAX,
        },
{
    let mut power: usize = 1;
    let mut i: u8 = 0;
    proof {
        lemma2_to64();
    }
    while i < k
        invariant
            i <= k,
            power == pow2(i as nat),
        decreases k - i,
    {
        proof {
            lemma_pow2_unfold((i + 1) as nat);
        }
        if power > usize::MAX / 2 {
            proof {
                if i + 1 < k {
                    lemma_pow2_strictly_increases((i + 1) as nat, k as nat);
                }
            }
            return None;
        }
        power = power * 2;
        i = i + 1;
    }
    Some(power)
}

/// The powers of two are the positive numbers that two to the power of
/// their logarithm gives back.
pub proof fn lemma_power_of_two_log(n: nat)
    ensures
        is_pow2(n as int) <==> n > 0 && pow2(log(2, n as int) as nat) == n,
{
    is_pow2_equiv(n as int);
    if is_pow2(n as int) {
        let i = choose|i: nat| pow(2, i) == n as int;
        lemma_log_pow(2, i);
        lemma_pow2(i);
        lemma_pow_positive(2, i);
    }
    if n > 0 && pow2(log(2, n as int) as nat) == n {
        lemma_pow2(log(2, n as int) as nat);
        assert(pow(2, log(2, n as int) as nat) == n as int);
    }
}

/// A positive number lies between the power of two of its logarithm and the next one.
pub proof fn lemma_log2_bounds(x: nat)
    requires
        x > 0,
    ensures
        pow2(log(2, x as int) as nat) <= x < pow2((log(2, x as int) + 1) as nat),
    decreases x,
{
    lemma2_to64();
    lemma_log_nonnegative(2, x as int);
    if x < 2 {
        lemma_log0(2, x as int);
    } else {
        lemma_log_s(2, x as int);
        lemma_log_nonnegative(2, (x / 2) as int);
        lemma_log2_bounds(x / 2);
        let k = log(2, (x / 2) as int) as nat;
        assert(log(2, x as int) == k + 1);
        lemma_pow2_unfold(k + 1);
        lemma_pow2_unfold(k + 2);
    }
}

} // verus!
