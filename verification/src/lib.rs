//! An autopilot engine for a peer-to-peer payment-channel network.
//!
//! The library owns the decision logic: the per-cycle topology graph, the
//! betweenness-centrality computation and the other scoring heuristics, the
//! weighted sampler, and the controller that turns scores into funded
//! channel-opening commands while tracking pending peers and a budget.
//! Network identities, scripts and addresses appear here as opaque `u64`
//! handles chosen by the caller; all scores are fixed-point fractions with
//! denominator [`SCALE`].

use vstd::prelude::*;

pub mod agent;
pub mod centrality;
pub mod config;
pub mod graph;
pub mod heuristics;
pub mod utils;

verus! {

/// Scores and heuristic weights are fixed-point fractions with this
/// denominator: a value of `SCALE` stands for 1.0.
pub const SCALE: u64 = 1_000_000;

/// Upper cap on centrality accumulators, chosen so that a capped value
/// multiplied by `SCALE` still fits in a `u128`.
pub const CENT_CAP: u128 = u128::MAX / 1_000_000;

/// The smaller of two budget amounts.
pub open spec fn spec_min128(a: u128, b: u128) -> u128 {
    if a <= b {
        a
    } else {
        b
    }
}

/// The smaller of two counts.
pub open spec fn spec_min_usize(a: usize, b: usize) -> usize {
    if a <= b {
        a
    } else {
        b
    }
}

pub fn min_u128(a: u128, b: u128) -> (r: u128)
    ensures
        r == spec_min128(a, b),
{
    if a <= b {
        a
    } else {
        b
    }
}

pub fn min_usize(a: usize, b: usize) -> (r: usize)
    ensures
        r == spec_min_usize(a, b),
{
    if a <= b {
        a
    } else {
        b
    }
}

/// Saturating addition of path counts.
pub open spec fn spec_sat_add_u64(a: u64, b: u64) -> u64 {
    if a + b <= u64::MAX {
        (a + b) as u64
    } else {
        u64::MAX
    }
}

pub fn sat_add_u64(a: u64, b: u64) -> (r: u64)
    ensures
        r == spec_sat_add_u64(a, b),
{
    if a > u64::MAX - b {
        u64::MAX
    } else {
        a + b
    }
}

/// Addition capped at [`CENT_CAP`].
pub open spec fn spec_cap_add(a: u128, b: u128) -> u128 {
    if a + b > CENT_CAP {
        CENT_CAP
    } else {
        (a + b) as u128
    }
}

/// Multiplication capped at [`CENT_CAP`].
pub open spec fn spec_cap_mul(a: u128, b: u128) -> u128 {
    if a * b > CENT_CAP {
        CENT_CAP
    } else {
        (a * b) as u128
    }
}

pub fn cap_add(a: u128, b: u128) -> (r: u128)
    ensures
        r == spec_cap_add(a, b),
{
    if b > CENT_CAP {
        CENT_CAP
    } else if a > CENT_CAP - b {
        CENT_CAP
    } else {
        a + b
    }
}

pub fn cap_mul(a: u128, b: u128) -> (r: u128)
    ensures
        r == spec_cap_mul(a, b),
{
    if a == 0 {
        proof {
            vstd::arithmetic::mul::lemma_mul_by_zero_is_zero(b as int);
        }
        0
    } else if b > CENT_CAP / a {
        proof {
            lemma_mul_exceeds_cap(a as int, b as int);
        }
        CENT_CAP
    } else {
        proof {
            lemma_mul_within_cap(a as int, b as int);
        }
        a * b
    }
}

proof fn lemma_mul_within_cap(a: int, b: int)
    requires
        a > 0,
        b >= 0,
        b <= CENT_CAP as int / a,
    ensures
        a * b <= CENT_CAP as int,
{
    let cap = CENT_CAP as int;
    vstd::arithmetic::div_mod::lemma_fundamental_div_mod(cap, a);
    vstd::arithmetic::mul::lemma_mul_inequality(b, cap / a, a);
    vstd::arithmetic::div_mod::lemma_remainder_lower(cap, a);
    assert(a * b == b * a) by {
        vstd::arithmetic::mul::lemma_mul_is_commutative(a, b);
    }
    assert((cap / a) * a <= cap) by {
        vstd::arithmetic::mul::lemma_mul_is_commutative(cap / a, a);
    }
}

proof fn lemma_mul_exceeds_cap(a: int, b: int)
    requires
        a > 0,
        b > CENT_CAP as int / a,
    ensures
        a * b > CENT_CAP as int,
{
    let cap = CENT_CAP as int;
    vstd::arithmetic::div_mod::lemma_fundamental_div_mod(cap, a);
    vstd::arithmetic::div_mod::lemma_remainder_upper(cap, a);
    assert(b >= cap / a + 1);
    vstd::arithmetic::mul::lemma_mul_inequality(cap / a + 1, b, a);
    assert((cap / a + 1) * a == (cap / a) * a + a) by {
        vstd::arithmetic::mul::lemma_mul_is_distributive_add_other_way(a, cap / a, 1);
    }
    assert(a * b == b * a) by {
        vstd::arithmetic::mul::lemma_mul_is_commutative(a, b);
    }
}

/// For a positive denominator, a numerator no larger than the denominator
/// scales to at most `SCALE`, and the denominator itself scales to exactly
/// `SCALE`.
pub proof fn lemma_scaled_ratio_bounds(num: int, den: int)
    requires
        0 < den,
        0 <= num <= den,
    ensures
        0 <= num * SCALE as int / den <= SCALE as int,
        num == den ==> num * SCALE as int / den == SCALE as int,
{
    let s = SCALE as int;
    vstd::arithmetic::mul::lemma_mul_inequality(num, den, s);
    vstd::arithmetic::div_mod::lemma_div_is_ordered(num * s, den * s, den);
    assert(den * s / den == s) by {
        vstd::arithmetic::div_mod::lemma_div_by_multiple(s, den);
        vstd::arithmetic::mul::lemma_mul_is_commutative(den, s);
    }
    vstd::arithmetic::div_mod::lemma_div_pos_is_pos(num * s, den);
    vstd::arithmetic::mul::lemma_mul_nonnegative(num, s);
}

} // verus!
