//! Fixed-point rank arithmetic.
//!
//! A rank, a contribution and a rank difference are counts of billionths,
//! held in a `u64`. Division and damping round down; a sum that no longer
//! fits is held at the largest value.

use vstd::arithmetic::div_mod::{lemma_fundamental_div_mod, lemma_fundamental_div_mod_converse};
use vstd::prelude::*;

verus! {

/// The rank 1.0, which a vertex has when it is first seen.
pub const ONE: u64 = 1_000_000_000;

/// The rank 0.15 that every vertex receives in every round.
pub const BASE: u64 = 150_000_000;

/// The part of the inbound contributions that is kept, in hundredths.
pub const DAMPING: u64 = 85;

/// A sum of contributions as a rank: itself, or the largest rank where it
/// is beyond that.
pub open spec fn capped(total: int) -> int {
    if total > u64::MAX as int {
        u64::MAX as int
    } else {
        total
    }
}

/// The rank that follows from the inbound contributions of a vertex:
/// 0.15 + 0.85 * inbound, rounded down.
pub open spec fn damped(inbound: int) -> int {
    BASE as int + inbound * (DAMPING as int) / 100
}

/// The contribution that a vertex of the given rank sends along each of its
/// `degree` out-edges, rounded down.
pub open spec fn share(rank: int, degree: int) -> int {
    rank / degree
}

/// The distance between two ranks.
pub open spec fn gap(a: int, b: int) -> int {
    if a >= b {
        a - b
    } else {
        b - a
    }
}

pub fn cap(total: u128) -> (r: u64)
    ensures
        r == capped(total as int),
{
    if total > u64::MAX as u128 {
        u64::MAX
    } else {
        total as u64
    }
}

pub fn damp(inbound: u64) -> (r: u64)
    ensures
        r == damped(inbound as int),
{
    let kept: u128 = (inbound as u128) * (DAMPING as u128) / 100;
    (kept + BASE as u128) as u64
}

pub fn split(rank: u64, degree: usize) -> (r: u64)
    requires
        degree > 0,
    ensures
        r == share(rank as int, degree as int),
{
    (rank as u128 / degree as u128) as u64
}

pub fn distance(a: u64, b: u64) -> (r: u64)
    ensures
        r == gap(a as int, b as int),
{
    if a >= b {
        a - b
    } else {
        b - a
    }
}

/// The quotient and the remainder of `part * factor` by `whole`, where the
/// product may be too large to compute.
fn scale_below(part: u128, factor: u64, whole: u128) -> (r: (u128, u128))
    requires
        part < whole,
    ensures
        r.0 * whole + r.1 == part * factor,
        r.1 < whole,
        r.0 <= factor,
    decreases factor,
{
    if factor == 0 {
        return (0, 0);
    }
    let half = factor / 2;
    let (q, x) = scale_below(part, half, whole);
    let ghost w = whole as int;
    let ghost p = part as int;
    let (q2, x2) = if x >= whole - x {
        (2 * q + 1, x - (whole - x))
    } else {
        (2 * q, x + x)
    };
    assert(q2 * w + x2 == p * (2 * half)) by (nonlinear_arith)
        requires
            q * w + x == p * half,
            (q2 == 2 * q + 1 && x2 == x + x - w) || (q2 == 2 * q && x2 == x + x),
    ;
    let (q3, x3) = if factor % 2 == 1 {
        if x2 >= whole - part {
            (q2 + 1, x2 - (whole - part))
        } else {
            (q2, x2 + part)
        }
    } else {
        (q2, x2)
    };
    assert(q3 * w + x3 == p * factor) by (nonlinear_arith)
        requires
            q2 * w + x2 == p * (2 * half),
            (factor == 2 * half + 1 && ((q3 == q2 + 1 && x3 == x2 + p - w) || (q3 == q2 && x3 == x2
                + p))) || (factor == 2 * half && q3 == q2 && x3 == x2),
    ;
    assert(q3 <= factor) by (nonlinear_arith)
        requires
            q3 * w + x3 == p * factor,
            0 <= x3,
            0 <= p < w,
            0 <= q3,
            0 <= factor,
    ;
    (q3, x3)
}

/// `amount * factor / whole`, rounded down, where the product may be too
/// large to compute.
pub fn mul_div(amount: u128, factor: u64, whole: u128) -> (r: u128)
    requires
        whole > 0,
        amount * factor / (whole as int) <= u128::MAX,
    ensures
        r == amount * factor / (whole as int),
{
    let times = amount / whole;
    let part = amount % whole;
    let (q, x) = scale_below(part, factor, whole);
    let ghost w = whole as int;
    let ghost f = factor as int;
    proof {
        lemma_fundamental_div_mod(amount as int, w);
        assert(amount == times * w + part) by (nonlinear_arith)
            requires
                amount == w * times + part,
        ;
        assert((times * f + q) * w + x == amount * f) by (nonlinear_arith)
            requires
                q * w + x == part * f,
                amount == times * w + part,
        ;
        lemma_fundamental_div_mod_converse(amount * f, w, times * f + q, x as int);
    }
    times * (factor as u128) + q
}

} // verus!
