//! Saturating fixed-point score arithmetic.
//!
//! All path, Viterbi and rank scores are `i128` values clamped to the
//! symmetric range `[-SCORE_MAX, SCORE_MAX]`, so sums and products never
//! overflow and every operation is a total, deterministic function.

use vstd::prelude::*;

verus! {

/// Largest magnitude a score may take; symmetric so negation stays in range.
pub const SCORE_MAX: i128 = 0x7fff_ffff_ffff_ffff_ffff_ffff_ffff_ffff;

/// Clamp a mathematical integer into the score range.
pub open spec fn clamp(s: int) -> int {
    if s > SCORE_MAX as int {
        SCORE_MAX as int
    } else if s < -(SCORE_MAX as int) {
        -(SCORE_MAX as int)
    } else {
        s
    }
}

/// Saturating addition on scores.
pub open spec fn sadd(a: int, b: int) -> int {
    clamp(a + b)
}

/// Saturating multiplication on non-negative scores.
pub open spec fn smul(a: int, b: int) -> int {
    clamp(a * b)
}

/// Saturating addition; exact while the sum stays in range.
pub fn sadd_exec(a: i128, b: i128) -> (r: i128)
    requires
        a >= -SCORE_MAX,
        b >= -SCORE_MAX,
    ensures
        r == sadd(a as int, b as int),
        -SCORE_MAX <= r <= SCORE_MAX,
{
    match a.checked_add(b) {
        Some(s) => {
            if s < -SCORE_MAX {
                -SCORE_MAX
            } else {
                s
            }
        },
        None => {
            if b > 0 {
                SCORE_MAX
            } else {
                -SCORE_MAX
            }
        },
    }
}

/// Saturating multiplication of non-negative scores; exact while in range.
pub fn smul_exec(a: i128, b: i128) -> (r: i128)
    requires
        0 <= a,
        0 <= b,
    ensures
        r == smul(a as int, b as int),
        0 <= r <= SCORE_MAX,
{
    match a.checked_mul(b) {
        Some(p) => p,
        None => SCORE_MAX,
    }
}

/// Flooring division of a non-negative score by a positive score.
pub fn sdiv_exec(a: i128, b: i128) -> (r: i128)
    requires
        0 <= a,
        0 < b,
    ensures
        r == a as int / b as int,
        0 <= r <= a,
{
    let q = (a as u128) / (b as u128);
    q as i128
}

} // verus!
