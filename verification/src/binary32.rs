//! IEEE 754 single-precision numbers, seen as their 32-bit patterns.
//!
//! A pattern is a sign (the top bit) and a magnitude (the low 31 bits). All
//! classification and ordering here is integer work on those two parts.
use vstd::prelude::*;

verus! {

/// The pattern of `+0.0`.
pub const ZERO: u32 = 0;

/// The pattern of `1.0`.
pub const ONE: u32 = 0x3F80_0000;

/// The pattern of the smallest positive normal number.
pub const MIN_POSITIVE: u32 = 0x0080_0000;

/// The pattern of `+infinity`; magnitudes above it are NaNs.
pub const INFINITY: u32 = 0x7F80_0000;

/// The sign bit.
pub const SIGN_BIT: u32 = 0x8000_0000;

/// The low 31 bits of a pattern.
pub open spec fn magnitude(bits: u32) -> nat {
    (bits % SIGN_BIT) as nat
}

/// Whether the sign bit is set.
pub open spec fn negative(bits: u32) -> bool {
    bits >= SIGN_BIT
}

/// Whether the pattern is a NaN.
pub open spec fn nan(bits: u32) -> bool {
    magnitude(bits) > INFINITY
}

/// Whether the pattern is neither an infinity nor a NaN.
pub open spec fn finite(bits: u32) -> bool {
    magnitude(bits) < INFINITY
}

/// Whether the pattern is `+0.0` or `-0.0`.
pub open spec fn zero(bits: u32) -> bool {
    magnitude(bits) == 0
}

/// The position of a pattern in numeric order: both zeros share a place,
/// and a larger number has a larger key. Meaningful for non-NaN patterns.
pub open spec fn numeric_key(bits: u32) -> int {
    if negative(bits) {
        -(magnitude(bits) as int)
    } else {
        magnitude(bits) as int
    }
}

/// The position of a pattern in the IEEE 754 total order: negative NaNs,
/// negative numbers, `-0.0`, `+0.0`, positive numbers, positive NaNs.
pub open spec fn total_key(bits: u32) -> int {
    if negative(bits) {
        -(magnitude(bits) as int) - 1
    } else {
        magnitude(bits) as int
    }
}

/// Numeric `a < b`: false whenever either side is a NaN.
pub open spec fn below(a: u32, b: u32) -> bool {
    !nan(a) && !nan(b) && numeric_key(a) < numeric_key(b)
}

/// The larger of the pattern and [`MIN_POSITIVE`]; a NaN gives
/// [`MIN_POSITIVE`].
pub open spec fn raised_to_min_positive(bits: u32) -> u32 {
    if below(MIN_POSITIVE, bits) {
        bits
    } else {
        MIN_POSITIVE
    }
}

/// Order on optional scores: an absent score is below every present one,
/// and present scores compare numerically.
pub open spec fn score_below(a: Option<u32>, b: Option<u32>) -> bool {
    match (a, b) {
        (Some(x), Some(y)) => below(x, y),
        (None, Some(_)) => true,
        _ => false,
    }
}

/// Whether score `a` is no worse than score `b`.
pub open spec fn score_at_least(a: Option<u32>, b: Option<u32>) -> bool {
    !score_below(a, b)
}

/// The score with anything that is not finite taken out.
pub open spec fn finite_part(score: Option<u32>) -> Option<u32> {
    match score {
        Some(bits) if finite(bits) => score,
        _ => None,
    }
}

pub fn is_nan(bits: u32) -> (r: bool)
    ensures
        r == nan(bits),
{
    bits % SIGN_BIT > INFINITY
}

pub fn is_finite(bits: u32) -> (r: bool)
    ensures
        r == finite(bits),
{
    bits % SIGN_BIT < INFINITY
}

pub fn is_zero(bits: u32) -> (r: bool)
    ensures
        r == zero(bits),
{
    bits % SIGN_BIT == 0
}

pub fn is_below(a: u32, b: u32) -> (r: bool)
    ensures
        r == below(a, b),
{
    if is_nan(a) || is_nan(b) {
        return false;
    }
    let ma: u32 = a % SIGN_BIT;
    let mb: u32 = b % SIGN_BIT;
    if a >= SIGN_BIT {
        if b >= SIGN_BIT {
            mb < ma
        } else {
            ma > 0 || mb > 0
        }
    } else {
        if b >= SIGN_BIT {
            false
        } else {
            ma < mb
        }
    }
}

/// Whether `a` comes no later than `b` in the total order.
pub fn total_le(a: u32, b: u32) -> (r: bool)
    ensures
        r == (total_key(a) <= total_key(b)),
{
    let ma: u32 = a % SIGN_BIT;
    let mb: u32 = b % SIGN_BIT;
    if a >= SIGN_BIT {
        if b >= SIGN_BIT {
            mb <= ma
        } else {
            true
        }
    } else {
        if b >= SIGN_BIT {
            false
        } else {
            ma <= mb
        }
    }
}

pub fn raise_to_min_positive(bits: u32) -> (r: u32)
    ensures
        r == raised_to_min_positive(bits),
{
    if is_below(MIN_POSITIVE, bits) {
        bits
    } else {
        MIN_POSITIVE
    }
}

pub fn is_score_below(a: Option<u32>, b: Option<u32>) -> (r: bool)
    ensures
        r == score_below(a, b),
{
    match (a, b) {
        (Some(x), Some(y)) => is_below(x, y),
        (None, Some(_)) => true,
        _ => false,
    }
}

pub fn keep_finite(score: Option<u32>) -> (r: Option<u32>)
    ensures
        r == finite_part(score),
{
    match score {
        Some(bits) => if is_finite(bits) {
            score
        } else {
            None
        },
        None => None,
    }
}

/// Among scores that are finite or absent, "not below" is transitive: a
/// score that never drops from one step to the next never drops at all.
pub proof fn lemma_not_below_transitive(a: Option<u32>, b: Option<u32>, c: Option<u32>)
    requires
        finite_part(a) == a,
        finite_part(b) == b,
        finite_part(c) == c,
        !score_below(b, a),
        !score_below(c, b),
    ensures
        !score_below(c, a),
{
}

} // verus!
