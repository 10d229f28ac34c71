//! Ordering of the real numbers that records and scores carry.
//!
//! A real number is held as the 64-bit pattern of its binary64 encoding:
//! one sign bit, eleven exponent bits, fifty-two fraction bits. Patterns are
//! carried through unchanged; only ranking looks inside them, through
//! [`rank_key`].

use vstd::prelude::*;

verus! {

/// The sign bit of a pattern.
pub const SIGN_BIT: u64 = 0x8000_0000_0000_0000;

/// The pattern of positive infinity: every magnitude above it is not a number.
pub const INFINITY_BITS: u64 = 0x7ff0_0000_0000_0000;

/// The pattern with its sign bit cleared.
pub open spec fn magnitude(bits: u64) -> int {
    if bits >= SIGN_BIT {
        bits - SIGN_BIT
    } else {
        bits as int
    }
}

/// Whether the pattern encodes no number at all.
pub open spec fn is_nan(bits: u64) -> bool {
    magnitude(bits) > INFINITY_BITS
}

/// The integer by which a pattern is ranked.
///
/// Two patterns of numbers compare as their keys do: among values of one
/// sign the encoding grows with the magnitude, so the key is the magnitude,
/// negated below zero. Both zeros have key 0. A pattern that is not a number
/// ranks below every number.
pub open spec fn rank_key(bits: u64) -> int {
    if is_nan(bits) {
        i64::MIN as int
    } else if bits >= SIGN_BIT {
        -magnitude(bits)
    } else {
        magnitude(bits)
    }
}

/// Computes [`rank_key`].
pub fn rank_of(bits: u64) -> (key: i64)
    ensures
        key == rank_key(bits),
{
    let negative: bool = bits >= SIGN_BIT;
    let magnitude: u64 = if negative {
        bits - SIGN_BIT
    } else {
        bits
    };
    if magnitude > INFINITY_BITS {
        i64::MIN
    } else if negative {
        -(magnitude as i64)
    } else {
        magnitude as i64
    }
}

/// A pattern that is not a number ranks strictly below every number, and
/// every number's key lies strictly between the two ends of `i64`.
pub proof fn lemma_rank_key_bounds(bits: u64)
    ensures
        i64::MIN <= rank_key(bits) < i64::MAX,
        is_nan(bits) <==> rank_key(bits) == i64::MIN,
{
}

} // verus!
