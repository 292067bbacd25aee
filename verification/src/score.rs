//! Similarity scores, held as the bit patterns of single-precision numbers.
//!
//! Scores are computed in floating point elsewhere; what happens to them afterwards is
//! comparing, so a score is carried here as its 32-bit pattern: one sign bit on top of a
//! magnitude whose integer order is the numeric order.
use vstd::prelude::*;

verus! {

/// The sign bit.
pub const SIGN: u32 = 0x8000_0000;

/// The magnitude of infinity; a larger magnitude is not a number.
pub const INFINITE: u32 = 0x7f80_0000;

/// The pattern without its sign bit.
pub open spec fn magnitude(bits: u32) -> int {
    if bits < SIGN {
        bits as int
    } else {
        bits - SIGN
    }
}

/// Whether the pattern is not a number.
pub open spec fn not_a_number(bits: u32) -> bool {
    magnitude(bits) > INFINITE
}

/// An integer that orders numbers as their values do; both zeros are 0.
pub open spec fn value(bits: u32) -> int {
    if bits < SIGN {
        magnitude(bits)
    } else {
        -magnitude(bits)
    }
}

/// An integer that orders all patterns totally: negative zero just below positive zero, and
/// what is not a number beyond the infinity of its sign.
pub open spec fn total_key(bits: u32) -> int {
    if bits < SIGN {
        magnitude(bits)
    } else {
        -magnitude(bits) - 1
    }
}

/// The numeric comparison `a > b`, false wherever an operand is not a number.
pub open spec fn exceeds(a: u32, b: u32) -> bool {
    &&& !not_a_number(a)
    &&& !not_a_number(b)
    &&& value(a) > value(b)
}

/// A score as it comes out of a finite computation: a number, and not negative zero.
pub open spec fn ordinary(bits: u32) -> bool {
    &&& !not_a_number(bits)
    &&& bits != SIGN
}

/// Computes `total_key`.
pub fn total_order_key(bits: u32) -> (r: i64)
    ensures
        r == total_key(bits),
{
    if bits < SIGN {
        bits as i64
    } else {
        -((bits - SIGN) as i64) - 1
    }
}

/// The numeric comparison `a > b`.
pub fn is_greater(a: u32, b: u32) -> (r: bool)
    ensures
        r == exceeds(a, b),
{
    let ma: u32 = if a < SIGN { a } else { a - SIGN };
    let mb: u32 = if b < SIGN { b } else { b - SIGN };
    if ma > INFINITE || mb > INFINITE {
        return false;
    }
    let va: i64 = if a < SIGN { ma as i64 } else { -(ma as i64) };
    let vb: i64 = if b < SIGN { mb as i64 } else { -(mb as i64) };
    va > vb
}

/// The numeric comparison `a >= b`, false wherever an operand is not a number.
pub open spec fn at_least(a: u32, b: u32) -> bool {
    &&& !not_a_number(a)
    &&& !not_a_number(b)
    &&& value(a) >= value(b)
}

/// The numeric comparison `a >= b`.
pub fn is_at_least(a: u32, b: u32) -> (r: bool)
    ensures
        r == at_least(a, b),
{
    let ma: u32 = if a < SIGN { a } else { a - SIGN };
    let mb: u32 = if b < SIGN { b } else { b - SIGN };
    if ma > INFINITE || mb > INFINITE {
        return false;
    }
    !is_greater(b, a)
}

/// Whether the pattern is a zero of either sign.
pub fn is_zero(bits: u32) -> (r: bool)
    ensures
        r == (value(bits) == 0),
{
    bits == 0 || bits == SIGN
}

/// The total order tells any two patterns apart.
pub proof fn total_key_is_injective(a: u32, b: u32)
    requires
        total_key(a) == total_key(b),
    ensures
        a == b,
{
}

/// On ordinary scores the numeric comparison and the total order agree.
pub proof fn ordinary_scores_compare_by_key(a: u32, b: u32)
    requires
        ordinary(a),
        ordinary(b),
    ensures
        exceeds(a, b) <==> total_key(a) > total_key(b),
{
}

/// Scores that are not negative compare as their patterns do, negative ones the other way round,
/// and a negative one never reaches one that is not, unless both are zeros.
pub proof fn scores_compare_as_numbers(a: u32, b: u32)
    requires
        !not_a_number(a),
        !not_a_number(b),
    ensures
        at_least(a, b) == !exceeds(b, a),
        a < 0x8000_0000 && b < 0x8000_0000 ==> (exceeds(a, b) <==> a > b),
        a >= 0x8000_0000 && b >= 0x8000_0000 ==> (exceeds(a, b) <==> a < b),
        a < 0x8000_0000 && b >= 0x8000_0000 ==> at_least(a, b) && (exceeds(a, b) <==> !(a == 0 && b
            == 0x8000_0000)),
{
}

/// What is not a number compares with nothing; it is what lies above infinity, of either sign.
pub proof fn what_is_no_number_compares_with_nothing(a: u32, b: u32)
    requires
        a > 0x7f80_0000 && a < 0x8000_0000 || a > 0xff80_0000,
    ensures
        !at_least(a, b),
        !at_least(b, a),
        !exceeds(a, b),
        !exceeds(b, a),
{
}

/// The total order puts every pattern with its sign below those without it, orders these as they
/// are, and those the other way round.
pub proof fn the_total_order_is_that_of_the_numbers(a: u32, b: u32)
    ensures
        a < 0x8000_0000 && b < 0x8000_0000 ==> (total_key(a) > total_key(b) <==> a > b),
        a >= 0x8000_0000 && b >= 0x8000_0000 ==> (total_key(a) > total_key(b) <==> a < b),
        a < 0x8000_0000 && b >= 0x8000_0000 ==> total_key(a) > total_key(b),
{
}

/// Only the two zeros have the value zero.
pub proof fn only_zeros_are_zero(a: u32)
    ensures
        value(a) == 0 <==> a == 0 || a == 0x8000_0000,
{
}

} // verus!
