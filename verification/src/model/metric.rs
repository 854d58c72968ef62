//! Costs and metrics as bit patterns.
//!
//! A cost is a double-precision number. The library never computes with it:
//! it carries the 64-bit pattern of the number, orders patterns by the total
//! order of IEEE 754 and compares them as the numbers they stand for. Both
//! are plain integer functions of the two patterns.

use vstd::prelude::*;

verus! {

/// The pattern with only the sign bit set.
pub const SIGN_BIT: u64 = 0x8000_0000_0000_0000;

/// The pattern of positive infinity: all exponent bits set, no fraction bit.
pub const INFINITY_BITS: u64 = 0x7ff0_0000_0000_0000;

/// The pattern without its sign bit.
pub open spec fn magnitude(bits: u64) -> int {
    if bits >= SIGN_BIT {
        bits - SIGN_BIT
    } else {
        bits as int
    }
}

/// Whether the sign bit of the pattern is set.
pub open spec fn is_sign_negative(bits: u64) -> bool {
    bits >= SIGN_BIT
}

/// Whether the pattern stands for no number (NaN): the exponent bits are all
/// set and some fraction bit is.
pub open spec fn is_nan(bits: u64) -> bool {
    magnitude(bits) > INFINITY_BITS
}

/// Whether the pattern stands for a finite number.
pub open spec fn is_finite(bits: u64) -> bool {
    magnitude(bits) < INFINITY_BITS
}

/// The place of the pattern in the total order of IEEE 754: negative
/// patterns descend from -0 down to the negative NaNs, the others ascend
/// from +0 up to the positive NaNs.
pub open spec fn total_key(bits: u64) -> int {
    if bits >= SIGN_BIT {
        -1 - magnitude(bits)
    } else {
        bits as int
    }
}

/// The place of a pattern that is no NaN among the numbers: like the total
/// order, but with -0 and +0 in one place.
pub open spec fn value_key(bits: u64) -> int {
    if bits >= SIGN_BIT {
        -magnitude(bits)
    } else {
        bits as int
    }
}

/// The number `a` is less than the number `b`; false where either is NaN.
pub open spec fn num_lt(a: u64, b: u64) -> bool {
    !is_nan(a) && !is_nan(b) && value_key(a) < value_key(b)
}

/// The number `a` is at most the number `b`; false where either is NaN.
pub open spec fn num_le(a: u64, b: u64) -> bool {
    !is_nan(a) && !is_nan(b) && value_key(a) <= value_key(b)
}

/// The numbers `a` and `b` are equal; false where either is NaN, true for
/// the two zeros.
pub open spec fn num_eq(a: u64, b: u64) -> bool {
    !is_nan(a) && !is_nan(b) && value_key(a) == value_key(b)
}

/// Whether the pattern stands for a usable cost: finite and not below zero.
pub open spec fn is_usable_cost(bits: u64) -> bool {
    is_finite(bits) && value_key(bits) >= 0
}

/// Different patterns have different places in the total order.
pub proof fn lemma_total_key_injective(a: u64, b: u64)
    ensures
        total_key(a) == total_key(b) <==> a == b,
{
}

/// On numbers the total order refines the order of the values: a smaller
/// number comes first, and only the two zeros share a value.
pub proof fn lemma_total_refines_value(a: u64, b: u64)
    requires
        !is_nan(a),
        !is_nan(b),
    ensures
        num_lt(a, b) ==> total_key(a) < total_key(b),
        total_key(a) <= total_key(b) ==> num_le(a, b),
{
}

/// The pattern without its sign bit.
pub fn magnitude_of(bits: u64) -> (m: u64)
    ensures
        m == magnitude(bits),
{
    if bits >= SIGN_BIT {
        bits - SIGN_BIT
    } else {
        bits
    }
}

/// Whether the pattern stands for no number.
pub fn bits_is_nan(bits: u64) -> (r: bool)
    ensures
        r == is_nan(bits),
{
    magnitude_of(bits) > INFINITY_BITS
}

/// Whether the pattern stands for a finite number.
pub fn bits_is_finite(bits: u64) -> (r: bool)
    ensures
        r == is_finite(bits),
{
    magnitude_of(bits) < INFINITY_BITS
}

/// Whether the pattern stands for a usable cost.
pub fn bits_is_usable_cost(bits: u64) -> (r: bool)
    ensures
        r == is_usable_cost(bits),
{
    bits_is_finite(bits) && (bits < SIGN_BIT || bits == SIGN_BIT)
}

/// Three-way comparison in the total order: -1 when `a` comes first, 0 when
/// the patterns are the same, 1 when `b` comes first.
pub fn total_order(a: u64, b: u64) -> (r: i8)
    ensures
        r == -1 || r == 0 || r == 1,
        (r == -1) == (total_key(a) < total_key(b)),
        (r == 0) == (a == b),
        (r == 1) == (total_key(a) > total_key(b)),
{
    let a_neg = a >= SIGN_BIT;
    let b_neg = b >= SIGN_BIT;
    if a == b {
        0
    } else if a_neg && !b_neg {
        -1
    } else if !a_neg && b_neg {
        1
    } else if a_neg {
        // Both negative: the larger magnitude comes first.
        if a > b {
            -1
        } else {
            1
        }
    } else if a < b {
        -1
    } else {
        1
    }
}

/// Whether the number `a` is less than the number `b`.
pub fn bits_lt(a: u64, b: u64) -> (r: bool)
    ensures
        r == num_lt(a, b),
{
    if bits_is_nan(a) || bits_is_nan(b) {
        return false;
    }
    let ma = magnitude_of(a);
    let mb = magnitude_of(b);
    let a_neg = a >= SIGN_BIT;
    let b_neg = b >= SIGN_BIT;
    if a_neg && b_neg {
        ma > mb
    } else if a_neg {
        ma > 0 || mb > 0
    } else if b_neg {
        false
    } else {
        ma < mb
    }
}

/// Whether the numbers `a` and `b` are equal.
pub fn bits_eq(a: u64, b: u64) -> (r: bool)
    ensures
        r == num_eq(a, b),
{
    if bits_is_nan(a) || bits_is_nan(b) {
        return false;
    }
    let ma = magnitude_of(a);
    let mb = magnitude_of(b);
    if ma == 0 && mb == 0 {
        true
    } else {
        a == b
    }
}

/// Whether the number `a` is at most the number `b`.
pub fn bits_le(a: u64, b: u64) -> (r: bool)
    ensures
        r == num_le(a, b),
{
    bits_lt(a, b) || bits_eq(a, b)
}

} // verus!
