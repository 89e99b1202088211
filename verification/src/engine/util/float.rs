//! Single-precision numbers as their bits.
//!
//! The sign is the highest bit. Behind it the bits of a number that is not negative
//! are in the order of the numbers, and those of a negative number in the opposite
//! order. Both zeros are the same number.
use vstd::prelude::*;

verus! {

/// The number 0.
pub const ZERO: u32 = 0;

/// The number 1.
pub const ONE: u32 = 0x3F800000;

/// The number -1.
pub const MINUS_ONE: u32 = 0xBF800000;

/// The number 0.5.
pub const HALF: u32 = 0x3F000000;

/// The number 100.
pub const HUNDRED: u32 = 0x42C80000;

/// The bits without the sign.
pub open spec fn magnitude(bits: u32) -> int {
    if bits >= 0x80000000 {
        bits - 0x80000000
    } else {
        bits as int
    }
}

/// Whether the bits stand for no number.
pub open spec fn is_nan(bits: u32) -> bool {
    magnitude(bits) > 0x7F800000
}

/// The place of a number among all numbers.
pub open spec fn rank(bits: u32) -> int {
    if bits >= 0x80000000 {
        -magnitude(bits)
    } else {
        magnitude(bits)
    }
}

/// Whether `a` is less than `b`. Bits that stand for no number are not less than
/// any, and no number is less than they are.
pub open spec fn less(a: u32, b: u32) -> bool {
    !is_nan(a) && !is_nan(b) && rank(a) < rank(b)
}

/// A number brought between two bounds.
pub open spec fn clamped(bits: u32, low: u32, high: u32) -> u32 {
    if less(bits, low) {
        low
    } else if less(high, bits) {
        high
    } else {
        bits
    }
}

/// The larger of two numbers; bits that stand for no number give way.
pub open spec fn larger(a: u32, b: u32) -> u32 {
    if is_nan(a) || less(a, b) {
        b
    } else {
        a
    }
}

/// The smaller of two numbers; bits that stand for no number give way.
pub open spec fn smaller(a: u32, b: u32) -> u32 {
    if is_nan(a) || less(b, a) {
        b
    } else {
        a
    }
}

/// Whether the bits stand for no number.
fn nan(bits: u32) -> (r: bool)
    ensures
        r == is_nan(bits),
{
    let m: u32 = if bits >= 0x80000000 {
        bits - 0x80000000
    } else {
        bits
    };
    m > 0x7F800000
}

/// Whether `a` is less than `b`.
pub fn lt(a: u32, b: u32) -> (r: bool)
    ensures
        r == less(a, b),
{
    if nan(a) || nan(b) {
        return false;
    }
    if a >= 0x80000000 {
        if b >= 0x80000000 {
            b < a
        } else {
            a != 0x80000000 || b != 0
        }
    } else {
        b < 0x80000000 && a < b
    }
}

/// Whether `a` and `b` are numbers and `a` is not less than `b`.
pub fn at_least(a: u32, b: u32) -> (r: bool)
    ensures
        r == (!is_nan(a) && !is_nan(b) && !less(a, b)),
{
    !nan(a) && !nan(b) && !lt(a, b)
}

/// A number brought between two bounds.
pub fn clamp(bits: u32, low: u32, high: u32) -> (r: u32)
    ensures
        r == clamped(bits, low, high),
{
    if lt(bits, low) {
        low
    } else if lt(high, bits) {
        high
    } else {
        bits
    }
}

/// The larger of two numbers.
pub fn max(a: u32, b: u32) -> (r: u32)
    ensures
        r == larger(a, b),
{
    if nan(a) || lt(a, b) {
        b
    } else {
        a
    }
}

/// The smaller of two numbers.
pub fn min(a: u32, b: u32) -> (r: u32)
    ensures
        r == smaller(a, b),
{
    if nan(a) || lt(b, a) {
        b
    } else {
        a
    }
}

/// Whether a number lies between two bounds.
pub open spec fn within(bits: u32, low: u32, high: u32) -> bool {
    !less(bits, low) && !less(high, bits)
}

/// A number that is brought between two bounds lies there, and brings no change
/// there.
pub proof fn law_clamped_within(bits: u32, low: u32, high: u32)
    requires
        !is_nan(low),
        !is_nan(high),
        rank(low) <= rank(high),
    ensures
        within(clamped(bits, low, high), low, high),
        within(bits, low, high) ==> clamped(bits, low, high) == bits,
{
}

/// How the bits of two numbers tell which is less: two that are not negative stand in
/// the order of their bits, two negative ones in the opposite order, and a negative one
/// is less than one that is not, unless both are zero. What is no number is not less
/// than anything, and nothing is less than it.
pub proof fn law_less(a: u32, b: u32)
    ensures
        a < 0x80000000 && b <= 0x7F800000 ==> less(a, b) == (a < b),
        0x80000000 <= a && 0x80000000 <= b <= 0xFF800000 && a <= 0xFF800000 ==> less(a, b) == (b
            < a),
        0x80000000 <= a <= 0xFF800000 && b <= 0x7F800000 ==> less(a, b) == (a != 0x80000000 || b
            != 0),
        a <= 0x7F800000 && 0x80000000 <= b ==> !less(a, b),
        0x7F800000 < a < 0x80000000 || 0xFF800000 < a ==> is_nan(a) && !less(a, b) && !less(b, a),
        a <= 0x7F800000 || 0x80000000 <= a <= 0xFF800000 ==> !is_nan(a),
{
}

/// A number that is brought between two bounds is the bound that it lies beyond, or
/// itself; what is no number stays as it is.
pub proof fn law_clamped(bits: u32, low: u32, high: u32)
    requires
        !is_nan(low),
        !is_nan(high),
        rank(low) <= rank(high),
    ensures
        is_nan(bits) ==> clamped(bits, low, high) == bits,
        !is_nan(bits) && rank(bits) < rank(low) ==> clamped(bits, low, high) == low,
        !is_nan(bits) && rank(bits) > rank(high) ==> clamped(bits, low, high) == high,
        !is_nan(bits) && rank(low) <= rank(bits) <= rank(high) ==> clamped(bits, low, high) == bits,
{
}

/// The larger and the smaller of two numbers are the two, and what is no number gives
/// way to a number.
pub proof fn law_larger_and_smaller(a: u32, b: u32)
    ensures
        !is_nan(a) && !is_nan(b) ==> {
            &&& rank(larger(a, b)) >= rank(a) && rank(larger(a, b)) >= rank(b)
            &&& rank(smaller(a, b)) <= rank(a) && rank(smaller(a, b)) <= rank(b)
            &&& larger(a, b) == a || larger(a, b) == b
            &&& smaller(a, b) == a || smaller(a, b) == b
        },
        is_nan(a) ==> larger(a, b) == b && smaller(a, b) == b,
        is_nan(b) && !is_nan(a) ==> larger(a, b) == a && smaller(a, b) == a,
{
}

} // verus!
