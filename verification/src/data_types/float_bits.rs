//! Predicates on IEEE-754 binary32 values held as their bit patterns.
use vstd::prelude::*;

verus! {

/// Bit pattern of `0.0`.
pub const ZERO: u32 = 0;

/// Bit pattern of `f32::NAN`.
pub const NAN: u32 = 0x7fc0_0000;

/// The bits below the sign bit.
pub open spec fn magnitude(b: u32) -> int {
    b as int % 0x8000_0000
}

/// Whether the sign bit is set.
pub open spec fn sign_set(b: u32) -> bool {
    b >= 0x8000_0000
}

/// A value is NaN when its exponent bits are all ones and its fraction is not zero,
/// that is when the bits below the sign exceed those of infinity.
pub open spec fn is_nan(b: u32) -> bool {
    magnitude(b) > 0x7f80_0000
}

/// The position of a value that is not NaN on the real line: values compare as their
/// keys compare (both zeros have key 0).
pub open spec fn order_key(b: u32) -> int {
    if sign_set(b) { -magnitude(b) } else { magnitude(b) }
}

/// `a < b` on binary32 values: false when either is NaN.
pub open spec fn lt(a: u32, b: u32) -> bool {
    !is_nan(a) && !is_nan(b) && order_key(a) < order_key(b)
}

/// `a <= b` on binary32 values: false when either is NaN.
pub open spec fn le(a: u32, b: u32) -> bool {
    !is_nan(a) && !is_nan(b) && order_key(a) <= order_key(b)
}

/// `a == b` on binary32 values: NaN equals nothing, and the two zeros are equal.
pub open spec fn feq(a: u32, b: u32) -> bool {
    !is_nan(a) && !is_nan(b) && order_key(a) == order_key(b)
}

/// The key of the total order of binary32 values (`total_cmp`): negative values,
/// NaNs included, flip their lower bits, so that -0 comes just before +0.
pub open spec fn total_key(b: u32) -> int {
    if sign_set(b) { -1 - magnitude(b) } else { magnitude(b) }
}

/// Whether `b` is NaN.
pub fn is_nan_bits(b: u32) -> (r: bool)
    ensures
        r == is_nan(b),
{
    b % 0x8000_0000 > 0x7f80_0000
}

/// `a < b` as binary32 values.
pub fn lt_bits(a: u32, b: u32) -> (r: bool)
    ensures
        r == lt(a, b),
{
    if is_nan_bits(a) || is_nan_bits(b) {
        return false;
    }
    let ma = a % 0x8000_0000;
    let mb = b % 0x8000_0000;
    let na = a >= 0x8000_0000;
    let nb = b >= 0x8000_0000;
    if na && nb {
        mb < ma
    } else if na {
        !(ma == 0 && mb == 0)
    } else if nb {
        false
    } else {
        ma < mb
    }
}

/// `a > b` as binary32 values.
pub fn gt_bits(a: u32, b: u32) -> (r: bool)
    ensures
        r == lt(b, a),
{
    lt_bits(b, a)
}

/// `a <= b` as binary32 values.
pub fn le_bits(a: u32, b: u32) -> (r: bool)
    ensures
        r == le(a, b),
{
    if is_nan_bits(a) || is_nan_bits(b) {
        return false;
    }
    !lt_bits(b, a)
}

/// `a == b` as binary32 values.
pub fn eq_bits(a: u32, b: u32) -> (r: bool)
    ensures
        r == feq(a, b),
{
    le_bits(a, b) && le_bits(b, a)
}

/// `a.total_cmp(b) == Less`.
pub fn total_lt_bits(a: u32, b: u32) -> (r: bool)
    ensures
        r == (total_key(a) < total_key(b)),
{
    let ma = a % 0x8000_0000;
    let mb = b % 0x8000_0000;
    let na = a >= 0x8000_0000;
    let nb = b >= 0x8000_0000;
    if na && nb {
        mb < ma
    } else if na {
        true
    } else if nb {
        false
    } else {
        ma < mb
    }
}

} // verus!
