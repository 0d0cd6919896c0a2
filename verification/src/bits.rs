//! The IEEE 754 double-precision format, read from a value's 64-bit pattern.
//!
//! Bit 63 is the sign, bits 52 to 62 the exponent, bits 0 to 51 the fraction.
//! Without its sign bit a pattern grows with the absolute value it encodes, so
//! order and equality of present values are those of the signed magnitudes.

use vstd::prelude::*;

verus! {

/// Bit 63: the sign of a value.
pub const SIGN_BIT: u64 = 0x8000_0000_0000_0000;

/// Positive infinity: every exponent bit set, an empty fraction.
pub const INFINITY: u64 = 0x7FF0_0000_0000_0000;

/// The value one.
pub const ONE: u64 = 0x3FF0_0000_0000_0000;

/// Positive zero.
pub const ZERO: u64 = 0;

/// The NaN that stands for a value that could not be read.
pub const NAN: u64 = 0x7FF8_0000_0000_0000;

/// The pattern without its sign bit.
pub open spec fn magnitude(b: u64) -> int {
    if b >= SIGN_BIT {
        b - SIGN_BIT
    } else {
        b as int
    }
}

/// A pattern marks a missing value when it encodes a NaN: every exponent bit
/// set and a fraction other than zero.
pub open spec fn is_missing(b: u64) -> bool {
    magnitude(b) > INFINITY
}

/// Where a pattern lies on the number line. Two present values compare as
/// numbers exactly as their ranks compare as integers; both zeros have rank
/// zero.
pub open spec fn rank(b: u64) -> int {
    if b >= SIGN_BIT {
        -magnitude(b)
    } else {
        magnitude(b)
    }
}

/// The numeric `<`: false as soon as one side is missing.
pub open spec fn lt(a: u64, b: u64) -> bool {
    !is_missing(a) && !is_missing(b) && rank(a) < rank(b)
}

/// The numeric `==`: false as soon as one side is missing, true of the two
/// zeros.
pub open spec fn eq(a: u64, b: u64) -> bool {
    !is_missing(a) && !is_missing(b) && rank(a) == rank(b)
}

/// One where the flag holds, zero where it does not.
pub open spec fn flag(on: bool) -> u64 {
    if on {
        ONE
    } else {
        ZERO
    }
}

/// The entry of a missing-value mask for `b`.
pub open spec fn missing_mask(b: u64) -> u64 {
    flag(is_missing(b))
}

/// The entry of a present-value mask for `b`.
pub open spec fn present_mask(b: u64) -> u64 {
    flag(!is_missing(b))
}

/// The predicate "is present", as a value to filter by.
pub open spec fn present() -> spec_fn(u64) -> bool {
    |b: u64| !is_missing(b)
}

/// The predicate "has rank `k`", as a value to filter by.
pub open spec fn has_rank(k: int) -> spec_fn(u64) -> bool {
    |b: u64| rank(b) == k
}

/// The pattern of `b` without its sign bit.
fn abs_bits(b: u64) -> (m: u64)
    ensures
        m == magnitude(b),
{
    if b >= SIGN_BIT {
        b - SIGN_BIT
    } else {
        b
    }
}

/// Tells whether `b` encodes a NaN.
pub fn is_nan(b: u64) -> (r: bool)
    ensures
        r == is_missing(b),
{
    abs_bits(b) > INFINITY
}

/// Tells whether `b` encodes a number: whether it is no NaN.
pub fn is_present(b: u64) -> (r: bool)
    ensures
        r == !is_missing(b),
{
    !is_nan(b)
}

/// Tells whether the rank of `a` is below that of `b`.
pub fn rank_lt(a: u64, b: u64) -> (r: bool)
    ensures
        r == (rank(a) < rank(b)),
{
    let ma = abs_bits(a);
    let mb = abs_bits(b);
    if a >= SIGN_BIT {
        if b >= SIGN_BIT {
            ma > mb
        } else {
            ma > 0 || mb > 0
        }
    } else {
        if b >= SIGN_BIT {
            false
        } else {
            ma < mb
        }
    }
}

/// Tells whether `a` and `b` have the same rank.
pub fn rank_eq(a: u64, b: u64) -> (r: bool)
    ensures
        r == (rank(a) == rank(b)),
{
    !rank_lt(a, b) && !rank_lt(b, a)
}

/// The numeric `a < b`.
pub fn less(a: u64, b: u64) -> (r: bool)
    ensures
        r == lt(a, b),
{
    !is_nan(a) && !is_nan(b) && rank_lt(a, b)
}

/// The numeric `a == b`.
pub fn same(a: u64, b: u64) -> (r: bool)
    ensures
        r == eq(a, b),
{
    !is_nan(a) && !is_nan(b) && rank_eq(a, b)
}

/// The mask entry that says whether `b` is missing.
pub fn nan_mask(b: u64) -> (m: u64)
    ensures
        m == missing_mask(b),
{
    if is_nan(b) {
        ONE
    } else {
        ZERO
    }
}

/// The mask entry that says whether `b` is present.
pub fn valid_mask(b: u64) -> (m: u64)
    ensures
        m == present_mask(b),
{
    if is_nan(b) {
        ZERO
    } else {
        ONE
    }
}

} // verus!
