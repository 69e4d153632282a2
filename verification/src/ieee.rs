//! Facts about IEEE-754 single-precision numbers that can be read off their
//! 32-bit patterns without any arithmetic: whether a pattern is a number,
//! whether two patterns are the same number, and how two numbers are ordered.
use vstd::prelude::*;

verus! {

/// The pattern without its sign bit.
pub open spec fn magnitude(bits: u32) -> u32 {
    bits & 0x7fff_ffff
}

/// The sign bit is set.
pub open spec fn is_negative(bits: u32) -> bool {
    bits & 0x8000_0000 != 0
}

/// The pattern is not a number: all exponent bits set and a fraction bit too.
pub open spec fn is_nan(bits: u32) -> bool {
    magnitude(bits) > 0x7f80_0000
}

/// The pattern is a number and not an infinity.
pub open spec fn is_finite(bits: u32) -> bool {
    magnitude(bits) < 0x7f80_0000
}

/// Where a number stands among all numbers: the magnitudes of the patterns
/// grow with the numbers, and the sign bit mirrors them. Both zeros stand at 0.
pub open spec fn rank(bits: u32) -> int {
    if is_negative(bits) {
        -(magnitude(bits) as int)
    } else {
        magnitude(bits) as int
    }
}

/// The two patterns are numbers and compare equal: the same number, where
/// the two zeros count as one.
pub open spec fn same_number(a: u32, b: u32) -> bool {
    !is_nan(a) && !is_nan(b) && rank(a) == rank(b)
}

/// Elementwise `same_number` on sequences of equal length.
pub open spec fn same_numbers(a: Seq<u32>, b: Seq<u32>) -> bool {
    &&& a.len() == b.len()
    &&& forall|i: int| 0 <= i < a.len() ==> same_number(#[trigger] a[i], b[i])
}

/// Whether the pattern is not a number.
pub fn nan(bits: u32) -> (r: bool)
    ensures
        r == is_nan(bits),
{
    (bits & 0x7fff_ffff) > 0x7f80_0000
}

/// Whether the pattern is a number and not an infinity.
pub fn finite(bits: u32) -> (r: bool)
    ensures
        r == is_finite(bits),
{
    (bits & 0x7fff_ffff) < 0x7f80_0000
}

/// The rank of a pattern as a machine integer.
pub fn rank_of(bits: u32) -> (r: i64)
    ensures
        r == rank(bits),
{
    let m: u32 = bits & 0x7fff_ffff;
    assert(m <= 0x7fff_ffff) by (bit_vector)
        requires
            m == bits & 0x7fff_ffff,
    ;
    if bits & 0x8000_0000 != 0 {
        0i64 - (m as i64)
    } else {
        m as i64
    }
}

/// Whether the two patterns are the same number.
pub fn equal(a: u32, b: u32) -> (r: bool)
    ensures
        r == same_number(a, b),
{
    !nan(a) && !nan(b) && rank_of(a) == rank_of(b)
}

} // verus!
