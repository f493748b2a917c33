//! The integer half of the geometry utilities: approximate-comparison
//! trait declarations and the sign-bit to two's-complement conversion
//! that ULP-based float comparison is built on. The floating-point
//! impls live outside the verified library.

use vstd::prelude::*;

verus! {

/// Approximate equality comparisons.
pub trait ApproxEqUlps {
    /// Checks if the number is approximately equal.
    fn approx_eq_ulps(&self, other: &Self, ulps: i32) -> bool;

    /// Checks if the number is not approximately equal.
    fn approx_ne_ulps(&self, other: &Self, ulps: i32) -> bool {
        !self.approx_eq_ulps(other, ulps)
    }
}

/// Approximate zero equality comparisons.
pub trait ApproxZeroUlps: ApproxEqUlps {
    /// Checks if the number is approximately zero.
    fn approx_zero_ulps(&self, ulps: i32) -> bool;
}

/// Checks that the current number is > 0.
pub trait IsValidLength {
    /// Checks that the current number is > 0.
    fn is_valid_length(&self) -> bool;
}

/// Convert a sign-bit integer (a float's bits interpreted as an integer)
/// into a two's-complement integer, mapping negative zero to zero, so
/// that values order the way the floats they came from do.
pub fn sign_bit_to_2s_compliment(x: i32) -> (r: i32)
    ensures
        x >= 0 ==> r == x,
        x < 0 ==> r as int == -((x & 0x7FFFFFFF) as int),
        x < 0 ==> r <= 0,
{
    if x < 0 {
        let masked = x & 0x7FFFFFFF;
        proof {
            assert(x & 0x7FFFFFFF >= 0) by (bit_vector);
        }
        -masked
    } else {
        x
    }
}

} // verus!
