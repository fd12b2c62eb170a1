//! Scalar helpers.
use vstd::prelude::*;

verus! {

/// Values that can be forced into a closed range.
///
/// The upper bound is applied first and the lower bound last, so where the
/// bounds cross (`lower > upper`) the result is `lower`.
pub trait Clamp: Sized {
    /// The value of `self` forced into `lower ..= upper`.
    spec fn clamped(self, lower: Self, upper: Self) -> Self;

    /// Forces `self` into `lower ..= upper`.
    fn clamp(self, lower: Self, upper: Self) -> (r: Self)
        ensures
            r == self.clamped(lower, upper),
    ;
}

impl Clamp for i64 {
    open spec fn clamped(self, lower: i64, upper: i64) -> i64 {
        let capped = if self < upper {
            self
        } else {
            upper
        };
        if capped > lower {
            capped
        } else {
            lower
        }
    }

    fn clamp(self, lower: i64, upper: i64) -> (r: i64) {
        let capped: i64 = if self < upper {
            self
        } else {
            upper
        };
        if capped > lower {
            capped
        } else {
            lower
        }
    }
}

/// Between bounds that do not cross, clamping leaves a value inside the range
/// alone and moves any other value to the nearer bound.
pub proof fn lemma_clamp_in_range(v: i64, lower: i64, upper: i64)
    requires
        lower <= upper,
    ensures
        lower <= v.clamped(lower, upper) <= upper,
        lower <= v <= upper ==> v.clamped(lower, upper) == v,
        v < lower ==> v.clamped(lower, upper) == lower,
        v > upper ==> v.clamped(lower, upper) == upper,
{
}

} // verus!
