//! Analytic shapes.
//!
//! A ray meets a sphere where a quadratic equation in the ray parameter has
//! its roots. The caller solves the equation; which of the roots count as
//! hits is decided here.
use crate::scalar::is_less;
use crate::scalar::is_less_or_equal;
use crate::scalar::less;
use crate::scalar::less_or_equal;
use crate::scalar::ZERO;
use vstd::prelude::*;

verus! {

/// Which roots of the sphere equation are hits.
#[derive(Clone, Copy, Debug, PartialEq, Eq, Structural)]
pub enum Roots {
    /// The ray misses the sphere, or the sphere lies behind the ray.
    Neither,
    /// The ray starts inside the sphere: only the larger root is a hit.
    Far,
    /// The ray starts outside the sphere and runs through it.
    Both,
}

/// The roots that are hits, given the discriminant of the equation and its
/// two roots, the smaller first: none if the discriminant is below zero or
/// both roots are at most zero, the larger root alone if only the smaller
/// is at most zero, and both otherwise.
pub open spec fn roots_hit(discriminant: u32, t0: u32, t1: u32) -> Roots {
    if less(discriminant, ZERO) {
        Roots::Neither
    } else if less_or_equal(t0, ZERO) {
        if less_or_equal(t1, ZERO) {
            Roots::Neither
        } else {
            Roots::Far
        }
    } else {
        Roots::Both
    }
}

/// Decides which roots of the sphere equation are hits. The numbers are
/// given by their bit patterns.
pub fn intersect_sphere(discriminant: u32, t0: u32, t1: u32) -> (r: Roots)
    ensures
        r == roots_hit(discriminant, t0, t1),
{
    if is_less(discriminant, ZERO) {
        Roots::Neither
    } else if is_less_or_equal(t0, ZERO) {
        if is_less_or_equal(t1, ZERO) {
            Roots::Neither
        } else {
            Roots::Far
        }
    } else {
        Roots::Both
    }
}

} // verus!
