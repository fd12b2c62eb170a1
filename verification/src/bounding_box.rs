//! Axis-aligned bounding boxes.
//!
//! Coordinates are single-precision numbers, held by their bit patterns. A
//! box is built from points by comparing coordinates; whether a ray hits a
//! box is decided from the six ray parameters at which the ray crosses the
//! planes of the box, which the caller computes.
use crate::scalar::is_less;
use crate::scalar::is_nan;
use crate::scalar::larger;
use crate::scalar::lemma_zero_and_one;
use crate::scalar::less;
use crate::scalar::max;
use crate::scalar::min;
use crate::scalar::scaled_value;
use crate::scalar::smaller;
use crate::scalar::ZERO;
use vstd::prelude::*;

verus! {

/// A point in space, by the bit patterns of its coordinates.
#[derive(Clone, Copy, Debug, PartialEq, Eq, Structural)]
pub struct Point {
    pub x: u32,
    pub y: u32,
    pub z: u32,
}

/// A box with its sides along the axes, by two opposite corners.
#[derive(Clone, Copy, Debug, PartialEq, Eq, Structural)]
pub struct BoundingBox {
    pub min: Point,
    pub max: Point,
}

impl Point {
    /// Whether all three coordinates encode numbers.
    pub open spec fn is_numeric(self) -> bool {
        !is_nan(self.x) && !is_nan(self.y) && !is_nan(self.z)
    }
}

/// Whether position `at` is the first at which `values` holds a number
/// equal to `bound`, by its very bits.
pub open spec fn first_at(values: Seq<u32>, bound: u32, at: int) -> bool {
    &&& 0 <= at < values.len()
    &&& values[at] == bound
    &&& forall|j: int| 0 <= j < at ==> scaled_value(#[trigger] values[j]) != scaled_value(bound)
}

/// Whether `lo` and `hi` bound the numbers `values` tightly: no value lies
/// outside, and both bounds occur among the values. Of several values equal
/// to a bound, the bound is the first.
pub open spec fn bounds(values: Seq<u32>, lo: u32, hi: u32) -> bool {
    &&& forall|i: int|
        0 <= i < values.len() ==> scaled_value(lo) <= scaled_value(#[trigger] values[i])
            <= scaled_value(hi)
    &&& exists|i: int| first_at(values, lo, i)
    &&& exists|i: int| first_at(values, hi, i)
}

/// The x coordinates of a list of points.
pub open spec fn xs(points: Seq<Point>) -> Seq<u32> {
    Seq::new(points.len(), |i: int| points[i].x)
}

/// The y coordinates of a list of points.
pub open spec fn ys(points: Seq<Point>) -> Seq<u32> {
    Seq::new(points.len(), |i: int| points[i].y)
}

/// The z coordinates of a list of points.
pub open spec fn zs(points: Seq<Point>) -> Seq<u32> {
    Seq::new(points.len(), |i: int| points[i].z)
}

/// The least and the greatest of a list of numbers.
pub fn extremes(values: &Vec<u32>) -> (r: (u32, u32))
    requires
        values@.len() > 0,
        forall|i: int| 0 <= i < values@.len() ==> !is_nan(#[trigger] values@[i]),
    ensures
        bounds(values@, r.0, r.1),
        !is_nan(r.0),
        !is_nan(r.1),
{
    let mut lo: u32 = values[0];
    let mut hi: u32 = values[0];
    let ghost mut at_lo: int = 0;
    let ghost mut at_hi: int = 0;
    let mut k: usize = 1;
    while k < values.len()
        invariant
            1 <= k <= values@.len(),
            forall|i: int| 0 <= i < values@.len() ==> !is_nan(#[trigger] values@[i]),
            0 <= at_lo < k,
            0 <= at_hi < k,
            first_at(values@, lo, at_lo),
            first_at(values@, hi, at_hi),
            forall|i: int|
                0 <= i < k ==> scaled_value(lo) <= scaled_value(#[trigger] values@[i])
                    <= scaled_value(hi),
        decreases values@.len() - k,
    {
        let v: u32 = values[k];
        if is_less(v, lo) {
            lo = v;
            proof {
                at_lo = k as int;
            }
        }
        if is_less(hi, v) {
            hi = v;
            proof {
                at_hi = k as int;
            }
        }
        k = k + 1;
    }
    (lo, hi)
}

impl BoundingBox {
    /// Whether the corners encode numbers and `min` is nowhere above `max`.
    pub open spec fn well_formed(self) -> bool {
        &&& self.min.is_numeric()
        &&& self.max.is_numeric()
        &&& scaled_value(self.min.x) <= scaled_value(self.max.x)
        &&& scaled_value(self.min.y) <= scaled_value(self.max.y)
        &&& scaled_value(self.min.z) <= scaled_value(self.max.z)
    }

    /// The smallest box that holds every point of a list that is not empty.
    pub fn from_vertices(vertices: &Vec<Point>) -> (b: BoundingBox)
        requires
            vertices@.len() > 0,
            forall|i: int| 0 <= i < vertices@.len() ==> (#[trigger] vertices@[i]).is_numeric(),
        ensures
            b.well_formed(),
            bounds(xs(vertices@), b.min.x, b.max.x),
            bounds(ys(vertices@), b.min.y, b.max.y),
            bounds(zs(vertices@), b.min.z, b.max.z),
    {
        let mut vx: Vec<u32> = Vec::new();
        let mut vy: Vec<u32> = Vec::new();
        let mut vz: Vec<u32> = Vec::new();
        let mut k: usize = 0;
        while k < vertices.len()
            invariant
                k <= vertices@.len(),
                forall|i: int|
                    0 <= i < vertices@.len() ==> (#[trigger] vertices@[i]).is_numeric(),
                vx@ == xs(vertices@.take(k as int)),
                vy@ == ys(vertices@.take(k as int)),
                vz@ == zs(vertices@.take(k as int)),
            decreases vertices@.len() - k,
        {
            vx.push(vertices[k].x);
            vy.push(vertices[k].y);
            vz.push(vertices[k].z);
            k = k + 1;
            assert(vx@ =~= xs(vertices@.take(k as int)));
            assert(vy@ =~= ys(vertices@.take(k as int)));
            assert(vz@ =~= zs(vertices@.take(k as int)));
        }
        assert(vertices@.take(k as int) == vertices@);
        assert forall|i: int| 0 <= i < vertices@.len() implies !is_nan(#[trigger] vx@[i])
            && !is_nan(vy@[i]) && !is_nan(vz@[i]) by {
            assert(vertices@[i].is_numeric());
        }
        let (min_x, max_x) = extremes(&vx);
        let (min_y, max_y) = extremes(&vy);
        let (min_z, max_z) = extremes(&vz);
        proof {
            let i = choose|i: int| first_at(vx@, min_x, i);
            assert(scaled_value(min_x) <= scaled_value(vx@[i]) <= scaled_value(max_x));
            let j = choose|j: int| first_at(vy@, min_y, j);
            assert(scaled_value(min_y) <= scaled_value(vy@[j]) <= scaled_value(max_y));
            let l = choose|l: int| first_at(vz@, min_z, l);
            assert(scaled_value(min_z) <= scaled_value(vz@[l]) <= scaled_value(max_z));
        }
        BoundingBox {
            min: Point { x: min_x, y: min_y, z: min_z },
            max: Point { x: max_x, y: max_y, z: max_z },
        }
    }
}

/// The two ray parameters of one axis in order: the first is the second of
/// `pair` exactly where the second is not greater than the first.
pub open spec fn in_order(pair: (u32, u32)) -> (u32, u32) {
    if less(pair.0, pair.1) {
        pair
    } else {
        (pair.1, pair.0)
    }
}

/// Whether a ray hits a box, from the ray parameters at which it crosses the
/// two planes of the box for each axis.
///
/// The ray enters the box where it has entered all three slabs, and leaves
/// it where it first leaves one. It hits unless it enters after it leaves or
/// leaves behind its origin. Parameters that encode no number, as they arise
/// for a ray that runs inside a plane of the box, are passed over when the
/// largest entry and the smallest exit are taken.
pub open spec fn slabs_hit(x: (u32, u32), y: (u32, u32), z: (u32, u32)) -> bool {
    let near = larger(in_order(x).0, larger(in_order(y).0, in_order(z).0));
    let far = smaller(in_order(x).1, smaller(in_order(y).1, in_order(z).1));
    !(less(far, near) || less(far, ZERO))
}

/// Puts the two ray parameters of one axis in order.
pub fn get_t1_t2(pair: (u32, u32)) -> (r: (u32, u32))
    ensures
        r == in_order(pair),
{
    if is_less(pair.0, pair.1) {
        pair
    } else {
        (pair.1, pair.0)
    }
}

impl BoundingBox {
    /// Decides whether a ray hits the box. Each pair holds, for one axis, the
    /// ray parameters at which the ray crosses the plane through `min` and
    /// the plane through `max`.
    pub fn intersect(x: (u32, u32), y: (u32, u32), z: (u32, u32)) -> (hit: bool)
        ensures
            hit == slabs_hit(x, y, z),
    {
        let (t1x, t2x) = get_t1_t2(x);
        let (t1y, t2y) = get_t1_t2(y);
        let (t1z, t2z) = get_t1_t2(z);
        let t_near = max(t1x, max(t1y, t1z));
        let t_far = min(t2x, min(t2y, t2z));
        if is_less(t_far, t_near) || is_less(t_far, ZERO) {
            false
        } else {
            true
        }
    }
}

/// Whether the two ray parameters of an axis are numbers that do not lie on
/// the same side of the ray's origin: one at most zero, the other at least.
pub open spec fn straddles(pair: (u32, u32)) -> bool {
    &&& !is_nan(pair.0)
    &&& !is_nan(pair.1)
    &&& (scaled_value(pair.0) <= 0 <= scaled_value(pair.1) || scaled_value(pair.1) <= 0
        <= scaled_value(pair.0))
}

/// A ray whose origin lies between the two planes of the box on every axis
/// hits the box.
pub proof fn lemma_hit_from_inside(x: (u32, u32), y: (u32, u32), z: (u32, u32))
    requires
        straddles(x),
        straddles(y),
        straddles(z),
    ensures
        slabs_hit(x, y, z),
{
    lemma_zero_and_one();
}

/// Where all six ray parameters are numbers, the ray hits exactly if on no
/// axis it enters after it has left on another, and it leaves on no axis
/// behind its origin.
pub proof fn lemma_hit_numeric(x: (u32, u32), y: (u32, u32), z: (u32, u32))
    requires
        !is_nan(x.0) && !is_nan(x.1),
        !is_nan(y.0) && !is_nan(y.1),
        !is_nan(z.0) && !is_nan(z.1),
    ensures
        slabs_hit(x, y, z) <==> {
            let enter = seq![in_order(x).0, in_order(y).0, in_order(z).0];
            let leave = seq![in_order(x).1, in_order(y).1, in_order(z).1];
            &&& forall|i: int, j: int|
                0 <= i < 3 && 0 <= j < 3 ==> scaled_value(#[trigger] enter[i]) <= scaled_value(
                    #[trigger] leave[j],
                )
            &&& forall|j: int| 0 <= j < 3 ==> 0 <= scaled_value(#[trigger] leave[j])
        },
{
    lemma_zero_and_one();
    let enter = seq![in_order(x).0, in_order(y).0, in_order(z).0];
    let leave = seq![in_order(x).1, in_order(y).1, in_order(z).1];
    let near = larger(in_order(x).0, larger(in_order(y).0, in_order(z).0));
    let far = smaller(in_order(x).1, smaller(in_order(y).1, in_order(z).1));
    assert(enter[0] == in_order(x).0 && enter[1] == in_order(y).0 && enter[2] == in_order(z).0);
    assert(leave[0] == in_order(x).1 && leave[1] == in_order(y).1 && leave[2] == in_order(z).1);
    if slabs_hit(x, y, z) {
        assert forall|i: int, j: int| 0 <= i < 3 && 0 <= j < 3 implies scaled_value(
            #[trigger] enter[i],
        ) <= scaled_value(#[trigger] leave[j]) by {
            assert(scaled_value(enter[i]) <= scaled_value(near));
            assert(scaled_value(far) <= scaled_value(leave[j]));
        }
        assert forall|j: int| 0 <= j < 3 implies 0 <= scaled_value(#[trigger] leave[j]) by {
            assert(scaled_value(far) <= scaled_value(leave[j]));
        }
    }
}

} // verus!
