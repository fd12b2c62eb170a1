//! The choice among the hits of a ray.
use crate::scalar::at_most;
use crate::scalar::is_nan;
use crate::scalar::scaled_value;
use vstd::prelude::*;

verus! {

/// Whether position `i` holds the nearest of the distances: none is smaller,
/// and every earlier one is larger.
pub open spec fn is_nearest(distances: Seq<u32>, i: int) -> bool {
    &&& 0 <= i < distances.len()
    &&& forall|j: int|
        0 <= j < distances.len() ==> scaled_value(distances[i]) <= scaled_value(
            #[trigger] distances[j],
        )
    &&& forall|j: int|
        0 <= j < i ==> scaled_value(distances[i]) < scaled_value(#[trigger] distances[j])
}

/// At most one position holds the nearest distance.
pub proof fn lemma_nearest_unique(distances: Seq<u32>, i: int, j: int)
    requires
        is_nearest(distances, i),
        is_nearest(distances, j),
    ensures
        i == j,
{
    if i < j {
        assert(scaled_value(distances[j]) < scaled_value(distances[i]));
    }
    if j < i {
        assert(scaled_value(distances[i]) < scaled_value(distances[j]));
    }
}

/// Picks the hit that is shaded: the one with the smallest distance along
/// the ray, and of several at that distance the first. `None` means that the
/// ray hit nothing, so the pixel shows the background.
///
/// The distances are given by their bit patterns, and each of them must
/// encode a number.
pub fn nearest(distances: &Vec<u32>) -> (r: Option<usize>)
    requires
        forall|i: int| 0 <= i < distances@.len() ==> !is_nan(#[trigger] distances@[i]),
    ensures
        match r {
            None => distances@.len() == 0,
            Some(i) => is_nearest(distances@, i as int),
        },
{
    if distances.len() == 0 {
        return None;
    }
    let mut best: usize = 0;
    let mut k: usize = 1;
    while k < distances.len()
        invariant
            1 <= k <= distances@.len(),
            best < k,
            forall|i: int| 0 <= i < distances@.len() ==> !is_nan(#[trigger] distances@[i]),
            forall|j: int|
                0 <= j < k ==> scaled_value(distances@[best as int]) <= scaled_value(
                    #[trigger] distances@[j],
                ),
            forall|j: int|
                0 <= j < best ==> scaled_value(distances@[best as int]) < scaled_value(
                    #[trigger] distances@[j],
                ),
        decreases distances@.len() - k,
    {
        if !at_most(distances[best], distances[k]) {
            best = k;
        }
        k = k + 1;
    }
    Some(best)
}

} // verus!
