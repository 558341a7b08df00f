//! The `k` candidates nearest to an origin on the integer plane.
//!
//! Candidates are ranked by the exact square of their distance to the
//! origin. Candidates at the same distance are ranked in the order in which
//! the caller listed them, so every request has exactly one answer.

pub mod distance;
pub mod ranking;

use crate::error::InvalidArgument;
use crate::k_nearest_points::distance::SquaredDistance;
use crate::k_nearest_points::ranking::{
    is_ranking, is_selection, key_values, lemma_arrangement_keeps_all, lemma_ranking_ascends,
    rank_by_key,
};
use vstd::prelude::*;

verus! {

/// A point in a 2D co-ordinate plane.
#[derive(Debug, PartialEq, Eq)]
pub struct Point(pub i64, pub i64);

/// The square of the Euclidean distance between `a` and `b`.
///
/// Distances are never negative, so one distance is shorter than another
/// exactly when its square is smaller: ranking by the square is ranking by
/// the distance.
pub open spec fn squared_distance(a: Point, b: Point) -> int {
    (a.0 - b.0) * (a.0 - b.0) + (a.1 - b.1) * (a.1 - b.1)
}

/// The squared distance from `origin` to each of `points`.
pub open spec fn distances_from(origin: Point, points: Seq<&Point>) -> Seq<int> {
    Seq::new(points.len(), |i: int| squared_distance(origin, *points[i]))
}

/// Returns the `k` nearest points to the given origin, nearest first;
/// points at the same distance in the order in which `points` lists them.
///
/// The points that come back are the caller's own references. Asking for
/// more points than there are is refused before any distance is computed.
pub fn get_k_nearest_points<'a>(origin_point: &Point, points: Vec<&'a Point>, k: usize) -> (result:
    Result<Vec<&'a Point>, InvalidArgument>)
    ensures
        match result {
            Ok(nearest) => {
                &&& k <= points@.len()
                &&& nearest@.len() == k
                &&& exists|order: Seq<usize>|
                    #[trigger] is_ranking(distances_from(*origin_point, points@), order)
                        && is_selection(points@, order, nearest@)
                &&& forall|i: int, j: int|
                    0 <= i <= j < k ==> squared_distance(*origin_point, *#[trigger] nearest@[i])
                        <= squared_distance(*origin_point, *#[trigger] nearest@[j])
                &&& forall|i: int| 0 <= i < k ==> points@.contains(#[trigger] nearest@[i])
                &&& k == points@.len() ==> nearest@.to_multiset() == points@.to_multiset()
            },
            Err(e) => {
                &&& k > points@.len()
                &&& e == (InvalidArgument::NotEnoughPoints { k, available: points@.len() as usize })
            },
        },
{
    let available = points.len();
    if k > available {
        return Err(InvalidArgument::NotEnoughPoints { k, available });
    }
    let mut keys: Vec<SquaredDistance> = Vec::new();
    let mut measured: usize = 0;
    while measured < available
        invariant
            measured <= available,
            available == points@.len(),
            keys@.len() == measured,
            forall|p: int|
                0 <= p < measured ==> (#[trigger] keys@[p]).value() == squared_distance(
                    *origin_point,
                    *points@[p],
                ),
        decreases available - measured,
    {
        keys.push(origin_point.squared_distance_from(points[measured]));
        measured += 1;
    }
    let ghost distances = distances_from(*origin_point, points@);
    proof {
        assert(key_values(keys@) =~= distances);
    }
    let order = rank_by_key(&keys);
    let mut nearest: Vec<&'a Point> = Vec::new();
    let mut taken: usize = 0;
    while taken < k
        invariant
            taken <= k <= available,
            available == points@.len(),
            is_ranking(distances, order@),
            distances.len() == available,
            nearest@.len() == taken,
            forall|i: int| 0 <= i < taken ==> #[trigger] nearest@[i] == points@[order@[i] as int],
        decreases k - taken,
    {
        nearest.push(points[order[taken]]);
        taken += 1;
    }
    proof {
        assert(is_selection(points@, order@, nearest@));
        assert forall|i: int, j: int| 0 <= i <= j < k implies squared_distance(
            *origin_point,
            *#[trigger] nearest@[i],
        ) <= squared_distance(*origin_point, *#[trigger] nearest@[j]) by {
            lemma_ranking_ascends(distances, order@, i, j);
        }
        if k == points@.len() {
            lemma_arrangement_keeps_all(points@, order@, nearest@);
        }
    }
    Ok(nearest)
}

} // verus!
