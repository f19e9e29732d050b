//! One step of the flock, as far as the grid decides it: the edge length that
//! goes with a visual range, and from a snapshot of the boids the candidates of
//! each, all against one index.

use crate::neighbors::{candidates, half_width, is_candidate, NearestNeightborsMap};
use crate::order::in_order;
use crate::zone::{ceil_div, lemma_floor_div_bounds, lemma_floor_div_unique, GridPoint};
use vstd::prelude::*;

verus! {

/// The edge length that goes with a visual range: half the range, rounded up.
pub open spec fn edge_length_of(visual_range: int) -> int {
    ceil_div(visual_range, 2)
}

/// With the edge length of its visual range, a query for that range reaches one
/// or two zones from its origin in every direction, however far the boids see.
pub proof fn lemma_visual_range_reach(visual_range: int)
    requires
        visual_range > 0,
    ensures
        0 < edge_length_of(visual_range) <= visual_range,
        1 <= half_width(visual_range, edge_length_of(visual_range)) <= 2,
{
    let edge_length = edge_length_of(visual_range);
    lemma_floor_div_bounds(visual_range + 1, 2);
    let reach = half_width(visual_range, edge_length);
    lemma_floor_div_bounds(visual_range + edge_length - 1, edge_length);
    assert(reach >= 1) by (nonlinear_arith)
        requires
            edge_length > 0,
            visual_range > 0,
            visual_range + edge_length - 1 < reach * edge_length + edge_length,
    ;
    assert(reach <= 2) by (nonlinear_arith)
        requires
            edge_length > 0,
            visual_range <= 2 * edge_length,
            reach * edge_length <= visual_range + edge_length - 1,
    ;
}

/// The edge length of the zones for boids that see `visual_range` far, or
/// `None` where the range is not positive: such a range gives no grid.
pub fn edge_length_for(visual_range: i32) -> (edge_length: Option<i32>)
    ensures
        visual_range <= 0 ==> edge_length is None,
        visual_range > 0 ==> edge_length == Some(edge_length_of(visual_range as int) as i32),
        visual_range > 0 ==> 0 < edge_length_of(visual_range as int) <= visual_range,
{
    if visual_range <= 0 {
        return None;
    }
    proof {
        lemma_visual_range_reach(visual_range as int);
        lemma_floor_div_unique(visual_range + 1, 2, (visual_range - 1) / 2 + 1);
    }
    Some((visual_range - 1) / 2 + 1)
}

/// For every boid of the snapshot, the candidates of a query for `radius`
/// around it, all from one index that is built over the snapshot before the
/// first boid is looked at.
pub fn neighborhoods(edge_length: i32, boids: &Vec<GridPoint>, radius: i32) -> (lists: Vec<
    Vec<usize>,
>)
    requires
        edge_length > 0,
    ensures
        lists@.len() == boids@.len(),
        forall|i: int|
            0 <= i < boids@.len() ==> (#[trigger] lists@[i])@ == candidates(
                boids@,
                edge_length as int,
                boids@[i],
                radius as int,
            ),
        forall|i: int, j: usize|
            0 <= i < boids@.len() ==> (#[trigger] lists@[i]@.contains(j) <==> is_candidate(
                boids@,
                edge_length as int,
                boids@[i],
                radius as int,
                j,
            )),
        forall|i: int|
            0 <= i < boids@.len() ==> in_order(boids@, edge_length as int, (#[trigger] lists@[i])@),
{
    let index = NearestNeightborsMap::new(edge_length, boids);
    let mut lists: Vec<Vec<usize>> = Vec::new();
    let mut i: usize = 0;
    while i < boids.len()
        invariant
            i <= boids.len(),
            index.points() == boids@,
            index.edge_length() == edge_length,
            lists@.len() == i,
            forall|k: int|
                0 <= k < i ==> (#[trigger] lists@[k])@ == candidates(
                    boids@,
                    edge_length as int,
                    boids@[k],
                    radius as int,
                ),
            forall|k: int, j: usize|
                0 <= k < i ==> (#[trigger] lists@[k]@.contains(j) <==> is_candidate(
                    boids@,
                    edge_length as int,
                    boids@[k],
                    radius as int,
                    j,
                )),
            forall|k: int|
                0 <= k < i ==> in_order(boids@, edge_length as int, (#[trigger] lists@[k])@),
        decreases boids.len() - i,
    {
        let found = index.find_within_radius(boids[i], radius);
        lists.push(found);
        i += 1;
    }
    lists
}

} // verus!
