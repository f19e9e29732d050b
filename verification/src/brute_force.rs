//! The index against the plain search through the whole flock.
//!
//! Which boids are neighbors is decided by an exact test on positions that
//! the caller applies. The index only narrows the flock down to candidates
//! first. This module shows that nothing is lost by it: as long as the exact
//! test passes only boids within the radius, testing the candidates and
//! testing every boid keep the same boids.

use crate::exact::{
    grid_point_of, lemma_nearer_points_in_reach, nearer_than, on_grid, ExactPoint,
};
use crate::neighbors::{
    candidates, lemma_candidates, lemma_nearby_points_are_candidates, point_in_reach,
};
use crate::zone::{ceil_div, GridPoint};
use vstd::prelude::*;

verus! {

/// The places of a flock of `count` boids, in order.
pub open spec fn every_boid(count: nat) -> Seq<usize> {
    Seq::new(count, |i: int| i as usize)
}

/// Filtering a sequence without duplicates leaves no duplicates.
pub proof fn lemma_filter_no_duplicates<A>(items: Seq<A>, keep: spec_fn(A) -> bool)
    requires
        items.no_duplicates(),
    ensures
        items.filter(keep).no_duplicates(),
    decreases items.len(),
{
    reveal(Seq::filter);
    if items.len() > 0 {
        let earlier = items.drop_last();
        lemma_filter_no_duplicates(earlier, keep);
        if keep(items.last()) {
            let kept = earlier.filter(keep);
            assert forall|j: int| 0 <= j < kept.len() implies kept[j] != items.last() by {
                if kept[j] == items.last() {
                    earlier.lemma_filter_contains_rev(keep, items.last());
                    let at = choose|at: int| 0 <= at < earlier.len() && earlier[at] == items.last();
                    assert(items[at] == items[items.len() - 1]);
                }
            }
        }
    }
}

/// What a filter keeps: the items of the sequence that pass the test.
pub proof fn lemma_filter_keeps<A>(items: Seq<A>, keep: spec_fn(A) -> bool, item: A)
    ensures
        items.filter(keep).contains(item) <==> (items.contains(item) && keep(item)),
{
    let kept = items.filter(keep);
    if kept.contains(item) {
        items.lemma_filter_contains_rev(keep, item);
        let at = choose|at: int| 0 <= at < kept.len() && kept[at] == item;
        items.lemma_filter_pred(keep, at);
    }
    if items.contains(item) && keep(item) {
        let at = choose|at: int| 0 <= at < items.len() && items[at] == item;
        items.lemma_filter_contains(keep, at);
    }
}

/// A query through the index finds what a search through the whole flock
/// finds. Let `near` be any test that passes only boids at most `radius` away
/// from `origin` along each axis, as a test for a distance below `radius`
/// does. Then the candidates that pass it are the boids of the flock that pass
/// it: the same boids, each once, and as many.
pub proof fn lemma_query_matches_brute_force(
    points: Seq<GridPoint>,
    edge_length: int,
    origin: GridPoint,
    radius: int,
    near: spec_fn(usize) -> bool,
)
    requires
        edge_length > 0,
        points.len() <= usize::MAX,
        forall|i: usize|
            i < points.len() && #[trigger] near(i) ==> point_in_reach(
                points[i as int],
                origin,
                radius,
            ),
    ensures
        forall|i: usize|
            #[trigger] candidates(points, edge_length, origin, radius).filter(near).contains(i)
                <==> every_boid(points.len()).filter(near).contains(i),
        forall|i: usize|
            #[trigger] every_boid(points.len()).filter(near).contains(i) <==> (i < points.len()
                && near(i)),
        candidates(points, edge_length, origin, radius).filter(near).no_duplicates(),
        every_boid(points.len()).filter(near).no_duplicates(),
        candidates(points, edge_length, origin, radius).filter(near).len() == every_boid(
            points.len(),
        ).filter(near).len(),
{
    let found = candidates(points, edge_length, origin, radius);
    let flock = every_boid(points.len());
    assert forall|i: usize|
        #[trigger] flock.filter(near).contains(i) <==> (i < points.len() && near(i)) by {
        lemma_filter_keeps(flock, near, i);
        if i < points.len() {
            assert(flock[i as int] == i);
        }
    }
    assert forall|i: usize|
        #[trigger] found.filter(near).contains(i) <==> flock.filter(near).contains(i) by {
        lemma_filter_keeps(found, near, i);
        lemma_candidates(points, edge_length, origin, radius, i);
        if i < points.len() && near(i) {
            lemma_nearby_points_are_candidates(points, edge_length, origin, radius, i);
        }
    }
    lemma_candidates(points, edge_length, origin, radius, 0);
    lemma_filter_no_duplicates(found, near);
    lemma_filter_no_duplicates(flock, near);
    found.filter(near).unique_seq_to_set();
    flock.filter(near).unique_seq_to_set();
    assert(found.filter(near).to_set() =~= flock.filter(near).to_set());
}

/// The grid points of a flock of exact positions.
pub open spec fn grid_points_of(positions: Seq<ExactPoint>, scale: int) -> Seq<GridPoint> {
    Seq::new(positions.len(), |i: int| grid_point_of(positions[i], scale))
}

/// Whether the boid at place `i` is a neighbor of `origin`: nearer to it than
/// `radius`, and not at `origin` itself.
pub open spec fn is_neighbor(
    positions: Seq<ExactPoint>,
    origin: ExactPoint,
    radius: int,
    i: usize,
) -> bool {
    &&& i < positions.len()
    &&& nearer_than(positions[i as int], origin, radius)
    &&& positions[i as int] != origin
}

/// The neighbors of `origin` as a search through the whole flock finds them:
/// the boids that are neighbors, in the order of the flock.
pub open spec fn through_flock(positions: Seq<ExactPoint>, origin: ExactPoint, radius: int) -> Seq<
    usize,
> {
    every_boid(positions.len()).filter(|i: usize| is_neighbor(positions, origin, radius, i))
}

/// The neighbors of `origin` as the index finds them: the candidates of a
/// query for the rounded radius around the grid point of the origin, in the
/// index over the grid points of the flock, that are neighbors.
pub open spec fn through_index(
    positions: Seq<ExactPoint>,
    scale: int,
    edge_length: int,
    origin: ExactPoint,
    radius: int,
) -> Seq<usize> {
    candidates(
        grid_points_of(positions, scale),
        edge_length,
        grid_point_of(origin, scale),
        ceil_div(radius, scale),
    ).filter(|i: usize| is_neighbor(positions, origin, radius, i))
}

/// The index finds the neighbors that the search through the whole flock
/// finds: every boid that is nearer to the origin than the radius and not at
/// the origin, each once, and no other boid.
pub proof fn lemma_index_matches_exact_search(
    positions: Seq<ExactPoint>,
    scale: int,
    edge_length: int,
    origin: ExactPoint,
    radius: int,
)
    requires
        scale > 0,
        edge_length > 0,
        positions.len() <= usize::MAX,
        on_grid(origin, scale),
        forall|i: int| 0 <= i < positions.len() ==> on_grid(#[trigger] positions[i], scale),
    ensures
        forall|i: usize|
            #[trigger] through_index(positions, scale, edge_length, origin, radius).contains(i)
                <==> is_neighbor(positions, origin, radius, i),
        forall|i: usize|
            #[trigger] through_flock(positions, origin, radius).contains(i) <==> is_neighbor(
                positions,
                origin,
                radius,
                i,
            ),
        through_index(positions, scale, edge_length, origin, radius).no_duplicates(),
        through_flock(positions, origin, radius).no_duplicates(),
        through_index(positions, scale, edge_length, origin, radius).len() == through_flock(
            positions,
            origin,
            radius,
        ).len(),
{
    let points = grid_points_of(positions, scale);
    let near = |i: usize| is_neighbor(positions, origin, radius, i);
    assert forall|i: usize| i < points.len() && #[trigger] near(i) implies point_in_reach(
        points[i as int],
        grid_point_of(origin, scale),
        ceil_div(radius, scale),
    ) by {
        lemma_nearer_points_in_reach(positions[i as int], origin, radius, scale);
    }
    lemma_query_matches_brute_force(
        points,
        edge_length,
        grid_point_of(origin, scale),
        ceil_div(radius, scale),
        near,
    );
    let by_index = through_index(positions, scale, edge_length, origin, radius);
    let by_flock = through_flock(positions, origin, radius);
    assert forall|i: usize| #[trigger]
        by_flock.contains(i) <==> is_neighbor(positions, origin, radius, i) by {
        assert(every_boid(points.len()).filter(near).contains(i) <==> (i < points.len() && near(
            i,
        )));
    }
    assert forall|i: usize| #[trigger]
        by_index.contains(i) <==> is_neighbor(positions, origin, radius, i) by {
        assert(by_index.contains(i) <==> by_flock.contains(i));
    }
}

} // verus!
