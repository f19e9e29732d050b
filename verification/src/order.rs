//! The order in which a query hands back its candidates.
//!
//! The zones of the search area are walked row by row, each row from left to
//! right, and the boids of one zone come in the order of the snapshot. Together
//! with which boids are candidates, this order says what a query hands back:
//! there is only one list of those boids in that order.

use crate::neighbors::{
    bucket, candidates, gather, half_width, lemma_bucket_contains, lemma_bucket_increasing,
    lemma_gather_contains, search_area,
};
use crate::zone::{zone_of, GridPoint, Zone};
use crate::zone_iter::{
    lemma_rect_index_order, lemma_zone_rect_entry, lemma_zone_rect_no_duplicates, zone_before,
};
use vstd::prelude::*;

verus! {

/// Whether the boid at place `i` is handed back before the boid at place `j`:
/// its zone is walked before, or both stand in one zone and `i` is the lower
/// place.
pub open spec fn comes_before(
    points: Seq<GridPoint>,
    edge_length: int,
    i: usize,
    j: usize,
) -> bool {
    let a = zone_of(points[i as int], edge_length);
    let b = zone_of(points[j as int], edge_length);
    zone_before(a, b) || (a == b && i < j)
}

/// Whether every boid of `list` comes before the boids after it.
pub open spec fn in_order(points: Seq<GridPoint>, edge_length: int, list: Seq<usize>) -> bool {
    forall|j: int, k: int|
        0 <= j < k < list.len() ==> comes_before(points, edge_length, list[j], list[k])
}

/// In a sequence without duplicates, an item is found where it stands.
pub proof fn lemma_index_of<A>(items: Seq<A>, i: int)
    requires
        items.no_duplicates(),
        0 <= i < items.len(),
    ensures
        items.index_of(items[i]) == i,
{
    let found = items.index_of(items[i]);
    assert(0 <= found < items.len() && items[found] == items[i]);
}

/// What was gathered from zones that are all different comes zone by zone in
/// the order of the zones, and within a zone in the order of the snapshot.
pub proof fn lemma_gather_in_order(points: Seq<GridPoint>, edge_length: int, zones: Seq<Zone>)
    requires
        points.len() <= usize::MAX,
        zones.no_duplicates(),
    ensures
        forall|j: int, k: int|
            #![trigger gather(points, edge_length, zones)[j], gather(points, edge_length, zones)[k]]
            0 <= j < k < gather(points, edge_length, zones).len() ==> {
                let first = gather(points, edge_length, zones)[j];
                let second = gather(points, edge_length, zones)[k];
                let a = zones.index_of(zone_of(points[first as int], edge_length));
                let b = zones.index_of(zone_of(points[second as int], edge_length));
                a < b || (a == b && first < second)
            },
    decreases zones.len(),
{
    if zones.len() > 0 {
        let earlier = zones.drop_last();
        let before = gather(points, edge_length, earlier);
        let here = bucket(points, edge_length, zones.last());
        let all = gather(points, edge_length, zones);
        lemma_gather_in_order(points, edge_length, earlier);
        lemma_bucket_increasing(points, edge_length, zones.last());
        lemma_index_of(zones, zones.len() - 1);
        assert forall|j: int| 0 <= j < before.len() implies {
            let zone = zone_of(points[#[trigger] before[j] as int], edge_length);
            zones.index_of(zone) == earlier.index_of(zone) && zones.index_of(zone) < zones.len() - 1
        } by {
            let zone = zone_of(points[before[j] as int], edge_length);
            lemma_gather_contains(points, edge_length, earlier, before[j]);
            let at = choose|at: int| 0 <= at < earlier.len() && earlier[at] == zone;
            assert(zones[at] == zone);
            lemma_index_of(zones, at);
            lemma_index_of(earlier, at);
        }
        assert forall|k: int| 0 <= k < here.len() implies zones.index_of(
            zone_of(points[#[trigger] here[k] as int], edge_length),
        ) == zones.len() - 1 by {
            lemma_bucket_contains(points, edge_length, zones.last(), here[k]);
        }
        assert forall|j: int, k: int| 0 <= j < k < all.len() implies {
            let first = #[trigger] all[j];
            let second = #[trigger] all[k];
            let a = zones.index_of(zone_of(points[first as int], edge_length));
            let b = zones.index_of(zone_of(points[second as int], edge_length));
            a < b || (a == b && first < second)
        } by {
            // Both in `before`, one in `before` and one in `here`, or both in
            // `here`.
            assert(all[j] == if j < before.len() { before[j] } else { here[j - before.len()] });
            assert(all[k] == if k < before.len() { before[k] } else { here[k - before.len()] });
        }
    }
}

/// The candidates of a query come in order: zone by zone as the search area
/// is walked, and within a zone in the order of the snapshot.
pub proof fn lemma_candidates_in_order(
    points: Seq<GridPoint>,
    edge_length: int,
    origin: GridPoint,
    radius: int,
)
    requires
        points.len() <= usize::MAX,
    ensures
        in_order(points, edge_length, candidates(points, edge_length, origin, radius)),
{
    let center = zone_of(origin, edge_length);
    let reach = half_width(radius, edge_length);
    let area = search_area(center, reach);
    let found = candidates(points, edge_length, origin, radius);
    if reach >= 0 {
        let start_x = if center.x - reach < i32::MIN { i32::MIN as int } else { center.x - reach };
        let start_y = if center.y - reach < i32::MIN { i32::MIN as int } else { center.y - reach };
        let end_x = if center.x + reach > i32::MAX { i32::MAX as int } else { center.x + reach };
        let end_y = if center.y + reach > i32::MAX { i32::MAX as int } else { center.y + reach };
        lemma_zone_rect_no_duplicates(start_x, start_y, end_x, end_y);
        lemma_gather_in_order(points, edge_length, area);
        assert forall|j: int, k: int| 0 <= j < k < found.len() implies comes_before(
            points,
            edge_length,
            found[j],
            found[k],
        ) by {
            let first = zone_of(points[found[j] as int], edge_length);
            let second = zone_of(points[found[k] as int], edge_length);
            lemma_gather_contains(points, edge_length, area, found[j]);
            lemma_gather_contains(points, edge_length, area, found[k]);
            let a = area.index_of(first);
            let b = area.index_of(second);
            assert(area[a] == first && area[b] == second);
            lemma_zone_rect_entry(start_x, start_y, end_x, end_y, a);
            lemma_zone_rect_entry(start_x, start_y, end_x, end_y, b);
            lemma_rect_index_order(start_x, start_y, end_x, end_y, first, second);
        }
    }
}

/// There is only one list of given boids in order: two lists in order that
/// hold the same boids are the same list.
pub proof fn lemma_lists_in_order_agree(
    points: Seq<GridPoint>,
    edge_length: int,
    one: Seq<usize>,
    other: Seq<usize>,
)
    requires
        in_order(points, edge_length, one),
        in_order(points, edge_length, other),
        forall|i: usize| one.contains(i) <==> other.contains(i),
    ensures
        one == other,
    decreases one.len(),
{
    if one.len() == 0 {
        if other.len() > 0 {
            assert(other.contains(other[0]));
        }
    } else {
        assert(one.contains(one[0]));
        let k = choose|k: int| 0 <= k < other.len() && other[k] == one[0];
        assert(other.contains(other[0]));
        let m = choose|m: int| 0 <= m < one.len() && one[m] == other[0];
        if k > 0 && m > 0 {
            assert(comes_before(points, edge_length, other[0], other[k]));
            assert(comes_before(points, edge_length, one[0], one[m]));
        }
        assert(one[0] == other[0]);
        let one_rest = one.skip(1);
        let other_rest = other.skip(1);
        assert forall|i: usize| one_rest.contains(i) <==> other_rest.contains(i) by {
            if one_rest.contains(i) {
                let j = choose|j: int| 0 <= j < one_rest.len() && one_rest[j] == i;
                assert(comes_before(points, edge_length, one[0], one[j + 1]));
                assert(one.contains(i));
                let at = choose|at: int| 0 <= at < other.len() && other[at] == i;
                assert(other_rest[at - 1] == i);
            }
            if other_rest.contains(i) {
                let j = choose|j: int| 0 <= j < other_rest.len() && other_rest[j] == i;
                assert(comes_before(points, edge_length, other[0], other[j + 1]));
                assert(other.contains(i));
                let at = choose|at: int| 0 <= at < one.len() && one[at] == i;
                assert(one_rest[at - 1] == i);
            }
        }
        assert forall|j: int, k: int| 0 <= j < k < one_rest.len() implies comes_before(
            points,
            edge_length,
            one_rest[j],
            one_rest[k],
        ) by {}
        assert forall|j: int, k: int| 0 <= j < k < other_rest.len() implies comes_before(
            points,
            edge_length,
            other_rest[j],
            other_rest[k],
        ) by {}
        lemma_lists_in_order_agree(points, edge_length, one_rest, other_rest);
        assert(one =~= seq![one[0]] + one_rest);
        assert(other =~= seq![other[0]] + other_rest);
    }
}

} // verus!
