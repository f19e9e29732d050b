//! The spatial index: which boids stand in which zone, and which boids can be
//! near a given point.
//!
//! The index is built from a snapshot of the flock, one [`GridPoint`] per boid,
//! and names each boid by its place in that snapshot. A query walks the square
//! of zones around the origin and hands back every boid filed in one of them:
//! the candidates. No boid within the radius is missed, so testing the
//! candidates against the exact distance gives the same boids as testing the
//! whole flock.

use crate::buckets::{bucket_at, entry_at};
use crate::order::{in_order, lemma_candidates_in_order};
use crate::zone::{
    ceil_div, floor_div, floor_div_i64, lemma_floor_div_bounds, lemma_floor_div_monotonic,
    lemma_floor_div_range, lemma_floor_div_shift, lemma_zone_key_injective, zone_key, zone_of,
    GridPoint, Zone,
};
use crate::zone_iter::{
    lemma_zone_rect_contains, lemma_zone_rect_no_duplicates, zone_rect, ZoneIter,
};
use fnv::FnvHashMap;
use vstd::prelude::*;

verus! {

/// The boids that stand in `zone`: their places in `points`, in increasing
/// order.
pub open spec fn bucket(points: Seq<GridPoint>, edge_length: int, zone: Zone) -> Seq<usize>
    decreases points.len(),
{
    if points.len() == 0 {
        Seq::empty()
    } else {
        let earlier = bucket(points.drop_last(), edge_length, zone);
        if zone_of(points.last(), edge_length) == zone {
            earlier.push((points.len() - 1) as usize)
        } else {
            earlier
        }
    }
}

/// The buckets of `zones`, one after the other.
pub open spec fn gather(points: Seq<GridPoint>, edge_length: int, zones: Seq<Zone>) -> Seq<usize>
    decreases zones.len(),
{
    if zones.len() == 0 {
        Seq::empty()
    } else {
        gather(points, edge_length, zones.drop_last()) + bucket(points, edge_length, zones.last())
    }
}

/// How many zones a query of `radius` reaches from the zone of its origin in
/// every direction: the radius in edge lengths, rounded up.
pub open spec fn half_width(radius: int, edge_length: int) -> int {
    ceil_div(radius, edge_length)
}

/// Whether `zone` is at most `reach` columns and at most `reach` rows away
/// from `origin`.
pub open spec fn zone_in_reach(zone: Zone, origin: Zone, reach: int) -> bool {
    &&& origin.x - reach <= zone.x <= origin.x + reach
    &&& origin.y - reach <= zone.y <= origin.y + reach
}

/// The zones within `reach` of `origin`, row by row. Columns and rows that no
/// zone can have are left out; a negative `reach` gives no zone at all.
pub open spec fn search_area(origin: Zone, reach: int) -> Seq<Zone> {
    if reach < 0 {
        Seq::empty()
    } else {
        zone_rect(
            if origin.x - reach < i32::MIN { i32::MIN as int } else { origin.x - reach },
            if origin.y - reach < i32::MIN { i32::MIN as int } else { origin.y - reach },
            if origin.x + reach > i32::MAX { i32::MAX as int } else { origin.x + reach },
            if origin.y + reach > i32::MAX { i32::MAX as int } else { origin.y + reach },
        )
    }
}

/// What a query for `radius` around `origin` hands back: the buckets of the
/// zones of its search area, in the order of the area.
pub open spec fn candidates(
    points: Seq<GridPoint>,
    edge_length: int,
    origin: GridPoint,
    radius: int,
) -> Seq<usize> {
    gather(
        points,
        edge_length,
        search_area(zone_of(origin, edge_length), half_width(radius, edge_length)),
    )
}

/// Whether the boid at place `i` is a candidate of a query for `radius` around
/// `origin`: whether its zone is within reach of the zone of `origin`.
pub open spec fn is_candidate(
    points: Seq<GridPoint>,
    edge_length: int,
    origin: GridPoint,
    radius: int,
    i: usize,
) -> bool {
    &&& i < points.len()
    &&& zone_in_reach(
        zone_of(points[i as int], edge_length),
        zone_of(origin, edge_length),
        half_width(radius, edge_length),
    )
}

/// Whether `point` is at most `radius` away from `origin` along each axis.
pub open spec fn point_in_reach(point: GridPoint, origin: GridPoint, radius: int) -> bool {
    &&& origin.x - radius <= point.x <= origin.x + radius
    &&& origin.y - radius <= point.y <= origin.y + radius
}

/// A bucket holds the boids of its zone and no others.
pub proof fn lemma_bucket_contains(points: Seq<GridPoint>, edge_length: int, zone: Zone, i: usize)
    requires
        points.len() <= usize::MAX,
    ensures
        bucket(points, edge_length, zone).contains(i) <==> (i < points.len() && zone_of(
            points[i as int],
            edge_length,
        ) == zone),
    decreases points.len(),
{
    if points.len() > 0 {
        let earlier = bucket(points.drop_last(), edge_length, zone);
        let last = (points.len() - 1) as usize;
        lemma_bucket_contains(points.drop_last(), edge_length, zone, i);
        if zone_of(points.last(), edge_length) == zone {
            assert(earlier.push(last).last() == last);
            assert forall|j: int| 0 <= j < earlier.len() implies earlier.push(last)[j]
                == earlier[j] by {}
            if earlier.contains(i) {
                let j = choose|j: int| 0 <= j < earlier.len() && earlier[j] == i;
                assert(earlier.push(last)[j] == i);
            }
        }
    }
}

/// A bucket lists its boids in strictly increasing order.
pub proof fn lemma_bucket_increasing(points: Seq<GridPoint>, edge_length: int, zone: Zone)
    requires
        points.len() <= usize::MAX,
    ensures
        forall|j: int, k: int|
            0 <= j < k < bucket(points, edge_length, zone).len() ==> bucket(
                points,
                edge_length,
                zone,
            )[j] < bucket(points, edge_length, zone)[k],
        forall|j: int|
            0 <= j < bucket(points, edge_length, zone).len() ==> bucket(
                points,
                edge_length,
                zone,
            )[j] < points.len(),
        bucket(points, edge_length, zone).no_duplicates(),
    decreases points.len(),
{
    if points.len() > 0 {
        lemma_bucket_increasing(points.drop_last(), edge_length, zone);
    }
}

/// What was gathered from some zones holds the boids that stand in one of
/// them and no others.
pub proof fn lemma_gather_contains(
    points: Seq<GridPoint>,
    edge_length: int,
    zones: Seq<Zone>,
    i: usize,
)
    requires
        points.len() <= usize::MAX,
    ensures
        gather(points, edge_length, zones).contains(i) <==> (i < points.len() && zones.contains(
            zone_of(points[i as int], edge_length),
        )),
    decreases zones.len(),
{
    if zones.len() > 0 {
        let before = gather(points, edge_length, zones.drop_last());
        let here = bucket(points, edge_length, zones.last());
        let all = before + here;
        lemma_gather_contains(points, edge_length, zones.drop_last(), i);
        lemma_bucket_contains(points, edge_length, zones.last(), i);
        let zone = zone_of(points[i as int], edge_length);
        if before.contains(i) {
            let j = choose|j: int| 0 <= j < before.len() && before[j] == i;
            assert(all[j] == i);
            let k = choose|k: int| 0 <= k < zones.drop_last().len() && zones.drop_last()[k] == zone;
            assert(zones[k] == zone);
        }
        if here.contains(i) {
            let j = choose|j: int| 0 <= j < here.len() && here[j] == i;
            assert(all[before.len() + j] == i);
        }
        if all.contains(i) {
            let j = choose|j: int| 0 <= j < all.len() && all[j] == i;
            assert(if j < before.len() { before[j] == i } else { here[j - before.len()] == i });
        }
        if i < points.len() && zones.contains(zone) {
            let k = choose|k: int| 0 <= k < zones.len() && zones[k] == zone;
            if k < zones.len() - 1 {
                assert(zones.drop_last()[k] == zone);
            }
        }
    }
}

/// Where no zone is walked twice, no boid is gathered twice.
pub proof fn lemma_gather_no_duplicates(points: Seq<GridPoint>, edge_length: int, zones: Seq<Zone>)
    requires
        points.len() <= usize::MAX,
        zones.no_duplicates(),
    ensures
        gather(points, edge_length, zones).no_duplicates(),
    decreases zones.len(),
{
    if zones.len() > 0 {
        let before = gather(points, edge_length, zones.drop_last());
        let here = bucket(points, edge_length, zones.last());
        let all = before + here;
        lemma_gather_no_duplicates(points, edge_length, zones.drop_last());
        lemma_bucket_increasing(points, edge_length, zones.last());
        assert forall|j: int, k: int| 0 <= j < before.len() && 0 <= k < here.len() implies before[j]
            != here[k] by {
            let i = before[j];
            if i == here[k] {
                lemma_gather_contains(points, edge_length, zones.drop_last(), i);
                lemma_bucket_contains(points, edge_length, zones.last(), i);
                let at = choose|at: int|
                    0 <= at < zones.drop_last().len() && zones.drop_last()[at] == zones.last();
                assert(zones[at] == zones[zones.len() - 1]);
            }
        }
    }
}

/// The search area holds the zones within reach of the origin, each once.
pub proof fn lemma_search_area(origin: Zone, reach: int, zone: Zone)
    ensures
        search_area(origin, reach).contains(zone) <==> zone_in_reach(zone, origin, reach),
        search_area(origin, reach).no_duplicates(),
{
    if reach >= 0 {
        let start_x = if origin.x - reach < i32::MIN { i32::MIN as int } else { origin.x - reach };
        let start_y = if origin.y - reach < i32::MIN { i32::MIN as int } else { origin.y - reach };
        let end_x = if origin.x + reach > i32::MAX { i32::MAX as int } else { origin.x + reach };
        let end_y = if origin.y + reach > i32::MAX { i32::MAX as int } else { origin.y + reach };
        lemma_zone_rect_contains(start_x, start_y, end_x, end_y, zone);
        lemma_zone_rect_no_duplicates(start_x, start_y, end_x, end_y);
    }
}

/// The candidates of a query are the boids whose zone is within reach of the
/// zone of the origin, each once.
pub proof fn lemma_candidates(
    points: Seq<GridPoint>,
    edge_length: int,
    origin: GridPoint,
    radius: int,
    i: usize,
)
    requires
        points.len() <= usize::MAX,
    ensures
        candidates(points, edge_length, origin, radius).contains(i) <==> is_candidate(
            points,
            edge_length,
            origin,
            radius,
            i,
        ),
        candidates(points, edge_length, origin, radius).no_duplicates(),
{
    let center = zone_of(origin, edge_length);
    let reach = half_width(radius, edge_length);
    lemma_gather_contains(points, edge_length, search_area(center, reach), i);
    if i < points.len() {
        lemma_search_area(center, reach, zone_of(points[i as int], edge_length));
    }
    lemma_search_area(center, reach, center);
    lemma_gather_no_duplicates(points, edge_length, search_area(center, reach));
}

/// Two coordinates at most `radius` apart fall in columns at most
/// `half_width(radius, edge_length)` apart.
pub proof fn lemma_close_coordinates_close_zones(a: int, b: int, radius: int, edge_length: int)
    requires
        edge_length > 0,
        b - radius <= a <= b + radius,
    ensures
        floor_div(b, edge_length) - half_width(radius, edge_length) <= floor_div(a, edge_length)
            <= floor_div(b, edge_length) + half_width(radius, edge_length),
{
    let reach = half_width(radius, edge_length);
    // The reach in edge lengths is no less than the radius.
    lemma_floor_div_bounds(radius + edge_length - 1, edge_length);
    assert(radius <= reach * edge_length);
    lemma_floor_div_shift(b, reach, edge_length);
    lemma_floor_div_shift(b, -reach, edge_length);
    assert((-reach) * edge_length == -(reach * edge_length)) by (nonlinear_arith);
    lemma_floor_div_monotonic(a, b + reach * edge_length, edge_length);
    lemma_floor_div_monotonic(b + (-reach) * edge_length, a, edge_length);
}

/// A query misses no boid that is within its radius: every boid at most
/// `radius` away from the origin along each axis is a candidate.
pub proof fn lemma_nearby_points_are_candidates(
    points: Seq<GridPoint>,
    edge_length: int,
    origin: GridPoint,
    radius: int,
    i: usize,
)
    requires
        edge_length > 0,
        points.len() <= usize::MAX,
        i < points.len(),
        point_in_reach(points[i as int], origin, radius),
    ensures
        candidates(points, edge_length, origin, radius).contains(i),
{
    let point = points[i as int];
    lemma_close_coordinates_close_zones(point.x as int, origin.x as int, radius, edge_length);
    lemma_close_coordinates_close_zones(point.y as int, origin.y as int, radius, edge_length);
    lemma_floor_div_range(point.x as int, edge_length);
    lemma_floor_div_range(point.y as int, edge_length);
    lemma_floor_div_range(origin.x as int, edge_length);
    lemma_floor_div_range(origin.y as int, edge_length);
    lemma_candidates(points, edge_length, origin, radius, i);
}

/// What the candidates of a query are, for all boids at once: the boids whose
/// zone is within reach, each once, so at most as many as the flock has, and
/// among them every boid at most `radius` away from the origin along each axis.
pub proof fn lemma_query(points: Seq<GridPoint>, edge_length: int, origin: GridPoint, radius: int)
    requires
        edge_length > 0,
        points.len() <= usize::MAX,
    ensures
        candidates(points, edge_length, origin, radius).no_duplicates(),
        candidates(points, edge_length, origin, radius).len() <= points.len(),
        forall|i: usize|
            #[trigger] candidates(points, edge_length, origin, radius).contains(i)
                <==> is_candidate(points, edge_length, origin, radius, i),
        forall|i: usize|
            i < points.len() && point_in_reach(points[i as int], origin, radius)
                ==> #[trigger] candidates(points, edge_length, origin, radius).contains(i),
{
    let found = candidates(points, edge_length, origin, radius);
    assert forall|i: usize| #[trigger] found.contains(i) <==> is_candidate(
        points,
        edge_length,
        origin,
        radius,
        i,
    ) by {
        lemma_candidates(points, edge_length, origin, radius, i);
    }
    assert forall|i: usize|
        i < points.len() && point_in_reach(
            points[i as int],
            origin,
            radius,
        ) implies #[trigger] found.contains(i) by {
        lemma_nearby_points_are_candidates(points, edge_length, origin, radius, i);
    }
    lemma_candidates(points, edge_length, origin, radius, 0);
    lemma_distinct_places_are_few(found, points.len());
}

/// A list of places below `count` without duplicates has at most `count`
/// places.
pub proof fn lemma_distinct_places_are_few(places: Seq<usize>, count: nat)
    requires
        count <= usize::MAX,
        places.no_duplicates(),
        forall|i: usize| #[trigger] places.contains(i) ==> i < count,
    ensures
        places.len() <= count,
{
    lemma_places_below(count);
    let below = Set::new(|i: usize| i < count);
    assert(places.to_set().subset_of(below));
    vstd::set_lib::lemma_len_subset(places.to_set(), below);
    places.unique_seq_to_set();
}

/// There are `count` places below `count`.
proof fn lemma_places_below(count: nat)
    requires
        count <= usize::MAX,
    ensures
        Set::new(|i: usize| i < count).finite(),
        Set::new(|i: usize| i < count).len() == count,
    decreases count,
{
    let below = Set::new(|i: usize| i < count);
    if count == 0 {
        assert(below =~= Set::<usize>::empty());
    } else {
        let fewer = (count - 1) as nat;
        lemma_places_below(fewer);
        assert(below =~= Set::new(|i: usize| i < fewer).insert(fewer as usize));
    }
}

/// Whether `map` holds under the key of `zone` exactly the bucket of `zone`,
/// and nothing where the bucket is empty.
spec fn cell_filed(
    map: Map<u64, Vec<usize>>,
    points: Seq<GridPoint>,
    edge_length: int,
    zone: Zone,
) -> bool {
    if bucket(points, edge_length, zone).len() == 0 {
        !map.contains_key(zone_key(zone))
    } else {
        map.contains_key(zone_key(zone)) && map[zone_key(zone)]@ == bucket(
            points,
            edge_length,
            zone,
        )
    }
}

/// Whether `map` files every boid of `points` under the key of its zone.
spec fn filed(map: Map<u64, Vec<usize>>, points: Seq<GridPoint>, edge_length: int) -> bool {
    forall|zone: Zone| #![trigger zone_key(zone)] cell_filed(map, points, edge_length, zone)
}

/// The 32-bit integer nearest to `value`.
fn clamp_to_i32(value: i64) -> (clamped: i32)
    ensures
        clamped == if value < i32::MIN {
            i32::MIN as int
        } else if value > i32::MAX {
            i32::MAX as int
        } else {
            value as int
        },
{
    if value < i32::MIN as i64 {
        i32::MIN
    } else if value > i32::MAX as i64 {
        i32::MAX
    } else {
        value as i32
    }
}

/// The index over one snapshot of the flock.
pub struct NearestNeightborsMap {
    map: FnvHashMap<u64, Vec<usize>>,
    edge_length: i32,
    points: Ghost<Seq<GridPoint>>,
}

impl NearestNeightborsMap {
    #[verifier::type_invariant]
    spec fn well_formed(self) -> bool {
        &&& self.edge_length > 0
        &&& self.points@.len() <= usize::MAX
        &&& filed(self.map@, self.points@, self.edge_length as int)
    }

    /// The snapshot the index was built from.
    pub closed spec fn points(self) -> Seq<GridPoint> {
        self.points@
    }

    /// The edge length of the zones.
    pub closed spec fn edge_length(self) -> int {
        self.edge_length as int
    }

    /// Files every boid of the snapshot under its zone.
    pub fn new(edge_length: i32, boids: &Vec<GridPoint>) -> (index: NearestNeightborsMap)
        requires
            edge_length > 0,
        ensures
            index.points() == boids@,
            index.edge_length() == edge_length,
    {
        let mut map: FnvHashMap<u64, Vec<usize>> = FnvHashMap::default();
        let mut i: usize = 0;
        while i < boids.len()
            invariant
                edge_length > 0,
                i <= boids.len(),
                filed(map@, boids@.take(i as int), edge_length as int),
            decreases boids.len() - i,
        {
            let zone = Zone::new(boids[i], edge_length);
            let key = zone.key();
            let ghost before = map@;
            let bucket = entry_at(&mut map, key).or_insert(Vec::new());
            bucket.push(i);
            proof {
                let earlier = boids@.take(i as int);
                let now = boids@.take(i + 1);
                assert(now.drop_last() =~= earlier);
                assert forall|other: Zone|
                    #![trigger zone_key(other)]
                    cell_filed(map@, now, edge_length as int, other) by {
                    assert(cell_filed(before, earlier, edge_length as int, other));
                    if other == zone {
                        assert(map@[key]@ =~= self::bucket(now, edge_length as int, other));
                    } else if zone_key(other) == key {
                        lemma_zone_key_injective(other, zone);
                    }
                }
            }
            i += 1;
        }
        assert(boids@.take(i as int) =~= boids@);
        NearestNeightborsMap { map, edge_length, points: Ghost(boids@) }
    }

    /// The boids that can be within `radius` of `origin`: those filed in a zone
    /// at most `half_width(radius, edge_length)` zones away from the zone of
    /// `origin`, each once. They come zone by zone as the search area is
    /// walked, the boids of one zone in the order of the snapshot.
    ///
    /// `origin` is the grid point of the place searched around, and `radius` a
    /// whole number that is not below the distance searched. Every boid nearer
    /// than that is among the candidates; which of the candidates are, is for
    /// the caller to test on the exact positions.
    pub fn find_within_radius(&self, origin: GridPoint, radius: i32) -> (found: Vec<usize>)
        ensures
            found@ == candidates(self.points(), self.edge_length(), origin, radius as int),
            found@.no_duplicates(),
            found@.len() <= self.points().len(),
            in_order(self.points(), self.edge_length(), found@),
            forall|i: usize|
                #[trigger] found@.contains(i) <==> is_candidate(
                    self.points(),
                    self.edge_length(),
                    origin,
                    radius as int,
                    i,
                ),
            forall|i: usize|
                i < self.points().len() && point_in_reach(
                    self.points()[i as int],
                    origin,
                    radius as int,
                ) ==> #[trigger] found@.contains(i),
    {
        proof {
            use_type_invariant(self);
            lemma_query(self.points(), self.edge_length(), origin, radius as int);
            lemma_candidates_in_order(self.points(), self.edge_length(), origin, radius as int);
            lemma_floor_div_range(radius + self.edge_length - 1, self.edge_length as int);
        }
        let mut found: Vec<usize> = Vec::new();
        let center = Zone::new(origin, self.edge_length);
        let reach: i64 = floor_div_i64(
            radius as i64 + self.edge_length as i64 - 1,
            self.edge_length as i64,
        );
        if reach < 0 {
            return found;
        }
        let start = Zone {
            x: clamp_to_i32(center.x as i64 - reach),
            y: clamp_to_i32(center.y as i64 - reach),
        };
        let end = Zone {
            x: clamp_to_i32(center.x as i64 + reach),
            y: clamp_to_i32(center.y as i64 + reach),
        };
        let ghost area = search_area(center, reach as int);
        let mut walk = ZoneIter::spanning(start, end);
        loop
            invariant
                walk.first() == start,
                walk.last() == end,
                walk.zones() == area,
                0 <= walk.position() <= area.len(),
                found@ == gather(self.points(), self.edge_length(), area.take(walk.position())),
            ensures
                found@ == gather(self.points(), self.edge_length(), area),
            decreases area.len() - walk.position(),
        {
            let ghost done = area.take(walk.position());
            match walk.next() {
                None => {
                    assert(done =~= area);
                    break ;
                },
                Some(zone) => {
                    proof {
                        use_type_invariant(self);
                        let now = area.take(walk.position());
                        assert(now.drop_last() =~= done);
                    }
                    let ghost before = found@;
                    match bucket_at(&self.map, zone.key()) {
                        None => {},
                        Some(bucket) => {
                            let mut j: usize = 0;
                            while j < bucket.len()
                                invariant
                                    j <= bucket.len(),
                                    found@ == before + bucket@.take(j as int),
                                decreases bucket.len() - j,
                            {
                                found.push(bucket[j]);
                                assert(bucket@.take(j + 1) =~= bucket@.take(j as int).push(
                                    bucket@[j as int],
                                ));
                                j += 1;
                            }
                        },
                    }
                },
            }
        }
        found
    }
}

} // verus!
