use boids::neighbors::NearestNeightborsMap;
use boids::zone::{GridPoint, Zone};

fn at(x: i32, y: i32) -> GridPoint {
    GridPoint { x, y }
}

#[test]
fn far_boids_are_no_candidates() {
    let points = vec![at(10, 10), at(10, 100), at(100, 10)];
    let index = NearestNeightborsMap::new(13, &points);
    assert_eq!(index.find_within_radius(points[0], 25), vec![0]);
    assert_eq!(index.find_within_radius(points[1], 25), vec![1]);
    assert_eq!(index.find_within_radius(points[2], 25), vec![2]);
}

#[test]
fn empty_flock_has_no_candidates() {
    let index = NearestNeightborsMap::new(13, &Vec::new());
    assert_eq!(index.find_within_radius(at(0, 0), 25), Vec::<usize>::new());
}

#[test]
fn boids_of_one_zone_come_in_the_order_of_the_snapshot() {
    let points = vec![at(3, 3), at(40, 40), at(1, 12), at(12, 0), at(13, 0)];
    let index = NearestNeightborsMap::new(13, &points);
    assert_eq!(index.find_within_radius(at(5, 5), 0), vec![0, 2, 3]);
}

#[test]
fn zones_come_row_by_row() {
    // Zones of edge length 10: boid 0 in (1, 1), boid 1 in (0, 0), boid 2 in
    // (1, 0), boid 3 in (0, 1), boid 4 in (0, 0) again.
    let points = vec![at(15, 15), at(5, 5), at(15, 5), at(5, 15), at(0, 9)];
    let index = NearestNeightborsMap::new(10, &points);
    assert_eq!(index.find_within_radius(at(5, 5), 10), vec![1, 4, 2, 3, 0]);
}

#[test]
fn reach_is_the_radius_in_edge_lengths_rounded_up() {
    // One boid in each of the zones 0, 1, 2, 3 of the row 0.
    let points = vec![at(5, 0), at(15, 0), at(25, 0), at(35, 0)];
    let index = NearestNeightborsMap::new(10, &points);
    assert_eq!(index.find_within_radius(at(5, 0), 0), vec![0]);
    assert_eq!(index.find_within_radius(at(5, 0), 1), vec![0, 1]);
    assert_eq!(index.find_within_radius(at(5, 0), 10), vec![0, 1]);
    assert_eq!(index.find_within_radius(at(5, 0), 11), vec![0, 1, 2]);
    assert_eq!(index.find_within_radius(at(5, 0), 20), vec![0, 1, 2]);
    assert_eq!(index.find_within_radius(at(5, 0), 21), vec![0, 1, 2, 3]);
}

#[test]
fn negative_radius_reaches_nothing_once_it_is_an_edge_length() {
    let points = vec![at(5, 5)];
    let index = NearestNeightborsMap::new(10, &points);
    assert_eq!(index.find_within_radius(at(5, 5), -1), vec![0]);
    assert_eq!(index.find_within_radius(at(5, 5), -9), vec![0]);
    assert_eq!(index.find_within_radius(at(5, 5), -10), Vec::<usize>::new());
    assert_eq!(index.find_within_radius(at(5, 5), i32::MIN), Vec::<usize>::new());
}

#[test]
fn candidates_on_both_sides_of_zero() {
    let points = vec![at(-1, -1), at(0, 0), at(-14, 5), at(13, -13), at(-27, 0)];
    let index = NearestNeightborsMap::new(13, &points);
    // Around (0, 0) with reach 1: the zones -1..=1 in both directions.
    assert_eq!(index.find_within_radius(at(0, 0), 13), vec![0, 3, 1]);
    // With reach 2 the zone (-2, 0) of boid 2 comes in, not the zone (-3, 0).
    assert_eq!(index.find_within_radius(at(0, 0), 14), vec![0, 3, 2, 1]);
}

#[test]
fn query_at_the_rim_of_the_grid() {
    let points = vec![at(i32::MAX, i32::MAX), at(i32::MIN, i32::MIN), at(i32::MAX - 30, i32::MAX)];
    let index = NearestNeightborsMap::new(13, &points);
    assert_eq!(index.find_within_radius(at(i32::MAX, i32::MAX), 25), vec![2, 0]);
    assert_eq!(index.find_within_radius(at(i32::MIN, i32::MIN), 25), vec![1]);
}

#[test]
fn query_is_the_same_each_time() {
    let points = vec![at(1, 1), at(2, 2), at(30, 30), at(14, 1)];
    let index = NearestNeightborsMap::new(13, &points);
    let first = index.find_within_radius(at(1, 1), 25);
    let second = index.find_within_radius(at(1, 1), 25);
    assert_eq!(first, second);
    assert_eq!(first, vec![0, 1, 3, 2]);
}

#[test]
fn no_boid_is_found_twice() {
    let mut points = Vec::new();
    for i in 0..40 {
        points.push(at(i * 3 - 60, (i * 7) % 50 - 25));
    }
    let index = NearestNeightborsMap::new(5, &points);
    let mut found = index.find_within_radius(at(0, 0), 200);
    found.sort();
    assert_eq!(found, (0..40).collect::<Vec<usize>>());
}

#[test]
fn candidates_are_the_boids_in_reach_in_walking_order() {
    let mut points = Vec::new();
    for i in 0..150i32 {
        points.push(at((i * 37) % 211 - 100, (i * 53) % 197 - 90));
    }
    for edge_length in [1, 4, 13, 50] {
        let index = NearestNeightborsMap::new(edge_length, &points);
        for radius in [-5, 0, 1, 13, 25, 60] {
            for origin in [at(0, 0), at(-100, 90), at(57, -33), points[17]] {
                let center = Zone::new(origin, edge_length);
                // The radius in edge lengths, rounded up.
                let reach = (radius + edge_length - 1).div_euclid(edge_length);
                let mut expected: Vec<(i32, i32, usize)> = Vec::new();
                for (place, point) in points.iter().enumerate() {
                    let zone = Zone::new(*point, edge_length);
                    if (zone.x - center.x).abs() <= reach && (zone.y - center.y).abs() <= reach {
                        expected.push((zone.y, zone.x, place));
                    }
                }
                expected.sort();
                let expected: Vec<usize> = expected.into_iter().map(|(_, _, place)| place).collect();
                assert_eq!(
                    index.find_within_radius(origin, radius),
                    expected,
                    "edge length {edge_length}, radius {radius}, origin {origin:?}"
                );
            }
        }
    }
}
