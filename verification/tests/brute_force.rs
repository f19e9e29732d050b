use boids::neighbors::NearestNeightborsMap;
use boids::zone::GridPoint;

/// A small generator of numbers that look random and are the same each run.
struct Dice(u64);

impl Dice {
    fn next(&mut self) -> u64 {
        self.0 = self.0.wrapping_mul(6364136223846793005).wrapping_add(1442695040888963407);
        self.0 >> 33
    }

    /// A position coordinate between `-span` and `span`, in steps of 1/16.
    fn coordinate(&mut self, span: u64) -> f32 {
        (self.next() % (32 * span)) as f32 / 16.0 - span as f32
    }
}

fn grid_point(position: (f32, f32)) -> GridPoint {
    GridPoint { x: position.0.floor() as i32, y: position.1.floor() as i32 }
}

fn distance(a: (f32, f32), b: (f32, f32)) -> f32 {
    f32::sqrt((a.0 - b.0).powi(2) + (a.1 - b.1).powi(2))
}

fn is_neighbor(boid: (f32, f32), origin: (f32, f32), radius: f32) -> bool {
    distance(boid, origin) < radius && boid != origin
}

fn through_the_index(
    index: &NearestNeightborsMap,
    flock: &[(f32, f32)],
    origin: (f32, f32),
    radius: f32,
) -> Vec<usize> {
    let mut found: Vec<usize> = index
        .find_within_radius(grid_point(origin), radius.ceil() as i32)
        .into_iter()
        .filter(|&i| is_neighbor(flock[i], origin, radius))
        .collect();
    found.sort();
    found
}

fn through_the_flock(flock: &[(f32, f32)], origin: (f32, f32), radius: f32) -> Vec<usize> {
    (0..flock.len()).filter(|&i| is_neighbor(flock[i], origin, radius)).collect()
}

#[test]
fn index_finds_what_the_whole_flock_gives() {
    let mut dice = Dice(2024);
    for round in 0..40 {
        let count = (dice.next() % 120) as usize;
        let span = 20 + dice.next() % 200;
        let flock: Vec<(f32, f32)> =
            (0..count).map(|_| (dice.coordinate(span), dice.coordinate(span))).collect();
        let points: Vec<GridPoint> = flock.iter().map(|&position| grid_point(position)).collect();
        let edge_length = 1 + (dice.next() % 40) as i32;
        let index = NearestNeightborsMap::new(edge_length, &points);
        for _ in 0..25 {
            let radius = (dice.next() % 960) as f32 / 16.0;
            let origin = if count > 0 && dice.next() % 2 == 0 {
                flock[(dice.next() as usize) % count]
            } else {
                (dice.coordinate(span), dice.coordinate(span))
            };
            assert_eq!(
                through_the_index(&index, &flock, origin, radius),
                through_the_flock(&flock, origin, radius),
                "round {round}, edge length {edge_length}, radius {radius}, origin {origin:?}"
            );
        }
    }
}

#[test]
fn index_finds_what_the_whole_flock_gives_for_whole_numbers() {
    // Boids on every grid point of a square, radii that are whole numbers: the
    // boids right at the radius are the ones a slip by one would lose or add.
    let mut flock = Vec::new();
    for x in -12..=12 {
        for y in -12..=12 {
            flock.push((x as f32, y as f32));
        }
    }
    let points: Vec<GridPoint> = flock.iter().map(|&position| grid_point(position)).collect();
    for edge_length in [1, 2, 3, 5, 13] {
        let index = NearestNeightborsMap::new(edge_length, &points);
        for radius in [0.0, 1.0, 2.0, 3.0, 5.0, 10.0] {
            for origin in [(0.0, 0.0), (-12.0, 12.0), (3.0, -4.0), (0.5, 0.5), (-0.25, 7.75)] {
                assert_eq!(
                    through_the_index(&index, &flock, origin, radius),
                    through_the_flock(&flock, origin, radius),
                    "edge length {edge_length}, radius {radius}, origin {origin:?}"
                );
            }
        }
    }
}

#[test]
fn boids_at_the_same_place_do_not_see_each_other() {
    let flock = vec![(4.0, 4.0), (4.0, 4.0), (5.0, 4.0)];
    let points: Vec<GridPoint> = flock.iter().map(|&position| grid_point(position)).collect();
    let index = NearestNeightborsMap::new(13, &points);
    assert_eq!(index.find_within_radius(points[0], 25), vec![0, 1, 2]);
    assert_eq!(through_the_index(&index, &flock, flock[0], 25.0), vec![2]);
    assert_eq!(through_the_flock(&flock, flock[0], 25.0), vec![2]);
}

#[test]
fn three_boids_out_of_sight_of_each_other() {
    let flock = vec![(10.0, 10.0), (10.0, 100.0), (100.0, 10.0)];
    let points: Vec<GridPoint> = flock.iter().map(|&position| grid_point(position)).collect();
    let visual_range: f32 = 25.0;
    let edge_length = (visual_range / 2.0).ceil() as i32;
    assert_eq!(edge_length, 13);
    let index = NearestNeightborsMap::new(edge_length, &points);
    for i in 0..3 {
        assert_eq!(
            through_the_index(&index, &flock, flock[i], visual_range),
            Vec::<usize>::new()
        );
    }
}

#[test]
fn two_boids_one_unit_apart_see_each_other() {
    let flock = vec![(200.0, 200.0), (201.0, 200.0)];
    let points: Vec<GridPoint> = flock.iter().map(|&position| grid_point(position)).collect();
    let index = NearestNeightborsMap::new(13, &points);
    assert_eq!(through_the_index(&index, &flock, flock[0], 25.0), vec![1]);
    assert_eq!(through_the_index(&index, &flock, flock[1], 25.0), vec![0]);
}
