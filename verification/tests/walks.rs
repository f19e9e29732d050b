use boids::zone::Zone;
use boids::zone_iter::ZoneIter;

fn collect(mut walk: ZoneIter) -> Vec<Zone> {
    let mut zones = Vec::new();
    while let Some(zone) = walk.next() {
        zones.push(zone);
    }
    zones
}

#[test]
fn walk_of_radius_one_goes_row_by_row() {
    let zones = collect(ZoneIter::new(&Zone { x: 5, y: 7 }, 1));
    assert_eq!(
        zones,
        vec![
            Zone { x: 4, y: 6 },
            Zone { x: 5, y: 6 },
            Zone { x: 6, y: 6 },
            Zone { x: 4, y: 7 },
            Zone { x: 5, y: 7 },
            Zone { x: 6, y: 7 },
            Zone { x: 4, y: 8 },
            Zone { x: 5, y: 8 },
            Zone { x: 6, y: 8 },
        ]
    );
}

#[test]
fn walk_of_radius_zero_is_the_zone_itself() {
    let zones = collect(ZoneIter::new(&Zone { x: -2, y: 3 }, 0));
    assert_eq!(zones, vec![Zone { x: -2, y: 3 }]);
}

#[test]
fn walk_visits_the_square_of_the_side() {
    for radius in 0..6 {
        let zones = collect(ZoneIter::new(&Zone { x: 0, y: 0 }, radius));
        let side = 2 * radius as usize + 1;
        assert_eq!(zones.len(), side * side);
        for zone in &zones {
            assert!(zone.x.abs() <= radius && zone.y.abs() <= radius);
        }
        let mut distinct = zones.clone();
        distinct.sort_by_key(|zone| (zone.y, zone.x));
        distinct.dedup();
        assert_eq!(distinct, zones);
    }
}

#[test]
fn walk_stays_finished() {
    let mut walk = ZoneIter::new(&Zone { x: 1, y: 1 }, 0);
    assert_eq!(walk.next(), Some(Zone { x: 1, y: 1 }));
    assert_eq!(walk.next(), None);
    assert_eq!(walk.next(), None);
    assert_eq!(walk.next(), None);
}

#[test]
fn walk_can_be_made_again() {
    let center = Zone { x: 9, y: -4 };
    assert_eq!(collect(ZoneIter::new(&center, 2)), collect(ZoneIter::new(&center, 2)));
}

#[test]
fn walk_over_a_rectangle() {
    let zones = collect(ZoneIter::spanning(Zone { x: -1, y: 10 }, Zone { x: 0, y: 12 }));
    assert_eq!(
        zones,
        vec![
            Zone { x: -1, y: 10 },
            Zone { x: 0, y: 10 },
            Zone { x: -1, y: 11 },
            Zone { x: 0, y: 11 },
            Zone { x: -1, y: 12 },
            Zone { x: 0, y: 12 },
        ]
    );
}

#[test]
fn walk_over_a_single_row_and_a_single_column() {
    let row = collect(ZoneIter::spanning(Zone { x: 3, y: 0 }, Zone { x: 5, y: 0 }));
    assert_eq!(row, vec![Zone { x: 3, y: 0 }, Zone { x: 4, y: 0 }, Zone { x: 5, y: 0 }]);
    let column = collect(ZoneIter::spanning(Zone { x: 3, y: 0 }, Zone { x: 3, y: 2 }));
    assert_eq!(column, vec![Zone { x: 3, y: 0 }, Zone { x: 3, y: 1 }, Zone { x: 3, y: 2 }]);
}

#[test]
fn walk_ends_at_the_last_zone_there_is() {
    let last = Zone { x: i32::MAX, y: i32::MAX };
    let zones = collect(ZoneIter::spanning(Zone { x: i32::MAX - 1, y: i32::MAX - 1 }, last));
    assert_eq!(
        zones,
        vec![
            Zone { x: i32::MAX - 1, y: i32::MAX - 1 },
            Zone { x: i32::MAX, y: i32::MAX - 1 },
            Zone { x: i32::MAX - 1, y: i32::MAX },
            last,
        ]
    );
    let first = Zone { x: i32::MIN, y: i32::MIN };
    assert_eq!(collect(ZoneIter::spanning(first, first)), vec![first]);
}
