use boids::zone::{floor_div_i64, GridPoint, Zone};

#[test]
fn zone_of_a_point_in_the_first_cell() {
    let zone = Zone::new(GridPoint { x: 10, y: 10 }, 13);
    assert_eq!(zone, Zone { x: 0, y: 0 });
}

#[test]
fn zone_of_points_further_out() {
    assert_eq!(Zone::new(GridPoint { x: 10, y: 100 }, 13), Zone { x: 0, y: 7 });
    assert_eq!(Zone::new(GridPoint { x: 100, y: 10 }, 13), Zone { x: 7, y: 0 });
}

#[test]
fn zone_edges_belong_to_the_zone_they_start() {
    assert_eq!(Zone::new(GridPoint { x: 12, y: 13 }, 13), Zone { x: 0, y: 1 });
    assert_eq!(Zone::new(GridPoint { x: 26, y: 25 }, 13), Zone { x: 2, y: 1 });
}

#[test]
fn zone_of_a_negative_point_rounds_down() {
    assert_eq!(Zone::new(GridPoint { x: -1, y: -13 }, 13), Zone { x: -1, y: -1 });
    assert_eq!(Zone::new(GridPoint { x: -14, y: -26 }, 13), Zone { x: -2, y: -2 });
    assert_eq!(Zone::new(GridPoint { x: -27, y: 0 }, 13), Zone { x: -3, y: 0 });
}

#[test]
fn zone_with_edge_length_one_is_the_point() {
    assert_eq!(Zone::new(GridPoint { x: -7, y: 9 }, 1), Zone { x: -7, y: 9 });
}

#[test]
fn zone_of_the_outermost_points() {
    let corner = GridPoint { x: i32::MIN, y: i32::MAX };
    assert_eq!(Zone::new(corner, 1), Zone { x: i32::MIN, y: i32::MAX });
    assert_eq!(Zone::new(corner, 2), Zone { x: -1_073_741_824, y: 1_073_741_823 });
    assert_eq!(Zone::new(corner, i32::MAX), Zone { x: -2, y: 1 });
}

#[test]
fn floor_division_of_exact_values() {
    assert_eq!(floor_div_i64(37, 13), 2);
    assert_eq!(floor_div_i64(39, 13), 3);
    assert_eq!(floor_div_i64(0, 13), 0);
    assert_eq!(floor_div_i64(-1, 13), -1);
    assert_eq!(floor_div_i64(-13, 13), -1);
    assert_eq!(floor_div_i64(-14, 13), -2);
    assert_eq!(floor_div_i64(i64::MIN, 1), i64::MIN);
    assert_eq!(floor_div_i64(i64::MIN, i64::MAX), -2);
    assert_eq!(floor_div_i64(i64::MAX, i64::MAX), 1);
}

#[test]
fn floor_division_brackets_the_dividend() {
    for a in -50i64..50 {
        for d in 1i64..9 {
            let q = floor_div_i64(a, d);
            assert!(q * d <= a && a < (q + 1) * d, "{a} / {d} gave {q}");
        }
    }
}

#[test]
fn zone_keys_of_given_zones() {
    assert_eq!(Zone { x: i32::MIN, y: i32::MIN }.key(), 0);
    assert_eq!(Zone { x: i32::MIN, y: i32::MAX }.key(), 0xffff_ffff);
    assert_eq!(Zone { x: 0, y: 0 }.key(), 0x8000_0000_8000_0000);
    assert_eq!(Zone { x: 1, y: -1 }.key(), 0x8000_0001_7fff_ffff);
    assert_eq!(Zone { x: i32::MAX, y: i32::MAX }.key(), u64::MAX);
}

#[test]
fn zone_keys_tell_zones_apart() {
    let mut keys = Vec::new();
    for x in -3..=3 {
        for y in -3..=3 {
            keys.push(Zone { x, y }.key());
        }
    }
    let count = keys.len();
    keys.sort();
    keys.dedup();
    assert_eq!(keys.len(), count);
    assert_ne!(Zone { x: 1, y: 0 }.key(), Zone { x: 0, y: 1 }.key());
}

#[test]
fn floor_division_by_parts_is_floor_division_by_the_whole() {
    // A coordinate in sixteenths, rounded down to units and then to zones,
    // lands in the zone that the coordinate itself is in.
    for parts in -2000i64..2000 {
        for edge_length in [1i64, 2, 5, 13] {
            let units = floor_div_i64(parts, 16);
            assert_eq!(
                floor_div_i64(units, edge_length),
                floor_div_i64(parts, 16 * edge_length),
                "{parts} sixteenths, edge length {edge_length}"
            );
        }
    }
}

#[test]
fn zone_of_the_floor_is_the_zone_of_the_position() {
    for (x, y, edge_length, zone) in [
        (10.5f32, 12.99f32, 13, Zone { x: 0, y: 0 }),
        (13.0, 25.999, 13, Zone { x: 1, y: 1 }),
        (-0.001, -13.0, 13, Zone { x: -1, y: -1 }),
        (-13.001, 26.0, 13, Zone { x: -2, y: 2 }),
        (799.9, 0.0, 13, Zone { x: 61, y: 0 }),
    ] {
        let point = GridPoint { x: x.floor() as i32, y: y.floor() as i32 };
        assert_eq!(Zone::new(point, edge_length), zone, "({x}, {y})");
        let exact = Zone {
            x: (x / edge_length as f32).floor() as i32,
            y: (y / edge_length as f32).floor() as i32,
        };
        assert_eq!(exact, zone, "({x}, {y})");
    }
}
