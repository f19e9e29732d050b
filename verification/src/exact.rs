//! Exact positions, and why whole numbers are enough for the grid.
//!
//! Boids stand at positions that are not whole numbers. Here a position is
//! exact: each coordinate is a whole number of parts, `scale` parts to the
//! unit, so that `x` stands for `x / scale`. Any finite set of binary
//! fractions can be written so. Distances and ranges are in parts as well.
//!
//! The index sees of a position only its grid point, and of a radius only the
//! least whole number that is not below it. This module shows that it loses
//! nothing by that: the zone of a grid point is the zone of the position, the
//! reach of a rounded radius is the reach of the radius, and a boid nearer than
//! the radius has its grid point within the rounded radius.

use crate::neighbors::{half_width, lemma_close_coordinates_close_zones, point_in_reach};
use crate::zone::{ceil_div, floor_div, lemma_floor_div_bounds, lemma_floor_div_unique, GridPoint};
use vstd::prelude::*;

verus! {

/// A position in parts of the unit.
pub struct ExactPoint {
    pub x: int,
    pub y: int,
}

/// The grid point of an exact position: each coordinate in units, rounded
/// down.
pub open spec fn grid_point_of(position: ExactPoint, scale: int) -> GridPoint {
    GridPoint {
        x: floor_div(position.x, scale) as i32,
        y: floor_div(position.y, scale) as i32,
    }
}

/// Whether the grid point of `position` has coordinates that fit a
/// `GridPoint`.
pub open spec fn on_grid(position: ExactPoint, scale: int) -> bool {
    &&& i32::MIN <= floor_div(position.x, scale) <= i32::MAX
    &&& i32::MIN <= floor_div(position.y, scale) <= i32::MAX
}

/// Whether `position` is nearer to `origin` than `radius`, all three in parts:
/// whether the square of the distance is below the square of the radius.
/// Nothing is nearer than a radius that is not positive.
pub open spec fn nearer_than(position: ExactPoint, origin: ExactPoint, radius: int) -> bool {
    &&& radius > 0
    &&& (position.x - origin.x) * (position.x - origin.x) + (position.y - origin.y) * (position.y
        - origin.y) < radius * radius
}

/// Rounding down twice is rounding down once: dividing by `scale` and then by
/// `edge_length` gives what dividing by their product gives. So the zone of a
/// grid point is the zone of the exact position.
pub proof fn lemma_floor_div_nested(a: int, scale: int, edge_length: int)
    requires
        scale > 0,
        edge_length > 0,
    ensures
        scale * edge_length > 0,
        floor_div(floor_div(a, scale), edge_length) == floor_div(a, scale * edge_length),
{
    let units = floor_div(a, scale);
    let zones = floor_div(units, edge_length);
    lemma_floor_div_bounds(a, scale);
    lemma_floor_div_bounds(units, edge_length);
    assert(scale * edge_length > 0) by (nonlinear_arith)
        requires
            scale > 0,
            edge_length > 0,
    ;
    assert(zones * (scale * edge_length) <= a < zones * (scale * edge_length) + scale
        * edge_length) by (nonlinear_arith)
        requires
            scale > 0,
            edge_length > 0,
            units * scale <= a < units * scale + scale,
            zones * edge_length <= units < zones * edge_length + edge_length,
    ;
    lemma_floor_div_unique(a, scale * edge_length, zones);
}

/// Rounding up twice is rounding up once. So the reach of a radius rounded up
/// to units is the reach of the exact radius, and the edge length of a visual
/// range rounded up to units is that of the exact range.
pub proof fn lemma_ceil_div_nested(a: int, scale: int, edge_length: int)
    requires
        scale > 0,
        edge_length > 0,
    ensures
        scale * edge_length > 0,
        ceil_div(ceil_div(a, scale), edge_length) == ceil_div(a, scale * edge_length),
{
    let units = ceil_div(a, scale);
    let zones = ceil_div(units, edge_length);
    lemma_floor_div_bounds(a + scale - 1, scale);
    lemma_floor_div_bounds(units + edge_length - 1, edge_length);
    assert(scale * edge_length > 0) by (nonlinear_arith)
        requires
            scale > 0,
            edge_length > 0,
    ;
    assert(zones * (scale * edge_length) <= a + scale * edge_length - 1 < zones * (scale
        * edge_length) + scale * edge_length) by (nonlinear_arith)
        requires
            scale > 0,
            edge_length > 0,
            units * scale <= a + scale - 1 < units * scale + scale,
            zones * edge_length <= units + edge_length - 1 < zones * edge_length + edge_length,
    ;
    lemma_floor_div_unique(a + scale * edge_length - 1, scale * edge_length, zones);
}

/// A boid nearer to the origin than the radius has its grid point at most the
/// rounded radius away from the grid point of the origin, along each axis.
pub proof fn lemma_nearer_points_in_reach(
    position: ExactPoint,
    origin: ExactPoint,
    radius: int,
    scale: int,
)
    requires
        scale > 0,
        on_grid(position, scale),
        on_grid(origin, scale),
        nearer_than(position, origin, radius),
    ensures
        point_in_reach(
            grid_point_of(position, scale),
            grid_point_of(origin, scale),
            ceil_div(radius, scale),
        ),
{
    let across = position.x - origin.x;
    let along = position.y - origin.y;
    assert(-radius < across < radius && -radius < along < radius) by (nonlinear_arith)
        requires
            radius > 0,
            across * across + along * along < radius * radius,
    ;
    lemma_close_coordinates_close_zones(position.x, origin.x, radius, scale);
    lemma_close_coordinates_close_zones(position.y, origin.y, radius, scale);
}

} // verus!
