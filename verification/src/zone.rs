//! Grid points, zones and the arithmetic that maps one to the other.
//!
//! The plane is cut into square zones with an integer edge length. A position
//! enters this module as a [`GridPoint`]: the floor of each of its coordinates.
//! Because the edge length is a whole number, the zone of a position is decided
//! by its grid point alone.

use vstd::prelude::*;

verus! {

/// The floor of a position, coordinate by coordinate.
#[derive(Debug, Clone, Copy, Hash, PartialEq, Eq, Structural)]
pub struct GridPoint {
    pub x: i32,
    pub y: i32,
}

/// A zone is one square of the grid, named by its column `x` and its row `y`.
/// With edge length `e` it covers the grid points whose coordinates lie in
/// `x * e .. (x + 1) * e` and `y * e .. (y + 1) * e`.
#[derive(Debug, Clone, Copy, Hash, PartialEq, Eq, Structural)]
pub struct Zone {
    pub x: i32,
    pub y: i32,
}

/// The quotient of `a` by `d`, rounded towards negative infinity.
/// For a positive divisor this is what `/` means on `int`.
pub open spec fn floor_div(a: int, d: int) -> int {
    a / d
}

/// The quotient of `a` by `d`, rounded towards positive infinity.
pub open spec fn ceil_div(a: int, d: int) -> int {
    floor_div(a + d - 1, d)
}

/// The zone that holds `point` when zones have edge length `edge_length`.
pub open spec fn zone_of(point: GridPoint, edge_length: int) -> Zone {
    Zone {
        x: floor_div(point.x as int, edge_length) as i32,
        y: floor_div(point.y as int, edge_length) as i32,
    }
}

/// The number under which a zone is filed: its column and row, each shifted to
/// be non-negative, written side by side in base 2^32.
pub open spec fn zone_key(zone: Zone) -> u64 {
    ((zone.x - i32::MIN) * 0x1_0000_0000 + (zone.y - i32::MIN)) as u64
}

/// `floor_div(a, d)` is the one integer `q` with `q * d <= a < (q + 1) * d`.
pub proof fn lemma_floor_div_bounds(a: int, d: int)
    by (nonlinear_arith)
    requires
        d > 0,
    ensures
        floor_div(a, d) * d <= a < floor_div(a, d) * d + d,
{
}

/// Any `q` with `q * d <= a < (q + 1) * d` is `floor_div(a, d)`.
pub proof fn lemma_floor_div_unique(a: int, d: int, q: int)
    by (nonlinear_arith)
    requires
        d > 0,
        q * d <= a < q * d + d,
    ensures
        q == floor_div(a, d),
{
}

/// Dividing by a positive number never moves a value away from zero.
pub proof fn lemma_floor_div_range(a: int, d: int)
    requires
        d > 0,
    ensures
        a >= 0 ==> 0 <= floor_div(a, d) <= a,
        a < 0 ==> a <= floor_div(a, d) < 0,
{
    lemma_floor_div_bounds(a, d);
    let q = floor_div(a, d);
    assert(a >= 0 ==> 0 <= q <= a) by (nonlinear_arith)
        requires
            d > 0,
            q * d <= a < q * d + d,
    ;
    assert(a < 0 ==> a <= q < 0) by (nonlinear_arith)
        requires
            d > 0,
            q * d <= a < q * d + d,
    ;
}

/// `floor_div` grows with its first argument.
pub proof fn lemma_floor_div_monotonic(a: int, b: int, d: int)
    requires
        d > 0,
        a <= b,
    ensures
        floor_div(a, d) <= floor_div(b, d),
{
    lemma_floor_div_bounds(a, d);
    lemma_floor_div_bounds(b, d);
    let p = floor_div(a, d);
    let q = floor_div(b, d);
    assert(p <= q) by (nonlinear_arith)
        requires
            d > 0,
            a <= b,
            p * d <= a,
            b < q * d + d,
    ;
}

/// Adding `k` whole divisors to the dividend adds `k` to the quotient.
pub proof fn lemma_floor_div_shift(a: int, k: int, d: int)
    requires
        d > 0,
    ensures
        floor_div(a + k * d, d) == floor_div(a, d) + k,
{
    lemma_floor_div_bounds(a, d);
    let q = floor_div(a, d);
    assert((q + k) * d == q * d + k * d) by (nonlinear_arith);
    lemma_floor_div_unique(a + k * d, d, q + k);
}

/// Two zones with the same key are the same zone.
pub proof fn lemma_zone_key_injective(a: Zone, b: Zone)
    requires
        zone_key(a) == zone_key(b),
    ensures
        a == b,
{
}

/// Floor division of 64-bit integers by a positive divisor.
pub fn floor_div_i64(a: i64, d: i64) -> (q: i64)
    requires
        d > 0,
    ensures
        q == floor_div(a as int, d as int),
{
    if a >= 0 {
        let q: i64 = a / d;
        q
    } else {
        // -(a + 1) is non-negative and cannot overflow, unlike -a.
        let b: i64 = -(a + 1);
        let t: i64 = b / d;
        proof {
            lemma_floor_div_bounds(b as int, d as int);
            assert((-(t as int) - 1) * (d as int) == -((t as int) * (d as int)) - (d as int))
                by (nonlinear_arith);
            lemma_floor_div_unique(a as int, d as int, -(t as int) - 1);
            lemma_floor_div_range(b as int, d as int);
        }
        -t - 1
    }
}

impl Zone {
    /// The zone that holds `point`.
    pub fn new(point: GridPoint, edge_length: i32) -> (zone: Zone)
        requires
            edge_length > 0,
        ensures
            zone == zone_of(point, edge_length as int),
            zone.x == floor_div(point.x as int, edge_length as int),
            zone.y == floor_div(point.y as int, edge_length as int),
    {
        proof {
            lemma_floor_div_range(point.x as int, edge_length as int);
            lemma_floor_div_range(point.y as int, edge_length as int);
        }
        let x: i64 = floor_div_i64(point.x as i64, edge_length as i64);
        let y: i64 = floor_div_i64(point.y as i64, edge_length as i64);
        Zone { x: x as i32, y: y as i32 }
    }

    /// The number under which this zone is filed.
    pub fn key(&self) -> (key: u64)
        ensures
            key == zone_key(*self),
    {
        let column: u64 = (self.x as i64 - i32::MIN as i64) as u64;
        let row: u64 = (self.y as i64 - i32::MIN as i64) as u64;
        column * 0x1_0000_0000 + row
    }
}

} // verus!
