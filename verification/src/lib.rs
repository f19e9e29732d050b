//! The grid side of a flock of boids.
//!
//! Boids steer by the boids they see, so every tick each boid asks which
//! others are within its visual range. Asking every other boid does not scale.
//! This library cuts the plane into square zones, files each boid of a
//! snapshot under its zone, and answers a query by looking only into the zones
//! around the origin.
//!
//! Positions are real numbers; the library works on whole ones. A position
//! comes in as its [`zone::GridPoint`], the floor of each coordinate, and a
//! radius as a whole number that is not below it. A query hands back
//! candidates: every boid within the radius is among them, and the caller
//! sorts out the rest by the exact distance.
//!
//! - [`zone`]: grid points, zones, and the division that maps one to the other.
//! - [`zone_iter`]: the walk over a square of zones.
//! - [`buckets`]: the hash map behind the index.
//! - [`neighbors`]: the index and its queries.
//! - [`order`]: the order in which a query hands back its candidates.
//! - [`brute_force`]: the index finds what a search through the flock finds.
//! - [`exact`]: positions that are not whole numbers, and what rounding keeps.
//! - [`flock`]: one tick of a flock against one index.

pub mod brute_force;
pub mod buckets;
pub mod exact;
pub mod flock;
pub mod neighbors;
pub mod order;
pub mod zone;
pub mod zone_iter;
