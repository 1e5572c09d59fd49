use vstd::prelude::*;

verus! {

// Lengths are fixed-point integers: one screen pixel is `UNITS_PER_PIXEL` units.
pub const UNITS_PER_PIXEL: i64 = 1000;

pub const SCREEN_WIDTH: i64 = 1_400_000;
pub const SCREEN_HEIGHT: i64 = 1_000_000;

pub const FPS: u32 = 60;

// Boids parameters:
pub const BOIDS_NUM: usize = 800;
pub const MAX_BOID_VELOCITY: i64 = 6000;
pub const MIN_BOID_VELOCITY: i64 = 5000;

// Upper bound on the population, so that sums over all boids stay far from overflow.
pub const MAX_BOIDS: usize = 1_000_000;

// Rule factors, as the divisor `d` of a factor `1 / d`:
pub const SEPARATION_DIVISOR: i64 = 10;
pub const ALIGNMENT_DIVISOR: i64 = 20;
pub const COHESION_DIVISOR: i64 = 200;
pub const TARGET_DIVISOR: i64 = 2000;
pub const LEADER_DIVISOR: i64 = 2000;

// Size of the push away from a wall, in units:
pub const EVASION_FACTOR: i64 = 1300;

// Margin from window walls until evasion comes into play (a tenth of the width):
pub const MARGIN: i64 = 140_000;

// Boids close to others influence their direction; these are the influence radii:
pub const STEERING_DISTANCE: i64 = 25_000;
pub const STEERING_DISTANCE_SQUARED: i64 = 625_000_000;
pub const INFLUENCE_DISTANCE: i64 = 75_000;
pub const INFLUENCE_DISTANCE_SQUARED: i64 = 5_625_000_000;

// Grid dimensions: `SCREEN / INFLUENCE_DISTANCE` rounded down, plus one.
pub const LOCATION_GRID_HEIGHT: usize = 14;
pub const LOCATION_GRID_WIDTH: usize = 19;

} // verus!
