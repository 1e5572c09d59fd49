// A flocking ("boids") simulation on a toroidal screen, in fixed-point integer arithmetic:
// boids steer by separation, alignment, cohesion, wall evasion, a target and a leader, and
// find their neighbors through a uniform grid of boid indices.
pub mod constants;
pub mod vec2;
pub mod boid;
pub mod grid;
pub mod sim;
