//! A 2-D flocking ("boids") simulation over fixed-point coordinates.
//!
//! A fixed population of point agents updates velocity each tick from
//! pairwise interaction rules (alignment, cohesion, separation), steers
//! away from the walls of a rectangular area, and is clamped inside it.
//! All coordinates are integers in thousandths of a world unit, so every
//! step is deterministic and free of rounding surprises.

pub mod math;
pub mod vec2;
pub mod sim;
