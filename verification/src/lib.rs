//! Flocking simulation on a fixed-point plane: a uniform-grid spatial index
//! and the per-agent steering update that consumes its queries.
//!
//! All quantities are integers. One distance unit is [`geometry::UNIT`] ticks,
//! velocities are ticks per second and time steps are milliseconds.

pub mod flock;
pub mod geometry;
pub mod grid;
pub mod speed;
pub mod steer;
