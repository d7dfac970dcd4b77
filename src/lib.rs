//! Reciprocal collision avoidance for agents moving in the plane.
//!
//! Each agent picks, every step, the velocity nearest its preferred one that
//! keeps it clear of its neighbours and of static obstacles within a time
//! horizon. Each neighbour and each piece of an obstacle's outline imposes a
//! half-plane of admissible velocities (`agents`, `obstacles`); a two-phase
//! solver picks a velocity within the speed limit from those half-planes,
//! obstacles first (`linear_programming`); `avoidance` puts the two together.
//!
//! All quantities are fixed-point numbers: an `i64` holding `SCALE` sub-units
//! per unit (see `geometry`). Every computation is exact integer arithmetic
//! with stated rounding, so results are reproducible bit for bit on every
//! machine.
pub mod agents;
pub mod avoidance;
pub mod geometry;
pub mod linear_programming;
pub mod obstacles;
