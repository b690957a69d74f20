//! Simulation core of a small tower-defense game: cooldown and lifetime
//! timers, nearest-target selection, projectile and target motion, and the
//! per-tick pipeline that ties them together.
//!
//! Time is measured in whole milliseconds and positions in whole
//! millimetres, so every rule of the simulation is exact integer arithmetic.

use vstd::prelude::*;

pub mod geometry;
pub mod timer;
pub mod world;

verus! {

} // verus!
