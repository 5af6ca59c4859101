//! Simulation core of a 2D arcade game: a player-steered entity and
//! autonomous enemies grow or shrink by consuming each other inside a
//! bounded arena, governed by tick-based timers.
//!
//! Geometry is fixed-point: every coordinate is stored in milli-units
//! (`math::SCALE` stored units per world unit), so the whole simulation is
//! integer arithmetic and every step carries a proved contract.

pub mod math;
pub mod rng;
pub mod store;
pub mod sim;
pub mod laws;
