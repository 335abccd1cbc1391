//! Simulation and planning of discrete fluid packets ("droplets") moving on a
//! two-dimensional electrode grid.
//!
//! The crate has two verified subsystems: the grid state manager, which tracks
//! droplet positions, volumes, splits and merges while enforcing spatial
//! non-interference invariants, and the multi-droplet router, a time-expanded
//! A* search with a cooperative avoidance reservation. A translator turns the
//! routed paths into a flat, tick-delimited action stream.

use vstd::prelude::*;

pub mod droplet;
pub mod action;
pub mod grid;
pub mod gridview;
pub mod rng;
pub mod route;
pub mod geom;

verus! {

/// Largest droplet volume (in integral volume units) the manager accepts.
///
/// Keeping every volume at or below this bound means that the sum of any two
/// volumes fits in a `u64`, so mixing and splitting never overflow.
pub const VOLUME_LIMIT: u64 = 0x4000_0000_0000_0000;

} // verus!
