//! The primitive actions a caller issues to the grid state manager, and the
//! errors with which the manager rejects invalid ones.

use vstd::prelude::*;
use crate::droplet::DropletId;
use crate::geom::Location;

verus! {

/// One primitive step of a simulation.
///
/// `Tick` is the barrier at which simultaneous motion completes and the
/// no-collision invariant is re-checked; `Ping` is a reserved no-op for
/// observer hooks.
#[derive(Clone, Copy, Debug)]
pub enum Action {
    AddDroplet { id: DropletId, location: Location, dimensions: Location, volume: u64 },
    RemoveDroplet { id: DropletId },
    Mix { in0: DropletId, in1: DropletId, out: DropletId },
    Split { inp: DropletId, out0: DropletId, out1: DropletId },
    UpdateDroplet { old_id: DropletId, new_id: DropletId },
    MoveDroplet { id: DropletId, location: Location },
    Tick,
    Ping,
}

/// Why the manager refused an action. Every variant is a contract breach by
/// the caller or the planner; the state is left unchanged.
#[derive(Clone, Copy, PartialEq, Eq, Structural, Debug)]
pub enum ExecError {
    /// A droplet with this id is already present.
    DuplicateId { id: DropletId },
    /// No droplet with this id is present.
    UnknownId { id: DropletId },
    /// The two mix inputs do not share a location.
    MixLocationMismatch { in0: DropletId, in1: DropletId },
    /// A volume above [`crate::VOLUME_LIMIT`] was supplied or would result.
    VolumeTooLarge { id: DropletId },
    /// The location is not a grid cell, an extent is zero, or the rectangle
    /// would leave the addressable coordinate range.
    BadPlacement { id: DropletId },
    /// A move of Manhattan distance greater than one.
    MoveTooFar { id: DropletId },
    /// Two droplets of different collision groups interfere at a barrier.
    CollisionAtTick { id0: DropletId, id1: DropletId },
}

} // verus!
