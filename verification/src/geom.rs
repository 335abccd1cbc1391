//! Locations, dimensions and the rectangle geometry behind collision checks.
//!
//! A droplet anchored at `loc` with extent `dims` occupies the cells
//! `loc.y <= y < loc.y + dims.y`, `loc.x <= x < loc.x + dims.x`. Its
//! *inflated* footprint widens that rectangle by one cell on every side; two
//! droplets interfere when the inflated footprint of one meets the plain
//! footprint of the other.

use vstd::prelude::*;

verus! {

/// A grid cell coordinate `(y, x)`; also reused as a non-negative extent
/// `(height, width)`.
#[derive(Clone, Copy, PartialEq, Eq, Structural, Debug, Hash)]
pub struct Location {
    pub y: u32,
    pub x: u32,
}

impl Location {
    /// Manhattan distance between two locations.
    pub open spec fn spec_distance_to(self, other: Location) -> int {
        abs_diff(self.y as int, other.y as int) + abs_diff(self.x as int, other.x as int)
    }

    /// Manhattan (l1) distance between two cell coordinates.
    pub fn distance_to(&self, other: &Location) -> (r: u64)
        ensures
            r == self.spec_distance_to(*other),
    {
        let dy: u64 = if self.y >= other.y {
            (self.y - other.y) as u64
        } else {
            (other.y - self.y) as u64
        };
        let dx: u64 = if self.x >= other.x {
            (self.x - other.x) as u64
        } else {
            (other.x - self.x) as u64
        };
        dy + dx
    }
}

/// Absolute difference of two mathematical integers.
pub open spec fn abs_diff(a: int, b: int) -> int {
    if a >= b {
        a - b
    } else {
        b - a
    }
}

/// The plain footprint: does cell `(y, x)` lie in the rectangle anchored at
/// `loc` with extent `dims`?
pub open spec fn in_rect(loc: Location, dims: Location, y: int, x: int) -> bool {
    &&& loc.y <= y < loc.y + dims.y
    &&& loc.x <= x < loc.x + dims.x
}

/// The inflated footprint: the rectangle plus its one-cell halo.
pub open spec fn in_inflated(loc: Location, dims: Location, y: int, x: int) -> bool {
    &&& loc.y - 1 <= y <= loc.y + dims.y
    &&& loc.x - 1 <= x <= loc.x + dims.x
}

/// Closed form of "the inflated footprint of rectangle 1 meets the plain
/// footprint of rectangle 2": the two rectangles are at most one cell apart
/// on both axes.
pub open spec fn rects_interfere(l1: Location, d1: Location, l2: Location, d2: Location) -> bool {
    &&& l1.y <= l2.y + d2.y
    &&& l2.y <= l1.y + d1.y
    &&& l1.x <= l2.x + d2.x
    &&& l2.x <= l1.x + d1.x
}

/// The closed interference test agrees with the cell-wise definition: the
/// rectangles interfere exactly when some cell of rectangle 2 lies in the
/// inflated footprint of rectangle 1. (Both extents must be non-empty.)
pub proof fn lemma_interfere_is_overlap(l1: Location, d1: Location, l2: Location, d2: Location)
    requires
        d1.y >= 1,
        d1.x >= 1,
        d2.y >= 1,
        d2.x >= 1,
    ensures
        rects_interfere(l1, d1, l2, d2) <==> exists|y: int, x: int|
            in_inflated(l1, d1, y, x) && in_rect(l2, d2, y, x),
{
    if rects_interfere(l1, d1, l2, d2) {
        let y = if l1.y > l2.y {
            l1.y - 1
        } else {
            l2.y as int
        };
        let x = if l1.x > l2.x {
            l1.x - 1
        } else {
            l2.x as int
        };
        assert(in_inflated(l1, d1, y, x) && in_rect(l2, d2, y, x));
    }
}

/// Interference is symmetric: it does not matter which of the two rectangles
/// is inflated.
pub proof fn lemma_interfere_symmetric(l1: Location, d1: Location, l2: Location, d2: Location)
    ensures
        rects_interfere(l1, d1, l2, d2) == rects_interfere(l2, d2, l1, d1),
{
}

/// Executable form of [`rects_interfere`].
pub fn rects_interfere_exec(l1: &Location, d1: &Location, l2: &Location, d2: &Location) -> (r:
    bool)
    ensures
        r == rects_interfere(*l1, *d1, *l2, *d2),
{
    (l1.y as u64) <= (l2.y as u64) + (d2.y as u64) && (l2.y as u64) <= (l1.y as u64) + (d1.y
        as u64) && (l1.x as u64) <= (l2.x as u64) + (d2.x as u64) && (l2.x as u64) <= (l1.x
        as u64) + (d1.x as u64)
}

} // verus!
