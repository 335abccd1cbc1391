//! The electrode grid: the set of valid cells and their adjacency.
//!
//! Cells are laid out in rows; a cell is valid when its row exists and its
//! entry in that row is enabled, so irregular boards (rows of different
//! lengths, holes) are representable.

use vstd::prelude::*;
use crate::geom::{Location, in_inflated};

verus! {

broadcast use vstd::seq_lib::lemma_seq_contains_after_push;

/// The grid topology. `cells[y][x]` says whether cell `(y, x)` exists.
#[derive(Clone, Debug)]
pub struct Grid {
    pub cells: Vec<Vec<bool>>,
}

impl Grid {
    /// Is `(y, x)` a valid cell of this grid?
    pub open spec fn on_grid(self, y: int, x: int) -> bool {
        &&& 0 <= y < self.cells.len()
        &&& 0 <= x < self.cells[y].len()
        &&& self.cells[y][x]
    }

    /// Is the location a valid cell of this grid?
    pub open spec fn contains_loc(self, loc: Location) -> bool {
        self.on_grid(loc.y as int, loc.x as int)
    }

    /// Row and column indices stay within `u32`, so every valid cell can be
    /// named by a [`Location`].
    pub open spec fn wf(self) -> bool {
        &&& self.cells.len() <= u32::MAX
        &&& forall|y: int| 0 <= y < self.cells.len() ==> (#[trigger] self.cells[y]).len()
            <= u32::MAX
    }

    /// A grid whose every cell in an `h` by `w` rectangle exists.
    pub fn rectangle(h: usize, w: usize) -> (g: Grid)
        requires
            h <= u32::MAX,
            w <= u32::MAX,
        ensures
            g.wf(),
            forall|y: int, x: int| g.on_grid(y, x) <==> 0 <= y < h && 0 <= x < w,
    {
        let mut cells: Vec<Vec<bool>> = Vec::new();
        while cells.len() < h
            invariant
                cells.len() <= h,
                forall|i: int| 0 <= i < cells.len() ==> (#[trigger] cells[i]).len() == w,
                forall|i: int, j: int|
                    0 <= i < cells.len() && 0 <= j < w ==> (#[trigger] cells[i][j]) == true,
            decreases h - cells.len(),
        {
            let mut row: Vec<bool> = Vec::new();
            while row.len() < w
                invariant
                    row.len() <= w,
                    forall|j: int| 0 <= j < row.len() ==> (#[trigger] row[j]) == true,
                decreases w - row.len(),
            {
                row.push(true);
            }
            cells.push(row);
        }
        Grid { cells }
    }

    /// Executable cell-validity test.
    pub fn is_on(&self, y: u32, x: u32) -> (r: bool)
        ensures
            r == self.on_grid(y as int, x as int),
    {
        (y as usize) < self.cells.len() && {
            let row_len = self.cells[y as usize].len();
            (x as usize) < row_len && self.cells[y as usize][x as usize]
        }
    }

    /// The valid cardinal neighbors of a location: exactly the cells of the
    /// grid at Manhattan distance one.
    pub fn neighbors4(&self, loc: &Location) -> (r: Vec<Location>)
        ensures
            r@.len() <= 4,
            forall|i: int|
                0 <= i < r.len() ==> self.contains_loc(#[trigger] r[i])
                    && loc.spec_distance_to(r[i]) == 1,
            forall|m: Location|
                self.contains_loc(m) && loc.spec_distance_to(m) == 1 ==> r@.contains(m),
            forall|i: int, j: int|
                0 <= i < j < r@.len() ==> #[trigger] r@[i] != #[trigger] r@[j],
    {
        let mut r: Vec<Location> = Vec::new();
        let y = loc.y;
        let x = loc.x;
        if y > 0 && self.is_on(y - 1, x) {
            r.push(Location { y: y - 1, x });
        }
        if y < u32::MAX && self.is_on(y + 1, x) {
            r.push(Location { y: y + 1, x });
        }
        if x > 0 && self.is_on(y, x - 1) {
            r.push(Location { y, x: x - 1 });
        }
        if x < u32::MAX && self.is_on(y, x + 1) {
            r.push(Location { y, x: x + 1 });
        }
        proof {
            assert forall|m: Location|
                self.contains_loc(m) && loc.spec_distance_to(m) == 1 implies r@.contains(m) by {
                if m.y + 1 == loc.y && m.x == loc.x {
                    assert(r@.contains(Location { y: (loc.y - 1) as u32, x: loc.x }));
                } else if m.y == loc.y + 1 && m.x == loc.x {
                    assert(r@.contains(Location { y: (loc.y + 1) as u32, x: loc.x }));
                } else if m.x + 1 == loc.x && m.y == loc.y {
                    assert(r@.contains(Location { y: loc.y, x: (loc.x - 1) as u32 }));
                } else {
                    assert(m.x == loc.x + 1 && m.y == loc.y);
                    assert(r@.contains(Location { y: loc.y, x: (loc.x + 1) as u32 }));
                }
            }
        }
        r
    }

    /// The valid cells of the inflated footprint of a droplet anchored at
    /// `loc` with extent `dims`: the rectangle plus its one-cell halo,
    /// clipped to the grid.
    pub fn neighbors_dimensions(&self, loc: &Location, dims: &Location) -> (r: Vec<Location>)
        requires
            loc.y + dims.y < u32::MAX,
            loc.x + dims.x < u32::MAX,
        ensures
            forall|i: int|
                0 <= i < r.len() ==> self.contains_loc(#[trigger] r[i]) && in_inflated(
                    *loc,
                    *dims,
                    r[i].y as int,
                    r[i].x as int,
                ),
            forall|m: Location|
                self.contains_loc(m) && in_inflated(*loc, *dims, m.y as int, m.x as int)
                    ==> r@.contains(m),
    {
        let mut r: Vec<Location> = Vec::new();
        let y0: u32 = if loc.y > 0 {
            loc.y - 1
        } else {
            0
        };
        let x0: u32 = if loc.x > 0 {
            loc.x - 1
        } else {
            0
        };
        let y_end: u32 = loc.y + dims.y;  // inclusive upper row
        let x_end: u32 = loc.x + dims.x;  // inclusive upper column
        let mut y: u32 = y0;
        while y <= y_end
            invariant
                y0 <= y <= y_end + 1,
                y_end < u32::MAX,
                x_end < u32::MAX,
                y0 == if loc.y > 0 { loc.y - 1 } else { 0 },
                x0 == if loc.x > 0 { loc.x - 1 } else { 0 },
                y_end == loc.y + dims.y,
                x_end == loc.x + dims.x,
                forall|i: int|
                    0 <= i < r.len() ==> self.contains_loc(#[trigger] r[i]) && in_inflated(
                        *loc,
                        *dims,
                        r[i].y as int,
                        r[i].x as int,
                    ),
                forall|m: Location|
                    self.contains_loc(m) && in_inflated(*loc, *dims, m.y as int, m.x as int)
                        && m.y < y ==> r@.contains(m),
            decreases y_end + 1 - y,
        {
            let mut x: u32 = x0;
            while x <= x_end
                invariant
                    x0 <= x <= x_end + 1,
                    y0 <= y <= y_end,
                    y_end < u32::MAX,
                    x_end < u32::MAX,
                    y0 == if loc.y > 0 { loc.y - 1 } else { 0 },
                    x0 == if loc.x > 0 { loc.x - 1 } else { 0 },
                    y_end == loc.y + dims.y,
                    x_end == loc.x + dims.x,
                    forall|i: int|
                        0 <= i < r.len() ==> self.contains_loc(#[trigger] r[i]) && in_inflated(
                            *loc,
                            *dims,
                            r[i].y as int,
                            r[i].x as int,
                        ),
                    forall|m: Location|
                        self.contains_loc(m) && in_inflated(*loc, *dims, m.y as int, m.x as int)
                            && (m.y < y || (m.y == y && m.x < x)) ==> r@.contains(m),
                decreases x_end + 1 - x,
            {
                if self.is_on(y, x) {
                    r.push(Location { y, x });
                }
                proof {
                    assert forall|m: Location|
                        self.contains_loc(m) && in_inflated(*loc, *dims, m.y as int, m.x as int)
                            && (m.y < y || (m.y == y && m.x < x + 1)) implies r@.contains(m) by {
                        if m.y == y && m.x == x {
                            assert(r@.last() == m);
                        }
                    }
                }
                x = x + 1;
            }
            y = y + 1;
        }
        r
    }

    /// All valid cells of the grid, row by row.
    pub fn locations(&self) -> (r: Vec<Location>)
        requires
            self.wf(),
        ensures
            forall|i: int| 0 <= i < r.len() ==> self.contains_loc(#[trigger] r[i]),
            forall|m: Location| self.contains_loc(m) ==> r@.contains(m),
    {
        let mut r: Vec<Location> = Vec::new();
        let mut y: usize = 0;
        while y < self.cells.len()
            invariant
                self.wf(),
                y <= self.cells.len(),
                forall|i: int| 0 <= i < r.len() ==> self.contains_loc(#[trigger] r[i]),
                forall|m: Location| self.contains_loc(m) && (m.y as int) < y ==> r@.contains(m),
            decreases self.cells.len() - y,
        {
            let row_len = self.cells[y].len();
            let mut x: usize = 0;
            while x < row_len
                invariant
                    self.wf(),
                    x <= row_len,
                    y < self.cells.len(),
                    row_len == self.cells[y as int].len(),
                    row_len <= u32::MAX,
                    forall|i: int| 0 <= i < r.len() ==> self.contains_loc(#[trigger] r[i]),
                    forall|m: Location|
                        self.contains_loc(m) && ((m.y as int) < y || (m.y as int == y && (
                        m.x as int) < x)) ==> r@.contains(m),
                decreases row_len - x,
            {
                if self.cells[y][x] {
                    r.push(Location { y: y as u32, x: x as u32 });
                }
                proof {
                    assert forall|m: Location|
                        self.contains_loc(m) && ((m.y as int) < y || (m.y as int == y && (
                        m.x as int) < x + 1)) implies r@.contains(m) by {
                        if m.y as int == y && m.x as int == x {
                            assert(r@.last() == m);
                        }
                    }
                }
                x = x + 1;
            }
            y = y + 1;
        }
        r
    }
}

} // verus!
