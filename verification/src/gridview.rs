//! The grid state manager: the authoritative simulator that holds the live
//! droplets and validates every primitive action against the spatial and
//! semantic invariants.

use vstd::prelude::*;
use crate::action::{Action, ExecError};
use crate::droplet::{
    Droplet, DropletId, DropletInfo, dmap, destinations_collide, droplets_collide, ids_distinct,
    map_has_collision, map_has_destination_collision,
};
use crate::geom::{Location, rects_interfere_exec};
use crate::grid::Grid;
use crate::rng::{gen_range_i64, seeded_rng};
use crate::VOLUME_LIMIT;

verus! {

broadcast use vstd::seq_lib::lemma_seq_contains_after_push;

/// Largest accepted standard deviation of the split-volume noise, in volume
/// units; keeps the noise arithmetic inside `i64`.
pub const STDEV_LIMIT: u64 = 0x1000_0000_0000_0000;

/// Fixed seed of the manager's noise generator: replay of an identical
/// action stream reproduces identical split outcomes.
pub const RNG_SEED: u64 = 0;

/// A droplet may stand at `loc` with extent `dims`: the anchor is a grid
/// cell, both extents are positive, and the inflated rectangle stays within
/// the addressable coordinate range.
pub open spec fn placement_ok(g: Grid, loc: Location, dims: Location) -> bool {
    &&& g.contains_loc(loc)
    &&& dims.y >= 1
    &&& dims.x >= 1
    &&& loc.y + dims.y < u32::MAX
    &&& loc.x + dims.x < u32::MAX
}

/// A droplet the manager may hold.
pub open spec fn droplet_ok(g: Grid, d: Droplet) -> bool {
    &&& placement_ok(g, d.location, d.dimensions)
    &&& d.volume <= VOLUME_LIMIT
}

/// The map after a split: the input replaced by the two outputs, both at its
/// location with unit extent.
pub open spec fn split_result(
    m: Map<DropletId, Droplet>,
    inp: DropletId,
    out0: DropletId,
    out1: DropletId,
    v0: u64,
    v1: u64,
) -> Map<DropletId, Droplet> {
    m.remove(inp).insert(
        out0,
        Droplet {
            id: out0,
            location: m[inp].location,
            dimensions: Location { y: 1, x: 1 },
            volume: v0,
            destination: None,
            collision_group: out0.id,
        },
    ).insert(
        out1,
        Droplet {
            id: out1,
            location: m[inp].location,
            dimensions: Location { y: 1, x: 1 },
            volume: v1,
            destination: None,
            collision_group: out1.id,
        },
    )
}

/// Does the droplet pass the process filter?
pub open spec fn passes_filter(d: Droplet, pid_option: Option<u64>) -> bool {
    match pid_option {
        Some(pid) => d.id.process_id == pid,
        None => true,
    }
}

/// The observable projections of the droplets that pass the process filter,
/// in order.
pub open spec fn infos_of(s: Seq<Droplet>, pid_option: Option<u64>) -> Seq<DropletInfo>
    decreases s.len(),
{
    if s.len() == 0 {
        Seq::empty()
    } else if passes_filter(s.last(), pid_option) {
        infos_of(s.drop_last(), pid_option).push(s.last().spec_info())
    } else {
        infos_of(s.drop_last(), pid_option)
    }
}

/// The grid state manager.
pub struct GridView {
    pub grid: Grid,
    pub droplets: Vec<Droplet>,
    pub rng: rand::rngs::StdRng,
    pub split_error_stdev: u64,
}

impl GridView {
    /// The mathematical model of the manager: the map from droplet id to
    /// droplet.
    pub open spec fn dmap(self) -> Map<DropletId, Droplet> {
        dmap(self.droplets@)
    }

    /// Well-formedness: the grid is addressable, droplet ids are unique, and
    /// every droplet stands legally on the grid with a bounded volume.
    pub open spec fn wf(self) -> bool {
        &&& self.grid.wf()
        &&& ids_distinct(self.droplets@)
        &&& forall|i: int|
            0 <= i < self.droplets@.len() ==> droplet_ok(self.grid, #[trigger] self.droplets@[i])
        &&& self.split_error_stdev <= STDEV_LIMIT
    }

    /// A manager over `grid` with no droplets and the given split-noise
    /// standard deviation (in volume units; zero disables noise).
    pub fn new(grid: Grid, split_error_stdev: u64) -> (gv: GridView)
        requires
            grid.wf(),
            split_error_stdev <= STDEV_LIMIT,
        ensures
            gv.wf(),
            gv.grid == grid,
            gv.split_error_stdev == split_error_stdev,
            gv.dmap() == Map::<DropletId, Droplet>::empty(),
    {
        GridView { grid, droplets: Vec::new(), rng: seeded_rng(RNG_SEED), split_error_stdev }
    }

    /// A manager with noiseless splits.
    pub fn new_with_defaults(grid: Grid) -> (gv: GridView)
        requires
            grid.wf(),
        ensures
            gv.wf(),
            gv.grid == grid,
            gv.split_error_stdev == 0,
            gv.dmap() == Map::<DropletId, Droplet>::empty(),
    {
        GridView::new(grid, 0)
    }

    /// The index of the droplet with the given id, if any.
    fn find_index(&self, id: DropletId) -> (r: Option<usize>)
        ensures
            match r {
                Some(i) => i < self.droplets.len() && self.droplets@[i as int].id == id,
                None => forall|i: int|
                    0 <= i < self.droplets@.len() ==> (#[trigger] self.droplets@[i]).id != id,
            },
    {
        let mut i: usize = 0;
        while i < self.droplets.len()
            invariant
                i <= self.droplets.len(),
                forall|j: int| 0 <= j < i ==> (#[trigger] self.droplets@[j]).id != id,
            decreases self.droplets.len() - i,
        {
            if self.droplets[i].id == id {
                return Some(i);
            }
            i = i + 1;
        }
        None
    }

    /// Is a droplet with this id present?
    pub fn contains_id(&self, id: DropletId) -> (r: bool)
        requires
            self.wf(),
        ensures
            r == self.dmap().contains_key(id),
    {
        proof {
            crate::droplet::lemma_dmap_contains(self.droplets@, id);
        }
        self.find_index(id).is_some()
    }

    /// Remove and return the droplet with the given id.
    fn take(&mut self, id: DropletId) -> (d: Droplet)
        requires
            old(self).wf(),
            old(self).dmap().contains_key(id),
        ensures
            final(self).wf(),
            final(self).grid == old(self).grid,
            final(self).rng == old(self).rng,
            final(self).split_error_stdev == old(self).split_error_stdev,
            d == old(self).dmap()[id],
            droplet_ok(old(self).grid, d),
            final(self).dmap() == old(self).dmap().remove(id),
    {
        proof {
            crate::droplet::lemma_dmap_contains(self.droplets@, id);
        }
        let i = self.find_index(id).unwrap();
        proof {
            crate::droplet::lemma_dmap_index(self.droplets@, i as int);
            crate::droplet::lemma_dmap_remove(self.droplets@, i as int);
        }
        let d = self.droplets.remove(i);
        proof {
            assert(final(self).dmap() =~= old(self).dmap().remove(id));
        }
        d
    }

    /// Insert a droplet under a fresh id.
    fn put(&mut self, d: Droplet)
        requires
            old(self).wf(),
            !old(self).dmap().contains_key(d.id),
            droplet_ok(old(self).grid, d),
        ensures
            final(self).wf(),
            final(self).grid == old(self).grid,
            final(self).rng == old(self).rng,
            final(self).split_error_stdev == old(self).split_error_stdev,
            final(self).dmap() == old(self).dmap().insert(d.id, d),
    {
        proof {
            crate::droplet::lemma_dmap_contains(self.droplets@, d.id);
            crate::droplet::lemma_dmap_push(self.droplets@, d);
        }
        self.droplets.push(d);
    }

    /// Sample the split-volume error for an input of volume `v`, clamped so
    /// that both output volumes stay within `[0, v]`. With a zero standard
    /// deviation the error is exactly zero.
    fn sample_split_error(&mut self, v: u64) -> (eps: i64)
        requires
            old(self).wf(),
            v <= VOLUME_LIMIT,
        ensures
            final(self).wf(),
            final(self).grid == old(self).grid,
            final(self).droplets == old(self).droplets,
            final(self).split_error_stdev == old(self).split_error_stdev,
            -((v - v / 2) as int) <= eps <= (v / 2) as int,
            old(self).split_error_stdev == 0 ==> eps == 0,
    {
        let lo: i64 = -((v - v / 2) as i64);
        let hi: i64 = (v / 2) as i64;
        if self.split_error_stdev == 0 {
            return 0;
        }
        let s = self.split_error_stdev as i64;
        let d0 = gen_range_i64(&mut self.rng, -s, s);
        let d1 = gen_range_i64(&mut self.rng, -s, s);
        let d2 = gen_range_i64(&mut self.rng, -s, s);
        let raw = d0 + d1 + d2;
        if raw < lo {
            lo
        } else if raw > hi {
            hi
        } else {
            raw
        }
    }

    /// Apply one action, or reject it leaving the state unchanged.
    ///
    /// The postcondition states, variant by variant, exactly when the action
    /// succeeds, which error is reported otherwise, and how the droplet map
    /// changes. Mix conserves volume exactly; Split conserves volume exactly
    /// whatever noise was drawn, and with a zero standard deviation the two
    /// halves are exact.
    pub fn execute(&mut self, action: &Action) -> (r: Result<(), ExecError>)
        requires
            old(self).wf(),
        ensures
            final(self).wf(),
            final(self).grid == old(self).grid,
            final(self).split_error_stdev == old(self).split_error_stdev,
            r is Err ==> *final(self) == *old(self),
            match *action {
                Action::AddDroplet { id, location, dimensions, volume } => {
                    let m = old(self).dmap();
                    &&& (r is Ok <==> !m.contains_key(id) && placement_ok(
                        old(self).grid,
                        location,
                        dimensions,
                    ) && volume <= VOLUME_LIMIT)
                    &&& (r is Ok ==> final(self).dmap() == m.insert(
                        id,
                        Droplet {
                            id,
                            location,
                            dimensions,
                            volume,
                            destination: None,
                            collision_group: id.id,
                        },
                    ))
                    &&& (m.contains_key(id) ==> r == Err::<(), ExecError>(
                        ExecError::DuplicateId { id },
                    ))
                    &&& (!m.contains_key(id) && !placement_ok(old(self).grid, location, dimensions)
                        ==> r == Err::<(), ExecError>(ExecError::BadPlacement { id }))
                    &&& (!m.contains_key(id) && placement_ok(old(self).grid, location, dimensions)
                        && volume > VOLUME_LIMIT ==> r == Err::<(), ExecError>(
                        ExecError::VolumeTooLarge { id },
                    ))
                },
                Action::RemoveDroplet { id } => {
                    let m = old(self).dmap();
                    &&& (r is Ok <==> m.contains_key(id))
                    &&& (r is Ok ==> final(self).dmap() == m.remove(id))
                    &&& (r is Err ==> r == Err::<(), ExecError>(ExecError::UnknownId { id }))
                },
                Action::Mix { in0, in1, out } => {
                    let m = old(self).dmap();
                    let ok = {
                        &&& m.contains_key(in0)
                        &&& in0 != in1
                        &&& m.contains_key(in1)
                        &&& m[in0].location == m[in1].location
                        &&& m[in0].volume + m[in1].volume <= VOLUME_LIMIT
                        &&& (out == in0 || out == in1 || !m.contains_key(out))
                    };
                    &&& (r is Ok <==> ok)
                    &&& (r is Ok ==> final(self).dmap() == m.remove(in0).remove(in1).insert(
                        out,
                        Droplet {
                            id: out,
                            location: m[in0].location,
                            dimensions: Location { y: 1, x: 1 },
                            volume: (m[in0].volume + m[in1].volume) as u64,
                            destination: None,
                            collision_group: out.id,
                        },
                    ))
                    &&& (!m.contains_key(in0) ==> r == Err::<(), ExecError>(
                        ExecError::UnknownId { id: in0 },
                    ))
                    &&& (m.contains_key(in0) && (in0 == in1 || !m.contains_key(in1)) ==> r
                        == Err::<(), ExecError>(ExecError::UnknownId { id: in1 }))
                    &&& (m.contains_key(in0) && in0 != in1 && m.contains_key(in1)
                        && m[in0].location != m[in1].location ==> r == Err::<(), ExecError>(
                        ExecError::MixLocationMismatch { in0, in1 },
                    ))
                    &&& (m.contains_key(in0) && in0 != in1 && m.contains_key(in1)
                        && m[in0].location == m[in1].location && m[in0].volume + m[in1].volume
                        > VOLUME_LIMIT ==> r == Err::<(), ExecError>(
                        ExecError::VolumeTooLarge { id: out },
                    ))
                    &&& (m.contains_key(in0) && in0 != in1 && m.contains_key(in1)
                        && m[in0].location == m[in1].location && m[in0].volume + m[in1].volume
                        <= VOLUME_LIMIT && !(out == in0 || out == in1 || !m.contains_key(out))
                        ==> r == Err::<(), ExecError>(ExecError::DuplicateId { id: out }))
                },
                Action::Split { inp, out0, out1 } => {
                    let m = old(self).dmap();
                    let v = m[inp].volume;
                    let ok = {
                        &&& m.contains_key(inp)
                        &&& out0 != out1
                        &&& (out0 == inp || !m.contains_key(out0))
                        &&& (out1 == inp || !m.contains_key(out1))
                    };
                    &&& (r is Ok <==> ok)
                    &&& (r is Ok ==> exists|v0: u64, v1: u64|
                        {
                            &&& final(self).dmap() == #[trigger] split_result(
                                m,
                                inp,
                                out0,
                                out1,
                                v0,
                                v1,
                            )
                            &&& v0 + v1 == v
                            &&& (old(self).split_error_stdev == 0 ==> v0 == v / 2 && v1 == v - v
                                / 2)
                        })
                    &&& (!m.contains_key(inp) ==> r == Err::<(), ExecError>(
                        ExecError::UnknownId { id: inp },
                    ))
                    &&& (m.contains_key(inp) && out0 == out1 ==> r == Err::<(), ExecError>(
                        ExecError::DuplicateId { id: out1 },
                    ))
                    &&& (m.contains_key(inp) && out0 != out1 && !(out0 == inp || !m.contains_key(
                        out0,
                    )) ==> r == Err::<(), ExecError>(ExecError::DuplicateId { id: out0 }))
                    &&& (m.contains_key(inp) && out0 != out1 && (out0 == inp || !m.contains_key(
                        out0,
                    )) && !(out1 == inp || !m.contains_key(out1)) ==> r == Err::<(), ExecError>(
                        ExecError::DuplicateId { id: out1 },
                    ))
                },
                Action::UpdateDroplet { old_id, new_id } => {
                    let m = old(self).dmap();
                    &&& (r is Ok <==> m.contains_key(old_id) && (new_id == old_id
                        || !m.contains_key(new_id)))
                    &&& (r is Ok ==> final(self).dmap() == m.remove(old_id).insert(
                        new_id,
                        Droplet { id: new_id, ..m[old_id] },
                    ))
                    &&& (!m.contains_key(old_id) ==> r == Err::<(), ExecError>(
                        ExecError::UnknownId { id: old_id },
                    ))
                    &&& (m.contains_key(old_id) && new_id != old_id && m.contains_key(new_id)
                        ==> r == Err::<(), ExecError>(ExecError::DuplicateId { id: new_id }))
                },
                Action::MoveDroplet { id, location } => {
                    let m = old(self).dmap();
                    &&& (r is Ok <==> m.contains_key(id) && m[id].location.spec_distance_to(
                        location,
                    ) <= 1 && placement_ok(old(self).grid, location, m[id].dimensions))
                    &&& (r is Ok ==> final(self).dmap() == m.insert(
                        id,
                        Droplet { location, ..m[id] },
                    ))
                    &&& (!m.contains_key(id) ==> r == Err::<(), ExecError>(
                        ExecError::UnknownId { id },
                    ))
                    &&& (m.contains_key(id) && m[id].location.spec_distance_to(location) > 1
                        ==> r == Err::<(), ExecError>(ExecError::MoveTooFar { id }))
                    &&& (m.contains_key(id) && m[id].location.spec_distance_to(location) <= 1
                        && !placement_ok(old(self).grid, location, m[id].dimensions) ==> r
                        == Err::<(), ExecError>(ExecError::BadPlacement { id }))
                },
                Action::Tick => {
                    let m = old(self).dmap();
                    &&& *final(self) == *old(self)
                    &&& (r is Ok <==> !map_has_collision(m))
                    &&& (r is Err ==> match r {
                        Err(ExecError::CollisionAtTick { id0, id1 }) => {
                            &&& id0 != id1
                            &&& m.contains_key(id0)
                            &&& m.contains_key(id1)
                            &&& droplets_collide(m[id0], m[id1])
                        },
                        _ => false,
                    })
                },
                Action::Ping => {
                    &&& *final(self) == *old(self)
                    &&& r is Ok
                },
            },
    {
        match *action {
            Action::AddDroplet { id, location, dimensions, volume } => {
                proof {
                    crate::droplet::lemma_dmap_contains(self.droplets@, id);
                }
                if self.find_index(id).is_some() {
                    return Err(ExecError::DuplicateId { id });
                }
                let place_ok = self.grid.is_on(location.y, location.x) && dimensions.y >= 1
                    && dimensions.x >= 1 && (location.y as u64) + (dimensions.y as u64) < (
                u32::MAX as u64) && (location.x as u64) + (dimensions.x as u64) < (u32::MAX
                    as u64);
                if !place_ok {
                    return Err(ExecError::BadPlacement { id });
                }
                if volume > VOLUME_LIMIT {
                    return Err(ExecError::VolumeTooLarge { id });
                }
                self.put(
                    Droplet {
                        id,
                        location,
                        dimensions,
                        volume,
                        destination: None,
                        collision_group: id.id,
                    },
                );
                Ok(())
            },
            Action::RemoveDroplet { id } => {
                proof {
                    crate::droplet::lemma_dmap_contains(self.droplets@, id);
                }
                if self.find_index(id).is_none() {
                    return Err(ExecError::UnknownId { id });
                }
                self.take(id);
                Ok(())
            },
            Action::Mix { in0, in1, out } => {
                proof {
                    crate::droplet::lemma_dmap_contains(self.droplets@, in0);
                    crate::droplet::lemma_dmap_contains(self.droplets@, in1);
                    crate::droplet::lemma_dmap_contains(self.droplets@, out);
                }
                let i0 = match self.find_index(in0) {
                    Some(i) => i,
                    None => {
                        return Err(ExecError::UnknownId { id: in0 });
                    },
                };
                if in0 == in1 {
                    return Err(ExecError::UnknownId { id: in1 });
                }
                let i1 = match self.find_index(in1) {
                    Some(i) => i,
                    None => {
                        return Err(ExecError::UnknownId { id: in1 });
                    },
                };
                proof {
                    crate::droplet::lemma_dmap_index(self.droplets@, i0 as int);
                    crate::droplet::lemma_dmap_index(self.droplets@, i1 as int);
                }
                let loc0 = self.droplets[i0].location;
                let loc1 = self.droplets[i1].location;
                if !(loc0 == loc1) {
                    return Err(ExecError::MixLocationMismatch { in0, in1 });
                }
                let vol = self.droplets[i0].volume + self.droplets[i1].volume;
                if vol > VOLUME_LIMIT {
                    return Err(ExecError::VolumeTooLarge { id: out });
                }
                if !(out == in0) && !(out == in1) && self.find_index(out).is_some() {
                    return Err(ExecError::DuplicateId { id: out });
                }
                let d0 = self.take(in0);
                self.take(in1);
                self.put(
                    Droplet {
                        id: out,
                        location: d0.location,
                        dimensions: Location { y: 1, x: 1 },
                        volume: vol,
                        destination: None,
                        collision_group: out.id,
                    },
                );
                Ok(())
            },
            Action::Split { inp, out0, out1 } => {
                proof {
                    crate::droplet::lemma_dmap_contains(self.droplets@, inp);
                    crate::droplet::lemma_dmap_contains(self.droplets@, out0);
                    crate::droplet::lemma_dmap_contains(self.droplets@, out1);
                }
                if self.find_index(inp).is_none() {
                    return Err(ExecError::UnknownId { id: inp });
                }
                if out0 == out1 {
                    return Err(ExecError::DuplicateId { id: out1 });
                }
                if !(out0 == inp) && self.find_index(out0).is_some() {
                    return Err(ExecError::DuplicateId { id: out0 });
                }
                if !(out1 == inp) && self.find_index(out1).is_some() {
                    return Err(ExecError::DuplicateId { id: out1 });
                }
                let d = self.take(inp);
                let v = d.volume;
                let eps = self.sample_split_error(v);
                let v0: u64 = ((v / 2) as i64 - eps) as u64;
                let v1: u64 = v - v0;
                self.put(
                    Droplet {
                        id: out0,
                        location: d.location,
                        dimensions: Location { y: 1, x: 1 },
                        volume: v0,
                        destination: None,
                        collision_group: out0.id,
                    },
                );
                self.put(
                    Droplet {
                        id: out1,
                        location: d.location,
                        dimensions: Location { y: 1, x: 1 },
                        volume: v1,
                        destination: None,
                        collision_group: out1.id,
                    },
                );
                proof {
                    let m = old(self).dmap();
                    assert(final(self).dmap() == split_result(m, inp, out0, out1, v0, v1));
                    assert(v0 + v1 == m[inp].volume);
                }
                Ok(())
            },
            Action::UpdateDroplet { old_id, new_id } => {
                proof {
                    crate::droplet::lemma_dmap_contains(self.droplets@, old_id);
                    crate::droplet::lemma_dmap_contains(self.droplets@, new_id);
                }
                if self.find_index(old_id).is_none() {
                    return Err(ExecError::UnknownId { id: old_id });
                }
                if !(new_id == old_id) && self.find_index(new_id).is_some() {
                    return Err(ExecError::DuplicateId { id: new_id });
                }
                let mut d = self.take(old_id);
                d.id = new_id;
                self.put(d);
                Ok(())
            },
            Action::MoveDroplet { id, location } => {
                proof {
                    crate::droplet::lemma_dmap_contains(self.droplets@, id);
                }
                let i = match self.find_index(id) {
                    Some(i) => i,
                    None => {
                        return Err(ExecError::UnknownId { id });
                    },
                };
                proof {
                    crate::droplet::lemma_dmap_index(self.droplets@, i as int);
                }
                let cur = self.droplets[i].location;
                if cur.distance_to(&location) > 1 {
                    return Err(ExecError::MoveTooFar { id });
                }
                let dims = self.droplets[i].dimensions;
                let place_ok = self.grid.is_on(location.y, location.x) && (location.y as u64) + (
                dims.y as u64) < (u32::MAX as u64) && (location.x as u64) + (dims.x as u64) < (
                u32::MAX as u64);
                if !place_ok {
                    return Err(ExecError::BadPlacement { id });
                }
                let mut d = self.take(id);
                d.location = location;
                self.put(d);
                proof {
                    assert(final(self).dmap() =~= old(self).dmap().insert(
                        id,
                        Droplet { location, ..old(self).dmap()[id] },
                    ));
                }
                Ok(())
            },
            Action::Tick => {
                match self.get_collision() {
                    None => Ok(()),
                    Some((id0, id1)) => Err(ExecError::CollisionAtTick { id0, id1 }),
                }
            },
            Action::Ping => Ok(()),
        }
    }

    /// Scan unordered pairs of droplets of distinct collision groups and
    /// report a colliding pair, if any. `None` means the no-collision
    /// invariant holds of the whole droplet map.
    pub fn get_collision(&self) -> (r: Option<(DropletId, DropletId)>)
        requires
            self.wf(),
        ensures
            r is None ==> !map_has_collision(self.dmap()),
            match r {
                Some((a, b)) => {
                    &&& a != b
                    &&& self.dmap().contains_key(a)
                    &&& self.dmap().contains_key(b)
                    &&& droplets_collide(self.dmap()[a], self.dmap()[b])
                },
                None => true,
            },
    {
        let n = self.droplets.len();
        let mut i: usize = 0;
        while i < n
            invariant
                self.wf(),
                n == self.droplets.len(),
                i <= n,
                forall|a: int, b: int|
                    0 <= a < i && 0 <= b < n && a != b ==> !droplets_collide(
                        #[trigger] self.droplets@[a],
                        #[trigger] self.droplets@[b],
                    ),
            decreases n - i,
        {
            let mut j: usize = 0;
            while j < n
                invariant
                    self.wf(),
                    n == self.droplets.len(),
                    i < n,
                    j <= n,
                    forall|b: int|
                        0 <= b < j && b != i ==> !droplets_collide(
                            self.droplets@[i as int],
                            #[trigger] self.droplets@[b],
                        ),
                decreases n - j,
            {
                if j != i && self.droplets[i].collision_group != self.droplets[j].collision_group {
                    let di = self.droplets[i];
                    let dj = self.droplets[j];
                    if rects_interfere_exec(&di.location, &di.dimensions, &dj.location,
                        &dj.dimensions) {
                        proof {
                            crate::droplet::lemma_dmap_index(self.droplets@, i as int);
                            crate::droplet::lemma_dmap_index(self.droplets@, j as int);
                        }
                        return Some((di.id, dj.id));
                    }
                }
                j = j + 1;
            }
            i = i + 1;
        }
        proof {
            if map_has_collision(self.dmap()) {
                let (a, b) = choose|a: DropletId, b: DropletId|
                    a != b && self.dmap().contains_key(a) && self.dmap().contains_key(b)
                        && droplets_collide(self.dmap()[a], self.dmap()[b]);
                crate::droplet::lemma_dmap_contains(self.droplets@, a);
                crate::droplet::lemma_dmap_contains(self.droplets@, b);
                let ia = choose|ia: int| 0 <= ia < self.droplets@.len() && self.droplets@[ia].id
                    == a;
                let ib = choose|ib: int| 0 <= ib < self.droplets@.len() && self.droplets@[ib].id
                    == b;
                crate::droplet::lemma_dmap_index(self.droplets@, ia);
                crate::droplet::lemma_dmap_index(self.droplets@, ib);
                assert(false);
            }
        }
        None
    }

    /// The same pairwise test applied to destinations, skipping droplets
    /// without one; used to reject infeasible routing instances up front.
    pub fn get_destination_collision(&self) -> (r: Option<(DropletId, DropletId)>)
        requires
            self.wf(),
        ensures
            r is None ==> !map_has_destination_collision(self.dmap()),
            match r {
                Some((a, b)) => {
                    &&& a != b
                    &&& self.dmap().contains_key(a)
                    &&& self.dmap().contains_key(b)
                    &&& destinations_collide(self.dmap()[a], self.dmap()[b])
                },
                None => true,
            },
    {
        let n = self.droplets.len();
        let mut i: usize = 0;
        while i < n
            invariant
                self.wf(),
                n == self.droplets.len(),
                i <= n,
                forall|a: int, b: int|
                    0 <= a < i && 0 <= b < n && a != b ==> !destinations_collide(
                        #[trigger] self.droplets@[a],
                        #[trigger] self.droplets@[b],
                    ),
            decreases n - i,
        {
            let mut j: usize = 0;
            while j < n
                invariant
                    self.wf(),
                    n == self.droplets.len(),
                    i < n,
                    j <= n,
                    forall|b: int|
                        0 <= b < j && b != i ==> !destinations_collide(
                            self.droplets@[i as int],
                            #[trigger] self.droplets@[b],
                        ),
                decreases n - j,
            {
                if j != i && self.droplets[i].collision_group != self.droplets[j].collision_group {
                    let di = self.droplets[i];
                    let dj = self.droplets[j];
                    match (di.destination, dj.destination) {
                        (Some(dest_i), Some(dest_j)) => {
                            if rects_interfere_exec(&dest_i, &di.dimensions, &dest_j,
                                &dj.dimensions) {
                                proof {
                                    crate::droplet::lemma_dmap_index(self.droplets@, i as int);
                                    crate::droplet::lemma_dmap_index(self.droplets@, j as int);
                                }
                                return Some((di.id, dj.id));
                            }
                        },
                        _ => {},
                    }
                }
                j = j + 1;
            }
            i = i + 1;
        }
        proof {
            if map_has_destination_collision(self.dmap()) {
                let (a, b) = choose|a: DropletId, b: DropletId|
                    a != b && self.dmap().contains_key(a) && self.dmap().contains_key(b)
                        && destinations_collide(self.dmap()[a], self.dmap()[b]);
                crate::droplet::lemma_dmap_contains(self.droplets@, a);
                crate::droplet::lemma_dmap_contains(self.droplets@, b);
                let ia = choose|ia: int| 0 <= ia < self.droplets@.len() && self.droplets@[ia].id
                    == a;
                let ib = choose|ib: int| 0 <= ib < self.droplets@.len() && self.droplets@[ib].id
                    == b;
                crate::droplet::lemma_dmap_index(self.droplets@, ia);
                crate::droplet::lemma_dmap_index(self.droplets@, ib);
                assert(false);
            }
        }
        None
    }

    /// The observable projection of the live droplets, in storage order,
    /// filtered by process id when one is supplied.
    pub fn droplet_info(&self, pid_option: Option<u64>) -> (r: Vec<DropletInfo>)
        requires
            self.wf(),
        ensures
            r@ == infos_of(self.droplets@, pid_option),
    {
        let mut r: Vec<DropletInfo> = Vec::new();
        let mut i: usize = 0;
        while i < self.droplets.len()
            invariant
                i <= self.droplets.len(),
                r@ == infos_of(self.droplets@.take(i as int), pid_option),
            decreases self.droplets.len() - i,
        {
            let d = self.droplets[i];
            let keep = match pid_option {
                Some(pid) => d.id.process_id == pid,
                None => true,
            };
            if keep {
                r.push(d.info());
            }
            proof {
                assert(self.droplets@.take(i + 1).drop_last() =~= self.droplets@.take(i as int));
                assert(self.droplets@.take(i + 1).last() == self.droplets@[i as int]);
            }
            i = i + 1;
        }
        proof {
            assert(self.droplets@.take(self.droplets@.len() as int) =~= self.droplets@);
        }
        r
    }
}

} // verus!
