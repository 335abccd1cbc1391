//! Droplets, their identifiers, and the association-vector view of the live
//! droplet set as a mathematical map from identifier to droplet.

use vstd::prelude::*;
use crate::geom::{Location, rects_interfere};

verus! {

/// Globally unique droplet identifier: a local id paired with the id of the
/// process that owns the droplet.
#[derive(Clone, Copy, PartialEq, Eq, Structural, Debug, Hash)]
pub struct DropletId {
    pub id: u64,
    pub process_id: u64,
}

/// A discrete fluid packet: the unit of motion on the grid.
///
/// The droplet occupies the rectangle anchored at `location` with extent
/// `dimensions`. `volume` is measured in integral volume units. Droplets
/// sharing a `collision_group` are permitted to overlap (for example a pair
/// on its way to merging).
#[derive(Clone, Copy, Debug)]
pub struct Droplet {
    pub id: DropletId,
    pub location: Location,
    pub dimensions: Location,
    pub volume: u64,
    pub destination: Option<Location>,
    pub collision_group: u64,
}

/// The externally observable projection of a droplet.
#[derive(Clone, Copy, Debug)]
pub struct DropletInfo {
    pub id: DropletId,
    pub location: Location,
    pub dimensions: Location,
    pub volume: u64,
    pub destination: Option<Location>,
}

impl Droplet {
    /// A fresh droplet with no destination and collision group equal to its
    /// local id, as produced by add, mix and split.
    pub fn new(id: DropletId, volume: u64, location: Location, dimensions: Location) -> (d:
        Droplet)
        ensures
            d == (Droplet {
                id,
                location,
                dimensions,
                volume,
                destination: None,
                collision_group: id.id,
            }),
    {
        Droplet { id, location, dimensions, volume, destination: None, collision_group: id.id }
    }

    /// The observable projection of this droplet.
    pub open spec fn spec_info(self) -> DropletInfo {
        DropletInfo {
            id: self.id,
            location: self.location,
            dimensions: self.dimensions,
            volume: self.volume,
            destination: self.destination,
        }
    }

    /// The observable projection of this droplet.
    pub fn info(&self) -> (r: DropletInfo)
        ensures
            r == self.spec_info(),
    {
        DropletInfo {
            id: self.id,
            location: self.location,
            dimensions: self.dimensions,
            volume: self.volume,
            destination: self.destination,
        }
    }
}

/// Two droplets collide when they belong to different collision groups and
/// the inflated footprint of one meets the plain footprint of the other.
pub open spec fn droplets_collide(a: Droplet, b: Droplet) -> bool {
    &&& a.collision_group != b.collision_group
    &&& rects_interfere(a.location, a.dimensions, b.location, b.dimensions)
}

/// The same test applied to destinations: both droplets must have one.
pub open spec fn destinations_collide(a: Droplet, b: Droplet) -> bool {
    &&& a.collision_group != b.collision_group
    &&& a.destination is Some
    &&& b.destination is Some
    &&& rects_interfere(a.destination->0, a.dimensions, b.destination->0, b.dimensions)
}

/// No two distinct droplets of the sequence share an identifier.
pub open spec fn ids_distinct(s: Seq<Droplet>) -> bool {
    forall|i: int, j: int|
        0 <= i < s.len() && 0 <= j < s.len() && i != j ==> (#[trigger] s[i]).id != (
        #[trigger] s[j]).id
}

/// The map from identifier to droplet described by an association vector.
pub open spec fn dmap(s: Seq<Droplet>) -> Map<DropletId, Droplet>
    decreases s.len(),
{
    if s.len() == 0 {
        Map::empty()
    } else {
        dmap(s.drop_last()).insert(s.last().id, s.last())
    }
}

/// An identifier is in the map exactly when some droplet of the vector
/// carries it.
pub proof fn lemma_dmap_contains(s: Seq<Droplet>, id: DropletId)
    ensures
        dmap(s).contains_key(id) <==> exists|i: int| 0 <= i < s.len() && s[i].id == id,
    decreases s.len(),
{
    if s.len() > 0 {
        lemma_dmap_contains(s.drop_last(), id);
        if s.last().id == id {
            assert(s[s.len() - 1].id == id);
        } else if dmap(s).contains_key(id) {
            let i = choose|i: int| 0 <= i < s.drop_last().len() && s.drop_last()[i].id == id;
            assert(s[i].id == id);
        } else if exists|i: int| 0 <= i < s.len() && s[i].id == id {
            let i = choose|i: int| 0 <= i < s.len() && s[i].id == id;
            assert(s.drop_last()[i].id == id);
        }
    }
}

/// With distinct identifiers, the map sends the identifier of the droplet at
/// any index to that droplet.
pub proof fn lemma_dmap_index(s: Seq<Droplet>, i: int)
    requires
        ids_distinct(s),
        0 <= i < s.len(),
    ensures
        dmap(s).contains_key(s[i].id),
        dmap(s)[s[i].id] == s[i],
    decreases s.len(),
{
    lemma_dmap_contains(s, s[i].id);
    if i == s.len() - 1 {
    } else {
        assert(s[i].id != s.last().id);
        assert(s.drop_last()[i] == s[i]);
        lemma_dmap_index(s.drop_last(), i);
    }
}

/// Appending a droplet inserts it into the map.
pub proof fn lemma_dmap_push(s: Seq<Droplet>, d: Droplet)
    ensures
        dmap(s.push(d)) == dmap(s).insert(d.id, d),
{
    assert(s.push(d).drop_last() =~= s);
    assert(s.push(d).last() == d);
}

/// Removing the droplet at an index (identifiers distinct) removes its
/// identifier from the map.
pub proof fn lemma_dmap_remove(s: Seq<Droplet>, i: int)
    requires
        ids_distinct(s),
        0 <= i < s.len(),
    ensures
        dmap(s.remove(i)) =~= dmap(s).remove(s[i].id),
    decreases s.len(),
{
    let t = s.remove(i);
    if i == s.len() - 1 {
        assert(t =~= s.drop_last());
        lemma_dmap_contains(s.drop_last(), s[i].id);
        assert(forall|j: int|
            0 <= j < s.drop_last().len() ==> (#[trigger] s.drop_last()[j]).id != s[i].id);
        assert(!dmap(s.drop_last()).contains_key(s[i].id));
        assert(dmap(t) =~= dmap(s).remove(s[i].id));
    } else {
        assert(t.last() == s.last());
        assert(t.drop_last() =~= s.drop_last().remove(i));
        lemma_dmap_remove(s.drop_last(), i);
        assert(s[i].id != s.last().id);
        assert(dmap(t) =~= dmap(s).remove(s[i].id));
    }
}

/// A map with a collision: some pair of distinct live droplets collides.
pub open spec fn map_has_collision(m: Map<DropletId, Droplet>) -> bool {
    exists|a: DropletId, b: DropletId|
        a != b && m.contains_key(a) && m.contains_key(b) && droplets_collide(m[a], m[b])
}

/// A map with a destination collision.
pub open spec fn map_has_destination_collision(m: Map<DropletId, Droplet>) -> bool {
    exists|a: DropletId, b: DropletId|
        a != b && m.contains_key(a) && m.contains_key(b) && destinations_collide(m[a], m[b])
}

} // verus!
