//! The multi-droplet router: time-expanded A* with a cooperative avoidance
//! reservation, and the translator from paths to a tick-delimited action
//! stream.

use vstd::prelude::*;
use crate::action::Action;
use crate::droplet::{Droplet, DropletId};
use crate::gridview::GridView;
use crate::rng::{fresh_thread_rng, shuffle_usizes};
use crate::geom::{Location, in_inflated};
use crate::grid::Grid;

verus! {

broadcast use vstd::seq_lib::lemma_seq_contains_after_push;

/// A point of the time-expanded search space: a cell at a tick.
#[derive(Clone, Copy, PartialEq, Eq, Structural, Debug, Hash)]
pub struct Node {
    pub loc: Location,
    pub t: u64,
}

/// The first value bound to `key` in an association sequence, if any.
pub open spec fn assoc_find<K, V>(s: Seq<(K, V)>, key: K) -> Option<V>
    decreases s.len(),
{
    if s.len() == 0 {
        None
    } else if s[0].0 == key {
        Some(s[0].1)
    } else {
        assoc_find(s.drop_first(), key)
    }
}

/// Prepending a binding shadows earlier bindings of the same key and leaves
/// every other key's binding unchanged.
pub proof fn lemma_assoc_prepend<K, V>(s: Seq<(K, V)>, k: K, v: V, key: K)
    ensures
        assoc_find(s.insert(0, (k, v)), key) == if key == k {
            Some(v)
        } else {
            assoc_find(s, key)
        },
{
    let s2 = s.insert(0, (k, v));
    assert(s2[0] == (k, v));
    assert(s2.drop_first() =~= s);
}

/// Find the binding of a location in a finals vector.
fn find_final_time(v: &Vec<(Location, u64)>, loc: &Location) -> (r: Option<u64>)
    ensures
        r == assoc_find(v@, *loc),
{
    let mut i: usize = 0;
    proof {
        assert(v@.skip(0) =~= v@);
    }
    while i < v.len()
        invariant
            i <= v.len(),
            assoc_find(v@, *loc) == assoc_find(v@.skip(i as int), *loc),
        decreases v.len() - i,
    {
        proof {
            assert(v@.skip(i as int)[0] == v@[i as int]);
            assert(v@.skip(i as int).drop_first() =~= v@.skip(i + 1));
        }
        if v[i].0 == *loc {
            return Some(v[i].1);
        }
        i = i + 1;
    }
    proof {
        assert(v@.skip(v.len() as int) =~= Seq::<(Location, u64)>::empty());
    }
    None
}

/// Find the binding of a node in a came-from vector.
fn find_pred(v: &Vec<(Node, Node)>, n: &Node) -> (r: Option<Node>)
    ensures
        r == assoc_find(v@, *n),
{
    let mut i: usize = 0;
    proof {
        assert(v@.skip(0) =~= v@);
    }
    while i < v.len()
        invariant
            i <= v.len(),
            assoc_find(v@, *n) == assoc_find(v@.skip(i as int), *n),
        decreases v.len() - i,
    {
        proof {
            assert(v@.skip(i as int)[0] == v@[i as int]);
            assert(v@.skip(i as int).drop_first() =~= v@.skip(i + 1));
        }
        if v[i].0 == *n {
            return Some(v[i].1);
        }
        i = i + 1;
    }
    proof {
        assert(v@.skip(v.len() as int) =~= Seq::<(Node, Node)>::empty());
    }
    None
}

/// Find the binding of a node in a best-cost vector.
fn find_cost(v: &Vec<(Node, u64)>, n: &Node) -> (r: Option<u64>)
    ensures
        r == assoc_find(v@, *n),
{
    let mut i: usize = 0;
    proof {
        assert(v@.skip(0) =~= v@);
    }
    while i < v.len()
        invariant
            i <= v.len(),
            assoc_find(v@, *n) == assoc_find(v@.skip(i as int), *n),
        decreases v.len() - i,
    {
        proof {
            assert(v@.skip(i as int)[0] == v@[i as int]);
            assert(v@.skip(i as int).drop_first() =~= v@.skip(i + 1));
        }
        if v[i].0 == *n {
            return Some(v[i].1);
        }
        i = i + 1;
    }
    proof {
        assert(v@.skip(v.len() as int) =~= Seq::<(Node, u64)>::empty());
    }
    None
}

/// Does the vector contain this node?
fn node_vec_contains(v: &Vec<Node>, n: &Node) -> (r: bool)
    ensures
        r == v@.contains(*n),
{
    let mut i: usize = 0;
    while i < v.len()
        invariant
            i <= v.len(),
            forall|j: int| 0 <= j < i ==> v@[j] != *n,
        decreases v.len() - i,
    {
        if v[i] == *n {
            return true;
        }
        i = i + 1;
    }
    false
}

/// Saturating addition on `u64`.
fn sat_add(a: u64, b: u64) -> (r: u64)
    ensures
        r == if a + b <= u64::MAX {
            a + b
        } else {
            u64::MAX as int
        },
{
    if a > u64::MAX - b {
        u64::MAX
    } else {
        a + b
    }
}


/// Saturating multiplication on `u64`.
fn sat_mul(a: u64, b: u64) -> (r: u64)
    ensures
        r == if a * b <= u64::MAX {
            a * b
        } else {
            u64::MAX as int
        },
{
    if a == 0 {
        return 0;
    }
    if b > u64::MAX / a {
        proof {
            assert(a * b > u64::MAX) by (nonlinear_arith)
                requires
                    a >= 1,
                    b > u64::MAX as int / a as int,
            ;
        }
        u64::MAX
    } else {
        proof {
            assert(a * b <= u64::MAX) by (nonlinear_arith)
                requires
                    a >= 1,
                    b <= u64::MAX as int / a as int,
            ;
        }
        a * b
    }
}

/// The subsequence of the candidates that a reservation lets through, costs
/// and order preserved.
pub open spec fn clear_of(av: AvoidanceSet, s: Seq<(u64, Node)>) -> Seq<(u64, Node)>
    decreases s.len(),
{
    if s.len() == 0 {
        Seq::empty()
    } else if av.node_clear(s.last().1) {
        clear_of(av, s.drop_last()).push(s.last())
    } else {
        clear_of(av, s.drop_last())
    }
}

/// The cooperative reservation accumulated while droplets are routed one by
/// one: `present` holds the space-and-time-widened nodes of the paths
/// committed so far, `finals` maps each cell of a committed path's final
/// inflated footprint to the tick at which that droplet parks, and
/// `max_time` is the latest parking tick seen.
pub struct AvoidanceSet {
    pub max_time: u64,
    pub present: Vec<Node>,
    pub finals: Vec<(Location, u64)>,
}

impl AvoidanceSet {
    /// An empty reservation.
    pub fn new() -> (av: AvoidanceSet)
        ensures
            av.max_time == 0,
            av.present@ =~= Seq::<Node>::empty(),
            av.finals@ =~= Seq::<(Location, u64)>::empty(),
    {
        AvoidanceSet { max_time: 0, present: Vec::new(), finals: Vec::new() }
    }

    /// The node is reserved by a committed path.
    pub open spec fn spec_collides(self, n: Node) -> bool {
        self.present@.contains(n)
    }

    /// The node's cell is the parking place of a committed path, at or after
    /// the parking tick.
    pub open spec fn spec_collides_with_final(self, n: Node) -> bool {
        match assoc_find(self.finals@, n.loc) {
            Some(ft) => n.t >= ft,
            None => false,
        }
    }

    /// A node the next path may use.
    pub open spec fn node_clear(self, n: Node) -> bool {
        !self.spec_collides(n) && !self.spec_collides_with_final(n)
    }

    /// Is the node reserved?
    pub fn collides(&self, node: &Node) -> (r: bool)
        ensures
            r == self.spec_collides(*node),
    {
        node_vec_contains(&self.present, node)
    }

    /// Does the node hit a parked droplet?
    pub fn collides_with_final(&self, node: &Node) -> (r: bool)
        ensures
            r == self.spec_collides_with_final(*node),
    {
        match find_final_time(&self.finals, &node.loc) {
            Some(ft) => node.t >= ft,
            None => false,
        }
    }

    /// Would a droplet parking here be hit by a committed path later on?
    /// True when the cell is reserved at some tick from `node.t` through
    /// `max_time`.
    pub fn would_finally_collide(&self, node: &Node) -> (r: bool)
        ensures
            r == exists|t: u64|
                node.t <= t <= self.max_time && self.spec_collides(Node { loc: node.loc, t }),
    {
        let mut t: u64 = node.t;
        while t <= self.max_time
            invariant
                node.t <= t,
                forall|u: u64|
                    node.t <= u < t ==> !self.spec_collides(Node { loc: node.loc, t: u }),
            decreases self.max_time + 1 - t,
        {
            if self.collides(&Node { loc: node.loc, t }) {
                return true;
            }
            if t == u64::MAX {
                return false;
            }
            t = t + 1;
        }
        false
    }

    /// Keep only the expansion candidates that are neither reserved nor in
    /// conflict with a parked droplet.
    pub fn filter(&self, vec: Vec<(u64, Node)>) -> (r: Vec<(u64, Node)>)
        ensures
            r@ == clear_of(*self, vec@),
            forall|e: (u64, Node)|
                r@.contains(e) <==> vec@.contains(e) && self.node_clear(e.1),
    {
        let mut r: Vec<(u64, Node)> = Vec::new();
        let mut i: usize = 0;
        while i < vec.len()
            invariant
                i <= vec.len(),
                r@ == clear_of(*self, vec@.take(i as int)),
                forall|e: (u64, Node)|
                    r@.contains(e) <==> vec@.take(i as int).contains(e) && self.node_clear(e.1),
            decreases vec.len() - i,
        {
            let (c, n) = vec[i];
            if !self.collides(&n) && !self.collides_with_final(&n) {
                r.push((c, n));
            }
            proof {
                assert(vec@.take(i + 1).drop_last() =~= vec@.take(i as int));
                assert(vec@.take(i + 1).last() == vec@[i as int]);
                assert forall|e: (u64, Node)|
                    r@.contains(e) <==> vec@.take(i + 1).contains(e) && self.node_clear(e.1) by {
                    assert(vec@.take(i + 1).contains(e) <==> vec@.take(i as int).contains(e) || e
                        == vec@[i as int]);
                }
            }
            i = i + 1;
        }
        proof {
            assert(vec@.take(vec.len() as int) =~= vec@);
        }
        r
    }

    /// Reserve the inflated footprint of a droplet standing at `node`, for
    /// the node's tick and the tick on either side of it.
    pub fn avoid_node(&mut self, grid: &Grid, node: Node, dimensions: &Location)
        requires
            node.loc.y + dimensions.y < u32::MAX,
            node.loc.x + dimensions.x < u32::MAX,
            node.t < u64::MAX,
        ensures
            final(self).max_time == old(self).max_time,
            final(self).finals == old(self).finals,
            forall|m: Node|
                final(self).spec_collides(m) <==> old(self).spec_collides(m) || (
                grid.contains_loc(m.loc) && in_inflated(node.loc, *dimensions, m.loc.y as int,
                    m.loc.x as int,
                ) && node.t <= m.t + 1 && m.t <= node.t + 1),
    {
        let cells = grid.neighbors_dimensions(&node.loc, dimensions);
        let mut i: usize = 0;
        while i < cells.len()
            invariant
                i <= cells.len(),
                node.t < u64::MAX,
                self.max_time == old(self).max_time,
                self.finals == old(self).finals,
                forall|k: int|
                    0 <= k < cells@.len() ==> grid.contains_loc(#[trigger] cells@[k])
                        && in_inflated(node.loc, *dimensions, cells@[k].y as int,
                        cells@[k].x as int,
                    ),
                forall|m: Location|
                    grid.contains_loc(m) && in_inflated(node.loc, *dimensions, m.y as int,
                        m.x as int,
                    ) ==> cells@.contains(m),
                forall|m: Node|
                    self.spec_collides(m) <==> old(self).spec_collides(m) || ((exists|k: int|
                        0 <= k < i && cells@[k] == m.loc) && node.t <= m.t + 1 && m.t <= node.t
                        + 1),
            decreases cells.len() - i,
        {
            let ghost pre_av = *self;
            let loc = cells[i];
            if node.t > 0 {
                self.present.push(Node { loc, t: node.t - 1 });
            }
            self.present.push(Node { loc, t: node.t });
            self.present.push(Node { loc, t: node.t + 1 });
            proof {
                let a = Node { loc: cells@[i as int], t: (node.t - 1) as u64 };
                let b = Node { loc: cells@[i as int], t: node.t };
                let c = Node { loc: cells@[i as int], t: (node.t + 1) as u64 };
                if node.t > 0 {
                    assert(self.present@ == pre_av.present@.push(a).push(b).push(c));
                } else {
                    assert(self.present@ == pre_av.present@.push(b).push(c));
                }
                assert forall|m: Node|
                    self.spec_collides(m) == ((node.t > 0 && m == a) || m == b || m == c
                        || pre_av.spec_collides(m)) by {}
                assert forall|m: Node|
                    old(self).spec_collides(m) || ((exists|k: int|
                        0 <= k < i + 1 && cells@[k] == m.loc) && node.t <= m.t + 1 && m.t
                        <= node.t + 1) implies self.spec_collides(m) by {
                    if old(self).spec_collides(m) {
                        assert(pre_av.spec_collides(m));
                    } else {
                        let k = choose|k: int| 0 <= k < i + 1 && cells@[k] == m.loc;
                        if k < i {
                            assert((exists|k2: int| 0 <= k2 < i && cells@[k2] == m.loc)
                                && node.t <= m.t + 1 && m.t <= node.t + 1);
                            assert(pre_av.spec_collides(m));
                        } else {
                            assert(m.loc == cells@[i as int]);
                            if m.t + 1 == node.t {
                                assert(node.t > 0 && m == a);
                            } else if m.t == node.t {
                                assert(m == b);
                            } else {
                                assert(m.t == node.t + 1);
                                assert(m == c);
                            }
                        }
                    }
                }
                assert forall|m: Node|
                    self.spec_collides(m) implies old(self).spec_collides(m) || ((exists|k: int|
                        0 <= k < i + 1 && cells@[k] == m.loc) && node.t <= m.t + 1 && m.t
                        <= node.t + 1) by {
                    if pre_av.spec_collides(m) {
                        if !old(self).spec_collides(m) {
                            let k = choose|k: int| 0 <= k < i && cells@[k] == m.loc;
                            assert(0 <= k < i + 1 && cells@[k] == m.loc);
                        }
                    } else {
                        assert((node.t > 0 && m == a) || m == b || m == c);
                        assert(0 <= i < i + 1 && cells@[i as int] == m.loc);
                    }
                }
            }
            i = i + 1;
        }
        proof {
            assert forall|m: Node|
                final(self).spec_collides(m) <==> old(self).spec_collides(m) || (
                grid.contains_loc(m.loc) && in_inflated(node.loc, *dimensions, m.loc.y as int,
                    m.loc.x as int,
                ) && node.t <= m.t + 1 && m.t <= node.t + 1) by {
                if grid.contains_loc(m.loc) && in_inflated(node.loc, *dimensions, m.loc.y as int,
                    m.loc.x as int,
                ) {
                    assert(cells@.contains(m.loc));
                }
            }
        }
    }

    /// Commit a routed path: reserve each of its nodes (widened in space and
    /// time), record the parking tick of every cell in the final cell's
    /// inflated footprint, and raise `max_time`.
    pub fn avoid_path(&mut self, path: &Vec<Location>, grid: &Grid, droplet_dimensions: &Location)
        requires
            path.len() >= 1,
            path.len() < u64::MAX,
            forall|i: int|
                0 <= i < path@.len() ==> (#[trigger] path@[i]).y + droplet_dimensions.y
                    < u32::MAX && path@[i].x + droplet_dimensions.x < u32::MAX,
        ensures
            final(self).max_time == if old(self).max_time >= path@.len() - 1 {
                old(self).max_time
            } else {
                (path@.len() - 1) as u64
            },
            forall|m: Node|
                final(self).spec_collides(m) <==> old(self).spec_collides(m) || (exists|i: int|
                    0 <= i < path@.len() && grid.contains_loc(m.loc) && in_inflated(
                        #[trigger] path@[i],
                        *droplet_dimensions,
                        m.loc.y as int,
                        m.loc.x as int,
                    ) && i <= m.t + 1 && m.t <= i + 1),
            forall|loc: Location|
                assoc_find(final(self).finals@, loc) == if grid.contains_loc(loc) && in_inflated(
                    path@.last(),
                    *droplet_dimensions,
                    loc.y as int,
                    loc.x as int,
                ) {
                    Some((path@.len() - 1) as u64)
                } else {
                    assoc_find(old(self).finals@, loc)
                },
    {
        let mut i: usize = 0;
        while i < path.len()
            invariant
                i <= path.len(),
                path.len() < u64::MAX,
                forall|k: int|
                    0 <= k < path@.len() ==> (#[trigger] path@[k]).y + droplet_dimensions.y
                        < u32::MAX && path@[k].x + droplet_dimensions.x < u32::MAX,
                self.max_time == old(self).max_time,
                self.finals == old(self).finals,
                forall|m: Node|
                    self.spec_collides(m) <==> old(self).spec_collides(m) || (exists|k: int|
                        0 <= k < i && grid.contains_loc(m.loc) && in_inflated(
                            #[trigger] path@[k],
                            *droplet_dimensions,
                            m.loc.y as int,
                            m.loc.x as int,
                        ) && k <= m.t + 1 && m.t <= k + 1),
            decreases path.len() - i,
        {
            let ghost pre = *self;
            let node = Node { loc: path[i], t: i as u64 };
            self.avoid_node(grid, node, droplet_dimensions);
            proof {
                assert forall|m: Node|
                    self.spec_collides(m) <==> old(self).spec_collides(m) || (exists|k: int|
                        0 <= k < i + 1 && grid.contains_loc(m.loc) && in_inflated(
                            #[trigger] path@[k],
                            *droplet_dimensions,
                            m.loc.y as int,
                            m.loc.x as int,
                        ) && k <= m.t + 1 && m.t <= k + 1) by {
                    if self.spec_collides(m) && !pre.spec_collides(m) {
                        assert(0 <= i < i + 1 && grid.contains_loc(m.loc) && in_inflated(
                            path@[i as int],
                            *droplet_dimensions,
                            m.loc.y as int,
                            m.loc.x as int,
                        ) && i <= m.t + 1 && m.t <= i + 1);
                    }
                    if exists|k: int|
                        0 <= k < i + 1 && grid.contains_loc(m.loc) && in_inflated(
                            #[trigger] path@[k],
                            *droplet_dimensions,
                            m.loc.y as int,
                            m.loc.x as int,
                        ) && k <= m.t + 1 && m.t <= k + 1 {
                        let k = choose|k: int|
                            0 <= k < i + 1 && grid.contains_loc(m.loc) && in_inflated(
                                #[trigger] path@[k],
                                *droplet_dimensions,
                                m.loc.y as int,
                                m.loc.x as int,
                            ) && k <= m.t + 1 && m.t <= k + 1;
                        if k == i {
                            assert(self.spec_collides(m));
                        }
                    }
                }
            }
            i = i + 1;
        }
        // record the final cell's footprint as parked from the last tick on
        let ghost mid = *self;
        let last = path.len() - 1;
        let cells = grid.neighbors_dimensions(&path[last], droplet_dimensions);
        let mut j: usize = 0;
        while j < cells.len()
            invariant
                j <= cells.len(),
                last == path.len() - 1,
                path.len() >= 1,
                path.len() < u64::MAX,
                self.max_time == mid.max_time,
                self.present == mid.present,
                forall|k: int|
                    0 <= k < cells@.len() ==> grid.contains_loc(#[trigger] cells@[k])
                        && in_inflated(path@.last(), *droplet_dimensions, cells@[k].y as int,
                        cells@[k].x as int,
                    ),
                forall|m: Location|
                    grid.contains_loc(m) && in_inflated(path@.last(), *droplet_dimensions,
                        m.y as int, m.x as int) ==> cells@.contains(m),
                forall|loc: Location|
                    assoc_find(self.finals@, loc) == if exists|k: int|
                        0 <= k < j && cells@[k] == loc {
                        Some(last as u64)
                    } else {
                        assoc_find(mid.finals@, loc)
                    },
            decreases cells.len() - j,
        {
            let ghost pre = self.finals@;
            let loc = cells[j];
            self.finals.insert(0, (loc, last as u64));
            proof {
                assert(self.finals@ =~= pre.insert(0, (loc, last as u64)));
                assert forall|l2: Location|
                    assoc_find(self.finals@, l2) == (if exists|k: int|
                        0 <= k < j + 1 && cells@[k] == l2 {
                        Some(last as u64)
                    } else {
                        assoc_find(mid.finals@, l2)
                    }) by {
                    lemma_assoc_prepend(pre, loc, last as u64, l2);
                    if l2 == loc {
                        assert(0 <= j < j + 1 && cells@[j as int] == l2);
                    } else {
                        if exists|k: int| 0 <= k < j + 1 && cells@[k] == l2 {
                            let k = choose|k: int| 0 <= k < j + 1 && cells@[k] == l2;
                            assert(0 <= k < j && cells@[k] == l2);
                        }
                    }
                }
            }
            j = j + 1;
        }
        if (last as u64) > self.max_time {
            self.max_time = last as u64;
        }
        proof {
            assert(self.present@ == mid.present@);
            assert forall|m: Node|
                final(self).spec_collides(m) <==> old(self).spec_collides(m) || (exists|i2: int|
                    0 <= i2 < path@.len() && grid.contains_loc(m.loc) && in_inflated(
                        #[trigger] path@[i2],
                        *droplet_dimensions,
                        m.loc.y as int,
                        m.loc.x as int,
                    ) && i2 <= m.t + 1 && m.t <= i2 + 1) by {
                assert(self.spec_collides(m) == mid.spec_collides(m));
            }
        }
    }
}

impl Node {
    /// The candidate successors of this node: each valid cardinal neighbor
    /// one tick later at the move cost, and this cell one tick later at the
    /// strictly cheaper wait cost.
    pub fn expand(&self, grid: &Grid) -> (r: Vec<(u64, Node)>)
        requires
            self.t < u64::MAX,
        ensures
            1 <= r@.len() <= 5,
            r@.last() == (1u64, Node { loc: self.loc, t: (self.t + 1) as u64 }),
            forall|i: int|
                0 <= i < r@.len() - 1 ==> (#[trigger] r@[i]).0 == 100 && r@[i].1.t == self.t + 1
                    && grid.contains_loc(r@[i].1.loc) && self.loc.spec_distance_to(r@[i].1.loc)
                    == 1,
            forall|i: int, j: int|
                0 <= i < j < r@.len() ==> (#[trigger] r@[i]).1 != (#[trigger] r@[j]).1,
            forall|e: (u64, Node)|
                r@.contains(e) <==> (e.1.t == self.t + 1 && ((e.0 == 100 && grid.contains_loc(
                    e.1.loc,
                ) && self.loc.spec_distance_to(e.1.loc) == 1) || (e.0 == 1 && e.1.loc
                    == self.loc))),
    {
        let ns = grid.neighbors4(&self.loc);
        let mut r: Vec<(u64, Node)> = Vec::new();
        let mut i: usize = 0;
        while i < ns.len()
            invariant
                i <= ns.len(),
                self.t < u64::MAX,
                ns@.len() <= 4,
                r@.len() == i,
                forall|k: int|
                    0 <= k < ns@.len() ==> grid.contains_loc(#[trigger] ns@[k])
                        && self.loc.spec_distance_to(ns@[k]) == 1,
                forall|m: Location|
                    grid.contains_loc(m) && self.loc.spec_distance_to(m) == 1 ==> ns@.contains(m),
                forall|k: int, l: int| 0 <= k < l < ns@.len() ==> ns@[k] != ns@[l],
                forall|k: int|
                    0 <= k < i ==> #[trigger] r@[k] == (100u64, Node {
                        loc: ns@[k],
                        t: (self.t + 1) as u64,
                    }),
                forall|e: (u64, Node)|
                    r@.contains(e) <==> (e.0 == 100 && e.1.t == self.t + 1 && (exists|k: int|
                        0 <= k < i && ns@[k] == e.1.loc)),
            decreases ns.len() - i,
        {
            let loc = ns[i];
            r.push((100, Node { loc, t: self.t + 1 }));
            proof {
                assert forall|e: (u64, Node)|
                    r@.contains(e) <==> (e.0 == 100 && e.1.t == self.t + 1 && (exists|k: int|
                        0 <= k < i + 1 && ns@[k] == e.1.loc)) by {
                    if e == (100u64, Node { loc: ns@[i as int], t: (self.t + 1) as u64 }) {
                        assert(ns@[i as int] == e.1.loc);
                    }
                }
            }
            i = i + 1;
        }
        let ghost base = r@;
        r.push((1, Node { loc: self.loc, t: self.t + 1 }));
        proof {
            assert forall|e: (u64, Node)|
                r@.contains(e) <==> (e.1.t == self.t + 1 && ((e.0 == 100 && grid.contains_loc(
                    e.1.loc,
                ) && self.loc.spec_distance_to(e.1.loc) == 1) || (e.0 == 1 && e.1.loc
                    == self.loc))) by {
                if e.1.t == self.t + 1 && e.0 == 100 && grid.contains_loc(e.1.loc)
                    && self.loc.spec_distance_to(e.1.loc) == 1 {
                    assert(ns@.contains(e.1.loc));
                    let k = choose|k: int| 0 <= k < ns@.len() && ns@[k] == e.1.loc;
                    assert(0 <= k < ns@.len() && ns@[k] == e.1.loc);
                    assert(base.contains((100u64, e.1)));
                }
            }
        }
        r
    }
}

/// Upper bound on the routing horizon, so every tick index fits in a vector
/// index on any target.
pub const HORIZON_CAP: u64 = 0x7FFF0000;

/// Where a droplet is headed: its destination, or its own location when it
/// has none.
pub open spec fn dest_of(d: Droplet) -> Location {
    if d.destination is Some {
        d.destination->0
    } else {
        d.location
    }
}

/// A well-formed routed path for a droplet: it starts at the droplet's
/// location, stays on the grid, advances by at most one cell per tick
/// (waits included), and ends at the droplet's target.
pub open spec fn path_ok(g: Grid, d: Droplet, p: Seq<Location>) -> bool {
    &&& p.len() >= 1
    &&& p[0] == d.location
    &&& forall|i: int| 0 <= i < p.len() ==> g.contains_loc(#[trigger] p[i])
    &&& forall|i: int|
        0 <= i < p.len() - 1 ==> (#[trigger] p[i].spec_distance_to(p[i + 1])) <= 1
    &&& p.last() == dest_of(d)
}

/// The path respects a reservation: every node after the start is clear of
/// it, and the parking cell stays clear from the parking tick to the
/// reservation's `max_time`.
pub open spec fn path_clear(av: AvoidanceSet, p: Seq<Location>) -> bool {
    &&& forall|i: int|
        1 <= i < p.len() ==> av.node_clear(Node { loc: #[trigger] p[i], t: i as u64 })
    &&& forall|t: int|
        p.len() - 1 <= t <= av.max_time ==> !(#[trigger] av.spec_collides(
            Node { loc: p.last(), t: t as u64 },
        ))
}

/// Well-formedness of the search's predecessor record: every recorded node
/// was reached by a single step from its predecessor, is on the grid and
/// clear of the reservation, sits within the horizon, and its predecessor is
/// either the start or recorded itself.
pub open spec fn cf_ok(
    cf: Seq<(Node, Node)>,
    start: Node,
    g: Grid,
    av: AvoidanceSet,
    horizon: u64,
) -> bool {
    forall|n: Node|
        (#[trigger] assoc_find(cf, n)) is Some ==> {
            let p = assoc_find(cf, n)->0;
            &&& 1 <= n.t <= horizon + 1
            &&& p.t + 1 == n.t
            &&& p.loc.spec_distance_to(n.loc) <= 1
            &&& g.contains_loc(n.loc)
            &&& g.contains_loc(p.loc)
            &&& av.node_clear(n)
            &&& (p == start || assoc_find(cf, p) is Some)
        }
}

/// Pop an entry with the least cost from the open vector.
fn pop_min(v: &mut Vec<(u64, Node)>) -> (r: Option<(u64, Node)>)
    ensures
        match r {
            None => old(v)@.len() == 0 && final(v)@ == old(v)@,
            Some(e) => {
                &&& old(v)@.contains(e)
                &&& final(v)@.len() + 1 == old(v)@.len()
                &&& (forall|j: int|
                    0 <= j < final(v)@.len() ==> old(v)@.contains(#[trigger] final(v)@[j]))
                &&& (forall|j: int| 0 <= j < old(v)@.len() ==> e.0 <= (#[trigger] old(v)@[j]).0)
            },
        },
{
    if v.len() == 0 {
        return None;
    }
    let mut best_i: usize = 0;
    let mut i: usize = 1;
    while i < v.len()
        invariant
            best_i < i <= v.len(),
            forall|j: int| 0 <= j < i ==> v@[best_i as int].0 <= (#[trigger] v@[j]).0,
        decreases v.len() - i,
    {
        if v[i].0 < v[best_i].0 {
            best_i = i;
        }
        i = i + 1;
    }
    let e = v.remove(best_i);
    proof {
        assert(old(v)@[best_i as int] == e);
        assert forall|j: int| 0 <= j < v@.len() implies old(v)@.contains(#[trigger] v@[j]) by {
            if j < best_i {
                assert(v@[j] == old(v)@[j]);
            } else {
                assert(v@[j] == old(v)@[j + 1]);
            }
        }
    }
    Some(e)
}

/// Rebuild the path ending at `end_node` by walking the predecessor record
/// back to the start, then reversing.
fn build_path(
    cf: &Vec<(Node, Node)>,
    end_node: Node,
    Ghost(start): Ghost<Node>,
    Ghost(g): Ghost<Grid>,
    Ghost(av): Ghost<AvoidanceSet>,
    Ghost(horizon): Ghost<u64>,
) -> (p: Vec<Location>)
    requires
        cf_ok(cf@, start, g, av, horizon),
        start.t == 0,
        g.contains_loc(start.loc),
        end_node == start || assoc_find(cf@, end_node) is Some,
        end_node.t < HORIZON_CAP + 2,
    ensures
        p@.len() == end_node.t + 1,
        p@[0] == start.loc,
        p@.last() == end_node.loc,
        forall|i: int| 0 <= i < p@.len() ==> g.contains_loc(#[trigger] p@[i]),
        forall|i: int|
            0 <= i < p@.len() - 1 ==> (#[trigger] p@[i].spec_distance_to(p@[i + 1])) <= 1,
        forall|i: int|
            1 <= i < p@.len() ==> av.node_clear(Node { loc: #[trigger] p@[i], t: i as u64 }),
{
    let mut rev: Vec<Location> = Vec::new();
    let mut cur = end_node;
    loop
        invariant
            cf_ok(cf@, start, g, av, horizon),
            start.t == 0,
            g.contains_loc(start.loc),
            cur == start || assoc_find(cf@, cur) is Some,
            cur.t + rev@.len() == end_node.t,
            rev@.len() == 0 ==> cur == end_node,
            rev@.len() > 0 ==> rev@[0] == end_node.loc,
            rev@.len() > 0 ==> cur.loc.spec_distance_to(rev@.last()) <= 1,
            g.contains_loc(cur.loc),
            forall|j: int| 0 <= j < rev@.len() ==> g.contains_loc(#[trigger] rev@[j]),
            forall|j: int|
                0 <= j < rev@.len() ==> av.node_clear(
                    Node { loc: #[trigger] rev@[j], t: (end_node.t - j) as u64 },
                ),
            forall|j: int|
                0 <= j < rev@.len() - 1 ==> rev@[j + 1].spec_distance_to(#[trigger] rev@[j])
                    <= 1,
        ensures
            cur == start,
            cur.t + rev@.len() == end_node.t,
            rev@.len() == 0 ==> cur == end_node,
            rev@.len() > 0 ==> rev@[0] == end_node.loc,
            rev@.len() > 0 ==> cur.loc.spec_distance_to(rev@.last()) <= 1,
            forall|j: int| 0 <= j < rev@.len() ==> g.contains_loc(#[trigger] rev@[j]),
            forall|j: int|
                0 <= j < rev@.len() ==> av.node_clear(
                    Node { loc: #[trigger] rev@[j], t: (end_node.t - j) as u64 },
                ),
            forall|j: int|
                0 <= j < rev@.len() - 1 ==> rev@[j + 1].spec_distance_to(#[trigger] rev@[j])
                    <= 1,
        decreases cur.t,
    {
        match find_pred(cf, &cur) {
            Some(prev) => {
                let ghost pre = rev@;
                rev.push(cur.loc);
                proof {
                    assert forall|j: int|
                        0 <= j < rev@.len() implies av.node_clear(
                            Node { loc: #[trigger] rev@[j], t: (end_node.t - j) as u64 },
                        ) by {
                        if j < pre.len() {
                            assert(rev@[j] == pre[j]);
                        } else {
                            assert(rev@[j] == cur.loc);
                            assert(end_node.t - j == cur.t);
                            assert(av.node_clear(cur));
                        }
                    }
                }
                cur = prev;
            },
            None => {
                proof {
                    assert(cur == start);
                }
                break ;
            },
        }
    }
    rev.push(cur.loc);
    let ghost full = rev@;
    proof {
        assert(full.len() == end_node.t + 1);
        assert(full[full.len() - 1] == start.loc);
        assert forall|j: int| 0 <= j < full.len() implies g.contains_loc(#[trigger] full[j]) by {}
        assert(full.len() > 1 ==> full[0] == end_node.loc);
        assert(full.len() == 1 ==> cur == end_node && full[0] == end_node.loc);
    }
    // reverse
    let mut p: Vec<Location> = Vec::new();
    let mut k: usize = rev.len();
    while k > 0
        invariant
            k <= rev.len(),
            rev@ == full,
            p@.len() + k == full.len(),
            forall|j: int| 0 <= j < p@.len() ==> #[trigger] p@[j] == full[full.len() - 1 - j],
        decreases k,
    {
        k = k - 1;
        p.push(rev[k]);
    }
    proof {
        let n = full.len();
        assert(p@.len() == end_node.t + 1);
        assert(p@[0] == full[n - 1]);
        assert(p@.last() == full[0]);
        assert forall|i: int|
            0 <= i < p@.len() - 1 implies (#[trigger] p@[i].spec_distance_to(p@[i + 1]))
                <= 1 by {
            let i = i + 1;
            // p[i] = full[n-1-i]; consecutive entries of full are single steps,
            // with the last link closing on the start node
            if n - 1 - i == n - 2 {
                // i == 1 and the pair is (start cell, last pushed)
            }
            if i == p@.len() - 1 {
                assert(p@[i] == full[0]);
            }
            assert(p@[i - 1] == full[n - i]);
            assert(p@[i] == full[n - 1 - i]);
            if n - i <= n - 2 {
                assert(full[(n - i - 1) + 1].spec_distance_to(full[n - i - 1]) <= 1);
            } else {
                // n - i == n - 1: the link between the start and the deepest
                // pushed node
                assert(n - i == n - 1);
                assert(full[n - 1] == start.loc);
                assert(full.len() >= 2);
                assert(cur.loc.spec_distance_to(full.drop_last().last()) <= 1);
                assert(full.drop_last().last() == full[n - 2]);
            }
        }
        assert forall|i: int|
            1 <= i < p@.len() implies av.node_clear(
                Node { loc: #[trigger] p@[i], t: i as u64 },
            ) by {
            assert(p@[i] == full[n - 1 - i]);
            assert(n - 1 - i < full.len() - 1);
            assert(full[n - 1 - i] == rev@[n - 1 - i]);
            assert(end_node.t - (n - 1 - i) == i);
        }
    }
    p
}
/// Route a single droplet against the accumulated reservation: a
/// time-expanded A* search. Waiting in place costs 1, moving costs 100, so
/// the planner prefers yielding right-of-way to detouring. A branch whose
/// tick passes `max_time` is dropped. `None` means no path was found.
///
/// Any returned path starts at the droplet's location, steps by at most one
/// cell per tick, stays on the grid, ends at the droplet's target, and is
/// clear of the reservation at every tick after the first, its parking cell
/// included.
#[verifier::loop_isolation(false)]
pub fn route_one(droplet: &Droplet, max_time: u64, grid: &Grid, av: &AvoidanceSet) -> (r: Option<
    Vec<Location>,
>)
    requires
        grid.wf(),
        grid.contains_loc(droplet.location),
        max_time < HORIZON_CAP,
    ensures
        r matches Some(p) ==> path_ok(*grid, *droplet, p@) && path_clear(*av, p@) && p@.len()
            <= max_time + 2,
        dest_of(*droplet) == droplet.location && !(exists|t: u64|
            0 <= t <= av.max_time && av.spec_collides(Node { loc: droplet.location, t }))
            ==> r is Some,
{
    let dest: Location = match droplet.destination {
        Some(x) => x,
        None => droplet.location,
    };
    let start = Node { loc: droplet.location, t: 0 };
    if droplet.location == dest && !av.would_finally_collide(&start) {
        // the droplet is already parked where it belongs and nothing routed
        // so far passes through: the one-cell path suffices
        let mut p: Vec<Location> = Vec::new();
        p.push(droplet.location);
        proof {
            assert(p@.last() == dest_of(*droplet));
            assert forall|t: int|
                p@.len() - 1 <= t <= av.max_time implies !(#[trigger] av.spec_collides(
                    Node { loc: p@.last(), t: t as u64 },
                )) by {
                let tu = t as u64;
                assert(start.t <= tu <= av.max_time);
                assert(!av.spec_collides(Node { loc: start.loc, t: tu }));
            }
        }
        return Some(p);
    }
    let mut todo: Vec<(u64, Node)> = Vec::new();
    let mut best: Vec<(Node, u64)> = Vec::new();
    let mut cf: Vec<(Node, Node)> = Vec::new();
    let mut done: Vec<Node> = Vec::new();
    todo.push((0, start));
    best.insert(0, (start, 0));
    proof {
        assert(best@ =~= Seq::<(Node, u64)>::empty().insert(0, (start, 0u64)));
        assert forall|n: Node| #[trigger] assoc_find(best@, n) is Some implies n == start by {
            lemma_assoc_prepend(Seq::<(Node, u64)>::empty(), start, 0, n);
        }
        assert(assoc_find(best@, start) is Some) by {
            lemma_assoc_prepend(Seq::<(Node, u64)>::empty(), start, 0, start);
        }
        assert forall|n: Node| !(#[trigger] assoc_find(cf@, n) is Some) by {
            assert(cf@.len() == 0);
        }
    }
    // The loops of this crate carry explicit termination measures, so the
    // search runs under a step budget; it is sized (cells x ticks, with slack)
    // to exceed any exhaustive exploration of the time-expanded graph within
    // the horizon, saturating far beyond what could ever run.
    let cells = grid.locations().len();
    let mut fuel: u64 = sat_mul(
        sat_mul(sat_add(cells as u64, 1), sat_add(max_time, 2)),
        8,
    );
    while fuel > 0
        invariant
            cf_ok(cf@, start, *grid, *av, max_time),
            forall|j: int|
                0 <= j < todo@.len() ==> ((#[trigger] todo@[j]).1 == start || assoc_find(
                    cf@,
                    todo@[j].1,
                ) is Some) && assoc_find(best@, todo@[j].1) is Some,
            forall|n: Node|
                (#[trigger] assoc_find(best@, n)) is Some ==> (n == start || assoc_find(cf@, n)
                    is Some),
        decreases fuel,
    {
        fuel = fuel - 1;
        let popped = pop_min(&mut todo);
        let (_pc, node) = match popped {
            None => {
                return None;
            },
            Some(e) => e,
        };
        proof {
            assert(node == start || assoc_find(cf@, node) is Some);
        }
        if node.loc == dest && !av.would_finally_collide(&node) {
            let path = build_path(&cf, node, Ghost(start), Ghost(*grid), Ghost(*av), Ghost(
                max_time,
            ));
            proof {
                assert(node.t <= max_time + 1);
                assert(path@.last() == dest_of(*droplet));
                assert forall|t: int|
                    path@.len() - 1 <= t <= av.max_time implies !(#[trigger] av.spec_collides(
                        Node { loc: path@.last(), t: t as u64 },
                    )) by {
                    let tu = t as u64;
                    assert(node.t <= tu <= av.max_time);
                    assert(!av.spec_collides(Node { loc: node.loc, t: tu }));
                }
            }
            return Some(path);
        }
        let newly = if node_vec_contains(&done, &node) {
            false
        } else {
            done.push(node);
            true
        };
        if !newly || node.t > max_time {
            continue ;
        }
        let node_cost = match find_cost(&best, &node) {
            Some(c) => c,
            None => {
                proof {
                    assert(false);
                }
                return None;
            },
        };
        proof {
            if !(node == start) {
                assert(assoc_find(cf@, node) is Some);
                assert(grid.contains_loc(node.loc));
            }
        }
        let succs = av.filter(node.expand(grid));
        let mut si: usize = 0;
        while si < succs.len()
            invariant
                si <= succs.len(),
                node.t <= max_time,
                node == start || assoc_find(cf@, node) is Some,
                grid.contains_loc(node.loc),
                cf_ok(cf@, start, *grid, *av, max_time),
                forall|j: int|
                    0 <= j < todo@.len() ==> ((#[trigger] todo@[j]).1 == start || assoc_find(
                        cf@,
                        todo@[j].1,
                    ) is Some) && assoc_find(best@, todo@[j].1) is Some,
                forall|n: Node|
                    (#[trigger] assoc_find(best@, n)) is Some ==> (n == start || assoc_find(
                        cf@,
                        n,
                    ) is Some),
            decreases succs.len() - si,
        {
            let (edge_cost, nxt) = succs[si];
            proof {
                assert(succs@.contains(succs@[si as int]));
                assert(nxt.t == node.t + 1);
                assert(av.node_clear(nxt));
                assert(grid.contains_loc(nxt.loc));
                assert(node.loc.spec_distance_to(nxt.loc) <= 1);
            }
            if node_vec_contains(&done, &nxt) {
                si = si + 1;
                continue ;
            }
            let tentative = sat_add(node_cost, edge_cost);
            let mut use_cost = tentative;
            let ghost pre_cf = cf@;
            let ghost pre_best = best@;
            let improved: bool = match find_cost(&best, &nxt) {
                Some(oldc) => {
                    if tentative < oldc {
                        true
                    } else {
                        use_cost = oldc;
                        false
                    }
                },
                None => true,
            };
            if improved {
                best.insert(0, (nxt, tentative));
                cf.insert(0, (nxt, node));
                proof {
                    assert(cf@ =~= pre_cf.insert(0, (nxt, node)));
                    assert(best@ =~= pre_best.insert(0, (nxt, tentative)));
                    assert forall|n2: Node|
                        (#[trigger] assoc_find(cf@, n2)) is Some implies {
                        let p = assoc_find(cf@, n2)->0;
                        &&& 1 <= n2.t <= max_time + 1
                        &&& p.t + 1 == n2.t
                        &&& p.loc.spec_distance_to(n2.loc) <= 1
                        &&& grid.contains_loc(n2.loc)
                        &&& grid.contains_loc(p.loc)
                        &&& av.node_clear(n2)
                        &&& (p == start || assoc_find(cf@, p) is Some)
                    } by {
                        lemma_assoc_prepend(pre_cf, nxt, node, n2);
                        if n2 == nxt {
                            if !(node == start) {
                                lemma_assoc_prepend(pre_cf, nxt, node, node);
                            }
                        } else {
                            let p = assoc_find(pre_cf, n2)->0;
                            lemma_assoc_prepend(pre_cf, nxt, node, p);
                        }
                    }
                    assert forall|n2: Node|
                        (#[trigger] assoc_find(best@, n2)) is Some implies (n2 == start
                            || assoc_find(cf@, n2) is Some) by {
                        lemma_assoc_prepend(pre_best, nxt, tentative, n2);
                        lemma_assoc_prepend(pre_cf, nxt, node, n2);
                    }
                    assert forall|j: int|
                        0 <= j < todo@.len() implies ((#[trigger] todo@[j]).1 == start
                            || assoc_find(cf@, todo@[j].1) is Some) && assoc_find(
                            best@,
                            todo@[j].1,
                        ) is Some by {
                        lemma_assoc_prepend(pre_cf, nxt, node, todo@[j].1);
                        lemma_assoc_prepend(pre_best, nxt, tentative, todo@[j].1);
                    }
                }
            }
            let h = dest.distance_to(&nxt.loc);
            todo.push((sat_add(use_cost, h), nxt));
            proof {
                if improved {
                    lemma_assoc_prepend(pre_cf, nxt, node, nxt);
                    lemma_assoc_prepend(pre_best, nxt, tentative, nxt);
                }
            }
            si = si + 1;
        }
    }
    None
}
/// A droplet of this extent fits the grid everywhere: whatever grid cell it
/// is anchored at, its inflated rectangle stays within the addressable
/// coordinate range.
pub open spec fn dims_fit(g: Grid, dims: Location) -> bool {
    &&& g.cells.len() + dims.y < u32::MAX
    &&& forall|y: int| 0 <= y < g.cells.len() ==> (#[trigger] g.cells[y]).len() + dims.x < u32::MAX
}

/// Executable form of [`dims_fit`].
fn check_dims_fit(g: &Grid, dims: &Location) -> (r: bool)
    ensures
        r == dims_fit(*g, *dims),
{
    if g.cells.len() >= u32::MAX as usize {
        return false;
    }
    if g.cells.len() as u64 + dims.y as u64 >= u32::MAX as u64 {
        return false;
    }
    let mut y: usize = 0;
    while y < g.cells.len()
        invariant
            y <= g.cells.len(),
            forall|k: int| 0 <= k < y ==> (#[trigger] g.cells[k]).len() + dims.x < u32::MAX,
        decreases g.cells.len() - y,
    {
        if g.cells[y].len() >= u32::MAX as usize {
            return false;
        }
        if g.cells[y].len() as u64 + dims.x as u64 >= u32::MAX as u64 {
            return false;
        }
        y = y + 1;
    }
    true
}

/// The nodes one committed path reserves: every valid cell of the inflated
/// footprint of any of its cells, at that cell's tick and one tick either
/// side of it.
pub open spec fn path_reserves(g: Grid, dims: Location, p: Seq<Location>, m: Node) -> bool {
    exists|i: int|
        0 <= i < p.len() && g.contains_loc(m.loc) && in_inflated(
            #[trigger] p[i],
            dims,
            m.loc.y as int,
            m.loc.x as int,
        ) && i <= m.t + 1 && m.t <= i + 1
}

/// The reservation accumulated from the first `upto` committed paths.
pub open spec fn prefix_reserved(
    g: Grid,
    ds: Seq<Droplet>,
    ps: Seq<(DropletId, Vec<Location>)>,
    upto: int,
    m: Node,
) -> bool {
    exists|k: int|
        0 <= k < upto && path_reserves(g, ds[k].dimensions, (#[trigger] ps[k]).1@, m)
}

/// Commit a routed path to the reservation. Of the full effect stated on
/// [`AvoidanceSet::avoid_path`], the caller needs only what the committed
/// path adds to the reserved node set.
fn commit_path(av: &mut AvoidanceSet, path: &Vec<Location>, grid: &Grid, dims: &Location)
    requires
        path.len() >= 1,
        path.len() < u64::MAX,
        forall|i: int|
            0 <= i < path@.len() ==> (#[trigger] path@[i]).y + dims.y < u32::MAX && path@[i].x
                + dims.x < u32::MAX,
    ensures
        forall|m: Node|
            final(av).spec_collides(m) <==> old(av).spec_collides(m) || path_reserves(
                *grid,
                *dims,
                path@,
                m,
            ),
        forall|loc: Location|
            assoc_find(final(av).finals@, loc) == if grid.contains_loc(loc) && in_inflated(
                path@.last(),
                *dims,
                loc.y as int,
                loc.x as int,
            ) {
                Some((path@.len() - 1) as u64)
            } else {
                assoc_find(old(av).finals@, loc)
            },
        final(av).max_time == if old(av).max_time >= path@.len() - 1 {
            old(av).max_time
        } else {
            (path@.len() - 1) as u64
        },
{
    av.avoid_path(path, grid, dims);
}

/// The parking record accumulated from the first `upto` committed paths:
/// the tick from which a cell is held by a parked droplet, the latest
/// committing path winning.
pub open spec fn prefix_final(
    g: Grid,
    ds: Seq<Droplet>,
    ps: Seq<(DropletId, Vec<Location>)>,
    upto: int,
    loc: Location,
) -> Option<u64>
    decreases upto,
{
    if upto <= 0 {
        None
    } else if g.contains_loc(loc) && in_inflated(
        ps[upto - 1].1@.last(),
        ds[upto - 1].dimensions,
        loc.y as int,
        loc.x as int,
    ) {
        Some((ps[upto - 1].1@.len() - 1) as u64)
    } else {
        prefix_final(g, ds, ps, upto - 1, loc)
    }
}

/// The latest parking tick among the first `upto` committed paths.
pub open spec fn prefix_max(ps: Seq<(DropletId, Vec<Location>)>, upto: int) -> int
    decreases upto,
{
    if upto <= 0 {
        0
    } else if ps[upto - 1].1@.len() - 1 > prefix_max(ps, upto - 1) {
        ps[upto - 1].1@.len() - 1
    } else {
        prefix_max(ps, upto - 1)
    }
}

/// Appending a further entry does not change what an earlier prefix records.
proof fn lemma_prefix_push(
    g: Grid,
    ds: Seq<Droplet>,
    ps: Seq<(DropletId, Vec<Location>)>,
    e: (DropletId, Vec<Location>),
    upto: int,
    loc: Location,
)
    requires
        0 <= upto <= ps.len(),
    ensures
        prefix_final(g, ds, ps.push(e), upto, loc) == prefix_final(g, ds, ps, upto, loc),
        prefix_max(ps.push(e), upto) == prefix_max(ps, upto),
    decreases upto,
{
    if upto > 0 {
        assert(ps.push(e)[upto - 1] == ps[upto - 1]);
        lemma_prefix_push(g, ds, ps, e, upto - 1, loc);
    }
}

/// Entry `i` of a routing is clear of the reservation built from the
/// entries before it: no node of its path after the first tick is reserved
/// by an earlier committed path.
pub open spec fn entry_clear_of_prefix(
    g: Grid,
    ds: Seq<Droplet>,
    ps: Seq<(DropletId, Vec<Location>)>,
    i: int,
) -> bool {
    &&& forall|t: int|
        1 <= t < ps[i].1@.len() ==> !(#[trigger] prefix_reserved(
            g,
            ds,
            ps,
            i,
            Node { loc: ps[i].1@[t], t: t as u64 },
        ))
    &&& forall|t: int|
        1 <= t < ps[i].1@.len() ==> match #[trigger] prefix_final(g, ds, ps, i, ps[i].1@[t]) {
            Some(ft) => t < ft,
            None => true,
        }
    &&& forall|t: int|
        ps[i].1@.len() - 1 <= t <= prefix_max(ps, i) ==> !(#[trigger] prefix_reserved(
            g,
            ds,
            ps,
            i,
            Node { loc: ps[i].1@.last(), t: t as u64 },
        ))
}

/// Route the droplets in the given order, each against the reservation
/// accumulated from the ones before it; the first individual failure fails
/// the whole attempt. The horizon of each search is the number of grid
/// cells plus the longest path committed so far.
///
/// On success there is one entry per droplet, in order: entry `i` carries
/// droplet `i`'s id and a well-formed path for it.
#[verifier::rlimit(80)]
pub fn route_many(droplets: &Vec<Droplet>, grid: &Grid) -> (r: Option<
    Vec<(DropletId, Vec<Location>)>,
>)
    requires
        grid.wf(),
        forall|i: int|
            0 <= i < droplets@.len() ==> grid.contains_loc((#[trigger] droplets@[i]).location)
                && dims_fit(*grid, droplets@[i].dimensions),
    ensures
        r matches Some(paths) ==> {
            &&& paths@.len() == droplets@.len()
            &&& forall|i: int|
                0 <= i < paths@.len() ==> (#[trigger] paths@[i]).0 == droplets@[i].id && path_ok(
                    *grid,
                    droplets@[i],
                    paths@[i].1@,
                )
            &&& forall|i: int|
                0 <= i < paths@.len() ==> #[trigger] entry_clear_of_prefix(
                    *grid,
                    droplets@,
                    paths@,
                    i,
                )
        },
{
    let mut av = AvoidanceSet::new();
    let num_cells = grid.locations().len();
    let cells_capped: u64 = if num_cells as u64 > 0x3FFF0000u64 {
        0x3FFF0000u64
    } else {
        num_cells as u64
    };
    let mut max_t: u64 = 0;
    let mut paths: Vec<(DropletId, Vec<Location>)> = Vec::new();
    let mut i: usize = 0;
    while i < droplets.len()
        invariant
            grid.wf(),
            forall|k: int|
                0 <= k < droplets@.len() ==> grid.contains_loc(
                    (#[trigger] droplets@[k]).location,
                ) && dims_fit(*grid, droplets@[k].dimensions),
            cells_capped <= 0x3FFF0000u64,
            i <= droplets.len(),
            max_t <= 0x3FFF0002u64,
            paths@.len() == i,
            forall|k: int|
                0 <= k < i ==> (#[trigger] paths@[k]).0 == droplets@[k].id && path_ok(
                    *grid,
                    droplets@[k],
                    paths@[k].1@,
                ),
            forall|m: Node|
                #![trigger av.spec_collides(m)]
                #![trigger prefix_reserved(*grid, droplets@, paths@, i as int, m)]
                av.spec_collides(m) <==> prefix_reserved(*grid, droplets@, paths@, i as int, m),
            forall|loc: Location|
                #![trigger assoc_find(av.finals@, loc)]
                #![trigger prefix_final(*grid, droplets@, paths@, i as int, loc)]
                assoc_find(av.finals@, loc) == prefix_final(*grid, droplets@, paths@, i as int, loc),
            av.max_time == prefix_max(paths@, i as int),
            forall|q: int|
                0 <= q < i ==> #[trigger] entry_clear_of_prefix(*grid, droplets@, paths@, q),
        decreases droplets.len() - i,
    {
        let d = droplets[i];
        let horizon = cells_capped + max_t;
        let result = route_one(&d, horizon, grid, &av);
        let path = match result {
            None => {
                return None;
            },
            Some(p) => p,
        };
        if path.len() as u64 > max_t {
            max_t = if path.len() as u64 > 0x3FFF0002u64 {
                0x3FFF0002u64
            } else {
                path.len() as u64
            };
        }
        proof {
            assert(path@.len() >= 1);
            assert forall|k: int|
                0 <= k < path@.len() implies (#[trigger] path@[k]).y + d.dimensions.y < u32::MAX
                    && path@[k].x + d.dimensions.x < u32::MAX by {
                assert(grid.contains_loc(path@[k]));
            }
        }
        let ghost pre_av = av;
        let ghost pre_paths = paths@;
        commit_path(&mut av, &path, grid, &d.dimensions);
        paths.push((d.id, path));
        proof {
            let ds = droplets@;
            let g = *grid;
            let new_paths = paths@;
            assert(new_paths[i as int].1@ == path@);
            // the accumulated reservation now models the extended prefix
            assert forall|m: Node|
                av.spec_collides(m) <==> prefix_reserved(g, ds, new_paths, i + 1, m) by {
                if av.spec_collides(m) {
                    if pre_av.spec_collides(m) {
                        let k = choose|k: int|
                            0 <= k < i && path_reserves(
                                g,
                                ds[k].dimensions,
                                (#[trigger] pre_paths[k]).1@,
                                m,
                            );
                        assert(new_paths[k] == pre_paths[k]);
                        assert(path_reserves(g, ds[k].dimensions, new_paths[k].1@, m));
                    } else {
                        assert(path_reserves(g, ds[i as int].dimensions, new_paths[i as int].1@, m));
                    }
                }
                if prefix_reserved(g, ds, new_paths, i + 1, m) {
                    let k = choose|k: int|
                        0 <= k < i + 1 && path_reserves(
                            g,
                            ds[k].dimensions,
                            (#[trigger] new_paths[k]).1@,
                            m,
                        );
                    if k < i {
                        assert(new_paths[k] == pre_paths[k]);
                        assert(path_reserves(g, ds[k].dimensions, pre_paths[k].1@, m));
                        assert(pre_av.spec_collides(m));
                    }
                }
            }
            // the parking record and horizon also model the extended prefix
            assert forall|loc: Location|
                #![trigger assoc_find(av.finals@, loc)]
                #![trigger prefix_final(g, ds, new_paths, i + 1, loc)]
                assoc_find(av.finals@, loc) == prefix_final(g, ds, new_paths, i + 1, loc) by {
                lemma_prefix_push(g, ds, pre_paths, (d.id, path), i as int, loc);
                assert(prefix_final(g, ds, pre_paths, i as int, loc) == prefix_final(
                    g,
                    ds,
                    new_paths,
                    i as int,
                    loc,
                ));
            }
            assert(av.max_time == prefix_max(new_paths, i + 1)) by {
                lemma_prefix_push(g, ds, pre_paths, (d.id, path), i as int, path@[0]);
            }
            // a helper fact: a node reserved by the first q < i + 1 entries of
            // the new collection was reserved by the same entries before
            assert forall|q: int, m: Node|
                0 <= q <= i && #[trigger] prefix_reserved(g, ds, new_paths, q, m) implies
                prefix_reserved(g, ds, pre_paths, q, m) by {
                let k = choose|k: int|
                    0 <= k < q && path_reserves(g, ds[k].dimensions, (#[trigger] new_paths[k]).1@, m);
                assert(new_paths[k] == pre_paths[k]);
                assert(path_reserves(g, ds[k].dimensions, pre_paths[k].1@, m));
            }
            // earlier entries stay clear of their (unchanged) prefixes, and
            // the new entry is clear of everything committed before it
            assert forall|q: int|
                0 <= q < i + 1 implies #[trigger] entry_clear_of_prefix(g, ds, new_paths, q) by {
                assert forall|loc: Location|
                    prefix_final(g, ds, new_paths, q, loc) == prefix_final(
                        g,
                        ds,
                        pre_paths,
                        q,
                        loc,
                    ) && prefix_max(new_paths, q) == prefix_max(pre_paths, q) by {
                    lemma_prefix_push(g, ds, pre_paths, (d.id, path), q, loc);
                }
                if q < i {
                    assert(new_paths[q] == pre_paths[q]);
                    assert(entry_clear_of_prefix(g, ds, pre_paths, q));
                    assert forall|t: int|
                        1 <= t < new_paths[q].1@.len() implies !(#[trigger] prefix_reserved(
                            g,
                            ds,
                            new_paths,
                            q,
                            Node { loc: new_paths[q].1@[t], t: t as u64 },
                        )) by {
                        let m = Node { loc: new_paths[q].1@[t], t: t as u64 };
                        if prefix_reserved(g, ds, new_paths, q, m) {
                            assert(!prefix_reserved(
                                g,
                                ds,
                                pre_paths,
                                q,
                                Node { loc: pre_paths[q].1@[t], t: t as u64 },
                            ));
                        }
                    }
                    assert forall|t: int|
                        1 <= t < new_paths[q].1@.len() implies match #[trigger] prefix_final(
                            g,
                            ds,
                            new_paths,
                            q,
                            new_paths[q].1@[t],
                        ) {
                            Some(ft) => t < ft,
                            None => true,
                        } by {
                        assert(prefix_final(g, ds, new_paths, q, new_paths[q].1@[t])
                            == prefix_final(g, ds, pre_paths, q, pre_paths[q].1@[t]));
                    }
                    assert forall|t: int|
                        new_paths[q].1@.len() - 1 <= t <= prefix_max(new_paths, q) implies !(
                        #[trigger] prefix_reserved(
                            g,
                            ds,
                            new_paths,
                            q,
                            Node { loc: new_paths[q].1@.last(), t: t as u64 },
                        )) by {
                        let m = Node { loc: new_paths[q].1@.last(), t: t as u64 };
                        lemma_prefix_push(
                            g,
                            ds,
                            pre_paths,
                            (d.id, path),
                            q,
                            pre_paths[q].1@.last(),
                        );
                        assert(prefix_max(new_paths, q) == prefix_max(pre_paths, q));
                        if prefix_reserved(g, ds, new_paths, q, m) {
                            assert(!prefix_reserved(
                                g,
                                ds,
                                pre_paths,
                                q,
                                Node { loc: pre_paths[q].1@.last(), t: t as u64 },
                            ));
                        }
                    }
                } else {
                    assert(path_clear(pre_av, path@));
                    assert forall|t: int|
                        1 <= t < new_paths[q].1@.len() implies !(#[trigger] prefix_reserved(
                            g,
                            ds,
                            new_paths,
                            q,
                            Node { loc: new_paths[q].1@[t], t: t as u64 },
                        )) by {
                        let m = Node { loc: new_paths[q].1@[t], t: t as u64 };
                        assert(pre_av.node_clear(Node { loc: path@[t], t: t as u64 }));
                        assert(!pre_av.spec_collides(m));
                        if prefix_reserved(g, ds, new_paths, q, m) {
                            assert(prefix_reserved(g, ds, pre_paths, i as int, m));
                        }
                    }
                    assert forall|t: int|
                        1 <= t < new_paths[q].1@.len() implies match #[trigger] prefix_final(
                            g,
                            ds,
                            new_paths,
                            q,
                            new_paths[q].1@[t],
                        ) {
                            Some(ft) => t < ft,
                            None => true,
                        } by {
                        assert(pre_av.node_clear(Node { loc: path@[t], t: t as u64 }));
                        assert(!pre_av.spec_collides_with_final(
                            Node { loc: path@[t], t: t as u64 },
                        ));
                        assert(assoc_find(pre_av.finals@, path@[t]) == prefix_final(
                            g,
                            ds,
                            pre_paths,
                            i as int,
                            path@[t],
                        ));
                    }
                    assert forall|t: int|
                        new_paths[q].1@.len() - 1 <= t <= prefix_max(new_paths, q) implies !(
                        #[trigger] prefix_reserved(
                            g,
                            ds,
                            new_paths,
                            q,
                            Node { loc: new_paths[q].1@.last(), t: t as u64 },
                        )) by {
                        let m = Node { loc: new_paths[q].1@.last(), t: t as u64 };
                        assert(prefix_max(new_paths, q) == prefix_max(pre_paths, i as int));
                        assert(pre_av.max_time == prefix_max(pre_paths, i as int));
                        assert(path@.len() - 1 <= t <= pre_av.max_time);
                        assert(!pre_av.spec_collides(Node { loc: path@.last(), t: t as u64 }));
                        if prefix_reserved(g, ds, new_paths, q, m) {
                            assert(prefix_reserved(g, ds, pre_paths, i as int, m));
                        }
                    }
                }
            }
        }
        i = i + 1;
    }
    Some(paths)
}
/// The length of the longest path of the collection.
pub open spec fn max_path_len(ps: Seq<(DropletId, Vec<Location>)>) -> int
    decreases ps.len(),
{
    if ps.len() == 0 {
        0
    } else if ps.last().1@.len() > max_path_len(ps.drop_last()) {
        ps.last().1@.len() as int
    } else {
        max_path_len(ps.drop_last())
    }
}

/// The moves of tick `i`: one `MoveDroplet` for every path that reaches
/// index `i`, in path order.
pub open spec fn moves_at(ps: Seq<(DropletId, Vec<Location>)>, i: int) -> Seq<Action>
    decreases ps.len(),
{
    if ps.len() == 0 {
        Seq::empty()
    } else if i < ps.last().1@.len() {
        moves_at(ps.drop_last(), i).push(
            Action::MoveDroplet { id: ps.last().0, location: ps.last().1@[i] },
        )
    } else {
        moves_at(ps.drop_last(), i)
    }
}

/// The first `upto` tick blocks of the translated stream: for each tick its
/// moves, then one `Tick` barrier.
pub open spec fn action_stream(ps: Seq<(DropletId, Vec<Location>)>, upto: int) -> Seq<Action>
    decreases upto,
{
    if upto <= 0 {
        Seq::empty()
    } else {
        action_stream(ps, upto - 1) + moves_at(ps, upto - 1) + seq![Action::Tick]
    }
}

/// Translate a collection of routed paths into the flat action stream: for
/// each tick up to the longest path's length, one `MoveDroplet` per path
/// that reaches that tick, then a `Tick` barrier. Droplets whose paths have
/// ended simply stop receiving moves.
pub fn paths_to_actions(paths: &Vec<(DropletId, Vec<Location>)>) -> (acts: Vec<Action>)
    ensures
        acts@ == action_stream(paths@, max_path_len(paths@)),
{
    let mut max_len: usize = 0;
    let mut j: usize = 0;
    while j < paths.len()
        invariant
            j <= paths.len(),
            max_len == max_path_len(paths@.take(j as int)),
            max_len <= usize::MAX,
        decreases paths.len() - j,
    {
        proof {
            assert(paths@.take(j + 1).drop_last() =~= paths@.take(j as int));
            assert(paths@.take(j + 1).last() == paths@[j as int]);
        }
        if paths[j].1.len() > max_len {
            max_len = paths[j].1.len();
        }
        j = j + 1;
    }
    proof {
        assert(paths@.take(paths@.len() as int) =~= paths@);
    }
    let mut acts: Vec<Action> = Vec::new();
    let mut i: usize = 0;
    while i < max_len
        invariant
            i <= max_len,
            max_len == max_path_len(paths@),
            acts@ == action_stream(paths@, i as int),
        decreases max_len - i,
    {
        let mut j2: usize = 0;
        while j2 < paths.len()
            invariant
                j2 <= paths.len(),
                acts@ == action_stream(paths@, i as int) + moves_at(paths@.take(j2 as int), i as int),
            decreases paths.len() - j2,
        {
            proof {
                assert(paths@.take(j2 + 1).drop_last() =~= paths@.take(j2 as int));
                assert(paths@.take(j2 + 1).last() == paths@[j2 as int]);
            }
            if i < paths[j2].1.len() {
                let ghost pre = acts@;
                acts.push(Action::MoveDroplet { id: paths[j2].0, location: paths[j2].1[i] });
                proof {
                    assert(acts@ =~= action_stream(paths@, i as int) + moves_at(
                        paths@.take(j2 + 1),
                        i as int,
                    ));
                }
            } else {
                proof {
                    assert(moves_at(paths@.take(j2 + 1), i as int) =~= moves_at(
                        paths@.take(j2 as int),
                        i as int,
                    ));
                }
            }
            j2 = j2 + 1;
        }
        proof {
            assert(paths@.take(paths@.len() as int) =~= paths@);
        }
        acts.push(Action::Tick);
        proof {
            assert(acts@ =~= action_stream(paths@, i + 1));
        }
        i = i + 1;
    }
    acts
}

/// Every entry of a tick's move block restates the cell at that tick of one
/// of the paths.
proof fn lemma_moves_at_member(ps: Seq<(DropletId, Vec<Location>)>, i: int, k: int)
    requires
        0 <= k < moves_at(ps, i).len(),
    ensures
        exists|j: int|
            0 <= j < ps.len() && i < (#[trigger] ps[j]).1@.len() && moves_at(ps, i)[k] == (
            Action::MoveDroplet { id: ps[j].0, location: ps[j].1@[i] }),
    decreases ps.len(),
{
    let rest = moves_at(ps.drop_last(), i);
    if ps.len() > 0 && i < ps.last().1@.len() && k == rest.len() {
        assert(ps[ps.len() - 1] == ps.last());
        assert(moves_at(ps, i)[k] == (Action::MoveDroplet {
            id: ps.last().0,
            location: ps.last().1@[i],
        }));
    } else {
        lemma_moves_at_member(ps.drop_last(), i, k);
        let j = choose|j: int|
            0 <= j < ps.drop_last().len() && i < (#[trigger] ps.drop_last()[j]).1@.len() && rest[k]
                == (Action::MoveDroplet {
                id: ps.drop_last()[j].0,
                location: ps.drop_last()[j].1@[i],
            });
        assert(ps[j] == ps.drop_last()[j]);
        assert(i < ps[j].1@.len() && moves_at(ps, i)[k] == (Action::MoveDroplet {
            id: ps[j].0,
            location: ps[j].1@[i],
        }));
    }
}

/// Every `MoveDroplet` of the translated stream restates the cell at some
/// tick below `upto` of one of the paths.
proof fn lemma_stream_member(ps: Seq<(DropletId, Vec<Location>)>, upto: int, k: int)
    requires
        0 <= k < action_stream(ps, upto).len(),
        action_stream(ps, upto)[k] is MoveDroplet,
    ensures
        exists|j: int, i: int|
            0 <= j < ps.len() && 0 <= i < upto && i < ps[j].1@.len() && action_stream(
                ps,
                upto,
            )[k] == (Action::MoveDroplet { id: ps[j].0, location: #[trigger] ps[j].1@[i] }),
    decreases upto,
{
    let pre = action_stream(ps, upto - 1);
    let mv = moves_at(ps, upto - 1);
    if k < pre.len() {
        lemma_stream_member(ps, upto - 1, k);
        let (j, i) = choose|j: int, i: int|
            0 <= j < ps.len() && 0 <= i < upto - 1 && i < ps[j].1@.len() && pre[k] == (
            Action::MoveDroplet { id: ps[j].0, location: #[trigger] ps[j].1@[i] });
        assert(action_stream(ps, upto)[k] == pre[k]);
        assert(0 <= j < ps.len() && 0 <= i < upto && i < ps[j].1@.len() && action_stream(
            ps,
            upto,
        )[k] == (Action::MoveDroplet { id: ps[j].0, location: ps[j].1@[i] }));
    } else if k < pre.len() + mv.len() {
        lemma_moves_at_member(ps, upto - 1, k - pre.len());
        let j = choose|j: int|
            0 <= j < ps.len() && upto - 1 < (#[trigger] ps[j]).1@.len() && mv[k - pre.len()] == (
            Action::MoveDroplet { id: ps[j].0, location: ps[j].1@[upto - 1] });
        assert(action_stream(ps, upto)[k] == mv[k - pre.len()]);
        assert(0 <= j < ps.len() && 0 <= upto - 1 < upto && upto - 1 < ps[j].1@.len()
            && action_stream(ps, upto)[k] == (Action::MoveDroplet {
            id: ps[j].0,
            location: ps[j].1@[upto - 1],
        }));
    } else {
        assert(action_stream(ps, upto)[k] == seq![Action::Tick][k - pre.len() - mv.len()]);
        assert(false);
    }
}

/// Law: every `MoveDroplet` the translator emits restates a cell of one of
/// the routed paths at its tick; the first such move restates the droplet's
/// own location, and every later one is at Manhattan distance at most one
/// from the path's previous cell.
pub proof fn lemma_translator_single_steps(
    g: Grid,
    ds: Seq<Droplet>,
    ps: Seq<(DropletId, Vec<Location>)>,
    k: int,
)
    requires
        ps.len() == ds.len(),
        forall|j: int|
            0 <= j < ps.len() ==> (#[trigger] ps[j]).0 == ds[j].id && path_ok(g, ds[j], ps[j].1@),
        0 <= k < action_stream(ps, max_path_len(ps)).len(),
        action_stream(ps, max_path_len(ps))[k] is MoveDroplet,
    ensures
        exists|j: int, i: int|
            0 <= j < ps.len() && 0 <= i < ps[j].1@.len() && action_stream(
                ps,
                max_path_len(ps),
            )[k] == (Action::MoveDroplet { id: ps[j].0, location: #[trigger] ps[j].1@[i] }) && (i
                == 0 ==> ps[j].1@[0] == ds[j].location) && (i >= 1 ==> ps[j].1@[i
                - 1].spec_distance_to(ps[j].1@[i]) <= 1),
{
    lemma_stream_member(ps, max_path_len(ps), k);
    let (j, i) = choose|j: int, i: int|
        0 <= j < ps.len() && 0 <= i < max_path_len(ps) && i < ps[j].1@.len() && action_stream(
            ps,
            max_path_len(ps),
        )[k] == (Action::MoveDroplet { id: ps[j].0, location: #[trigger] ps[j].1@[i] });
    assert(path_ok(g, ds[j], ps[j].1@));
    if i >= 1 {
        assert(ps[j].1@[i - 1].spec_distance_to(ps[j].1@[i - 1 + 1]) <= 1);
    }
    assert(0 <= j < ps.len() && 0 <= i < ps[j].1@.len() && action_stream(
        ps,
        max_path_len(ps),
    )[k] == (Action::MoveDroplet { id: ps[j].0, location: ps[j].1@[i] }) && (i == 0 ==> ps[j].1@[0]
        == ds[j].location) && (i >= 1 ==> ps[j].1@[i - 1].spec_distance_to(ps[j].1@[i]) <= 1));
}
/// A shuffle is a permutation: when the multiset of entries of an index
/// vector is preserved and it started as the identity on `0..n`, every entry
/// is still below `n` and every index below `n` still occurs.
proof fn lemma_permutation_members(before: Seq<usize>, after: Seq<usize>, n: int)
    requires
        0 <= n <= usize::MAX,
        after.to_multiset() == before.to_multiset(),
        before.len() == n,
        forall|j: int| 0 <= j < n ==> #[trigger] before[j] == j as usize,
    ensures
        after.len() == n,
        forall|j: int| 0 <= j < after.len() ==> (#[trigger] after[j]) < n,
        forall|j: int| 0 <= j < n ==> #[trigger] after.contains(j as usize),
{
    broadcast use vstd::seq_lib::group_to_multiset_ensures;

    assert(after.to_multiset().len() == after.len());
    assert(before.to_multiset().len() == before.len());
    assert forall|j: int| 0 <= j < after.len() implies (#[trigger] after[j]) < n by {
        assert(after.contains(after[j]));
        assert(after.to_multiset().count(after[j]) > 0);
        assert(before.contains(after[j]));
        let w = choose|w: int| 0 <= w < before.len() && before[w] == after[j];
        assert(before[w] == w as usize);
    }
    assert forall|j: int| 0 <= j < n implies #[trigger] after.contains(j as usize) by {
        assert(before[j] == j as usize);
        assert(before.contains(j as usize));
        assert(before.to_multiset().count(j as usize) > 0);
        assert(after.to_multiset().count(j as usize) > 0);
    }
}

/// The position of a value in an index vector, if any.
fn find_usize(v: &Vec<usize>, x: usize) -> (r: Option<usize>)
    ensures
        match r {
            Some(w) => w < v.len() && v@[w as int] == x,
            None => forall|i: int| 0 <= i < v@.len() ==> (#[trigger] v@[i]) != x,
        },
{
    let mut i: usize = 0;
    while i < v.len()
        invariant
            i <= v.len(),
            forall|q: int| 0 <= q < i ==> (#[trigger] v@[q]) != x,
        decreases v.len() - i,
    {
        if v[i] == x {
            return Some(i);
        }
        i = i + 1;
    }
    None
}

impl GridView {
    /// Plan collision-free paths for all live droplets: shuffle the droplet
    /// order and attempt a cooperative routing, up to fifty times; the first
    /// success wins. `None` is a recoverable routing failure.
    ///
    /// On success there is exactly one entry per droplet: every entry names
    /// a droplet of the manager and carries a well-formed path for it, and
    /// every droplet is named by an entry.
    pub fn route(&self) -> (r: Option<Vec<(DropletId, Vec<Location>)>>)
        requires
            self.wf(),
        ensures
            r matches Some(paths) ==> {
                &&& paths@.len() == self.droplets@.len()
                &&& forall|j: int|
                    0 <= j < paths@.len() ==> (#[trigger] paths@[j]).0 == self.droplets@[j].id
                        && path_ok(self.grid, self.droplets@[j], paths@[j].1@)
            },
    {
        let n = self.droplets.len();
        let mut i: usize = 0;
        while i < n
            invariant
                n == self.droplets.len(),
                i <= n,
                forall|j: int|
                    0 <= j < i ==> dims_fit(self.grid, (#[trigger] self.droplets@[j]).dimensions),
            decreases n - i,
        {
            if !check_dims_fit(&self.grid, &self.droplets[i].dimensions) {
                return None;
            }
            i = i + 1;
        }
        let mut rng = fresh_thread_rng();
        let mut order: Vec<usize> = Vec::new();
        let mut k: usize = 0;
        while k < n
            invariant
                n == self.droplets.len(),
                k <= n,
                order@.len() == k,
                forall|j: int| 0 <= j < k ==> #[trigger] order@[j] == j,
            decreases n - k,
        {
            order.push(k);
            k = k + 1;
        }
        let ghost ident = order@;
        let mut attempt: usize = 0;
        while attempt < 50
            invariant
                n == self.droplets.len(),
                self.wf(),
                forall|j: int|
                    0 <= j < n ==> dims_fit(self.grid, (#[trigger] self.droplets@[j]).dimensions),
                order@.to_multiset() == ident.to_multiset(),
                forall|j: int| 0 <= j < ident.len() ==> #[trigger] ident[j] == j as usize,
                ident.len() == n,
                order@.len() == n,
            decreases 50 - attempt,
        {
            let ghost before = order@;
            shuffle_usizes(&mut order, &mut rng);
            proof {
                assert(before.to_multiset() == ident.to_multiset());
                lemma_permutation_members(ident, order@, n as int);
            }
            let mut shuffled: Vec<Droplet> = Vec::new();
            let mut s: usize = 0;
            while s < n
                invariant
                    n == self.droplets.len(),
                    self.wf(),
                    forall|j: int|
                        0 <= j < n ==> dims_fit(
                            self.grid,
                            (#[trigger] self.droplets@[j]).dimensions,
                        ),
                    s <= n,
                    order@.len() == n,
                    forall|j: int| 0 <= j < order@.len() ==> #[trigger] order@[j] < n,
                    shuffled@.len() == s,
                    forall|j: int|
                        0 <= j < s ==> #[trigger] shuffled@[j] == self.droplets@[order@[j] as int],
                decreases n - s,
            {
                shuffled.push(self.droplets[order[s]]);
                s = s + 1;
            }
            proof {
                assert forall|j: int|
                    0 <= j < shuffled@.len() implies self.grid.contains_loc(
                        (#[trigger] shuffled@[j]).location,
                    ) && dims_fit(self.grid, shuffled@[j].dimensions) by {
                    assert(shuffled@[j] == self.droplets@[order@[j] as int]);
                    assert(crate::gridview::droplet_ok(
                        self.grid,
                        self.droplets@[order@[j] as int],
                    ));
                }
            }
            let result = route_many(&shuffled, &self.grid);
            match result {
                Some(pm) => {
                    // hand the paths back in the manager's own droplet order
                    let mut out: Vec<(DropletId, Vec<Location>)> = Vec::new();
                    let mut j: usize = 0;
                    while j < n
                        invariant
                            n == self.droplets.len(),
                            self.wf(),
                            j <= n,
                            order@.len() == n,
                            shuffled@.len() == n,
                            pm@.len() == n,
                            forall|q: int| 0 <= q < n ==> #[trigger] order@[q] < n,
                            forall|q: int|
                                0 <= q < n ==> #[trigger] order@.contains(q as usize),
                            forall|q: int|
                                0 <= q < n ==> #[trigger] shuffled@[q] == self.droplets@[order@[q] as int],
                            forall|k2: int|
                                0 <= k2 < n ==> (#[trigger] pm@[k2]).0 == shuffled@[k2].id
                                    && path_ok(self.grid, shuffled@[k2], pm@[k2].1@),
                            out@.len() == j,
                            forall|q: int|
                                0 <= q < j ==> (#[trigger] out@[q]).0 == self.droplets@[q].id
                                    && path_ok(self.grid, self.droplets@[q], out@[q].1@),
                        decreases n - j,
                    {
                        let w = match find_usize(&order, j) {
                            Some(w) => w,
                            None => {
                                proof {
                                    assert(order@.contains(j as usize));
                                    let q = choose|q: int|
                                        0 <= q < order@.len() && order@[q] == j as usize;
                                    assert(false);
                                }
                                return None;
                            },
                        };
                        let mut copy: Vec<Location> = Vec::new();
                        let mut t: usize = 0;
                        let src_len = pm[w].1.len();
                        while t < src_len
                            invariant
                                w < pm@.len(),
                                src_len == pm@[w as int].1@.len(),
                                t <= src_len,
                                copy@ == pm@[w as int].1@.take(t as int),
                            decreases src_len - t,
                        {
                            copy.push(pm[w].1[t]);
                            proof {
                                assert(copy@ =~= pm@[w as int].1@.take(t + 1));
                            }
                            t = t + 1;
                        }
                        proof {
                            assert(pm@[w as int].1@.take(src_len as int) =~= pm@[w as int].1@);
                            assert(shuffled@[w as int] == self.droplets@[j as int]);
                        }
                        out.push((pm[w].0, copy));
                        j = j + 1;
                    }
                    return Some(out);
                },
                None => {},
            }
            attempt = attempt + 1;
        }
        None
    }
}
} // verus!
