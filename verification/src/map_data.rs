//! The read-only map snapshot the analysis works on: intersections are dense
//! identifiers `0..n_intersections`, lanes are directed connectors between
//! them, and turns link an incoming lane to an outgoing lane at the
//! intersection where the first ends and the second begins.

use crate::geometry::Pt;
use vstd::prelude::*;

verus! {

/// A directed lane from `src` to `dst`. `length` (in world units) and
/// `merge_flag` feed the cluster-adjacency relation: a short enough lane, or
/// one the map explicitly flags as part of one logical junction, makes its
/// endpoints adjacent for clustering.
#[derive(Clone, Copy, PartialEq, Eq, Structural, Debug)]
pub struct Lane {
    pub src: usize,
    pub dst: usize,
    pub length: u64,
    pub merge_flag: bool,
}

/// A movement from the end of `src_lane` onto the start of `dst_lane`, with
/// its path geometry. `legal` records whether current signal/priority rules
/// permit the movement; geometrically the turn is always possible.
#[derive(PartialEq, Eq, Debug)]
pub struct Turn {
    pub src_lane: usize,
    pub dst_lane: usize,
    pub legal: bool,
    pub geom: Vec<Pt>,
}

/// An intersection's renderable outline in world coordinates.
#[derive(PartialEq, Eq, Debug)]
pub struct Intersection {
    pub polygon: Vec<Pt>,
}

/// An immutable map snapshot: `n_intersections` intersections (with their
/// outlines), plus lane and turn tables indexed by identifier. `threshold` is
/// the configurable distance bound of the cluster-adjacency relation.
pub struct MapModel {
    pub n_intersections: usize,
    pub intersections: Vec<Intersection>,
    pub lanes: Vec<Lane>,
    pub turns: Vec<Turn>,
    pub threshold: u64,
}

impl MapModel {
    /// Referential integrity: one outline per intersection, lanes join
    /// existing intersections, and every turn's incoming lane ends at the
    /// intersection its outgoing lane leaves.
    pub open spec fn wf(self) -> bool {
        &&& self.intersections@.len() == self.n_intersections
        &&& forall|l: int|
            0 <= l < self.lanes@.len() ==> (#[trigger] self.lanes@[l]).src < self.n_intersections
                && self.lanes@[l].dst < self.n_intersections
        &&& forall|t: int|
            0 <= t < self.turns@.len() ==> (#[trigger] self.turns@[t]).src_lane < self.lanes@.len()
                && self.turns@[t].dst_lane < self.lanes@.len()
                && self.lanes@[self.turns@[t].src_lane as int].dst
                == self.lanes@[self.turns@[t].dst_lane as int].src
    }

    /// Whether lane `l` binds its endpoints into one logical junction.
    pub open spec fn lane_under_threshold(self, l: int) -> bool {
        self.lanes@[l].length < self.threshold || self.lanes@[l].merge_flag
    }

    /// Whether lane `l` connects intersections `i` and `j`, in either
    /// direction.
    pub open spec fn lane_connects(self, l: int, i: int, j: int) -> bool {
        (self.lanes@[l].src == i && self.lanes@[l].dst == j) || (self.lanes@[l].src == j
            && self.lanes@[l].dst == i)
    }

    /// The cluster-adjacency relation: `i` and `j` are adjacent when some
    /// lane connects them (either direction) and that lane is under the
    /// distance threshold or flagged as one junction. Symmetric by
    /// construction.
    pub open spec fn adjacent(self, i: int, j: int) -> bool {
        exists|l: int|
            0 <= l < self.lanes@.len() && #[trigger] self.lane_connects(l, i, j)
                && self.lane_under_threshold(l)
    }

    /// A set of intersections closed under the adjacency relation.
    pub open spec fn closed(self, s: Set<int>) -> bool {
        forall|i: int, j: int| s.contains(i) && #[trigger] self.adjacent(i, j) ==> s.contains(j)
    }

    /// Decides the adjacency relation by scanning the lane table.
    pub fn is_adjacent(&self, i: usize, j: usize) -> (r: bool)
        ensures
            r == self.adjacent(i as int, j as int),
    {
        let mut l: usize = 0;
        while l < self.lanes.len()
            invariant
                l <= self.lanes@.len(),
                forall|k: int|
                    0 <= k < l ==> !(#[trigger] self.lane_connects(k, i as int, j as int)
                        && self.lane_under_threshold(k)),
            decreases self.lanes@.len() - l,
        {
            let lane = self.lanes[l];
            let connects = (lane.src == i && lane.dst == j) || (lane.src == j && lane.dst == i);
            let under = lane.length < self.threshold || lane.merge_flag;
            if connects && under {
                assert(self.lane_connects(l as int, i as int, j as int));
                return true;
            }
            l = l + 1;
        }
        false
    }

    /// Adjacency is symmetric.
    pub proof fn lemma_adjacent_symmetric(self, i: int, j: int)
        ensures
            self.adjacent(i, j) == self.adjacent(j, i),
    {
        assert forall|a: int, b: int| self.adjacent(a, b) implies self.adjacent(b, a) by {
            let l = choose|l: int|
                0 <= l < self.lanes@.len() && #[trigger] self.lane_connects(l, a, b)
                    && self.lane_under_threshold(l);
            assert(self.lane_connects(l, b, a));
        }
    }

    /// Adjacent identifiers denote real intersections of the map.
    pub proof fn lemma_adjacent_bounds(self, i: int, j: int)
        requires
            self.wf(),
            self.adjacent(i, j),
        ensures
            0 <= i < self.n_intersections,
            0 <= j < self.n_intersections,
    {
        let l = choose|l: int|
            0 <= l < self.lanes@.len() && #[trigger] self.lane_connects(l, i, j)
                && self.lane_under_threshold(l);
        assert(self.lanes@[l].src < self.n_intersections);
    }

    /// The complement of a closed set is closed, because adjacency is
    /// symmetric: an edge leaving the complement would be an edge into it.
    pub proof fn lemma_complement_closed(self, s: Set<int>)
        requires
            self.closed(s),
        ensures
            self.closed(Set::new(|x: int| !s.contains(x))),
    {
        let c = Set::new(|x: int| !s.contains(x));
        assert forall|i: int, j: int| c.contains(i) && #[trigger] self.adjacent(i, j) implies c.contains(j) by {
            if s.contains(j) {
                self.lemma_adjacent_symmetric(i, j);
                assert(s.contains(i));
            }
        }
    }
}

/// Linear membership test on an identifier list.
pub fn contains_id(v: &Vec<usize>, x: usize) -> (r: bool)
    ensures
        r == v@.contains(x),
{
    let mut k: usize = 0;
    while k < v.len()
        invariant
            k <= v@.len(),
            forall|i: int| 0 <= i < k ==> v@[i] != x,
        decreases v@.len() - k,
    {
        if v[k] == x {
            return true;
        }
        k = k + 1;
    }
    false
}

/// Copies an identifier list.
pub fn copy_ids(v: &Vec<usize>) -> (r: Vec<usize>)
    ensures
        r@ == v@,
{
    let mut r: Vec<usize> = Vec::new();
    let mut k: usize = 0;
    while k < v.len()
        invariant
            k <= v@.len(),
            r@ == v@.subrange(0, k as int),
        decreases v@.len() - k,
    {
        r.push(v[k]);
        k = k + 1;
        proof {
            assert(r@ =~= v@.subrange(0, k as int));
        }
    }
    proof {
        assert(v@.subrange(0, v@.len() as int) =~= v@);
    }
    r
}

} // verus!
