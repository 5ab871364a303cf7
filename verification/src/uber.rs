//! Uber-turn synthesis: enumeration of the maximal movement paths that enter
//! a cluster of intersections from an external lane, cross member
//! intersections by a chain of turns, and exit to an external lane.
//!
//! The enumeration explores, per entry lane, every chain of turns depth-first
//! without revisiting an intersection, and emits a path exactly when it
//! reaches a lane whose destination lies outside the cluster. The legal
//! variant keeps exactly the chains all of whose turns are legal; since a
//! chain ends only when it leaves the cluster, these are the same chains a
//! search restricted to legal turns would emit.

use crate::geometry::Pt;
use crate::map_data::{contains_id, copy_ids, MapModel};
use vstd::prelude::*;

verus! {

/// A lane feeding into the cluster from outside: its destination is a member
/// intersection, its source is not.
pub open spec fn is_entry_lane(m: MapModel, members: Seq<usize>, l: int) -> bool {
    !members.contains(m.lanes@[l].src) && members.contains(m.lanes@[l].dst)
}

/// All turn chains that continue from the end of `lane`: if `lane` already
/// leaves the cluster the chain is complete (one empty continuation); if its
/// destination was already visited the branch is abandoned; otherwise every
/// turn out of `lane` is explored in turn-table order. `fuel` bounds the
/// recursion depth; callers pass the intersection count, which no chain of
/// distinct intersections can exhaust.
pub open spec fn spec_paths_from(
    m: MapModel,
    members: Seq<usize>,
    vis: Seq<usize>,
    lane: int,
    fuel: nat,
) -> Seq<Seq<usize>>
    decreases fuel, 0int,
{
    let i = m.lanes@[lane].dst;
    if !members.contains(i) {
        seq![Seq::<usize>::empty()]
    } else if vis.contains(i) {
        Seq::<Seq<usize>>::empty()
    } else if fuel == 0 {
        Seq::<Seq<usize>>::empty()
    } else {
        spec_paths_via(m, members, vis.push(i), lane, 0, (fuel - 1) as nat)
    }
}

/// The chains obtained by taking some turn with index `>= t` out of `lane`
/// and continuing from that turn's destination lane.
pub open spec fn spec_paths_via(
    m: MapModel,
    members: Seq<usize>,
    vis: Seq<usize>,
    lane: int,
    t: int,
    fuel: nat,
) -> Seq<Seq<usize>>
    decreases fuel, m.turns@.len() - t + 1,
{
    if t < 0 || t >= m.turns@.len() {
        Seq::<Seq<usize>>::empty()
    } else {
        let head = if m.turns@[t].src_lane as int == lane {
            spec_paths_from(m, members, vis, m.turns@[t].dst_lane as int, fuel).map_values(
                |p: Seq<usize>| seq![t as usize] + p,
            )
        } else {
            Seq::<Seq<usize>>::empty()
        };
        head + spec_paths_via(m, members, vis, lane, t + 1, fuel)
    }
}

/// All uber-turn paths of the cluster, grouped by entry lane in lane-table
/// order starting at lane `l`.
pub open spec fn spec_paths_entries(m: MapModel, members: Seq<usize>, l: int) -> Seq<Seq<usize>>
    decreases m.lanes@.len() - l,
{
    if l < 0 || l >= m.lanes@.len() {
        Seq::<Seq<usize>>::empty()
    } else {
        let head = if is_entry_lane(m, members, l) {
            spec_paths_from(m, members, Seq::<usize>::empty(), l, m.n_intersections as nat)
        } else {
            Seq::<Seq<usize>>::empty()
        };
        head + spec_paths_entries(m, members, l + 1)
    }
}

/// Every turn of the path is permitted by current signal/priority rules.
pub open spec fn spec_legal_path(m: MapModel, p: Seq<usize>) -> bool {
    forall|k: int| 0 <= k < p.len() ==> (#[trigger] m.turns@[p[k] as int]).legal
}

/// The all-legal test as a predicate value, for filtering path sequences.
pub open spec fn legal_pred(m: MapModel) -> spec_fn(Seq<usize>) -> bool {
    |p: Seq<usize>| spec_legal_path(m, p)
}

/// The uber-turn paths of the cluster with membership `members`: all
/// geometrically possible chains, restricted to the all-legal ones when
/// `legal` is set.
pub open spec fn spec_uber_turns(m: MapModel, members: Seq<usize>, legal: bool) -> Seq<
    Seq<usize>,
> {
    let all = spec_paths_entries(m, members, 0);
    if legal {
        all.filter(legal_pred(m))
    } else {
        all
    }
}

/// `p` is a connected turn chain that starts at the end of `lane`, stays on
/// member intersections, and stops exactly when a lane leaves the cluster.
pub open spec fn path_crosses(m: MapModel, members: Seq<usize>, lane: int, p: Seq<usize>) -> bool
    decreases p.len(),
{
    if p.len() == 0 {
        !members.contains(m.lanes@[lane].dst)
    } else {
        &&& (p[0] as int) < m.turns@.len()
        &&& m.turns@[p[0] as int].src_lane as int == lane
        &&& members.contains(m.lanes@[lane].dst)
        &&& path_crosses(m, members, m.turns@[p[0] as int].dst_lane as int, p.drop_first())
    }
}

/// The shape every synthesized uber-turn has: a non-empty chain that enters
/// on an external lane and crosses the cluster until it exits.
pub open spec fn valid_uber_path(m: MapModel, members: Seq<usize>, p: Seq<usize>) -> bool {
    &&& p.len() > 0
    &&& (p[0] as int) < m.turns@.len()
    &&& is_entry_lane(m, members, m.turns@[p[0] as int].src_lane as int)
    &&& path_crosses(m, members, m.turns@[p[0] as int].src_lane as int, p)
}

proof fn lemma_paths_from_sound(
    m: MapModel,
    members: Seq<usize>,
    vis: Seq<usize>,
    lane: int,
    fuel: nat,
    p: Seq<usize>,
)
    requires
        m.wf(),
        0 <= lane < m.lanes@.len(),
        spec_paths_from(m, members, vis, lane, fuel).contains(p),
    ensures
        path_crosses(m, members, lane, p),
    decreases fuel, 0int,
{
    let i = m.lanes@[lane].dst;
    if !members.contains(i) {
        let idx = choose|idx: int|
            0 <= idx < spec_paths_from(m, members, vis, lane, fuel).len()
                && spec_paths_from(m, members, vis, lane, fuel)[idx] == p;
        assert(p == Seq::<usize>::empty());
    } else if vis.contains(i) || fuel == 0 {
        assert(false);
    } else {
        lemma_paths_via_sound(m, members, vis.push(i), lane, 0, (fuel - 1) as nat, p);
    }
}

proof fn lemma_paths_via_sound(
    m: MapModel,
    members: Seq<usize>,
    vis: Seq<usize>,
    lane: int,
    t: int,
    fuel: nat,
    p: Seq<usize>,
)
    requires
        m.wf(),
        0 <= lane < m.lanes@.len(),
        members.contains(m.lanes@[lane].dst),
        spec_paths_via(m, members, vis, lane, t, fuel).contains(p),
    ensures
        path_crosses(m, members, lane, p),
    decreases fuel, m.turns@.len() - t + 1,
{
    assert(0 <= t < m.turns@.len());
    let whole = spec_paths_via(m, members, vis, lane, t, fuel);
    let head = if m.turns@[t].src_lane as int == lane {
        spec_paths_from(m, members, vis, m.turns@[t].dst_lane as int, fuel).map_values(
            |p: Seq<usize>| seq![t as usize] + p,
        )
    } else {
        Seq::<Seq<usize>>::empty()
    };
    let rest = spec_paths_via(m, members, vis, lane, t + 1, fuel);
    let idx = choose|idx: int| 0 <= idx < whole.len() && whole[idx] == p;
    if idx < head.len() {
        let sub = spec_paths_from(m, members, vis, m.turns@[t].dst_lane as int, fuel);
        let q = sub[idx];
        assert(sub.contains(q));
        lemma_paths_from_sound(m, members, vis, m.turns@[t].dst_lane as int, fuel, q);
        assert(p == seq![t as usize] + q);
        assert(p.len() == 1 + q.len());
        assert(p.drop_first() =~= q);
        assert(m.turns@.len() == m.turns.len());
        assert(p[0] as int == t);
        assert(path_crosses(m, members, m.turns@[p[0] as int].dst_lane as int, p.drop_first()));
        assert(path_crosses(m, members, lane, p));
    } else {
        assert(rest[idx - head.len()] == p);
        assert(rest.contains(p));
        lemma_paths_via_sound(m, members, vis, lane, t + 1, fuel, p);
    }
}

proof fn lemma_entries_sound(m: MapModel, members: Seq<usize>, l: int, p: Seq<usize>)
    requires
        m.wf(),
        spec_paths_entries(m, members, l).contains(p),
    ensures
        valid_uber_path(m, members, p),
    decreases m.lanes@.len() - l,
{
    assert(0 <= l < m.lanes@.len());
    let whole = spec_paths_entries(m, members, l);
    let head = if is_entry_lane(m, members, l) {
        spec_paths_from(m, members, Seq::<usize>::empty(), l, m.n_intersections as nat)
    } else {
        Seq::<Seq<usize>>::empty()
    };
    let rest = spec_paths_entries(m, members, l + 1);
    let idx = choose|idx: int| 0 <= idx < whole.len() && whole[idx] == p;
    if idx < head.len() {
        assert(head.contains(p));
        lemma_paths_from_sound(m, members, Seq::<usize>::empty(), l, m.n_intersections as nat, p);
        assert(members.contains(m.lanes@[l].dst));
        assert(p.len() > 0);
        assert(m.turns@[p[0] as int].src_lane as int == l);
    } else {
        assert(rest[idx - head.len()] == p);
        assert(rest.contains(p));
        lemma_entries_sound(m, members, l + 1, p);
    }
}

/// Every synthesized uber-turn path is a valid entering-and-exiting chain,
/// and in the legal variant every one of its turns is legal.
pub proof fn lemma_uber_turns_sound(m: MapModel, members: Seq<usize>, legal: bool, p: Seq<usize>)
    requires
        m.wf(),
        spec_uber_turns(m, members, legal).contains(p),
    ensures
        valid_uber_path(m, members, p),
        legal ==> spec_legal_path(m, p),
{
    let all = spec_paths_entries(m, members, 0);
    let pred = legal_pred(m);
    if legal {
        all.lemma_filter_contains_rev(pred, p);
        let idx = choose|idx: int|
            0 <= idx < all.filter(pred).len() && all.filter(pred)[idx] == p;
        all.lemma_filter_pred(pred, idx);
    }
    lemma_entries_sound(m, members, 0, p);
}

/// Pathwise, the legal uber-turns of a cluster are a subset of its
/// all-movements uber-turns: every legal path occurs verbatim (same turns,
/// hence the same entry and exit lanes) among the geometrically possible
/// paths, and all of its turns are legal.
pub proof fn lemma_legal_subset_of_all(m: MapModel, members: Seq<usize>, p: Seq<usize>)
    requires
        spec_uber_turns(m, members, true).contains(p),
    ensures
        spec_uber_turns(m, members, false).contains(p),
        spec_legal_path(m, p),
{
    let all = spec_paths_entries(m, members, 0);
    let pred = legal_pred(m);
    all.lemma_filter_contains_rev(pred, p);
    let idx = choose|idx: int| 0 <= idx < all.filter(pred).len() && all.filter(pred)[idx] == p;
    all.lemma_filter_pred(pred, idx);
}

/// The views of a list of paths.
pub open spec fn path_views(s: Seq<Vec<usize>>) -> Seq<Seq<usize>> {
    s.map_values(|v: Vec<usize>| v@)
}

/// A new path beginning with turn `t` and continuing as `rest`.
fn cons_path(t: usize, rest: &Vec<usize>) -> (r: Vec<usize>)
    ensures
        r@ == seq![t] + rest@,
{
    let mut r: Vec<usize> = Vec::new();
    r.push(t);
    proof {
        assert(r@ =~= seq![t] + rest@.subrange(0, 0));
    }
    let mut j: usize = 0;
    while j < rest.len()
        invariant
            j <= rest@.len(),
            r@ == seq![t] + rest@.subrange(0, j as int),
        decreases rest@.len() - j,
    {
        r.push(rest[j]);
        j = j + 1;
        proof {
            assert(r@ =~= seq![t] + rest@.subrange(0, j as int));
        }
    }
    proof {
        assert(rest@.subrange(0, rest@.len() as int) =~= rest@);
    }
    r
}

fn paths_from(
    m: &MapModel,
    members: &Vec<usize>,
    vis: &mut Vec<usize>,
    lane: usize,
    fuel: usize,
) -> (r: Vec<Vec<usize>>)
    requires
        m.wf(),
        (lane as int) < m.lanes@.len(),
    ensures
        final(vis)@ == old(vis)@,
        path_views(r@) == spec_paths_from(*m, members@, old(vis)@, lane as int, fuel as nat),
    decreases fuel, 0int,
{
    let i = m.lanes[lane].dst;
    if !contains_id(members, i) {
        let mut r: Vec<Vec<usize>> = Vec::new();
        r.push(Vec::new());
        proof {
            assert(path_views(r@) =~= seq![Seq::<usize>::empty()]);
        }
        r
    } else if contains_id(vis, i) {
        let r: Vec<Vec<usize>> = Vec::new();
        proof {
            assert(path_views(r@) =~= Seq::<Seq<usize>>::empty());
        }
        r
    } else if fuel == 0 {
        let r: Vec<Vec<usize>> = Vec::new();
        proof {
            assert(path_views(r@) =~= Seq::<Seq<usize>>::empty());
        }
        r
    } else {
        vis.push(i);
        let r = paths_via(m, members, vis, lane, fuel - 1);
        let _popped = vis.pop();
        proof {
            assert(vis@ =~= old(vis)@);
        }
        r
    }
}

fn paths_via(
    m: &MapModel,
    members: &Vec<usize>,
    vis: &mut Vec<usize>,
    lane: usize,
    fuel: usize,
) -> (r: Vec<Vec<usize>>)
    requires
        m.wf(),
        (lane as int) < m.lanes@.len(),
    ensures
        final(vis)@ == old(vis)@,
        path_views(r@) == spec_paths_via(*m, members@, old(vis)@, lane as int, 0, fuel as nat),
    decreases fuel, 1int,
{
    let ghost vis0 = vis@;
    let mut acc: Vec<Vec<usize>> = Vec::new();
    proof {
        assert(path_views(acc@) =~= Seq::<Seq<usize>>::empty());
    }
    let mut t: usize = 0;
    while t < m.turns.len()
        invariant
            m.wf(),
            (lane as int) < m.lanes@.len(),
            t <= m.turns@.len(),
            vis@ == vis0,
            path_views(acc@) + spec_paths_via(*m, members@, vis0, lane as int, t as int, fuel as nat)
                == spec_paths_via(*m, members@, vis0, lane as int, 0, fuel as nat),
        decreases m.turns@.len() - t,
    {
        let ghost acc_pre = path_views(acc@);
        let ghost before = spec_paths_via(*m, members@, vis0, lane as int, t as int, fuel as nat);
        let tn_src = m.turns[t].src_lane;
        let tn_dst = m.turns[t].dst_lane;
        if tn_src == lane {
            assert((tn_dst as int) < m.lanes@.len());
            let sub = paths_from(m, members, vis, tn_dst, fuel);
            let ghost subviews = path_views(sub@);
            let ghost f = |p: Seq<usize>| seq![t] + p;
            let mut j: usize = 0;
            while j < sub.len()
                invariant
                    j <= sub@.len(),
                    subviews == path_views(sub@),
                    f == (|p: Seq<usize>| seq![t] + p),
                    path_views(acc@) == acc_pre + subviews.subrange(0, j as int).map_values(f),
                decreases sub@.len() - j,
            {
                let ghost acc_before = acc@;
                let p = cons_path(t, &sub[j]);
                acc.push(p);
                proof {
                    assert(path_views(acc@) =~= path_views(acc_before).push(p@));
                    assert(p@ == f(subviews[j as int]));
                    assert(subviews.subrange(0, j as int + 1) =~= subviews.subrange(
                        0,
                        j as int,
                    ).push(subviews[j as int]));
                    assert(subviews.subrange(0, j as int).push(subviews[j as int]).map_values(f)
                        =~= subviews.subrange(0, j as int).map_values(f).push(
                        f(subviews[j as int]),
                    ));
                    assert(path_views(acc@) =~= acc_pre + subviews.subrange(
                        0,
                        j as int + 1,
                    ).map_values(f));
                }
                j = j + 1;
            }
            proof {
                assert(subviews.subrange(0, sub@.len() as int) =~= subviews);
                let head = subviews.map_values(f);
                assert(before == head + spec_paths_via(
                    *m,
                    members@,
                    vis0,
                    lane as int,
                    t as int + 1,
                    fuel as nat,
                ));
                assert(path_views(acc@) + spec_paths_via(
                    *m,
                    members@,
                    vis0,
                    lane as int,
                    t as int + 1,
                    fuel as nat,
                ) =~= acc_pre + before);
            }
        } else {
            proof {
                assert(before =~= Seq::<Seq<usize>>::empty() + spec_paths_via(
                    *m,
                    members@,
                    vis0,
                    lane as int,
                    t as int + 1,
                    fuel as nat,
                ));
                assert(before == spec_paths_via(
                    *m,
                    members@,
                    vis0,
                    lane as int,
                    t as int + 1,
                    fuel as nat,
                ));
            }
        }
        t = t + 1;
    }
    proof {
        assert(spec_paths_via(*m, members@, vis0, lane as int, t as int, fuel as nat)
            =~= Seq::<Seq<usize>>::empty());
        assert(path_views(acc@) + Seq::<Seq<usize>>::empty() =~= path_views(acc@));
    }
    acc
}

/// Appends copies of the paths in `sub` to `acc`.
fn append_paths(acc: &mut Vec<Vec<usize>>, sub: &Vec<Vec<usize>>)
    ensures
        path_views(final(acc)@) == path_views(old(acc)@) + path_views(sub@),
{
    let ghost pre = path_views(old(acc)@);
    let mut j: usize = 0;
    while j < sub.len()
        invariant
            j <= sub@.len(),
            path_views(acc@) == pre + path_views(sub@).subrange(0, j as int),
        decreases sub@.len() - j,
    {
        let ghost acc_before = acc@;
        let p = copy_ids(&sub[j]);
        acc.push(p);
        proof {
            assert(path_views(acc@) =~= path_views(acc_before).push(p@));
            assert(p@ == path_views(sub@)[j as int]);
            assert(path_views(sub@).subrange(0, j as int + 1) =~= path_views(sub@).subrange(
                0,
                j as int,
            ).push(path_views(sub@)[j as int]));
            assert(path_views(acc@) =~= pre + path_views(sub@).subrange(0, j as int + 1));
        }
        j = j + 1;
    }
    proof {
        assert(path_views(sub@).subrange(0, sub@.len() as int) =~= path_views(sub@));
    }
}

/// Enumerates every geometrically possible uber-turn path of the cluster,
/// grouped by entry lane in lane-table order.
fn paths_entries(m: &MapModel, members: &Vec<usize>) -> (r: Vec<Vec<usize>>)
    requires
        m.wf(),
    ensures
        path_views(r@) == spec_paths_entries(*m, members@, 0),
{
    let mut acc: Vec<Vec<usize>> = Vec::new();
    proof {
        assert(path_views(acc@) =~= Seq::<Seq<usize>>::empty());
    }
    let mut l: usize = 0;
    while l < m.lanes.len()
        invariant
            m.wf(),
            l <= m.lanes@.len(),
            path_views(acc@) + spec_paths_entries(*m, members@, l as int) == spec_paths_entries(
                *m,
                members@,
                0,
            ),
        decreases m.lanes@.len() - l,
    {
        let ghost acc_pre = path_views(acc@);
        let ghost before = spec_paths_entries(*m, members@, l as int);
        let lane = m.lanes[l];
        let entry = !contains_id(members, lane.src) && contains_id(members, lane.dst);
        if entry {
            let mut vis: Vec<usize> = Vec::new();
            let sub = paths_from(m, members, &mut vis, l, m.n_intersections);
            append_paths(&mut acc, &sub);
            proof {
                assert(before == path_views(sub@) + spec_paths_entries(
                    *m,
                    members@,
                    l as int + 1,
                ));
                assert(path_views(acc@) + spec_paths_entries(*m, members@, l as int + 1)
                    =~= acc_pre + before);
            }
        } else {
            proof {
                assert(before =~= Seq::<Seq<usize>>::empty() + spec_paths_entries(
                    *m,
                    members@,
                    l as int + 1,
                ));
            }
        }
        l = l + 1;
    }
    proof {
        assert(spec_paths_entries(*m, members@, l as int) =~= Seq::<Seq<usize>>::empty());
        assert(path_views(acc@) + Seq::<Seq<usize>>::empty() =~= path_views(acc@));
    }
    acc
}

/// The concatenated geometry of a turn chain, one constituent turn's path
/// after another, suitable for rendering as a single directional arrow.
pub open spec fn spec_uber_geom(m: MapModel, p: Seq<usize>) -> Seq<Pt>
    decreases p.len(),
{
    if p.len() == 0 {
        Seq::<Pt>::empty()
    } else {
        m.turns@[p[0] as int].geom@ + spec_uber_geom(m, p.drop_first())
    }
}

/// An ordered chain of turn identifiers forming one composite movement path
/// through a cluster, from an entry lane outside it to an exit lane outside
/// it.
pub struct UberTurn {
    pub path: Vec<usize>,
}

/// The views of a list of uber-turns.
pub open spec fn paths_of(s: Seq<UberTurn>) -> Seq<Seq<usize>> {
    s.map_values(|u: UberTurn| u.path@)
}

impl UberTurn {
    /// The lane the path enters the cluster from.
    pub fn entry(&self, map: &MapModel) -> (l: usize)
        requires
            self.path@.len() > 0,
            (self.path@[0] as int) < map.turns@.len(),
        ensures
            l == map.turns@[self.path@[0] as int].src_lane,
    {
        map.turns[self.path[0]].src_lane
    }

    /// The lane the path exits the cluster to.
    pub fn exit(&self, map: &MapModel) -> (l: usize)
        requires
            self.path@.len() > 0,
            (self.path@[self.path@.len() - 1] as int) < map.turns@.len(),
        ensures
            l == map.turns@[self.path@[self.path@.len() - 1] as int].dst_lane,
    {
        map.turns[self.path[self.path.len() - 1]].dst_lane
    }

    /// The concatenated geometry of the constituent turns.
    pub fn geom(&self, map: &MapModel) -> (r: Vec<Pt>)
        requires
            forall|k: int|
                0 <= k < self.path@.len() ==> (#[trigger] self.path@[k] as int)
                    < map.turns@.len(),
        ensures
            r@ == spec_uber_geom(*map, self.path@),
    {
        let mut r: Vec<Pt> = Vec::new();
        let mut k: usize = 0;
        proof {
            assert(self.path@.skip(0) =~= self.path@);
            assert(r@ + spec_uber_geom(*map, self.path@) =~= spec_uber_geom(*map, self.path@));
        }
        while k < self.path.len()
            invariant
                k <= self.path@.len(),
                forall|i: int|
                    0 <= i < self.path@.len() ==> (#[trigger] self.path@[i] as int)
                        < map.turns@.len(),
                r@ + spec_uber_geom(*map, self.path@.skip(k as int)) == spec_uber_geom(
                    *map,
                    self.path@,
                ),
            decreases self.path@.len() - k,
        {
            let ghost rem = self.path@.skip(k as int);
            let t = self.path[k];
            let tg = &map.turns[t].geom;
            let ghost r_pre = r@;
            let mut j: usize = 0;
            proof {
                assert(r@ =~= r_pre + tg@.subrange(0, 0));
            }
            while j < tg.len()
                invariant
                    j <= tg@.len(),
                    tg@ == map.turns@[self.path@[k as int] as int].geom@,
                    r@ == r_pre + tg@.subrange(0, j as int),
                decreases tg@.len() - j,
            {
                let ghost r_before = r@;
                r.push(tg[j]);
                proof {
                    assert(r@ =~= r_pre + tg@.subrange(0, j as int + 1));
                }
                j = j + 1;
            }
            proof {
                assert(tg@.subrange(0, tg@.len() as int) =~= tg@);
                assert(rem.drop_first() =~= self.path@.skip(k as int + 1));
                assert(rem[0] == self.path@[k as int]);
                assert(spec_uber_geom(*map, rem) == tg@ + spec_uber_geom(
                    *map,
                    self.path@.skip(k as int + 1),
                ));
                assert(r@ + spec_uber_geom(*map, self.path@.skip(k as int + 1)) =~= r_pre
                    + spec_uber_geom(*map, rem));
            }
            k = k + 1;
        }
        proof {
            assert(self.path@.skip(k as int) =~= Seq::<usize>::empty());
            assert(r@ + Seq::<Pt>::empty() =~= r@);
        }
        r
    }
}

/// Decides whether every turn of the path is legal.
fn path_all_legal(m: &MapModel, p: &Vec<usize>) -> (r: bool)
    requires
        forall|k: int| 0 <= k < p@.len() ==> (#[trigger] p@[k] as int) < m.turns@.len(),
    ensures
        r == spec_legal_path(*m, p@),
{
    let mut k: usize = 0;
    while k < p.len()
        invariant
            k <= p@.len(),
            forall|i: int| 0 <= i < p@.len() ==> (#[trigger] p@[i] as int) < m.turns@.len(),
            forall|i: int| 0 <= i < k ==> (#[trigger] m.turns@[p@[i] as int]).legal,
        decreases p@.len() - k,
    {
        let t = p[k];
        if !m.turns[t].legal {
            return false;
        }
        k = k + 1;
    }
    true
}

/// Synthesizes the uber-turns of the cluster with membership `members`: the
/// result holds exactly the paths of `spec_uber_turns`, in the same order, so
/// it is a function of the map, the membership set and the flag alone, and
/// repeated synthesis yields equal results.
pub fn find_uber_turns(map: &MapModel, members: &Vec<usize>, legal: bool) -> (r: Vec<UberTurn>)
    requires
        map.wf(),
    ensures
        paths_of(r@) == spec_uber_turns(*map, members@, legal),
{
    let all = paths_entries(map, members);
    let ghost allviews = path_views(all@);
    let mut r: Vec<UberTurn> = Vec::new();
    proof {
        assert(paths_of(r@) =~= Seq::<Seq<usize>>::empty());
        if legal {
            assert(allviews.subrange(0, 0) =~= Seq::<Seq<usize>>::empty());
            reveal(Seq::filter);
            assert(Seq::<Seq<usize>>::empty().filter(legal_pred(*map))
                =~= Seq::<Seq<usize>>::empty());
        }
    }
    let mut j: usize = 0;
    while j < all.len()
        invariant
            map.wf(),
            j <= all@.len(),
            allviews == path_views(all@),
            allviews == spec_paths_entries(*map, members@, 0),
            if legal {
                paths_of(r@) == allviews.subrange(0, j as int).filter(legal_pred(*map))
            } else {
                paths_of(r@) == allviews.subrange(0, j as int)
            },
        decreases all@.len() - j,
    {
        proof {
            assert(allviews[j as int] == all@[j as int]@);
            assert(allviews.contains(allviews[j as int]));
            lemma_entries_sound(*map, members@, 0, allviews[j as int]);
            lemma_crosses_indices(
                *map,
                members@,
                map.turns@[allviews[j as int][0] as int].src_lane as int,
                allviews[j as int],
            );
        }
        let ghost r_before = r@;
        if legal {
            if path_all_legal(map, &all[j]) {
                let p = copy_ids(&all[j]);
                r.push(UberTurn { path: p });
            }
            proof {
                let pred = legal_pred(*map);
                let prefix = allviews.subrange(0, j as int);
                let longer = allviews.subrange(0, j as int + 1);
                assert(longer.drop_last() =~= prefix);
                assert(longer.last() == allviews[j as int]);
                reveal(Seq::filter);
                assert(longer.filter(pred) == if pred(allviews[j as int]) {
                    prefix.filter(pred).push(allviews[j as int])
                } else {
                    prefix.filter(pred)
                });
                if pred(allviews[j as int]) {
                    assert(paths_of(r@) =~= paths_of(r_before).push(allviews[j as int]));
                }
            }
        } else {
            let p = copy_ids(&all[j]);
            r.push(UberTurn { path: p });
            proof {
                assert(paths_of(r@) =~= paths_of(r_before).push(allviews[j as int]));
                assert(allviews.subrange(0, j as int + 1) =~= allviews.subrange(
                    0,
                    j as int,
                ).push(allviews[j as int]));
            }
        }
        j = j + 1;
    }
    proof {
        assert(allviews.subrange(0, all@.len() as int) =~= allviews);
    }
    r
}

proof fn lemma_paths_from_members_congruent(
    m: MapModel,
    m1: Seq<usize>,
    m2: Seq<usize>,
    vis: Seq<usize>,
    lane: int,
    fuel: nat,
)
    requires
        forall|x: usize| m1.contains(x) <==> m2.contains(x),
    ensures
        spec_paths_from(m, m1, vis, lane, fuel) == spec_paths_from(m, m2, vis, lane, fuel),
    decreases fuel, 0int,
{
    let i = m.lanes@[lane].dst;
    if m1.contains(i) && !vis.contains(i) && fuel > 0 {
        lemma_paths_via_members_congruent(m, m1, m2, vis.push(i), lane, 0, (fuel - 1) as nat);
    }
}

proof fn lemma_paths_via_members_congruent(
    m: MapModel,
    m1: Seq<usize>,
    m2: Seq<usize>,
    vis: Seq<usize>,
    lane: int,
    t: int,
    fuel: nat,
)
    requires
        forall|x: usize| m1.contains(x) <==> m2.contains(x),
    ensures
        spec_paths_via(m, m1, vis, lane, t, fuel) == spec_paths_via(m, m2, vis, lane, t, fuel),
    decreases fuel, m.turns@.len() - t + 1,
{
    if 0 <= t < m.turns@.len() {
        lemma_paths_via_members_congruent(m, m1, m2, vis, lane, t + 1, fuel);
        if m.turns@[t].src_lane as int == lane {
            lemma_paths_from_members_congruent(
                m,
                m1,
                m2,
                vis,
                m.turns@[t].dst_lane as int,
                fuel,
            );
        }
    }
}

proof fn lemma_entries_members_congruent(m: MapModel, m1: Seq<usize>, m2: Seq<usize>, l: int)
    requires
        forall|x: usize| m1.contains(x) <==> m2.contains(x),
    ensures
        spec_paths_entries(m, m1, l) == spec_paths_entries(m, m2, l),
    decreases m.lanes@.len() - l,
{
    if 0 <= l < m.lanes@.len() {
        lemma_entries_members_congruent(m, m1, m2, l + 1);
        assert(is_entry_lane(m, m1, l) == is_entry_lane(m, m2, l));
        if is_entry_lane(m, m1, l) {
            lemma_paths_from_members_congruent(
                m,
                m1,
                m2,
                Seq::<usize>::empty(),
                l,
                m.n_intersections as nat,
            );
        }
    }
}

/// Synthesis is a function of the membership set alone: two membership lists
/// that hold the same intersections — in any order, with any repetitions —
/// yield the same uber-turn sequence. In particular, building a cluster twice
/// from the same membership set gives uber-turns equal in content.
pub proof fn lemma_uber_turns_determined_by_member_set(
    m: MapModel,
    m1: Seq<usize>,
    m2: Seq<usize>,
    legal: bool,
)
    requires
        forall|x: usize| m1.contains(x) <==> m2.contains(x),
    ensures
        spec_uber_turns(m, m1, legal) == spec_uber_turns(m, m2, legal),
{
    lemma_entries_members_congruent(m, m1, m2, 0);
}

/// Every turn index of a crossing chain is in range for the turn table.
pub proof fn lemma_crosses_indices(m: MapModel, members: Seq<usize>, lane: int, p: Seq<usize>)
    requires
        path_crosses(m, members, lane, p),
    ensures
        forall|k: int| 0 <= k < p.len() ==> (#[trigger] p[k] as int) < m.turns@.len(),
    decreases p.len(),
{
    if p.len() > 0 {
        lemma_crosses_indices(
            m,
            members,
            m.turns@[p[0] as int].dst_lane as int,
            p.drop_first(),
        );
        assert forall|k: int| 0 <= k < p.len() implies (#[trigger] p[k] as int)
            < m.turns@.len() by {
            if k > 0 {
                assert(p.drop_first()[k - 1] == p[k]);
            }
        }
    }
}

} // verus!
