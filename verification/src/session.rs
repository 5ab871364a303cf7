//! The interactive session over clustering and uber-turn synthesis: a picker
//! that accumulates a membership set of intersections, and a viewer that
//! pages through the synthesized uber-turns of the chosen cluster in either
//! legality mode. All state is explicit; every operation is a pure function
//! of the session value, the map and the command.

use crate::cluster::{id_set, in_some_cluster, strictly_sorted, IntersectionCluster};
use crate::map_data::{copy_ids, MapModel};
use crate::render::{copy_pts, Color, DrawCommand, Style};
use crate::uber::{
    lemma_crosses_indices, lemma_uber_turns_sound, paths_of, spec_uber_geom, spec_uber_turns,
};
use vstd::prelude::*;

verus! {

/// Highlight for intersections selected into the picker's membership set.
pub open spec fn picked_color() -> Color {
    Color { red: 255, green: 0, blue: 0, alpha: 204 }
}

/// Highlight for the member intersections of the viewed cluster.
pub open spec fn member_color() -> Color {
    Color { red: 0, green: 0, blue: 255, alpha: 128 }
}

/// Color of the arrow along the current uber-turn.
pub open spec fn current_turn_color() -> Color {
    Color { red: 255, green: 0, blue: 0, alpha: 255 }
}

/// The message shown when cluster construction is requested with fewer than
/// two selected intersections.
pub const TOO_FEW_MEMBERS: &'static str = "Select at least two intersections";

/// Clamps a requested uber-turn index into `[0, len - 1]`, or to 0 when the
/// sequence is empty.
pub open spec fn spec_clamp(idx: int, len: int) -> int {
    if len == 0 {
        0
    } else if idx >= len {
        len - 1
    } else {
        idx
    }
}

/// The paging rule: move by `delta` from `idx`, clamped into `[0, len - 1]`,
/// never wrapping; an empty sequence pins the index at 0.
pub open spec fn spec_page(idx: int, delta: int, len: int) -> int {
    if len == 0 {
        0
    } else if idx + delta < 0 {
        0
    } else if idx + delta > len - 1 {
        len - 1
    } else {
        idx + delta
    }
}

/// Paging never leaves `[0, len - 1]`: one step forward from the last index
/// stays at the last index, and one step back from 0 stays at 0.
pub proof fn lemma_page_clamps(len: int)
    requires
        len >= 1,
    ensures
        spec_page(len - 1, 1, len) == len - 1,
        spec_page(0, -1, len) == 0,
{
}

/// The closed set of in-place commands of the picking screen. A string-keyed
/// dispatch would need a fatal fallback for unrecognized names; with a closed
/// enum an unrecognized command is a compile-time impossibility, and every
/// dispatch match is exhaustiveness-checked.
#[derive(Clone, Copy, PartialEq, Eq, Structural, Debug)]
pub enum PickerCommand {
    Select(usize),
    Deselect(usize),
    DetectAllClusters,
}

/// The closed set of in-place commands of the viewer screen.
#[derive(Clone, Copy, PartialEq, Eq, Structural, Debug)]
pub enum ViewerCommand {
    Page(i32),
    ToggleLegalMode,
}

/// Accumulates a membership set of intersections, kept in ascending order.
pub struct UberTurnPicker {
    pub members: Vec<usize>,
}

impl UberTurnPicker {
    /// Members are a strictly sorted list of intersections of the map.
    pub open spec fn wf(self, m: MapModel) -> bool {
        &&& strictly_sorted(self.members@)
        &&& forall|k: int|
            0 <= k < self.members@.len() ==> (#[trigger] self.members@[k] as int)
                < m.n_intersections
    }

    /// Starts a picking session from one intersection: the membership set is
    /// its adjacency closure, or the singleton `{i}` when no other
    /// intersection is adjacent to it.
    pub fn new(i: usize, map: &MapModel) -> (s: Self)
        requires
            map.wf(),
            i < map.n_intersections,
        ensures
            s.wf(*map),
            s.members@.contains(i),
            (forall|j: int| map.adjacent(i as int, j) ==> j == i as int) <==> s.members@.len()
                == 1,
            s.members@.len() == 1 ==> s.members@ == seq![i],
            map.closed(id_set(s.members@)),
            forall|st: Set<int>|
                #[trigger] map.closed(st) && st.contains(i as int) ==> id_set(
                    s.members@,
                ).subset_of(st),
    {
        match IntersectionCluster::autodetect(i, map) {
            Some(list) => {
                proof {
                    assert(id_set(list@).contains(i as int));
                    assert(list@.contains(i));
                    assert(!(forall|j: int| map.adjacent(i as int, j) ==> j == i as int)) by {
                        if forall|j: int| map.adjacent(i as int, j) ==> j == i as int {
                            let single = Set::<int>::empty().insert(i as int);
                            assert(map.closed(single)) by {
                                assert forall|a: int, b: int|
                                    single.contains(a) && #[trigger] map.adjacent(
                                        a,
                                        b,
                                    ) implies single.contains(b) by {}
                            }
                            assert(id_set(list@).subset_of(single));
                            assert(list@[0] != list@[1]);
                            assert(id_set(list@).contains(list@[0] as int));
                            assert(id_set(list@).contains(list@[1] as int));
                        }
                    }
                }
                UberTurnPicker { members: list }
            },
            None => {
                let mut v: Vec<usize> = Vec::new();
                v.push(i);
                proof {
                    assert(v@ =~= seq![i]);
                    assert(v@[0] == i);
                    assert(v@.contains(i));
                    assert forall|x: usize| v@.contains(x) implies x == i by {
                        let c = choose|c: int| 0 <= c < v@.len() && v@[c] == x;
                    }
                    assert(map.closed(id_set(v@))) by {
                        assert forall|a: int, b: int|
                            id_set(v@).contains(a) && #[trigger] map.adjacent(a, b) implies id_set(
                            v@,
                        ).contains(b) by {
                            assert(v@.contains(a as usize));
                            assert(a == i as int);
                            assert(b == i as int);
                            map.lemma_adjacent_bounds(a, b);
                        }
                    }
                    assert forall|st: Set<int>|
                        #[trigger] map.closed(st) && st.contains(i as int) implies id_set(
                        v@,
                    ).subset_of(st) by {
                        assert forall|x: int| id_set(v@).contains(x) implies st.contains(x) by {
                            assert(v@.contains(x as usize));
                        }
                    }
                }
                UberTurnPicker { members: v }
            },
        }
    }

    /// Adds intersection `i` to the membership set, keeping ascending order;
    /// selecting an already-selected intersection changes nothing.
    pub fn select(&mut self, i: usize, map: &MapModel)
        requires
            old(self).wf(*map),
            i < map.n_intersections,
        ensures
            final(self).wf(*map),
            id_set(final(self).members@) == id_set(old(self).members@).insert(i as int),
            final(self).members@.contains(i),
    {
        let mut pos: usize = 0;
        while pos < self.members.len() && self.members[pos] < i
            invariant
                pos <= self.members@.len(),
                forall|k: int| 0 <= k < pos ==> (#[trigger] self.members@[k]) < i,
                self == old(self),
            decreases self.members@.len() - pos,
        {
            pos = pos + 1;
        }
        if pos < self.members.len() && self.members[pos] == i {
            proof {
                assert(self.members@.contains(i));
                assert(id_set(self.members@) =~= id_set(old(self).members@).insert(i as int));
            }
            return ;
        }
        let ghost pre = self.members@;
        self.members.insert(pos, i);
        proof {
            assert(self.members@ == pre.insert(pos as int, i));
            assert(self.members@.len() == pre.len() + 1);
            assert(forall|k: int| 0 <= k < pos ==> self.members@[k] == pre[k]);
            assert(self.members@[pos as int] == i);
            assert(forall|k: int|
                pos < k < self.members@.len() ==> self.members@[k] == pre[k - 1]);
            assert(pos < pre.len() ==> i < pre[pos as int]);
            assert(strictly_sorted(self.members@)) by {
                assert forall|a: int, b: int|
                    0 <= a < b < self.members@.len() implies self.members@[a]
                    < self.members@[b] by {
                    if a < pos && b == pos {
                    } else if a == pos && b > pos {
                        assert(self.members@[b] == pre[b - 1]);
                        assert(b - 1 >= pos);
                        assert(pos < pre.len());
                        assert(pre[pos as int] <= pre[b - 1]);
                    } else if a < pos && b > pos {
                        assert(pre[a] < i || pre[a] < pre[b - 1]);
                        assert(pre[a] < i);
                        assert(i < pre[b - 1] || pos as int == b - 1);
                        if pos as int != b - 1 {
                            assert(pre[pos as int] <= pre[b - 1]);
                        }
                    }
                }
            }
            assert(id_set(self.members@) =~= id_set(pre).insert(i as int)) by {
                assert forall|x: int| id_set(self.members@).contains(x) implies id_set(
                    pre,
                ).insert(i as int).contains(x) by {
                    let c = choose|c: int|
                        0 <= c < self.members@.len() && self.members@[c] == x as usize;
                    if c != pos {
                        if c < pos {
                            assert(pre[c] == x as usize);
                        } else {
                            assert(pre[c - 1] == x as usize);
                        }
                        assert(pre.contains(x as usize));
                    }
                }
                assert forall|x: int| id_set(pre).insert(i as int).contains(x) implies id_set(
                    self.members@,
                ).contains(x) by {
                    if x == i as int {
                        assert(self.members@[pos as int] == i);
                        assert(self.members@.contains(i));
                    } else {
                        assert(pre.contains(x as usize));
                        let c = choose|c: int| 0 <= c < pre.len() && pre[c] == x as usize;
                        if c < pos {
                            assert(self.members@[c] == x as usize);
                        } else {
                            assert(self.members@[c + 1] == x as usize);
                        }
                        assert(self.members@.contains(x as usize));
                    }
                }
            }
            assert(self.members@.contains(i)) by {
                assert(self.members@[pos as int] == i);
            }
        }
    }

    /// Removes intersection `i` from the membership set; deselecting an
    /// unselected intersection changes nothing.
    pub fn deselect(&mut self, i: usize, map: &MapModel)
        requires
            old(self).wf(*map),
        ensures
            final(self).wf(*map),
            id_set(final(self).members@) == id_set(old(self).members@).remove(i as int),
            !final(self).members@.contains(i),
    {
        let mut pos: usize = 0;
        while pos < self.members.len() && self.members[pos] != i
            invariant
                pos <= self.members@.len(),
                forall|k: int| 0 <= k < pos ==> (#[trigger] self.members@[k]) != i,
                self == old(self),
            decreases self.members@.len() - pos,
        {
            pos = pos + 1;
        }
        if pos == self.members.len() {
            proof {
                assert(!self.members@.contains(i));
                assert(id_set(self.members@) =~= id_set(old(self).members@).remove(i as int));
            }
            return ;
        }
        let ghost pre = self.members@;
        self.members.remove(pos);
        proof {
            assert(self.members@ == pre.remove(pos as int));
            assert(forall|k: int| 0 <= k < pos ==> self.members@[k] == pre[k]);
            assert(forall|k: int|
                pos <= k < self.members@.len() ==> self.members@[k] == pre[k + 1]);
            assert(strictly_sorted(self.members@));
            assert(!self.members@.contains(i)) by {
                if self.members@.contains(i) {
                    let c = choose|c: int|
                        0 <= c < self.members@.len() && self.members@[c] == i;
                    if c < pos {
                        assert(pre[c] == i);
                    } else {
                        assert(pre[c + 1] == i);
                        assert(pre[pos as int] == i);
                        assert(pre[pos as int] < pre[c + 1]);
                    }
                }
            }
            assert(id_set(self.members@) =~= id_set(pre).remove(i as int)) by {
                assert forall|x: int| id_set(self.members@).contains(x) implies id_set(
                    pre,
                ).remove(i as int).contains(x) by {
                    let c = choose|c: int|
                        0 <= c < self.members@.len() && self.members@[c] == x as usize;
                    if c < pos {
                        assert(pre[c] == x as usize);
                    } else {
                        assert(pre[c + 1] == x as usize);
                    }
                    assert(pre.contains(x as usize));
                    assert(x != i as int);
                }
                assert forall|x: int| id_set(pre).remove(i as int).contains(x) implies id_set(
                    self.members@,
                ).contains(x) by {
                    assert(pre.contains(x as usize));
                    let c = choose|c: int| 0 <= c < pre.len() && pre[c] == x as usize;
                    assert(c != pos);
                    if c < pos {
                        assert(self.members@[c] == x as usize);
                    } else {
                        assert(self.members@[c - 1] == x as usize);
                    }
                    assert(self.members@.contains(x as usize));
                }
            }
        }
    }

    /// Replaces the selection with the members of every cluster of the map:
    /// since `find_all` partitions all intersections, this selects each of
    /// them exactly once, in ascending order.
    pub fn detect_all_clusters(&mut self, map: &MapModel)
        requires
            map.wf(),
        ensures
            final(self).wf(*map),
            final(self).members@.len() == map.n_intersections,
            forall|k: int|
                0 <= k < final(self).members@.len() ==> (#[trigger] final(self).members@[k]) == k,
    {
        let clusters = IntersectionCluster::find_all(map);
        let n = map.n_intersections;
        let mut picked: Vec<bool> = Vec::new();
        let mut z: usize = 0;
        while z < n
            invariant
                z <= n,
                picked@.len() == z,
                forall|x: int| 0 <= x < z ==> !(#[trigger] picked@[x]),
            decreases n - z,
        {
            picked.push(false);
            z = z + 1;
        }
        let mut ci: usize = 0;
        while ci < clusters.len()
            invariant
                map.wf(),
                n == map.n_intersections,
                picked@.len() == n,
                ci <= clusters@.len(),
                forall|k: int|
                    0 <= k < clusters@.len() ==> (#[trigger] clusters@[k]).valid_for(*map, true),
                forall|i: int|
                    0 <= i < n ==> #[trigger] in_some_cluster(clusters@, i as usize),
                forall|x: usize|
                    x < n ==> ((#[trigger] picked@[x as int]) ==> in_some_cluster(clusters@, x)),
                forall|k: int, e: int|
                    0 <= k < ci && 0 <= e < clusters@[k].members@.len() ==> picked@[(
                    #[trigger] clusters@[k].members@[e]) as int],
            decreases clusters@.len() - ci,
        {
            let cluster = &clusters[ci];
            let mut e: usize = 0;
            while e < cluster.members.len()
                invariant
                    map.wf(),
                    n == map.n_intersections,
                    picked@.len() == n,
                    ci < clusters@.len(),
                    cluster == &clusters@[ci as int],
                    forall|k: int|
                        0 <= k < clusters@.len() ==> (#[trigger] clusters@[k]).valid_for(
                            *map,
                            true,
                        ),
                    e <= cluster.members@.len(),
                    forall|x: usize|
                        x < n ==> ((#[trigger] picked@[x as int]) ==> in_some_cluster(
                            clusters@,
                            x,
                        )),
                    forall|k: int, e2: int|
                        0 <= k < ci && 0 <= e2 < clusters@[k].members@.len() ==> picked@[(
                        #[trigger] clusters@[k].members@[e2]) as int],
                    forall|e2: int|
                        0 <= e2 < e ==> picked@[(#[trigger] cluster.members@[e2]) as int],
                decreases cluster.members@.len() - e,
            {
                let x = cluster.members[e];
                picked.set(x, true);
                proof {
                    assert(clusters@[ci as int].members@.contains(x));
                    assert(in_some_cluster(clusters@, x));
                }
                e = e + 1;
            }
            ci = ci + 1;
        }
        proof {
            assert forall|x: usize| x < n implies picked@[x as int] by {
                assert(in_some_cluster(clusters@, ((x as int) as usize)));
                assert(in_some_cluster(clusters@, x));
                let k = choose|k: int|
                    0 <= k < clusters@.len() && (#[trigger] clusters@[k].members@.contains(x));
                let e = choose|e: int|
                    0 <= e < clusters@[k].members@.len() && clusters@[k].members@[e] == x;
                assert(picked@[clusters@[k].members@[e] as int]);
            }
        }
        let mut sorted: Vec<usize> = Vec::new();
        let mut i: usize = 0;
        while i < n
            invariant
                picked@.len() == n,
                i <= n,
                forall|x: int| 0 <= x < n ==> picked@[x],
                sorted@.len() == i,
                forall|k: int| 0 <= k < i ==> (#[trigger] sorted@[k]) == k,
            decreases n - i,
        {
            if picked[i] {
                sorted.push(i);
            }
            i = i + 1;
        }
        self.members = sorted;
        proof {
            assert(strictly_sorted(self.members@));
        }
    }

    /// Dispatches one picker command; the command set is closed and every
    /// variant is handled.
    pub fn handle(&mut self, cmd: PickerCommand, map: &MapModel)
        requires
            map.wf(),
            old(self).wf(*map),
            cmd matches PickerCommand::Select(i) ==> i < map.n_intersections,
        ensures
            final(self).wf(*map),
            match cmd {
                PickerCommand::Select(i) => id_set(final(self).members@) == id_set(
                    old(self).members@,
                ).insert(i as int),
                PickerCommand::Deselect(i) => id_set(final(self).members@) == id_set(
                    old(self).members@,
                ).remove(i as int),
                PickerCommand::DetectAllClusters => final(self).members@.len()
                    == map.n_intersections,
            },
    {
        match cmd {
            PickerCommand::Select(i) => self.select(i, map),
            PickerCommand::Deselect(i) => self.deselect(i, map),
            PickerCommand::DetectAllClusters => self.detect_all_clusters(map),
        }
    }

    /// The picker's highlight drawing: each selected intersection's outline
    /// in the picked color.
    pub fn draw(&self, map: &MapModel) -> (r: Vec<DrawCommand>)
        requires
            map.wf(),
            self.wf(*map),
        ensures
            r@.len() == self.members@.len(),
            forall|k: int|
                0 <= k < self.members@.len() ==> (#[trigger] r@[k]).color == picked_color()
                    && r@[k].style == Style::Fill && r@[k].points@
                    == map.intersections@[self.members@[k] as int].polygon@,
    {
        let mut r: Vec<DrawCommand> = Vec::new();
        let mut k: usize = 0;
        while k < self.members.len()
            invariant
                map.wf(),
                self.wf(*map),
                k <= self.members@.len(),
                r@.len() == k,
                forall|j: int|
                    0 <= j < k ==> (#[trigger] r@[j]).color == picked_color() && r@[j].style
                        == Style::Fill && r@[j].points@
                        == map.intersections@[self.members@[j] as int].polygon@,
            decreases self.members@.len() - k,
        {
            let i = self.members[k];
            let pts = copy_pts(&map.intersections[i].polygon);
            r.push(
                DrawCommand {
                    color: Color { red: 255, green: 0, blue: 0, alpha: 204 },
                    style: Style::Fill,
                    points: pts,
                },
            );
            k = k + 1;
        }
        r
    }

    /// Builds the cluster viewer for the current selection, starting at the
    /// first uber-turn in legal mode. Fewer than two selected intersections
    /// is a validation failure: the error message is returned, and the picker
    /// is left unchanged for further selection.
    pub fn view_uber_turns(&self, map: &MapModel) -> (r: Result<UberTurnViewer, &'static str>)
        requires
            map.wf(),
            self.wf(*map),
        ensures
            match r {
                Ok(v) => {
                    &&& self.members@.len() >= 2
                    &&& v.ic.members@ == self.members@
                    &&& v.legal_turns == true
                    &&& v.idx == 0
                    &&& paths_of(v.ic.uber_turns@) == spec_uber_turns(*map, self.members@, true)
                    &&& v.wf(*map)
                },
                Err(msg) => self.members@.len() < 2 && msg == TOO_FEW_MEMBERS,
            },
    {
        if self.members.len() < 2 {
            return Err(TOO_FEW_MEMBERS);
        }
        let members = copy_ids(&self.members);
        Ok(UberTurnViewer::new(map, members, 0, true))
    }
}

/// Pages through the uber-turns of one cluster, in one legality mode.
pub struct UberTurnViewer {
    pub ic: IntersectionCluster,
    pub idx: usize,
    pub legal_turns: bool,
}

impl UberTurnViewer {
    /// The cluster is well-formed for the map and mode, and the index is
    /// clamped: 0 when there are no uber-turns, within range otherwise.
    pub open spec fn wf(self, m: MapModel) -> bool {
        &&& self.ic.valid_for(m, self.legal_turns)
        &&& if self.ic.uber_turns@.len() == 0 {
            self.idx == 0
        } else {
            (self.idx as int) < self.ic.uber_turns@.len()
        }
    }

    /// Builds the viewer for a membership set: synthesizes both uber-turn
    /// variants, keeps the requested one, and clamps the requested index.
    pub fn new(map: &MapModel, members: Vec<usize>, idx: usize, legal_turns: bool) -> (s: Self)
        requires
            map.wf(),
            members@.len() >= 1,
            strictly_sorted(members@),
            forall|k: int|
                0 <= k < members@.len() ==> (#[trigger] members@[k] as int) < map.n_intersections,
        ensures
            s.ic.members@ == members@,
            s.legal_turns == legal_turns,
            paths_of(s.ic.uber_turns@) == spec_uber_turns(*map, members@, legal_turns),
            s.idx as int == spec_clamp(idx as int, s.ic.uber_turns@.len() as int),
            s.wf(*map),
    {
        let (ic_legal, ic_all) = IntersectionCluster::new(members, map);
        let ic = if legal_turns {
            ic_legal
        } else {
            ic_all
        };
        let len = ic.uber_turns.len();
        let clamped = if len == 0 {
            0
        } else if idx >= len {
            len - 1
        } else {
            idx
        };
        UberTurnViewer { ic, idx: clamped, legal_turns }
    }

    /// Advances or retreats the current uber-turn index by `delta`, clamped
    /// into range; the cluster and mode are untouched.
    pub fn page(&mut self, delta: i32)
        requires
            old(self).ic.uber_turns@.len() == 0 ==> old(self).idx == 0,
            old(self).ic.uber_turns@.len() > 0 ==> (old(self).idx as int) < old(
                self,
            ).ic.uber_turns@.len(),
        ensures
            final(self).ic == old(self).ic,
            final(self).legal_turns == old(self).legal_turns,
            final(self).idx as int == spec_page(
                old(self).idx as int,
                delta as int,
                old(self).ic.uber_turns@.len() as int,
            ),
    {
        let len = self.ic.uber_turns.len();
        if len == 0 {
            self.idx = 0;
            return ;
        }
        if delta >= 0 {
            let step = delta as usize;
            if step >= len - 1 - self.idx {
                self.idx = len - 1;
            } else {
                self.idx = self.idx + step;
            }
        } else {
            let back = (-(delta as i64)) as usize;
            if back >= self.idx {
                self.idx = 0;
            } else {
                self.idx = self.idx - back;
            }
        }
    }

    /// Rebuilds the viewer with the opposite legality flag, resetting the
    /// paging index to 0; the membership set is kept.
    pub fn toggle_legal_mode(&mut self, map: &MapModel)
        requires
            map.wf(),
            old(self).wf(*map),
        ensures
            final(self).wf(*map),
            final(self).legal_turns == !old(self).legal_turns,
            final(self).idx == 0,
            final(self).ic.members@ == old(self).ic.members@,
            paths_of(final(self).ic.uber_turns@) == spec_uber_turns(
                *map,
                old(self).ic.members@,
                !old(self).legal_turns,
            ),
    {
        let members = copy_ids(&self.ic.members);
        let flipped = !self.legal_turns;
        let (ic_legal, ic_all) = IntersectionCluster::new(members, map);
        let ic = if flipped {
            ic_legal
        } else {
            ic_all
        };
        self.ic = ic;
        self.idx = 0;
        self.legal_turns = flipped;
    }

    /// Dispatches one viewer command; the command set is closed and every
    /// variant is handled.
    pub fn handle(&mut self, cmd: ViewerCommand, map: &MapModel)
        requires
            map.wf(),
            old(self).wf(*map),
        ensures
            final(self).wf(*map),
            match cmd {
                ViewerCommand::Page(delta) => {
                    &&& final(self).ic == old(self).ic
                    &&& final(self).legal_turns == old(self).legal_turns
                    &&& final(self).idx as int == spec_page(
                        old(self).idx as int,
                        delta as int,
                        old(self).ic.uber_turns@.len() as int,
                    )
                },
                ViewerCommand::ToggleLegalMode => {
                    &&& final(self).legal_turns == !old(self).legal_turns
                    &&& final(self).idx == 0
                    &&& final(self).ic.members@ == old(self).ic.members@
                    &&& paths_of(final(self).ic.uber_turns@) == spec_uber_turns(
                        *map,
                        old(self).ic.members@,
                        !old(self).legal_turns,
                    )
                },
            },
    {
        match cmd {
            ViewerCommand::Page(delta) => self.page(delta),
            ViewerCommand::ToggleLegalMode => self.toggle_legal_mode(map),
        }
    }

    /// Whether the "previous" control is enabled: only when the index can
    /// move back. With no uber-turns, both controls are disabled.
    pub fn can_prev(&self) -> (b: bool)
        ensures
            b == (self.idx != 0),
    {
        self.idx != 0
    }

    /// Whether the "next" control is enabled: only when the index can move
    /// forward. With no uber-turns, both controls are disabled.
    pub fn can_next(&self) -> (b: bool)
        ensures
            b == (self.ic.uber_turns@.len() > 0 && (self.idx as int) < self.ic.uber_turns@.len()
                - 1),
    {
        let len = self.ic.uber_turns.len();
        len > 0 && self.idx < len - 1
    }

    /// The "current / total" label of the paging display: `(idx + 1, len)`,
    /// or `(0, 0)` when the cluster has no uber-turns.
    pub fn page_label(&self) -> (r: (usize, usize))
        requires
            self.ic.uber_turns@.len() == 0 ==> self.idx == 0,
            self.ic.uber_turns@.len() > 0 ==> (self.idx as int) < self.ic.uber_turns@.len(),
        ensures
            self.ic.uber_turns@.len() == 0 ==> r == (0usize, 0usize),
            self.ic.uber_turns@.len() > 0 ==> r.0 as int == self.idx + 1 && r.1
                == self.ic.uber_turns@.len(),
    {
        let len = self.ic.uber_turns.len();
        if len == 0 {
            (0, 0)
        } else {
            (self.idx + 1, len)
        }
    }

    /// The highlight drawing of the viewer: each member intersection's
    /// outline in the member color, followed by one arrow along the current
    /// uber-turn's concatenated geometry — omitted entirely when the cluster
    /// has no uber-turns.
    pub fn draw(&self, map: &MapModel) -> (r: Vec<DrawCommand>)
        requires
            map.wf(),
            self.wf(*map),
        ensures
            self.ic.uber_turns@.len() == 0 ==> r@.len() == self.ic.members@.len(),
            self.ic.uber_turns@.len() > 0 ==> r@.len() == self.ic.members@.len() + 1,
            forall|k: int|
                0 <= k < self.ic.members@.len() ==> (#[trigger] r@[k]).color == member_color()
                    && r@[k].style == Style::Fill && r@[k].points@
                    == map.intersections@[self.ic.members@[k] as int].polygon@,
            self.ic.uber_turns@.len() > 0 ==> r@[r@.len() - 1].color == current_turn_color()
                && r@[r@.len() - 1].style == Style::Arrow && r@[r@.len() - 1].points@
                == spec_uber_geom(*map, self.ic.uber_turns@[self.idx as int].path@),
    {
        let mut r: Vec<DrawCommand> = Vec::new();
        let mut k: usize = 0;
        while k < self.ic.members.len()
            invariant
                map.wf(),
                self.wf(*map),
                k <= self.ic.members@.len(),
                r@.len() == k,
                forall|j: int|
                    0 <= j < k ==> (#[trigger] r@[j]).color == member_color() && r@[j].style
                        == Style::Fill && r@[j].points@
                        == map.intersections@[self.ic.members@[j] as int].polygon@,
            decreases self.ic.members@.len() - k,
        {
            let i = self.ic.members[k];
            let pts = copy_pts(&map.intersections[i].polygon);
            r.push(DrawCommand { color: Color { red: 0, green: 0, blue: 255, alpha: 128 }, style: Style::Fill, points: pts });
            k = k + 1;
        }
        if self.ic.uber_turns.len() > 0 {
            proof {
                let p = self.ic.uber_turns@[self.idx as int].path@;
                assert(paths_of(self.ic.uber_turns@)[self.idx as int] == p);
                assert(spec_uber_turns(*map, self.ic.members@, self.legal_turns).contains(p));
                lemma_uber_turns_sound(*map, self.ic.members@, self.legal_turns, p);
                lemma_crosses_indices(
                    *map,
                    self.ic.members@,
                    map.turns@[p[0] as int].src_lane as int,
                    p,
                );
            }
            let geom = self.ic.uber_turns[self.idx].geom(map);
            r.push(DrawCommand { color: Color { red: 255, green: 0, blue: 0, alpha: 255 }, style: Style::Arrow, points: geom });
        }
        r
    }
}

} // verus!
