//! Intersection clustering: which intersections belong together as one
//! logical junction. `autodetect` computes the closure of a seed intersection
//! under the adjacency relation; `find_all` partitions every intersection of
//! the map into such clusters; `new` builds the legal and all-movements
//! cluster pair for an explicit membership set.

use crate::map_data::{contains_id, copy_ids, MapModel};
use crate::uber::{find_uber_turns, paths_of, spec_uber_turns, UberTurn};
use vstd::pervasive::VecAdditionalExecFns;
use vstd::prelude::*;

verus! {

/// The identifiers of `v` as a set of integers.
pub open spec fn id_set(v: Seq<usize>) -> Set<int> {
    Set::new(|x: int| 0 <= x <= usize::MAX && v.contains(x as usize))
}

/// Strictly ascending identifier lists; such a list has no duplicates and is
/// the one canonical listing of its set.
pub open spec fn strictly_sorted(v: Seq<usize>) -> bool {
    forall|a: int, b: int| 0 <= a < b < v.len() ==> v[a] < v[b]
}

/// Every identifier of `v` lies in `s`.
spec fn all_in(v: Seq<usize>, s: Set<int>) -> bool {
    forall|i: int| 0 <= i < v.len() ==> s.contains(#[trigger] v[i] as int)
}

/// A list without duplicates whose entries are all below `n` has at most `n`
/// entries.
proof fn lemma_nodup_bounded_len(s: Seq<usize>, n: nat)
    requires
        s.no_duplicates(),
        forall|k: int| 0 <= k < s.len() ==> (#[trigger] s[k] as int) < n,
    ensures
        s.len() <= n,
{
    let t = s.map_values(|u: usize| u as int);
    assert(t.no_duplicates());
    t.unique_seq_to_set();
    assert(t.to_set().subset_of(vstd::set_lib::set_int_range(0, n as int))) by {
        assert forall|x: int| t.to_set().contains(x) implies vstd::set_lib::set_int_range(
            0,
            n as int,
        ).contains(x) by {
            let k = choose|k: int| 0 <= k < t.len() && t[k] == x;
            assert(s[k] as int == x);
        }
    }
    vstd::set_lib::lemma_int_range(0, n as int);
    vstd::set_lib::lemma_len_subset(t.to_set(), vstd::set_lib::set_int_range(0, n as int));
}

/// A non-empty set of intersections treated as one logical junction, with its
/// synthesized uber-turns.
pub struct IntersectionCluster {
    pub members: Vec<usize>,
    pub uber_turns: Vec<UberTurn>,
}

impl IntersectionCluster {
    /// Well-formed with respect to a map and a legality flag: members are a
    /// non-empty strictly sorted list of intersections of the map, and the
    /// uber-turns are exactly the synthesis for this membership set.
    pub open spec fn valid_for(self, m: MapModel, legal: bool) -> bool {
        &&& self.members@.len() >= 1
        &&& strictly_sorted(self.members@)
        &&& forall|k: int|
            0 <= k < self.members@.len() ==> (#[trigger] self.members@[k] as int)
                < m.n_intersections
        &&& paths_of(self.uber_turns@) == spec_uber_turns(m, self.members@, legal)
    }

    /// Explores the adjacency relation from `seed` and returns the closure of
    /// reachable intersections, in ascending order: the smallest set that
    /// contains the seed and is closed under adjacency. Returns `None` when
    /// no other intersection is adjacent to the seed (the caller falls back
    /// to the singleton).
    pub fn autodetect(seed: usize, map: &MapModel) -> (r: Option<Vec<usize>>)
        requires
            map.wf(),
            seed < map.n_intersections,
        ensures
            match r {
                None => forall|j: int| map.adjacent(seed as int, j) ==> j == seed as int,
                Some(v) => {
                    &&& v@.len() >= 2
                    &&& strictly_sorted(v@)
                    &&& forall|k: int|
                        0 <= k < v@.len() ==> (#[trigger] v@[k] as int) < map.n_intersections
                    &&& id_set(v@).contains(seed as int)
                    &&& map.closed(id_set(v@))
                    &&& forall|s: Set<int>|
                        #[trigger] map.closed(s) && s.contains(seed as int) ==> id_set(
                            v@,
                        ).subset_of(s)
                },
            },
    {
        let n = map.n_intersections;
        let mut in_result: Vec<bool> = Vec::new();
        let mut z: usize = 0;
        while z < n
            invariant
                z <= n,
                in_result@.len() == z,
                forall|x: int| 0 <= x < z ==> !(#[trigger] in_result@[x]),
            decreases n - z,
        {
            in_result.push(false);
            z = z + 1;
        }
        let mut r: Vec<usize> = Vec::new();
        r.push(seed);
        in_result.set(seed, true);
        proof {
            assert(r@[0] == seed);
            assert(r@.contains(seed));
            assert forall|x: usize| x < n implies ((#[trigger] in_result@[x as int])
                <==> r@.contains(x)) by {
                if x != seed && r@.contains(x) {
                    let c = choose|c: int| 0 <= c < r@.len() && r@[c] == x;
                    assert(c == 0);
                }
            }
        }
        let mut k: usize = 0;
        while k < r.len()
            invariant
                map.wf(),
                seed < n,
                n == map.n_intersections,
                in_result@.len() == n,
                k <= r@.len(),
                r@.len() <= n,
                r@.no_duplicates(),
                forall|i: int| 0 <= i < r@.len() ==> (#[trigger] r@[i] as int) < n,
                r@.contains(seed),
                forall|x: usize| x < n ==> ((#[trigger] in_result@[x as int]) <==> r@.contains(x)),
                forall|s: Set<int>|
                    #[trigger] map.closed(s) && s.contains(seed as int) ==> all_in(r@, s),
                forall|i: int, j: int|
                    0 <= i < k && #[trigger] map.adjacent(r@[i] as int, j) ==> r@.contains(
                        j as usize,
                    ),
            decreases n - k,
        {
            let x = r[k];
            let mut j: usize = 0;
            while j < n
                invariant
                    map.wf(),
                    seed < n,
                    n == map.n_intersections,
                    in_result@.len() == n,
                    k < r@.len(),
                    r@.len() <= n,
                    j <= n,
                    x == r@[k as int],
                    r@.no_duplicates(),
                    forall|i: int| 0 <= i < r@.len() ==> (#[trigger] r@[i] as int) < n,
                    r@.contains(seed),
                    forall|x2: usize|
                        x2 < n ==> ((#[trigger] in_result@[x2 as int]) <==> r@.contains(x2)),
                    forall|s: Set<int>|
                        #[trigger] map.closed(s) && s.contains(seed as int) ==> all_in(r@, s),
                    forall|i: int, jj: int|
                        0 <= i < k && #[trigger] map.adjacent(r@[i] as int, jj) ==> r@.contains(
                            jj as usize,
                        ),
                    forall|jj: int|
                        0 <= jj < j && #[trigger] map.adjacent(x as int, jj) ==> r@.contains(
                            jj as usize,
                        ),
                decreases n - j,
            {
                if map.is_adjacent(x, j) {
                    if !in_result[j] {
                        let ghost r_old = r@;
                        r.push(j);
                        in_result.set(j, true);
                        proof {
                            assert(!r_old.contains(j));
                            assert(r@.no_duplicates()) by {
                                assert(forall|a: int|
                                    0 <= a < r_old.len() ==> r@[a] == r_old[a]);
                                assert(r@[r@.len() - 1] == j);
                            }
                            assert(r@.contains(seed)) by {
                                let ks = choose|ks: int|
                                    0 <= ks < r_old.len() && r_old[ks] == seed;
                                assert(r@[ks] == seed);
                            }
                            assert forall|s: Set<int>|
                                #[trigger] map.closed(s) && s.contains(seed as int) implies all_in(
                                r@,
                                s,
                            ) by {
                                assert(all_in(r_old, s));
                                assert(s.contains(r_old[k as int] as int));
                                assert(map.adjacent(x as int, j as int));
                                assert(s.contains(j as int));
                                assert(forall|i: int|
                                    0 <= i < r_old.len() ==> r@[i] == r_old[i]);
                            }
                            assert forall|x2: usize| x2 < n implies (
                            (#[trigger] in_result@[x2 as int]) <==> r@.contains(x2)) by {
                                if x2 == j {
                                    assert(r@[r@.len() - 1] == j);
                                    assert(r@.contains(j));
                                } else {
                                    if r@.contains(x2) {
                                        let c = choose|c: int| 0 <= c < r@.len() && r@[c] == x2;
                                        assert(c < r_old.len());
                                        assert(r_old.contains(x2));
                                    }
                                    if r_old.contains(x2) {
                                        let c = choose|c: int|
                                            0 <= c < r_old.len() && r_old[c] == x2;
                                        assert(r@[c] == x2);
                                    }
                                }
                            }
                            map.lemma_adjacent_bounds(x as int, j as int);
                            lemma_nodup_bounded_len(r@, n as nat);
                            assert forall|i: int, jj: int|
                                0 <= i < k && #[trigger] map.adjacent(r@[i] as int, jj) implies r@
                                .contains(jj as usize) by {
                                assert(r@[i] == r_old[i]);
                                assert(r_old.contains(jj as usize));
                                let c = choose|c: int|
                                    0 <= c < r_old.len() && r_old[c] == jj as usize;
                                assert(r@[c] == jj as usize);
                            }
                            assert forall|jj: int|
                                0 <= jj < j + 1 && #[trigger] map.adjacent(x as int, jj) implies r@
                                .contains(jj as usize) by {
                                if jj < j {
                                    assert(r_old.contains(jj as usize));
                                    let c = choose|c: int|
                                        0 <= c < r_old.len() && r_old[c] == jj as usize;
                                    assert(r@[c] == jj as usize);
                                } else {
                                    map.lemma_adjacent_bounds(x as int, jj);
                                    assert(jj == j as int);
                                    assert(r@[r@.len() - 1] == j);
                                }
                            }
                        }
                    } else {
                        proof {
                            assert forall|jj: int|
                                0 <= jj < j + 1 && #[trigger] map.adjacent(x as int, jj) implies r@
                                .contains(jj as usize) by {
                                if jj == j as int {
                                    map.lemma_adjacent_bounds(x as int, jj);
                                }
                            }
                        }
                    }
                } else {
                    proof {
                        assert forall|jj: int|
                            0 <= jj < j + 1 && #[trigger] map.adjacent(x as int, jj) implies r@
                            .contains(jj as usize) by {
                            if jj == j as int {
                                map.lemma_adjacent_bounds(x as int, jj);
                                assert(!map.adjacent(x as int, j as int));
                            }
                        }
                    }
                }
                j = j + 1;
            }
            proof {
                assert forall|i: int, jj: int|
                    0 <= i < k + 1 && #[trigger] map.adjacent(r@[i] as int, jj) implies r@.contains(
                    jj as usize,
                ) by {
                    if i == k as int {
                        map.lemma_adjacent_bounds(x as int, jj);
                    }
                }
            }
            k = k + 1;
        }
        // The result list is now closed under adjacency; produce it in
        // ascending order by scanning the membership flags.
        let mut sorted: Vec<usize> = Vec::new();
        let mut i: usize = 0;
        while i < n
            invariant
                n == map.n_intersections,
                in_result@.len() == n,
                i <= n,
                forall|x2: usize| x2 < i ==> (sorted@.contains(x2) <==> in_result@[x2 as int]),
                forall|a: int| 0 <= a < sorted@.len() ==> (#[trigger] sorted@[a] as int) < i,
                strictly_sorted(sorted@),
            decreases n - i,
        {
            if in_result[i] {
                let ghost s_old = sorted@;
                sorted.push(i);
                proof {
                    assert forall|x2: usize| x2 < i + 1 implies (sorted@.contains(x2)
                        <==> in_result@[x2 as int]) by {
                        if x2 == i {
                            assert(sorted@[sorted@.len() - 1] == i);
                        } else {
                            if sorted@.contains(x2) {
                                let c = choose|c: int|
                                    0 <= c < sorted@.len() && sorted@[c] == x2;
                                if c < s_old.len() {
                                    assert(s_old.contains(x2));
                                }
                            }
                            if s_old.contains(x2) {
                                let c = choose|c: int| 0 <= c < s_old.len() && s_old[c] == x2;
                                assert(sorted@[c] == x2);
                            }
                        }
                    }
                }
            } else {
                proof {
                    assert forall|x2: usize| x2 < i + 1 implies (sorted@.contains(x2)
                        <==> in_result@[x2 as int]) by {
                        if x2 == i {
                            if sorted@.contains(x2) {
                                let c = choose|c: int|
                                    0 <= c < sorted@.len() && sorted@[c] == x2;
                            }
                        }
                    }
                }
            }
            i = i + 1;
        }
        proof {
            assert(id_set(sorted@) =~= id_set(r@)) by {
                assert forall|x: int| id_set(sorted@).contains(x) implies id_set(r@).contains(
                    x,
                ) by {
                    assert(sorted@.contains(x as usize));
                    assert(in_result@[x]);
                }
                assert forall|x: int| id_set(r@).contains(x) implies id_set(sorted@).contains(
                    x,
                ) by {
                    assert(r@.contains(x as usize));
                    assert(in_result@[x]);
                }
            }
            assert(map.closed(id_set(r@))) by {
                assert forall|a: int, b: int|
                    id_set(r@).contains(a) && #[trigger] map.adjacent(a, b) implies id_set(
                    r@,
                ).contains(b) by {
                    assert(r@.contains(a as usize));
                    let c = choose|c: int| 0 <= c < r@.len() && r@[c] == a as usize;
                    map.lemma_adjacent_bounds(a, b);
                    assert(map.adjacent(r@[c] as int, b));
                    assert(r@.contains(b as usize));
                }
            }
            assert(id_set(r@).contains(seed as int));
            assert forall|s: Set<int>|
                #[trigger] map.closed(s) && s.contains(seed as int) implies id_set(
                r@,
            ).subset_of(s) by {
                assert(all_in(r@, s));
                assert forall|x: int| id_set(r@).contains(x) implies s.contains(x) by {
                    assert(r@.contains(x as usize));
                    let c = choose|c: int| 0 <= c < r@.len() && r@[c] == x as usize;
                    assert(s.contains(r@[c] as int));
                }
            }
        }
        if sorted.len() < 2 {
            proof {
                assert(sorted@.contains(seed));
                assert(sorted@.len() >= 1);
                assert forall|j: int| map.adjacent(seed as int, j) implies j == seed as int by {
                    map.lemma_adjacent_bounds(seed as int, j);
                    assert(id_set(sorted@).contains(seed as int));
                    assert(id_set(sorted@).contains(j));
                    assert(sorted@.contains(j as usize));
                    let c = choose|c: int| 0 <= c < sorted@.len() && sorted@[c] == j as usize;
                    let cs = choose|cs: int| 0 <= cs < sorted@.len() && sorted@[cs] == seed;
                    assert(c == cs);
                }
            }
            None
        } else {
            Some(sorted)
        }
    }

    /// Builds the two cluster variants for an explicit membership set: the
    /// first restricted to turns permitted by current signal/priority rules,
    /// the second including all geometrically possible movements. Membership
    /// is not validated for connectivity; a disconnected set simply yields no
    /// path crossing between its parts. Both results are functions of the
    /// membership set and the map alone, so construction is repeatable: equal
    /// inputs give equal uber-turn sequences.
    pub fn new(members: Vec<usize>, map: &MapModel) -> (r: (
        IntersectionCluster,
        IntersectionCluster,
    ))
        requires
            map.wf(),
            members@.len() >= 1,
        ensures
            r.0.members@ == members@,
            r.1.members@ == members@,
            paths_of(r.0.uber_turns@) == spec_uber_turns(*map, members@, true),
            paths_of(r.1.uber_turns@) == spec_uber_turns(*map, members@, false),
    {
        let legal = find_uber_turns(map, &members, true);
        let all = find_uber_turns(map, &members, false);
        let members2 = copy_ids(&members);
        (
            IntersectionCluster { members, uber_turns: legal },
            IntersectionCluster { members: members2, uber_turns: all },
        )
    }

    /// Partitions every intersection of the map into clusters: repeatedly
    /// picks an unclustered intersection, takes its adjacency closure
    /// (falling back to the singleton when it has no neighbours), and marks
    /// the members. Every intersection ends up in exactly one returned
    /// cluster: the clusters cover the map and are pairwise disjoint.
    pub fn find_all(map: &MapModel) -> (r: Vec<IntersectionCluster>)
        requires
            map.wf(),
        ensures
            forall|i: int|
                0 <= i < map.n_intersections ==> #[trigger] in_some_cluster(r@, i as usize),
            forall|k1: int, k2: int, x: usize|
                0 <= k1 < r@.len() && 0 <= k2 < r@.len() && k1 != k2 ==> !((
                #[trigger] r@[k1].members@.contains(x)) && (#[trigger] r@[k2].members@.contains(
                    x,
                ))),
            forall|k: int| 0 <= k < r@.len() ==> (#[trigger] r@[k]).valid_for(*map, true),
    {
        let n = map.n_intersections;
        let mut clustered: Vec<bool> = Vec::new();
        let mut z: usize = 0;
        while z < n
            invariant
                z <= n,
                clustered@.len() == z,
                forall|x: int| 0 <= x < z ==> !(#[trigger] clustered@[x]),
            decreases n - z,
        {
            clustered.push(false);
            z = z + 1;
        }
        let mut r: Vec<IntersectionCluster> = Vec::new();
        let mut seed: usize = 0;
        while seed < n
            invariant
                map.wf(),
                n == map.n_intersections,
                clustered@.len() == n,
                seed <= n,
                forall|x: usize|
                    x < n ==> ((#[trigger] clustered@[x as int]) <==> in_some_cluster(r@, x)),
                forall|x: usize| x < seed ==> clustered@[x as int],
                forall|k: int|
                    0 <= k < r@.len() ==> map.closed(id_set((#[trigger] r@[k]).members@)),
                forall|k: int| 0 <= k < r@.len() ==> (#[trigger] r@[k]).valid_for(*map, true),
                forall|k1: int, k2: int, x: usize|
                    0 <= k1 < r@.len() && 0 <= k2 < r@.len() && k1 != k2 ==> !((
                    #[trigger] r@[k1].members@.contains(x)) && (
                    #[trigger] r@[k2].members@.contains(x))),
            decreases n - seed,
        {
            let ghost clustered0 = clustered@;
            let ghost r0 = r@;
            if !clustered[seed] {
                let members: Vec<usize> = match Self::autodetect(seed, map) {
                    Some(v) => v,
                    None => {
                        let mut v: Vec<usize> = Vec::new();
                        v.push(seed);
                        proof {
                            assert(v@[0] == seed);
                            assert(v@.contains(seed));
                            assert forall|x: usize| v@.contains(x) implies x == seed by {
                                let c = choose|c: int| 0 <= c < v@.len() && v@[c] == x;
                            }
                            assert(map.closed(id_set(v@))) by {
                                assert forall|a: int, b: int|
                                    id_set(v@).contains(a) && #[trigger] map.adjacent(
                                        a,
                                        b,
                                    ) implies id_set(v@).contains(b) by {
                                    assert(v@.contains(a as usize));
                                    assert(a == seed as int);
                                    assert(b == seed as int);
                                    map.lemma_adjacent_bounds(a, b);
                                }
                            }
                            assert forall|s: Set<int>|
                                #[trigger] map.closed(s) && s.contains(seed as int) implies id_set(
                                v@,
                            ).subset_of(s) by {
                                assert forall|x: int| id_set(v@).contains(x) implies s.contains(
                                    x,
                                ) by {
                                    assert(v@.contains(x as usize));
                                }
                            }
                        }
                        v
                    },
                };
                let ghost mseq = members@;
                proof {
                    // The new membership set is disjoint from every existing
                    // cluster: each is closed and misses the seed, so its
                    // complement is a closed set containing the seed, and the
                    // closure is minimal.
                    assert forall|k: int, x: usize|
                        0 <= k < r@.len() && (#[trigger] r@[k].members@.contains(x)) implies !mseq
                        .contains(x) by {
                        let c = id_set(r@[k].members@);
                        assert(!c.contains(seed as int)) by {
                            if c.contains(seed as int) {
                                assert(in_some_cluster(r@, seed));
                            }
                        }
                        map.lemma_complement_closed(c);
                        let comp = Set::new(|y: int| !c.contains(y));
                        assert(comp.contains(seed as int));
                        assert(map.closed(comp));
                        assert(id_set(mseq).subset_of(comp));
                        if mseq.contains(x) {
                            assert(id_set(mseq).contains(x as int));
                            assert(comp.contains(x as int));
                            assert(!c.contains(x as int));
                            assert(c.contains(x as int));
                        }
                    }
                }
                // Mark every member as clustered.
                let mut mi: usize = 0;
                while mi < members.len()
                    invariant
                        map.wf(),
                        n == map.n_intersections,
                        clustered@.len() == n,
                        mi <= members@.len(),
                        members@ == mseq,
                        forall|a: int|
                            0 <= a < members@.len() ==> (#[trigger] members@[a] as int) < n,
                        forall|x: usize|
                            x < n ==> ((#[trigger] clustered@[x as int]) <==> (in_some_cluster(
                                r@,
                                x,
                            ) || mseq.subrange(0, mi as int).contains(x))),
                    decreases members@.len() - mi,
                {
                    let x = members[mi];
                    clustered.set(x, true);
                    mi = mi + 1;
                    proof {
                        assert(mseq.subrange(0, mi as int) =~= mseq.subrange(
                            0,
                            mi as int - 1,
                        ).push(mseq[mi as int - 1]));
                        assert forall|x2: usize| x2 < n implies ((
                        #[trigger] clustered@[x2 as int]) <==> (in_some_cluster(r@, x2)
                            || mseq.subrange(0, mi as int).contains(x2))) by {
                            let pre = mseq.subrange(0, mi as int - 1);
                            let now = mseq.subrange(0, mi as int);
                            assert(now[mi as int - 1] == x);
                            if x2 == x {
                                assert(now.contains(x2));
                                assert(clustered@[x2 as int]);
                            } else {
                                if now.contains(x2) {
                                    let c = choose|c: int| 0 <= c < now.len() && now[c] == x2;
                                    assert(c < pre.len());
                                    assert(pre.contains(x2));
                                }
                                if pre.contains(x2) {
                                    let c = choose|c: int| 0 <= c < pre.len() && pre[c] == x2;
                                    assert(now[c] == x2);
                                }
                            }
                        }
                    }
                }
                proof {
                    assert(mseq.subrange(0, mseq.len() as int) =~= mseq);
                }
                let (legal, _all) = Self::new(members, map);
                let ghost r_old = r@;
                r.push(legal);
                proof {
                    assert(r@[r@.len() - 1] == legal);
                    assert(forall|k: int| 0 <= k < r_old.len() ==> r@[k] == r_old[k]);
                    assert(legal.members@ == mseq);
                    assert forall|x: usize| x < n implies ((#[trigger] clustered@[x as int])
                        <==> in_some_cluster(r@, x)) by {
                        if in_some_cluster(r@, x) {
                            let c = choose|c: int|
                                0 <= c < r@.len() && (#[trigger] r@[c].members@.contains(x));
                            if c < r_old.len() {
                                assert(in_some_cluster(r_old, x));
                            } else {
                                assert(mseq.contains(x));
                            }
                        }
                        if in_some_cluster(r_old, x) {
                            let c = choose|c: int|
                                0 <= c < r_old.len() && (#[trigger] r_old[c].members@.contains(
                                    x,
                                ));
                            assert(r@[c].members@.contains(x));
                        }
                        if mseq.contains(x) {
                            assert(r@[r@.len() - 1].members@.contains(x));
                        }
                    }
                    assert(mseq.contains(seed));
                    assert(in_some_cluster(r@, seed));
                    assert(clustered@[seed as int]);
                    assert forall|x: usize| x < seed + 1 implies clustered@[x as int] by {
                        if x < seed {
                            assert(clustered0[x as int]);
                            assert(in_some_cluster(r0, x));
                            let c = choose|c: int|
                                0 <= c < r0.len() && (#[trigger] r0[c].members@.contains(x));
                            assert(r@[c].members@.contains(x));
                            assert(in_some_cluster(r@, x));
                        }
                    }
                    assert forall|k1: int, k2: int, x: usize|
                        0 <= k1 < r@.len() && 0 <= k2 < r@.len() && k1 != k2 implies !((
                    #[trigger] r@[k1].members@.contains(x)) && (
                    #[trigger] r@[k2].members@.contains(x))) by {
                        if k1 < r_old.len() && k2 < r_old.len() {
                        } else if k1 < r_old.len() && k2 == r_old.len() as int {
                            assert(r@[k2].members@ == mseq);
                        } else if k2 < r_old.len() && k1 == r_old.len() as int {
                            assert(r@[k1].members@ == mseq);
                        }
                    }
                }
            } else {
                proof {
                    assert(in_some_cluster(r@, seed));
                }
            }
            seed = seed + 1;
        }
        proof {
            assert forall|i: int| 0 <= i < map.n_intersections implies #[trigger] in_some_cluster(
                r@,
                i as usize,
            ) by {
                assert(clustered@[(i as usize) as int]);
            }
        }
        r
    }
}

/// Some cluster of the list contains intersection `x`.
pub open spec fn in_some_cluster(cs: Seq<IntersectionCluster>, x: usize) -> bool {
    exists|k: int| 0 <= k < cs.len() && (#[trigger] cs[k].members@.contains(x))
}

} // verus!
