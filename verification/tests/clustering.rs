//! Clustering and uber-turn synthesis on concrete maps.

use uber_turns::cluster::IntersectionCluster;
use uber_turns::map_data::{Intersection, Lane, MapModel, Turn};
use uber_turns::Pt;

fn square(cx: i64, cy: i64) -> Vec<Pt> {
    vec![
        Pt { x: cx - 1, y: cy - 1 },
        Pt { x: cx + 1, y: cy - 1 },
        Pt { x: cx + 1, y: cy + 1 },
        Pt { x: cx - 1, y: cy + 1 },
    ]
}

fn lane(src: usize, dst: usize, length: u64) -> Lane {
    Lane { src, dst, length, merge_flag: false }
}

fn turn(src_lane: usize, dst_lane: usize, legal: bool) -> Turn {
    Turn { src_lane, dst_lane, legal, geom: vec![Pt { x: 0, y: 0 }, Pt { x: 1, y: 1 }] }
}

/// A map with intersections 1, 2, 3 pairwise adjacent under the threshold and
/// intersection 9 isolated; the rest are isolated too.
fn scenario_a_map() -> MapModel {
    let n = 10;
    MapModel {
        n_intersections: n,
        intersections: (0..n).map(|i| Intersection { polygon: square(10 * i as i64, 0) }).collect(),
        lanes: vec![lane(1, 2, 5), lane(2, 3, 5), lane(1, 3, 5)],
        turns: vec![],
        threshold: 10,
    }
}

/// A map whose cluster {1, 2, 3} has 8 geometrically possible uber-turns, 5
/// of them legal. Lanes: 0 = entry 0->1, 1 = 1->2, 2 = 1->2 (parallel),
/// 3 = exit 2->5, 4 = exit 2->6, 5 = entry 7->1. Turns pair them up; turns
/// 0 and 5 are illegal.
fn scenario_b_map() -> MapModel {
    let n = 8;
    MapModel {
        n_intersections: n,
        intersections: (0..n).map(|i| Intersection { polygon: square(10 * i as i64, 0) }).collect(),
        lanes: vec![
            lane(0, 1, 100),
            lane(1, 2, 100),
            lane(1, 2, 100),
            lane(2, 5, 100),
            lane(2, 6, 100),
            lane(7, 1, 100),
        ],
        turns: vec![
            turn(0, 1, false),
            turn(0, 2, true),
            turn(5, 1, true),
            turn(5, 2, true),
            turn(1, 3, true),
            turn(1, 4, false),
            turn(2, 3, true),
            turn(2, 4, true),
        ],
        threshold: 1,
    }
}

#[test]
fn autodetect_isolated_returns_none() {
    let map = scenario_a_map();
    assert!(IntersectionCluster::autodetect(9, &map).is_none());
    assert!(IntersectionCluster::autodetect(0, &map).is_none());
}

#[test]
fn autodetect_finds_adjacency_closure() {
    let map = scenario_a_map();
    let members = IntersectionCluster::autodetect(1, &map).unwrap();
    assert_eq!(members, vec![1, 2, 3]);
    let members = IntersectionCluster::autodetect(3, &map).unwrap();
    assert_eq!(members, vec![1, 2, 3]);
}

#[test]
fn find_all_partitions_scenario_a() {
    let map = scenario_a_map();
    let clusters = IntersectionCluster::find_all(&map);
    let member_sets: Vec<Vec<usize>> = clusters.iter().map(|c| c.members.clone()).collect();
    assert!(member_sets.contains(&vec![1, 2, 3]));
    assert!(member_sets.contains(&vec![9]));
    // Every intersection appears in exactly one cluster.
    for i in 0..map.n_intersections {
        let count = member_sets.iter().filter(|m| m.contains(&i)).count();
        assert_eq!(count, 1);
    }
}

#[test]
fn build_cluster_counts_legal_and_all() {
    let map = scenario_b_map();
    let (legal, all) = IntersectionCluster::new(vec![1, 2, 3], &map);
    assert_eq!(legal.uber_turns.len(), 5);
    assert_eq!(all.uber_turns.len(), 8);
}

#[test]
fn uber_turn_paths_exact() {
    let map = scenario_b_map();
    let (legal, all) = IntersectionCluster::new(vec![1, 2, 3], &map);
    let all_paths: Vec<Vec<usize>> = all.uber_turns.iter().map(|u| u.path.clone()).collect();
    assert_eq!(
        all_paths,
        vec![
            vec![0, 4],
            vec![0, 5],
            vec![1, 6],
            vec![1, 7],
            vec![2, 4],
            vec![2, 5],
            vec![3, 6],
            vec![3, 7],
        ]
    );
    let legal_paths: Vec<Vec<usize>> = legal.uber_turns.iter().map(|u| u.path.clone()).collect();
    assert_eq!(
        legal_paths,
        vec![vec![1, 6], vec![1, 7], vec![2, 4], vec![3, 6], vec![3, 7]]
    );
}

#[test]
fn legal_paths_are_subset_of_all() {
    let map = scenario_b_map();
    let (legal, all) = IntersectionCluster::new(vec![1, 2, 3], &map);
    let all_paths: Vec<Vec<usize>> = all.uber_turns.iter().map(|u| u.path.clone()).collect();
    for u in &legal.uber_turns {
        assert!(all_paths.contains(&u.path));
        // Same entry and exit lanes as the matching geometric path.
        let twin = all.uber_turns.iter().find(|v| v.path == u.path).unwrap();
        assert_eq!(u.entry(&map), twin.entry(&map));
        assert_eq!(u.exit(&map), twin.exit(&map));
        // And every constituent turn is legal.
        for &t in &u.path {
            assert!(map.turns[t].legal);
        }
    }
}

#[test]
fn build_cluster_is_idempotent() {
    let map = scenario_b_map();
    let (legal1, all1) = IntersectionCluster::new(vec![1, 2, 3], &map);
    let (legal2, all2) = IntersectionCluster::new(vec![1, 2, 3], &map);
    assert_eq!(legal1.members, legal2.members);
    assert_eq!(legal1.uber_turns.len(), legal2.uber_turns.len());
    for (a, b) in legal1.uber_turns.iter().zip(legal2.uber_turns.iter()) {
        assert_eq!(a.path, b.path);
        assert_eq!(a.geom(&map), b.geom(&map));
    }
    for (a, b) in all1.uber_turns.iter().zip(all2.uber_turns.iter()) {
        assert_eq!(a.path, b.path);
        assert_eq!(a.geom(&map), b.geom(&map));
    }
}

#[test]
fn build_cluster_ignores_membership_listing_order() {
    let map = scenario_b_map();
    let (legal1, all1) = IntersectionCluster::new(vec![1, 2, 3], &map);
    let (legal2, all2) = IntersectionCluster::new(vec![3, 1, 2, 2], &map);
    let paths = |c: &IntersectionCluster| -> Vec<Vec<usize>> {
        c.uber_turns.iter().map(|u| u.path.clone()).collect()
    };
    assert_eq!(paths(&legal1), paths(&legal2));
    assert_eq!(paths(&all1), paths(&all2));
}

#[test]
fn disconnected_membership_yields_no_crossing_paths() {
    let map = scenario_b_map();
    // 3 alone touches no lane: no uber-turns at all.
    let (legal, all) = IntersectionCluster::new(vec![3], &map);
    assert_eq!(legal.uber_turns.len(), 0);
    assert_eq!(all.uber_turns.len(), 0);
}

#[test]
fn uber_turn_entry_exit_and_geometry() {
    let map = scenario_b_map();
    let (_, all) = IntersectionCluster::new(vec![1, 2, 3], &map);
    let first = &all.uber_turns[0];
    assert_eq!(first.path, vec![0, 4]);
    assert_eq!(first.entry(&map), 0);
    assert_eq!(first.exit(&map), 3);
    // Concatenation of both turns' geometry, in order.
    assert_eq!(
        first.geom(&map),
        vec![
            Pt { x: 0, y: 0 },
            Pt { x: 1, y: 1 },
            Pt { x: 0, y: 0 },
            Pt { x: 1, y: 1 },
        ]
    );
}

#[test]
fn paths_do_not_revisit_an_intersection() {
    // Lanes: 0 = entry 0->1, 1 = 1->2, 2 = 2->1 (a loop back), 3 = exit 2->5.
    // The branch that would re-enter intersection 1 is abandoned; only the
    // straight path through the loop's first half survives.
    let n = 6;
    let map = MapModel {
        n_intersections: n,
        intersections: (0..n).map(|i| Intersection { polygon: square(10 * i as i64, 0) }).collect(),
        lanes: vec![lane(0, 1, 100), lane(1, 2, 100), lane(2, 1, 100), lane(2, 5, 100)],
        turns: vec![turn(0, 1, true), turn(1, 3, true), turn(1, 2, true), turn(2, 1, true)],
        threshold: 1,
    };
    let (_, all) = IntersectionCluster::new(vec![1, 2], &map);
    let paths: Vec<Vec<usize>> = all.uber_turns.iter().map(|u| u.path.clone()).collect();
    assert_eq!(paths, vec![vec![0, 1]]);
}

#[test]
fn adjacency_threshold_is_strict() {
    let mut map = scenario_a_map();
    map.lanes = vec![lane(1, 2, 10)];
    // Length equal to the threshold does not bind the endpoints.
    assert!(IntersectionCluster::autodetect(1, &map).is_none());
    map.lanes = vec![lane(1, 2, 9)];
    assert_eq!(IntersectionCluster::autodetect(1, &map).unwrap(), vec![1, 2]);
}

#[test]
fn merge_flag_makes_long_lane_adjacent() {
    let mut map = scenario_a_map();
    // A long connector flagged as one junction binds 3 and 9 together.
    map.lanes.push(Lane { src: 3, dst: 9, length: 5000, merge_flag: true });
    let members = IntersectionCluster::autodetect(9, &map).unwrap();
    assert_eq!(members, vec![1, 2, 3, 9]);
}
