//! The interactive session: picking, validation, paging and toggling.

use uber_turns::map_data::{Intersection, Lane, MapModel, Turn};
use uber_turns::render::Style;
use uber_turns::session::{
    PickerCommand, UberTurnPicker, UberTurnViewer, ViewerCommand, TOO_FEW_MEMBERS,
};
use uber_turns::Pt;

fn square(cx: i64, cy: i64) -> Vec<Pt> {
    vec![
        Pt { x: cx - 1, y: cy - 1 },
        Pt { x: cx + 1, y: cy - 1 },
        Pt { x: cx + 1, y: cy + 1 },
        Pt { x: cx - 1, y: cy + 1 },
    ]
}

fn lane(src: usize, dst: usize, length: u64) -> Lane {
    Lane { src, dst, length, merge_flag: false }
}

fn turn(src_lane: usize, dst_lane: usize, legal: bool) -> Turn {
    Turn { src_lane, dst_lane, legal, geom: vec![Pt { x: 0, y: 0 }, Pt { x: 1, y: 1 }] }
}

/// The map whose cluster {1, 2, 3} has 8 geometric uber-turns, 5 legal.
fn branching_map() -> MapModel {
    let n = 8;
    MapModel {
        n_intersections: n,
        intersections: (0..n).map(|i| Intersection { polygon: square(10 * i as i64, 0) }).collect(),
        lanes: vec![
            lane(0, 1, 100),
            lane(1, 2, 100),
            lane(1, 2, 100),
            lane(2, 5, 100),
            lane(2, 6, 100),
            lane(7, 1, 100),
        ],
        turns: vec![
            turn(0, 1, false),
            turn(0, 2, true),
            turn(5, 1, true),
            turn(5, 2, true),
            turn(1, 3, true),
            turn(1, 4, false),
            turn(2, 3, true),
            turn(2, 4, true),
        ],
        threshold: 1,
    }
}

/// A map with no turns at all: any cluster's uber-turn sequence is empty.
fn turnless_map() -> MapModel {
    let n = 4;
    MapModel {
        n_intersections: n,
        intersections: (0..n).map(|i| Intersection { polygon: square(10 * i as i64, 0) }).collect(),
        lanes: vec![lane(0, 1, 5), lane(1, 2, 5)],
        turns: vec![],
        threshold: 10,
    }
}

#[test]
fn picker_falls_back_to_singleton() {
    let map = branching_map();
    // Threshold 1 and no merge flags: nothing is cluster-adjacent.
    let picker = UberTurnPicker::new(1, &map);
    assert_eq!(picker.members, vec![1]);
}

#[test]
fn picker_starts_from_closure() {
    let map = turnless_map();
    let picker = UberTurnPicker::new(0, &map);
    assert_eq!(picker.members, vec![0, 1, 2]);
}

#[test]
fn select_and_deselect_keep_order() {
    let map = branching_map();
    let mut picker = UberTurnPicker::new(2, &map);
    assert_eq!(picker.members, vec![2]);
    picker.select(7, &map);
    picker.select(1, &map);
    picker.select(1, &map);
    assert_eq!(picker.members, vec![1, 2, 7]);
    picker.deselect(2, &map);
    picker.deselect(5, &map);
    assert_eq!(picker.members, vec![1, 7]);
}

#[test]
fn too_few_members_is_a_validation_failure() {
    let map = branching_map();
    let picker = UberTurnPicker::new(1, &map);
    assert_eq!(picker.members.len(), 1);
    let r = picker.view_uber_turns(&map);
    assert_eq!(r.err(), Some(TOO_FEW_MEMBERS));
    assert_eq!(TOO_FEW_MEMBERS, "Select at least two intersections");
    // The picker is untouched and selection can go on.
    assert_eq!(picker.members, vec![1]);
}

#[test]
fn detect_all_clusters_selects_everything() {
    let map = turnless_map();
    let mut picker = UberTurnPicker::new(3, &map);
    picker.detect_all_clusters(&map);
    assert_eq!(picker.members, vec![0, 1, 2, 3]);
}

#[test]
fn command_dispatch_covers_the_closed_set() {
    let map = branching_map();
    let mut picker = UberTurnPicker::new(1, &map);
    picker.handle(PickerCommand::Select(2), &map);
    picker.handle(PickerCommand::Select(3), &map);
    picker.handle(PickerCommand::Deselect(3), &map);
    assert_eq!(picker.members, vec![1, 2]);
    picker.handle(PickerCommand::DetectAllClusters, &map);
    assert_eq!(picker.members.len(), map.n_intersections);
    let mut viewer = UberTurnViewer::new(&map, vec![1, 2, 3], 0, true);
    viewer.handle(ViewerCommand::Page(2), &map);
    assert_eq!(viewer.idx, 2);
    viewer.handle(ViewerCommand::ToggleLegalMode, &map);
    assert!(!viewer.legal_turns);
    assert_eq!(viewer.idx, 0);
    assert_eq!(viewer.ic.uber_turns.len(), 8);
}

#[test]
fn picker_draw_outlines_selection() {
    let map = branching_map();
    let mut picker = UberTurnPicker::new(1, &map);
    picker.select(2, &map);
    let commands = picker.draw(&map);
    assert_eq!(commands.len(), 2);
    assert_eq!(commands[0].points, square(10, 0));
    assert_eq!(commands[1].points, square(20, 0));
}

#[test]
fn viewer_counts_and_toggle() {
    let map = branching_map();
    let mut picker = UberTurnPicker::new(1, &map);
    picker.select(2, &map);
    picker.select(3, &map);
    let mut viewer = picker.view_uber_turns(&map).unwrap();
    assert!(viewer.legal_turns);
    assert_eq!(viewer.ic.uber_turns.len(), 5);
    assert_eq!(viewer.idx, 0);
    viewer.page(3);
    assert_eq!(viewer.idx, 3);
    // Toggling legality rebuilds with the other flag and resets paging.
    viewer.toggle_legal_mode(&map);
    assert!(!viewer.legal_turns);
    assert_eq!(viewer.ic.uber_turns.len(), 8);
    assert_eq!(viewer.idx, 0);
    viewer.toggle_legal_mode(&map);
    assert!(viewer.legal_turns);
    assert_eq!(viewer.ic.uber_turns.len(), 5);
}

#[test]
fn paging_clamps_at_both_ends() {
    let map = branching_map();
    let mut viewer = UberTurnViewer::new(&map, vec![1, 2, 3], 0, true);
    let n = viewer.ic.uber_turns.len();
    assert_eq!(n, 5);
    viewer.page(-1);
    assert_eq!(viewer.idx, 0);
    for _ in 0..(n - 1) {
        viewer.page(1);
    }
    assert_eq!(viewer.idx, n - 1);
    viewer.page(1);
    assert_eq!(viewer.idx, n - 1);
    viewer.page(-100);
    assert_eq!(viewer.idx, 0);
    viewer.page(100);
    assert_eq!(viewer.idx, n - 1);
}

#[test]
fn viewer_clamps_requested_index() {
    let map = branching_map();
    let viewer = UberTurnViewer::new(&map, vec![1, 2, 3], 99, true);
    assert_eq!(viewer.idx, 4);
    let viewer = UberTurnViewer::new(&map, vec![1, 2, 3], 2, false);
    assert_eq!(viewer.idx, 2);
}

#[test]
fn page_label_is_one_based() {
    let map = branching_map();
    let mut viewer = UberTurnViewer::new(&map, vec![1, 2, 3], 0, true);
    assert_eq!(viewer.page_label(), (1, 5));
    viewer.page(2);
    assert_eq!(viewer.page_label(), (3, 5));
    assert!(viewer.can_prev());
    assert!(viewer.can_next());
    viewer.page(2);
    assert!(!viewer.can_next());
    assert!(viewer.can_prev());
}

#[test]
fn empty_uber_turns_disable_navigation() {
    let map = turnless_map();
    let mut viewer = UberTurnViewer::new(&map, vec![1, 2], 0, true);
    assert_eq!(viewer.ic.uber_turns.len(), 0);
    // Displays 0/0, both controls disabled, paging pinned at 0.
    assert_eq!(viewer.page_label(), (0, 0));
    assert!(!viewer.can_prev());
    assert!(!viewer.can_next());
    viewer.page(1);
    assert_eq!(viewer.idx, 0);
    viewer.page(-1);
    assert_eq!(viewer.idx, 0);
    // The highlight draw holds the member outlines and no arrow.
    let commands = viewer.draw(&map);
    assert_eq!(commands.len(), 2);
    assert!(commands.iter().all(|c| matches!(c.style, Style::Fill)));
}

#[test]
fn viewer_draw_includes_arrow_when_nonempty() {
    let map = branching_map();
    let viewer = UberTurnViewer::new(&map, vec![1, 2, 3], 0, true);
    let commands = viewer.draw(&map);
    assert_eq!(commands.len(), 4);
    let last = commands.last().unwrap();
    assert!(matches!(last.style, Style::Arrow));
    // The arrow follows the first legal uber-turn's concatenated geometry.
    assert_eq!(
        last.points,
        vec![
            Pt { x: 0, y: 0 },
            Pt { x: 1, y: 1 },
            Pt { x: 0, y: 0 },
            Pt { x: 1, y: 1 },
        ]
    );
    // Member outlines come first, in membership order.
    assert_eq!(commands[0].points, square(10, 0));
    assert_eq!(commands[1].points, square(20, 0));
    assert_eq!(commands[2].points, square(30, 0));
}
