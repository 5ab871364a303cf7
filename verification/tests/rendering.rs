//! The spatial index, the renderable registry and the composer.

use uber_turns::geometry::{bounds_of, Bounds};
use uber_turns::render::{
    resolve_color, Color, ColorScheme, DrawMap, DrawOptions, Entity, Renderable, Style, ID,
};
use uber_turns::spatial::{IndexEntry, SpatialIndex};
use uber_turns::{get_bbox, Pt, Rect};

fn pt(x: i64, y: i64) -> Pt {
    Pt { x, y }
}

fn rect(x1: i64, y1: i64, x2: i64, y2: i64) -> Rect {
    Rect { top_left: pt(x1, y1), bottom_right: pt(x2, y2) }
}

/// A counterclockwise unit square around (cx, cy) with the y axis pointing
/// up: left of each directed edge is the inside.
fn ccw_square(cx: i64, cy: i64, r: i64) -> Vec<Pt> {
    vec![
        pt(cx - r, cy - r),
        pt(cx + r, cy - r),
        pt(cx + r, cy + r),
        pt(cx - r, cy + r),
    ]
}

fn scheme() -> ColorScheme {
    let c = |red: u8| Color { red, green: 0, blue: 0, alpha: 255 };
    ColorScheme {
        lane: c(1),
        intersection: c(2),
        turn: c(3),
        building: c(4),
        parcel: c(5),
        extra_shape: c(6),
        pedestrian: c(7),
        selection: c(8),
        cluster_highlight: c(9),
    }
}

fn no_overrides() -> DrawOptions {
    DrawOptions {
        selected: None,
        cluster_highlight: vec![],
        suppress_traffic_signal_details: vec![],
    }
}

#[test]
fn bounds_and_bbox_are_tight() {
    let pts = vec![pt(3, -2), pt(-1, 7), pt(5, 0)];
    let b = bounds_of(&pts);
    assert_eq!(b, Bounds { min_x: -1, min_y: -2, max_x: 5, max_y: 7 });
    let r = get_bbox(&b);
    assert_eq!(r, rect(-1, -2, 5, 7));
}

#[test]
fn rect_contains_and_overlaps() {
    let r = rect(0, 0, 10, 10);
    assert!(r.contains(pt(0, 0)));
    assert!(r.contains(pt(10, 10)));
    assert!(!r.contains(pt(11, 10)));
    assert!(r.overlaps(&rect(10, 10, 20, 20)));
    assert!(!r.overlaps(&rect(11, 0, 20, 20)));
}

#[test]
fn spatial_index_queries() {
    let index = SpatialIndex::build(vec![
        IndexEntry { rect: rect(0, 0, 10, 10), id: ID::Lane(0) },
        IndexEntry { rect: rect(5, 5, 15, 15), id: ID::Building(1) },
        IndexEntry { rect: rect(20, 20, 30, 30), id: ID::Parcel(2) },
    ]);
    assert_eq!(index.query_point(pt(7, 7)), vec![ID::Lane(0), ID::Building(1)]);
    assert_eq!(index.query_point(pt(25, 25)), vec![ID::Parcel(2)]);
    assert_eq!(index.query_point(pt(100, 100)), vec![]);
    assert_eq!(
        index.query_rect(rect(8, 8, 22, 22)),
        vec![ID::Lane(0), ID::Building(1), ID::Parcel(2)]
    );
    assert_eq!(index.query_rect(rect(16, 0, 19, 40)), vec![]);
}

#[test]
fn entity_exact_containment() {
    let e = Entity::new(ID::Building(0), ccw_square(0, 0, 5), vec![]);
    assert!(e.contains_pt(pt(0, 0)));
    assert!(e.contains_pt(pt(5, 5)));
    assert!(!e.contains_pt(pt(6, 0)));
    assert!(!e.contains_pt(pt(0, -6)));
    // The bounding box over-approximates a triangle; exact containment does
    // not.
    let tri = Entity::new(ID::Building(1), vec![pt(0, 0), pt(10, 0), pt(0, 10)], vec![]);
    assert!(tri.get_bbox().contains(pt(9, 9)));
    assert!(!tri.contains_pt(pt(9, 9)));
    assert!(tri.contains_pt(pt(3, 3)));
}

#[test]
fn renderable_capabilities() {
    let e = Entity::new(
        ID::Pedestrian(4),
        ccw_square(2, 3, 1),
        vec!["walking".to_string(), "northbound".to_string()],
    );
    assert_eq!(e.get_id(), ID::Pedestrian(4));
    assert_eq!(e.get_bbox(), rect(1, 2, 3, 4));
    assert_eq!(e.tooltip_lines(), &vec!["walking".to_string(), "northbound".to_string()]);
    let cmd = e.draw(Color { red: 9, green: 9, blue: 9, alpha: 255 });
    assert!(matches!(cmd.style, Style::Fill));
    assert_eq!(cmd.points, ccw_square(2, 3, 1));
}

#[test]
fn color_resolution_precedence() {
    let s = scheme();
    let base = no_overrides();
    assert_eq!(resolve_color(&s, &base, ID::Lane(0)), s.lane);
    assert_eq!(resolve_color(&s, &base, ID::Intersection(3)), s.intersection);
    let highlighted = DrawOptions {
        selected: None,
        cluster_highlight: vec![3],
        suppress_traffic_signal_details: vec![],
    };
    assert_eq!(resolve_color(&s, &highlighted, ID::Intersection(3)), s.cluster_highlight);
    assert_eq!(resolve_color(&s, &highlighted, ID::Intersection(4)), s.intersection);
    // Selection takes precedence over the cluster highlight.
    let selected = DrawOptions {
        selected: Some(ID::Intersection(3)),
        cluster_highlight: vec![3],
        suppress_traffic_signal_details: vec![],
    };
    assert_eq!(resolve_color(&s, &selected, ID::Intersection(3)), s.selection);
    assert_eq!(resolve_color(&s, &selected, ID::Intersection(4)), s.intersection);
}

fn small_draw_map() -> DrawMap {
    DrawMap::new(
        vec![Entity::new(ID::Parcel(0), ccw_square(0, 0, 4), vec![])],
        vec![Entity::new(ID::Building(0), ccw_square(0, 0, 2), vec![])],
        vec![],
        vec![Entity::new(ID::Lane(0), ccw_square(20, 0, 2), vec![])],
        vec![],
        vec![],
        vec![Entity::new(ID::Pedestrian(0), ccw_square(1, 1, 1), vec![])],
    )
}

#[test]
fn draw_frame_culls_and_orders() {
    let m = small_draw_map();
    let s = scheme();
    let opts = no_overrides();
    // A viewport over the origin: parcel, building and pedestrian, in
    // z-order; the lane at x=20 is culled.
    let commands = m.draw_frame(rect(-3, -3, 3, 3), &s, &opts);
    let colors: Vec<Color> = commands.iter().map(|c| c.color).collect();
    assert_eq!(colors, vec![s.parcel, s.building, s.pedestrian]);
    // A viewport over the lane alone.
    let commands = m.draw_frame(rect(15, -1, 25, 1), &s, &opts);
    assert_eq!(commands.len(), 1);
    assert_eq!(commands[0].color, s.lane);
    assert_eq!(commands[0].points, ccw_square(20, 0, 2));
}

#[test]
fn index_holds_one_entry_per_entity() {
    let m = small_draw_map();
    assert_eq!(m.index.entries.len(), 4);
    assert_eq!(m.index.entries[0].id, ID::Parcel(0));
    assert_eq!(m.index.entries[0].rect, rect(-4, -4, 4, 4));
    assert_eq!(m.index.entries[3].id, ID::Pedestrian(0));
}

#[test]
fn hit_test_picks_topmost_by_z_order() {
    let m = small_draw_map();
    // All of parcel, building and pedestrian contain (1, 1); the pedestrian
    // is drawn last.
    assert_eq!(m.hit_test(pt(1, 1)), Some(ID::Pedestrian(0)));
    // (3, 3) lies in the parcel and building boxes only by the parcel's
    // extent.
    assert_eq!(m.hit_test(pt(3, 3)), Some(ID::Parcel(0)));
    assert_eq!(m.hit_test(pt(0, -2)), Some(ID::Building(0)));
    assert_eq!(m.hit_test(pt(20, 0)), Some(ID::Lane(0)));
    assert_eq!(m.hit_test(pt(100, 100)), None);
}
