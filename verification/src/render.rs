//! The renderable registry: a closed set of map-entity variants behind one
//! uniform capability set (identity, draw command, bounding box, exact point
//! containment, tooltip lines), the colors used to draw them, and the draw
//! commands handed to the drawing layer.

use crate::geometry::{bounds_of, get_bbox, Pt, Rect, COORD_LIMIT};
use crate::map_data::contains_id;
use crate::spatial::{IndexEntry, SpatialIndex};
use vstd::prelude::*;

verus! {

/// An RGBA color.
#[derive(Clone, Copy, PartialEq, Eq, Structural, Debug)]
pub struct Color {
    pub red: u8,
    pub green: u8,
    pub blue: u8,
    pub alpha: u8,
}

/// How a command's point list is to be rendered: a filled polygon, or a
/// polyline thickened into a directional arrow.
#[derive(Clone, Copy, PartialEq, Eq, Structural, Debug)]
pub enum Style {
    Fill,
    Arrow,
}

/// One drawing instruction for the opaque rendering sink.
#[derive(PartialEq, Eq, Debug)]
pub struct DrawCommand {
    pub color: Color,
    pub style: Style,
    pub points: Vec<Pt>,
}

/// A map-entity identifier: the variant tag plus an index unique within the
/// variant.
#[derive(Clone, Copy, PartialEq, Eq, Structural, Debug)]
pub enum ID {
    Lane(usize),
    Intersection(usize),
    Turn(usize),
    Building(usize),
    Parcel(usize),
    ExtraShape(usize),
    Pedestrian(usize),
}

/// The fixed z-order in which variants are drawn, lowest first: parcels,
/// buildings, extra shapes, lanes, intersections, turns, pedestrians.
pub open spec fn z_rank(id: ID) -> int {
    match id {
        ID::Parcel(_) => 0,
        ID::Building(_) => 1,
        ID::ExtraShape(_) => 2,
        ID::Lane(_) => 3,
        ID::Intersection(_) => 4,
        ID::Turn(_) => 5,
        ID::Pedestrian(_) => 6,
    }
}

/// Twice the signed area of the triangle `a`, `b`, `p`: positive when `p`
/// lies to the left of the directed edge from `a` to `b`.
pub open spec fn cross(a: Pt, b: Pt, p: Pt) -> int {
    (b.x - a.x) * (p.y - a.y) - (b.y - a.y) * (p.x - a.x)
}

/// Exact containment in a convex outline whose vertices run counterclockwise:
/// the point is on or to the left of every directed edge.
pub open spec fn spec_poly_contains(poly: Seq<Pt>, p: Pt) -> bool {
    forall|e: int|
        0 <= e < poly.len() ==> #[trigger] cross(
            poly[e],
            poly[(e + 1) % (poly.len() as int)],
            p,
        ) >= 0
}

proof fn lemma_mul_bound(a: int, b: int, m: int)
    by (nonlinear_arith)
    requires
        -m <= a <= m,
        -m <= b <= m,
        0 <= m,
    ensures
        -(m * m) <= a * b <= m * m,
{
}

/// One renderable map entity: its identifier, its convex counterclockwise
/// outline in world coordinates, the derived conservative bounding rectangle,
/// and the precomputed tooltip lines. A read-only snapshot built by the
/// composer; it does not outlive a map rebuild.
pub struct Entity {
    pub id: ID,
    pub polygon: Vec<Pt>,
    pub bbox: Rect,
    pub tooltip: Vec<String>,
}

impl Entity {
    /// Non-empty in-range outline, with a bounding rectangle that contains
    /// every vertex.
    pub open spec fn wf(self) -> bool {
        &&& self.polygon@.len() >= 1
        &&& forall|k: int| 0 <= k < self.polygon@.len() ==> (#[trigger] self.polygon@[k]).wf()
        &&& self.bbox.wf()
        &&& forall|k: int|
            0 <= k < self.polygon@.len() ==> self.bbox.spec_contains(#[trigger] self.polygon@[k])
    }

    /// Builds an entity, deriving its bounding rectangle from the outline.
    pub fn new(id: ID, polygon: Vec<Pt>, tooltip: Vec<String>) -> (e: Entity)
        requires
            polygon@.len() >= 1,
            forall|k: int| 0 <= k < polygon@.len() ==> (#[trigger] polygon@[k]).wf(),
        ensures
            e.wf(),
            e.id == id,
            e.polygon@ == polygon@,
            e.tooltip@ == tooltip@,
    {
        let b = bounds_of(&polygon);
        let bbox = get_bbox(&b);
        Entity { id, polygon, bbox, tooltip }
    }
}

/// The uniform capability set every renderable entity variant exposes:
/// identify, bounding box, exact point containment, tooltip text, and a draw
/// command for a resolved color.
pub trait Renderable {
    /// The well-formedness the capabilities rely on.
    spec fn inv(&self) -> bool;

    /// The entity's identifier.
    spec fn spec_id(&self) -> ID;

    /// The entity's conservative bounding rectangle.
    spec fn spec_bbox(&self) -> Rect;

    /// The entity's true outline.
    spec fn spec_geom(&self) -> Seq<Pt>;

    /// The entity's tooltip lines.
    spec fn spec_tooltip(&self) -> Seq<String>;

    fn get_id(&self) -> (r: ID)
        ensures
            r == self.spec_id(),
    ;

    fn get_bbox(&self) -> (r: Rect)
        ensures
            r == self.spec_bbox(),
    ;

    /// Exact containment against the true outline, not the bounding
    /// rectangle.
    fn contains_pt(&self, pt: Pt) -> (r: bool)
        requires
            self.inv(),
            pt.wf(),
        ensures
            r == spec_poly_contains(self.spec_geom(), pt),
    ;

    fn tooltip_lines(&self) -> (r: &Vec<String>)
        ensures
            r@ == self.spec_tooltip(),
    ;

    /// The draw command for this entity in the given resolved color. Drawing
    /// reads the entity and mutates nothing.
    fn draw(&self, color: Color) -> (r: DrawCommand)
        ensures
            r.color == color,
            r.style == Style::Fill,
            r.points@ == self.spec_geom(),
    ;
}

impl Renderable for Entity {
    open spec fn inv(&self) -> bool {
        self.wf()
    }

    open spec fn spec_id(&self) -> ID {
        self.id
    }

    open spec fn spec_bbox(&self) -> Rect {
        self.bbox
    }

    open spec fn spec_geom(&self) -> Seq<Pt> {
        self.polygon@
    }

    open spec fn spec_tooltip(&self) -> Seq<String> {
        self.tooltip@
    }

    fn get_id(&self) -> (r: ID) {
        self.id
    }

    fn get_bbox(&self) -> (r: Rect) {
        self.bbox
    }

    fn contains_pt(&self, pt: Pt) -> (r: bool) {
        let len = self.polygon.len();
        let mut e: usize = 0;
        while e < len
            invariant
                len == self.polygon@.len(),
                self.wf(),
                pt.wf(),
                e <= len,
                forall|k: int|
                    0 <= k < e ==> #[trigger] cross(
                        self.polygon@[k],
                        self.polygon@[(k + 1) % (len as int)],
                        pt,
                    ) >= 0,
            decreases len - e,
        {
            let a = self.polygon[e];
            let b = if e + 1 == len {
                self.polygon[0]
            } else {
                self.polygon[e + 1]
            };
            proof {
                if e + 1 == len {
                    assert((e as int + 1) % (len as int) == 0) by (nonlinear_arith)
                        requires
                            e as int + 1 == len as int,
                            len as int > 0,
                    ;
                } else {
                    assert((e as int + 1) % (len as int) == e as int + 1) by (nonlinear_arith)
                        requires
                            0 <= e as int + 1 < len as int,
                    ;
                }
                assert(b == self.polygon@[(e as int + 1) % (len as int)]);
                lemma_mul_bound((b.x - a.x) as int, (pt.y - a.y) as int, 2 * COORD_LIMIT as int);
                lemma_mul_bound((b.y - a.y) as int, (pt.x - a.x) as int, 2 * COORD_LIMIT as int);
            }
            let c = (b.x - a.x) * (pt.y - a.y) - (b.y - a.y) * (pt.x - a.x);
            if c < 0 {
                proof {
                    assert(cross(
                        self.polygon@[e as int],
                        self.polygon@[(e as int + 1) % (len as int)],
                        pt,
                    ) < 0);
                }
                return false;
            }
            e = e + 1;
        }
        true
    }

    fn tooltip_lines(&self) -> (r: &Vec<String>) {
        &self.tooltip
    }

    fn draw(&self, color: Color) -> (r: DrawCommand) {
        let points = copy_pts(&self.polygon);
        DrawCommand { color, style: Style::Fill, points }
    }
}

/// The base color of each entity variant, as configured by the color scheme,
/// plus the override colors.
#[derive(Clone, Copy, PartialEq, Eq, Structural, Debug)]
pub struct ColorScheme {
    pub lane: Color,
    pub intersection: Color,
    pub turn: Color,
    pub building: Color,
    pub parcel: Color,
    pub extra_shape: Color,
    pub pedestrian: Color,
    pub selection: Color,
    pub cluster_highlight: Color,
}

/// Per-frame overrides supplied by the caller of the draw step: the current
/// selection, the members of an active cluster to highlight, and the
/// intersections whose traffic-signal rendering detail the external drawing
/// layer is to suppress (consumed there, not here).
pub struct DrawOptions {
    pub selected: Option<ID>,
    pub cluster_highlight: Vec<usize>,
    pub suppress_traffic_signal_details: Vec<usize>,
}

/// The base color-scheme lookup by variant.
pub open spec fn base_color(scheme: ColorScheme, id: ID) -> Color {
    match id {
        ID::Lane(_) => scheme.lane,
        ID::Intersection(_) => scheme.intersection,
        ID::Turn(_) => scheme.turn,
        ID::Building(_) => scheme.building,
        ID::Parcel(_) => scheme.parcel,
        ID::ExtraShape(_) => scheme.extra_shape,
        ID::Pedestrian(_) => scheme.pedestrian,
    }
}

/// Color resolution with override precedence: selection highlight first,
/// then cluster highlight for member intersections, then the base color.
pub open spec fn spec_resolve_color(scheme: ColorScheme, opts: DrawOptions, id: ID) -> Color {
    if opts.selected == Some(id) {
        scheme.selection
    } else if match id {
        ID::Intersection(i) => opts.cluster_highlight@.contains(i),
        _ => false,
    } {
        scheme.cluster_highlight
    } else {
        base_color(scheme, id)
    }
}

/// Resolves an entity's draw color from the scheme and the per-frame
/// overrides.
pub fn resolve_color(scheme: &ColorScheme, opts: &DrawOptions, id: ID) -> (c: Color)
    ensures
        c == spec_resolve_color(*scheme, *opts, id),
{
    let is_selected = match opts.selected {
        Some(s) => s == id,
        None => false,
    };
    if is_selected {
        return scheme.selection;
    }
    let highlighted = match id {
        ID::Intersection(i) => contains_id(&opts.cluster_highlight, i),
        _ => false,
    };
    if highlighted {
        return scheme.cluster_highlight;
    }
    match id {
        ID::Lane(_) => scheme.lane,
        ID::Intersection(_) => scheme.intersection,
        ID::Turn(_) => scheme.turn,
        ID::Building(_) => scheme.building,
        ID::Parcel(_) => scheme.parcel,
        ID::ExtraShape(_) => scheme.extra_shape,
        ID::Pedestrian(_) => scheme.pedestrian,
    }
}

/// The observable content of a command list: color, style and points of each
/// command, in order.
pub open spec fn cmd_views(s: Seq<DrawCommand>) -> Seq<(Color, Style, Seq<Pt>)> {
    s.map_values(|c: DrawCommand| (c.color, c.style, c.points@))
}

/// Viewport culling: an entity is drawn when its bounding rectangle overlaps
/// the viewport.
pub open spec fn visible_pred(viewport: Rect) -> spec_fn(Entity) -> bool {
    |e: Entity| e.bbox.spec_overlaps(viewport)
}

/// The command an entity contributes to a frame.
pub open spec fn cmd_of(scheme: ColorScheme, opts: DrawOptions) -> spec_fn(Entity) -> (
    Color,
    Style,
    Seq<Pt>,
) {
    |e: Entity| (spec_resolve_color(scheme, opts, e.id), Style::Fill, e.polygon@)
}

/// One frame's commands for a list of entities: the visible ones, in order,
/// each in its resolved color.
pub open spec fn frame_of(
    entities: Seq<Entity>,
    viewport: Rect,
    scheme: ColorScheme,
    opts: DrawOptions,
) -> Seq<(Color, Style, Seq<Pt>)> {
    entities.filter(visible_pred(viewport)).map_values(cmd_of(scheme, opts))
}

proof fn lemma_frame_add(
    a: Seq<Entity>,
    b: Seq<Entity>,
    viewport: Rect,
    scheme: ColorScheme,
    opts: DrawOptions,
)
    ensures
        frame_of(a + b, viewport, scheme, opts) == frame_of(a, viewport, scheme, opts) + frame_of(
            b,
            viewport,
            scheme,
            opts,
        ),
{
    Seq::filter_distributes_over_add(a, b, visible_pred(viewport));
    assert((a.filter(visible_pred(viewport)) + b.filter(visible_pred(viewport))).map_values(
        cmd_of(scheme, opts),
    ) =~= a.filter(visible_pred(viewport)).map_values(cmd_of(scheme, opts)) + b.filter(
        visible_pred(viewport),
    ).map_values(cmd_of(scheme, opts)));
}

/// The topmost entity whose bounding rectangle and exact outline both contain
/// the point: candidates are pruned by rectangle and decided by exact
/// containment, and the last-drawn match wins.
pub open spec fn spec_hit(entities: Seq<Entity>, p: Pt) -> Option<ID>
    decreases entities.len(),
{
    if entities.len() == 0 {
        None
    } else {
        let last = entities.last();
        if last.bbox.spec_contains(p) && spec_poly_contains(last.polygon@, p) {
            Some(last.id)
        } else {
            spec_hit(entities.drop_last(), p)
        }
    }
}

proof fn lemma_hit_add(a: Seq<Entity>, b: Seq<Entity>, p: Pt)
    ensures
        spec_hit(a + b, p) == if spec_hit(b, p) is Some {
            spec_hit(b, p)
        } else {
            spec_hit(a, p)
        },
    decreases b.len(),
{
    if b.len() == 0 {
        assert(a + b =~= a);
    } else {
        assert((a + b).last() == b.last());
        assert((a + b).drop_last() =~= a + b.drop_last());
        lemma_hit_add(a, b.drop_last(), p);
    }
}

/// All entities of one collection are well-formed and carry the expected
/// variant tag.
pub open spec fn collection_ok(es: Seq<Entity>, rank: int) -> bool {
    forall|k: int|
        0 <= k < es.len() ==> (#[trigger] es[k]).wf() && z_rank(es[k].id) == rank
}

fn push_entries(out: &mut Vec<IndexEntry>, es: &Vec<Entity>)
    ensures
        final(out)@ == old(out)@ + es@.map_values(entry_of()),
{
    let ghost pre = out@;
    let mut j: usize = 0;
    proof {
        assert(out@ =~= pre + es@.subrange(0, 0).map_values(entry_of()));
    }
    while j < es.len()
        invariant
            j <= es@.len(),
            out@ == pre + es@.subrange(0, j as int).map_values(entry_of()),
        decreases es@.len() - j,
    {
        let ghost out_before = out@;
        let e = &es[j];
        out.push(IndexEntry { rect: e.bbox, id: e.id });
        proof {
            assert(es@.subrange(0, j as int + 1) =~= es@.subrange(0, j as int).push(
                es@[j as int],
            ));
            assert(es@.subrange(0, j as int).push(es@[j as int]).map_values(entry_of())
                =~= es@.subrange(0, j as int).map_values(entry_of()).push(
                entry_of()(es@[j as int]),
            ));
            assert(out@ =~= pre + es@.subrange(0, j as int + 1).map_values(entry_of()));
        }
        j = j + 1;
    }
    proof {
        assert(es@.subrange(0, es@.len() as int) =~= es@);
    }
}

/// The index entry an entity contributes: its bounding rectangle and its
/// identifier.
pub open spec fn entry_of() -> spec_fn(Entity) -> IndexEntry {
    |e: Entity| IndexEntry { rect: e.bbox, id: e.id }
}

fn draw_collection(
    out: &mut Vec<DrawCommand>,
    es: &Vec<Entity>,
    viewport: Rect,
    scheme: &ColorScheme,
    opts: &DrawOptions,
)
    ensures
        cmd_views(final(out)@) == cmd_views(old(out)@) + frame_of(
            es@,
            viewport,
            *scheme,
            *opts,
        ),
{
    let ghost pre = cmd_views(out@);
    let ghost vp = visible_pred(viewport);
    let ghost co = cmd_of(*scheme, *opts);
    let mut j: usize = 0;
    proof {
        reveal(Seq::filter);
        assert(es@.subrange(0, 0) =~= Seq::<Entity>::empty());
        assert(cmd_views(out@) =~= pre + frame_of(
            es@.subrange(0, 0),
            viewport,
            *scheme,
            *opts,
        ));
    }
    while j < es.len()
        invariant
            j <= es@.len(),
            vp == visible_pred(viewport),
            co == cmd_of(*scheme, *opts),
            cmd_views(out@) == pre + frame_of(
                es@.subrange(0, j as int),
                viewport,
                *scheme,
                *opts,
            ),
        decreases es@.len() - j,
    {
        let ghost out_before = out@;
        let e = &es[j];
        if e.bbox.overlaps(&viewport) {
            let color = resolve_color(scheme, opts, e.id);
            let points = copy_pts(&e.polygon);
            out.push(DrawCommand { color, style: Style::Fill, points });
        }
        proof {
            let prefix = es@.subrange(0, j as int);
            let longer = es@.subrange(0, j as int + 1);
            assert(longer.drop_last() =~= prefix);
            assert(longer.last() == es@[j as int]);
            reveal(Seq::filter);
            if vp(es@[j as int]) {
                assert(longer.filter(vp) == prefix.filter(vp).push(es@[j as int]));
                assert(prefix.filter(vp).push(es@[j as int]).map_values(co) =~= prefix.filter(
                    vp,
                ).map_values(co).push(co(es@[j as int])));
                assert(cmd_views(out@) =~= cmd_views(out_before).push(co(es@[j as int])));
            } else {
                assert(longer.filter(vp) == prefix.filter(vp));
            }
        }
        j = j + 1;
    }
    proof {
        assert(es@.subrange(0, es@.len() as int) =~= es@);
    }
}

fn hit_collection(es: &Vec<Entity>, p: Pt) -> (r: Option<ID>)
    requires
        forall|k: int| 0 <= k < es@.len() ==> (#[trigger] es@[k]).wf(),
        p.wf(),
    ensures
        r == spec_hit(es@, p),
{
    let mut k: usize = es.len();
    proof {
        assert(es@.subrange(0, es@.len() as int) =~= es@);
    }
    while k > 0
        invariant
            k <= es@.len(),
            forall|i: int| 0 <= i < es@.len() ==> (#[trigger] es@[i]).wf(),
            p.wf(),
            spec_hit(es@.subrange(0, k as int), p) == spec_hit(es@, p),
        decreases k,
    {
        let e = &es[k - 1];
        proof {
            let pre = es@.subrange(0, k as int);
            assert(pre.last() == es@[k as int - 1]);
            assert(pre.drop_last() =~= es@.subrange(0, k as int - 1));
        }
        if e.bbox.contains(p) && e.contains_pt(p) {
            return Some(e.get_id());
        }
        k = k - 1;
    }
    proof {
        assert(es@.subrange(0, 0) =~= Seq::<Entity>::empty());
    }
    None
}

/// The map render composer: one ordered collection per entity variant, plus
/// the spatial index over all of them in draw order. Built once from map
/// data; rebuilt wholesale on any map edit.
pub struct DrawMap {
    pub parcels: Vec<Entity>,
    pub buildings: Vec<Entity>,
    pub extra_shapes: Vec<Entity>,
    pub lanes: Vec<Entity>,
    pub intersections: Vec<Entity>,
    pub turns: Vec<Entity>,
    pub pedestrians: Vec<Entity>,
    pub index: SpatialIndex,
}

impl DrawMap {
    /// All entities in the fixed draw z-order, lowest first.
    pub open spec fn draw_order(self) -> Seq<Entity> {
        self.parcels@ + self.buildings@ + self.extra_shapes@ + self.lanes@ + self.intersections@
            + self.turns@ + self.pedestrians@
    }

    /// Every collection holds well-formed entities of its own variant, and
    /// the index holds exactly one (bounding rectangle, identifier) entry per
    /// entity, in draw order.
    pub open spec fn wf(self) -> bool {
        &&& collection_ok(self.parcels@, 0)
        &&& collection_ok(self.buildings@, 1)
        &&& collection_ok(self.extra_shapes@, 2)
        &&& collection_ok(self.lanes@, 3)
        &&& collection_ok(self.intersections@, 4)
        &&& collection_ok(self.turns@, 5)
        &&& collection_ok(self.pedestrians@, 6)
        &&& self.index.entries@ == self.draw_order().map_values(entry_of())
    }

    /// Builds the registry and the spatial index once from the per-variant
    /// entity collections.
    pub fn new(
        parcels: Vec<Entity>,
        buildings: Vec<Entity>,
        extra_shapes: Vec<Entity>,
        lanes: Vec<Entity>,
        intersections: Vec<Entity>,
        turns: Vec<Entity>,
        pedestrians: Vec<Entity>,
    ) -> (m: DrawMap)
        requires
            collection_ok(parcels@, 0),
            collection_ok(buildings@, 1),
            collection_ok(extra_shapes@, 2),
            collection_ok(lanes@, 3),
            collection_ok(intersections@, 4),
            collection_ok(turns@, 5),
            collection_ok(pedestrians@, 6),
        ensures
            m.wf(),
            m.parcels@ == parcels@,
            m.buildings@ == buildings@,
            m.extra_shapes@ == extra_shapes@,
            m.lanes@ == lanes@,
            m.intersections@ == intersections@,
            m.turns@ == turns@,
            m.pedestrians@ == pedestrians@,
    {
        let mut entries: Vec<IndexEntry> = Vec::new();
        push_entries(&mut entries, &parcels);
        push_entries(&mut entries, &buildings);
        push_entries(&mut entries, &extra_shapes);
        push_entries(&mut entries, &lanes);
        push_entries(&mut entries, &intersections);
        push_entries(&mut entries, &turns);
        push_entries(&mut entries, &pedestrians);
        proof {
            assert(entries@ =~= (parcels@ + buildings@ + extra_shapes@ + lanes@ + intersections@
                + turns@ + pedestrians@).map_values(entry_of()));
        }
        let index = SpatialIndex::build(entries);
        DrawMap { parcels, buildings, extra_shapes, lanes, intersections, turns, pedestrians, index }
    }

    /// One frame: culls each collection against the viewport and emits the
    /// visible entities' commands in the fixed z-order, each in its resolved
    /// color. The index holds exactly the rectangles this step tests, so the
    /// emitted set equals what an index query for the viewport selects.
    /// Drawing reads the registry and mutates nothing.
    pub fn draw_frame(&self, viewport: Rect, scheme: &ColorScheme, opts: &DrawOptions) -> (r:
        Vec<DrawCommand>)
        ensures
            cmd_views(r@) == frame_of(self.draw_order(), viewport, *scheme, *opts),
    {
        let mut out: Vec<DrawCommand> = Vec::new();
        proof {
            assert(cmd_views(out@) =~= Seq::<(Color, Style, Seq<Pt>)>::empty());
        }
        draw_collection(&mut out, &self.parcels, viewport, scheme, opts);
        draw_collection(&mut out, &self.buildings, viewport, scheme, opts);
        draw_collection(&mut out, &self.extra_shapes, viewport, scheme, opts);
        draw_collection(&mut out, &self.lanes, viewport, scheme, opts);
        draw_collection(&mut out, &self.intersections, viewport, scheme, opts);
        draw_collection(&mut out, &self.turns, viewport, scheme, opts);
        draw_collection(&mut out, &self.pedestrians, viewport, scheme, opts);
        proof {
            let s1 = self.parcels@ + self.buildings@;
            let s2 = s1 + self.extra_shapes@;
            let s3 = s2 + self.lanes@;
            let s4 = s3 + self.intersections@;
            let s5 = s4 + self.turns@;
            let s6 = s5 + self.pedestrians@;
            lemma_frame_add(self.parcels@, self.buildings@, viewport, *scheme, *opts);
            lemma_frame_add(s1, self.extra_shapes@, viewport, *scheme, *opts);
            lemma_frame_add(s2, self.lanes@, viewport, *scheme, *opts);
            lemma_frame_add(s3, self.intersections@, viewport, *scheme, *opts);
            lemma_frame_add(s4, self.turns@, viewport, *scheme, *opts);
            lemma_frame_add(s5, self.pedestrians@, viewport, *scheme, *opts);
            assert(self.draw_order() =~= s6);
            assert(cmd_views(out@) =~= frame_of(self.draw_order(), viewport, *scheme, *opts));
        }
        out
    }

    /// Hit-testing for tooltips and selection: the topmost (last-drawn)
    /// entity whose bounding rectangle and exact outline both contain the
    /// point; ties are broken by z-order. Collections are probed from the
    /// top of the z-order down.
    pub fn hit_test(&self, p: Pt) -> (r: Option<ID>)
        requires
            self.wf(),
            p.wf(),
        ensures
            r == spec_hit(self.draw_order(), p),
    {
        proof {
            let s1 = self.parcels@ + self.buildings@;
            let s2 = s1 + self.extra_shapes@;
            let s3 = s2 + self.lanes@;
            let s4 = s3 + self.intersections@;
            let s5 = s4 + self.turns@;
            let s6 = s5 + self.pedestrians@;
            lemma_hit_add(self.parcels@, self.buildings@, p);
            lemma_hit_add(s1, self.extra_shapes@, p);
            lemma_hit_add(s2, self.lanes@, p);
            lemma_hit_add(s3, self.intersections@, p);
            lemma_hit_add(s4, self.turns@, p);
            lemma_hit_add(s5, self.pedestrians@, p);
            assert(self.draw_order() =~= s6);
        }
        let r = hit_collection(&self.pedestrians, p);
        if r.is_some() {
            return r;
        }
        let r = hit_collection(&self.turns, p);
        if r.is_some() {
            return r;
        }
        let r = hit_collection(&self.intersections, p);
        if r.is_some() {
            return r;
        }
        let r = hit_collection(&self.lanes, p);
        if r.is_some() {
            return r;
        }
        let r = hit_collection(&self.extra_shapes, p);
        if r.is_some() {
            return r;
        }
        let r = hit_collection(&self.buildings, p);
        if r.is_some() {
            return r;
        }
        hit_collection(&self.parcels, p)
    }
}

/// Copies a point list.
pub fn copy_pts(v: &Vec<Pt>) -> (r: Vec<Pt>)
    ensures
        r@ == v@,
{
    let mut r: Vec<Pt> = Vec::new();
    let mut k: usize = 0;
    while k < v.len()
        invariant
            k <= v@.len(),
            r@ == v@.subrange(0, k as int),
        decreases v@.len() - k,
    {
        r.push(v[k]);
        k = k + 1;
        proof {
            assert(r@ =~= v@.subrange(0, k as int));
        }
    }
    proof {
        assert(v@.subrange(0, v@.len() as int) =~= v@);
    }
    r
}

} // verus!
