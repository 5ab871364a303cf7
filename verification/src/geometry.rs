//! Integer world-coordinate primitives: points, tight bounds of a point list,
//! and the axis-aligned rectangles the spatial index prunes with.

use vstd::prelude::*;

verus! {

/// Coordinates are kept within this magnitude so that cross products of
/// coordinate differences fit in `i64` during exact containment tests.
pub const COORD_LIMIT: i64 = 1073741823;

/// A point in world coordinates.
#[derive(Clone, Copy, PartialEq, Eq, Structural, Debug)]
pub struct Pt {
    pub x: i64,
    pub y: i64,
}

impl Pt {
    /// The coordinate-magnitude bound every stored point obeys.
    pub open spec fn wf(self) -> bool {
        -COORD_LIMIT <= self.x <= COORD_LIMIT && -COORD_LIMIT <= self.y <= COORD_LIMIT
    }
}

/// Tight axis-aligned bounds of some geometry, as produced by `bounds_of`.
#[derive(Clone, Copy, PartialEq, Eq, Structural, Debug)]
pub struct Bounds {
    pub min_x: i64,
    pub min_y: i64,
    pub max_x: i64,
    pub max_y: i64,
}

impl Bounds {
    pub open spec fn wf(self) -> bool {
        self.min_x <= self.max_x && self.min_y <= self.max_y
    }

    pub open spec fn spec_contains(self, p: Pt) -> bool {
        self.min_x <= p.x <= self.max_x && self.min_y <= p.y <= self.max_y
    }
}

/// An axis-aligned rectangle keyed into the spatial index.
#[derive(Clone, Copy, PartialEq, Eq, Structural, Debug)]
pub struct Rect {
    pub top_left: Pt,
    pub bottom_right: Pt,
}

impl Rect {
    pub open spec fn wf(self) -> bool {
        self.top_left.x <= self.bottom_right.x && self.top_left.y <= self.bottom_right.y
    }

    pub open spec fn spec_contains(self, p: Pt) -> bool {
        self.top_left.x <= p.x <= self.bottom_right.x
            && self.top_left.y <= p.y <= self.bottom_right.y
    }

    pub open spec fn spec_overlaps(self, other: Rect) -> bool {
        self.top_left.x <= other.bottom_right.x && other.top_left.x <= self.bottom_right.x
            && self.top_left.y <= other.bottom_right.y && other.top_left.y <= self.bottom_right.y
    }

    /// Exact point-in-rectangle test (closed on all edges).
    pub fn contains(&self, p: Pt) -> (r: bool)
        ensures
            r == self.spec_contains(p),
    {
        self.top_left.x <= p.x && p.x <= self.bottom_right.x && self.top_left.y <= p.y && p.y
            <= self.bottom_right.y
    }

    /// Whether the two rectangles share at least one point.
    pub fn overlaps(&self, other: &Rect) -> (r: bool)
        ensures
            r == self.spec_overlaps(*other),
    {
        self.top_left.x <= other.bottom_right.x && other.top_left.x <= self.bottom_right.x
            && self.top_left.y <= other.bottom_right.y && other.top_left.y <= self.bottom_right.y
    }
}

/// Converts tight geometry bounds into the rectangle form the spatial index
/// stores, preserving the covered region exactly.
pub fn get_bbox(b: &Bounds) -> (r: Rect)
    ensures
        r.top_left.x == b.min_x,
        r.top_left.y == b.min_y,
        r.bottom_right.x == b.max_x,
        r.bottom_right.y == b.max_y,
        forall|p: Pt| r.spec_contains(p) == b.spec_contains(p),
{
    Rect {
        top_left: Pt { x: b.min_x, y: b.min_y },
        bottom_right: Pt { x: b.max_x, y: b.max_y },
    }
}

/// Tight bounds of a non-empty point list: every point lies inside, and each
/// of the four extremes is attained by some point.
pub fn bounds_of(pts: &Vec<Pt>) -> (b: Bounds)
    requires
        pts@.len() > 0,
    ensures
        b.wf(),
        forall|i: int| 0 <= i < pts@.len() ==> b.spec_contains(#[trigger] pts@[i]),
        exists|i: int| 0 <= i < pts@.len() && #[trigger] pts@[i].x == b.min_x,
        exists|i: int| 0 <= i < pts@.len() && #[trigger] pts@[i].x == b.max_x,
        exists|i: int| 0 <= i < pts@.len() && #[trigger] pts@[i].y == b.min_y,
        exists|i: int| 0 <= i < pts@.len() && #[trigger] pts@[i].y == b.max_y,
{
    let first = pts[0];
    let mut b = Bounds { min_x: first.x, min_y: first.y, max_x: first.x, max_y: first.y };
    let mut k: usize = 1;
    while k < pts.len()
        invariant
            1 <= k <= pts@.len(),
            b.wf(),
            forall|i: int| 0 <= i < k ==> b.spec_contains(#[trigger] pts@[i]),
            exists|i: int| 0 <= i < k && #[trigger] pts@[i].x == b.min_x,
            exists|i: int| 0 <= i < k && #[trigger] pts@[i].x == b.max_x,
            exists|i: int| 0 <= i < k && #[trigger] pts@[i].y == b.min_y,
            exists|i: int| 0 <= i < k && #[trigger] pts@[i].y == b.max_y,
        decreases pts@.len() - k,
    {
        let p = pts[k];
        if p.x < b.min_x {
            b.min_x = p.x;
        }
        if p.x > b.max_x {
            b.max_x = p.x;
        }
        if p.y < b.min_y {
            b.min_y = p.y;
        }
        if p.y > b.max_y {
            b.max_y = p.y;
        }
        k = k + 1;
    }
    b
}

} // verus!
