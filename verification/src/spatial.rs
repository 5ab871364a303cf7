//! The spatial index: bounding rectangles mapped to entity identifiers, with
//! overlap queries against a point or a viewport rectangle. The index only
//! prunes by rectangle; exact hit-testing is the renderable registry's job.

use crate::geometry::{Pt, Rect};
use crate::render::ID;
use vstd::prelude::*;

verus! {

/// One index entry: the conservative bounding rectangle of an entity and its
/// identifier.
#[derive(Clone, Copy, PartialEq, Eq, Structural, Debug)]
pub struct IndexEntry {
    pub rect: Rect,
    pub id: ID,
}

/// Whether an entry's rectangle contains the point.
pub open spec fn point_hits(p: Pt) -> spec_fn(IndexEntry) -> bool {
    |e: IndexEntry| e.rect.spec_contains(p)
}

/// Whether an entry's rectangle overlaps the viewport rectangle.
pub open spec fn rect_hits(r: Rect) -> spec_fn(IndexEntry) -> bool {
    |e: IndexEntry| e.rect.spec_overlaps(r)
}

/// The identifiers of a list of entries, in order.
pub open spec fn ids_of(s: Seq<IndexEntry>) -> Seq<ID> {
    s.map_values(|e: IndexEntry| e.id)
}

/// Maps bounding rectangles to entity identifiers; built once per composer
/// construction and immutable until a map rebuild.
pub struct SpatialIndex {
    pub entries: Vec<IndexEntry>,
}

impl SpatialIndex {
    /// Consumes the (rectangle, identifier) pairs and returns the queryable
    /// index over exactly those entries, in order.
    pub fn build(entries: Vec<IndexEntry>) -> (s: Self)
        ensures
            s.entries@ == entries@,
    {
        SpatialIndex { entries }
    }

    /// All identifiers whose rectangle contains `p`, in entry order. The
    /// rectangles over-approximate the true geometry, so callers resolve
    /// ties with exact containment.
    pub fn query_point(&self, p: Pt) -> (r: Vec<ID>)
        ensures
            r@ == ids_of(self.entries@.filter(point_hits(p))),
    {
        let mut r: Vec<ID> = Vec::new();
        let ghost pred = point_hits(p);
        proof {
            assert(self.entries@.subrange(0, 0) =~= Seq::<IndexEntry>::empty());
            reveal(Seq::filter);
            assert(r@ =~= ids_of(self.entries@.subrange(0, 0).filter(pred)));
        }
        let mut j: usize = 0;
        while j < self.entries.len()
            invariant
                j <= self.entries@.len(),
                pred == point_hits(p),
                r@ == ids_of(self.entries@.subrange(0, j as int).filter(pred)),
            decreases self.entries@.len() - j,
        {
            let ghost r_before = r@;
            let e = self.entries[j];
            if e.rect.contains(p) {
                r.push(e.id);
            }
            proof {
                let prefix = self.entries@.subrange(0, j as int);
                let longer = self.entries@.subrange(0, j as int + 1);
                assert(longer.drop_last() =~= prefix);
                assert(longer.last() == e);
                reveal(Seq::filter);
                if pred(e) {
                    assert(longer.filter(pred) == prefix.filter(pred).push(e));
                    assert(ids_of(prefix.filter(pred).push(e)) =~= ids_of(
                        prefix.filter(pred),
                    ).push(e.id));
                    assert(r@ =~= r_before.push(e.id));
                } else {
                    assert(longer.filter(pred) == prefix.filter(pred));
                }
            }
            j = j + 1;
        }
        proof {
            assert(self.entries@.subrange(0, self.entries@.len() as int) =~= self.entries@);
        }
        r
    }

    /// All identifiers whose rectangle overlaps `vr`, in entry order; used
    /// for viewport culling.
    pub fn query_rect(&self, vr: Rect) -> (r: Vec<ID>)
        ensures
            r@ == ids_of(self.entries@.filter(rect_hits(vr))),
    {
        let mut r: Vec<ID> = Vec::new();
        let ghost pred = rect_hits(vr);
        proof {
            assert(self.entries@.subrange(0, 0) =~= Seq::<IndexEntry>::empty());
            reveal(Seq::filter);
            assert(r@ =~= ids_of(self.entries@.subrange(0, 0).filter(pred)));
        }
        let mut j: usize = 0;
        while j < self.entries.len()
            invariant
                j <= self.entries@.len(),
                pred == rect_hits(vr),
                r@ == ids_of(self.entries@.subrange(0, j as int).filter(pred)),
            decreases self.entries@.len() - j,
        {
            let ghost r_before = r@;
            let e = self.entries[j];
            if e.rect.overlaps(&vr) {
                r.push(e.id);
            }
            proof {
                let prefix = self.entries@.subrange(0, j as int);
                let longer = self.entries@.subrange(0, j as int + 1);
                assert(longer.drop_last() =~= prefix);
                assert(longer.last() == e);
                reveal(Seq::filter);
                if pred(e) {
                    assert(longer.filter(pred) == prefix.filter(pred).push(e));
                    assert(ids_of(prefix.filter(pred).push(e)) =~= ids_of(
                        prefix.filter(pred),
                    ).push(e.id));
                    assert(r@ =~= r_before.push(e.id));
                } else {
                    assert(longer.filter(pred) == prefix.filter(pred));
                }
            }
            j = j + 1;
        }
        proof {
            assert(self.entries@.subrange(0, self.entries@.len() as int) =~= self.entries@);
        }
        r
    }
}

} // verus!
