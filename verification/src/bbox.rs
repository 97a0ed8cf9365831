//! Axis-aligned bounding boxes over rings of the fixed-point grid.

use vstd::prelude::*;
use crate::geometry::Point;
use crate::geometry::COORD_LIMIT;
use crate::geometry::point_bounded;

verus! {

/// Axis-aligned rectangle, `min` and `max` corners inclusive.
#[derive(Clone, Copy, PartialEq, Eq, Structural, Debug)]
pub struct BoundingBox {
    pub min_x: i64,
    pub min_y: i64,
    pub max_x: i64,
    pub max_y: i64,
}

/// The degenerate box holding exactly one point.
pub open spec fn point_box(p: Point) -> BoundingBox {
    BoundingBox { min_x: p.x, min_y: p.y, max_x: p.x, max_y: p.y }
}

pub open spec fn spec_min(a: i64, b: i64) -> i64 {
    if a <= b {
        a
    } else {
        b
    }
}

pub open spec fn spec_max(a: i64, b: i64) -> i64 {
    if a >= b {
        a
    } else {
        b
    }
}

/// The smallest box covering both arguments.
pub open spec fn box_union(a: BoundingBox, b: BoundingBox) -> BoundingBox {
    BoundingBox {
        min_x: spec_min(a.min_x, b.min_x),
        min_y: spec_min(a.min_y, b.min_y),
        max_x: spec_max(a.max_x, b.max_x),
        max_y: spec_max(a.max_y, b.max_y),
    }
}

pub open spec fn box_contains_pt(b: BoundingBox, p: Point) -> bool {
    &&& b.min_x <= p.x <= b.max_x
    &&& b.min_y <= p.y <= b.max_y
}

pub open spec fn box_in_box(inner: BoundingBox, outer: BoundingBox) -> bool {
    &&& outer.min_x <= inner.min_x
    &&& outer.min_y <= inner.min_y
    &&& inner.max_x <= outer.max_x
    &&& inner.max_y <= outer.max_y
}

pub open spec fn box_bounded(b: BoundingBox) -> bool {
    &&& -COORD_LIMIT <= b.min_x <= COORD_LIMIT
    &&& -COORD_LIMIT <= b.min_y <= COORD_LIMIT
    &&& -COORD_LIMIT <= b.max_x <= COORD_LIMIT
    &&& -COORD_LIMIT <= b.max_y <= COORD_LIMIT
}

/// The bounding box of a non-empty point sequence: the left fold of
/// single-point boxes under union.
pub open spec fn bbox_spec(r: Seq<Point>) -> BoundingBox
    decreases r.len(),
{
    if r.len() <= 1 {
        point_box(r[0])
    } else {
        box_union(bbox_spec(r.drop_last()), point_box(r[r.len() - 1]))
    }
}

/// Every point of the sequence lies inside its bounding box.
pub proof fn lemma_bbox_covers(r: Seq<Point>)
    requires
        r.len() >= 1,
    ensures
        forall|i: int| 0 <= i < r.len() ==> box_contains_pt(bbox_spec(r), #[trigger] r[i]),
    decreases r.len(),
{
    if r.len() > 1 {
        lemma_bbox_covers(r.drop_last());
        assert forall|i: int| 0 <= i < r.len() implies box_contains_pt(
            bbox_spec(r),
            #[trigger] r[i],
        ) by {
            if i < r.len() - 1 {
                assert(box_contains_pt(bbox_spec(r.drop_last()), r.drop_last()[i]));
            }
        }
    }
}

/// A box folded over bounded points is itself bounded.
pub proof fn lemma_bbox_bounded(r: Seq<Point>)
    requires
        r.len() >= 1,
        forall|i: int| 0 <= i < r.len() ==> point_bounded(#[trigger] r[i]),
    ensures
        box_bounded(bbox_spec(r)),
    decreases r.len(),
{
    if r.len() > 1 {
        lemma_bbox_bounded(r.drop_last());
    }
}

/// Exact computation of `bbox_spec` over a ring.
pub fn bbox_of_ring(r: &Vec<Point>) -> (b: BoundingBox)
    requires
        r@.len() >= 1,
    ensures
        b == bbox_spec(r@),
{
    let p0 = r[0];
    let mut b = BoundingBox { min_x: p0.x, min_y: p0.y, max_x: p0.x, max_y: p0.y };
    assert(r@.take(1).len() == 1 && r@.take(1)[0] == r@[0]);
    assert(b == bbox_spec(r@.take(1)));
    let n = r.len();
    for i in 1..n
        invariant
            1 <= i <= n,
            n == r@.len(),
            b == bbox_spec(r@.take(i as int)),
    {
        let p = r[i];
        let nb = BoundingBox {
            min_x: if p.x < b.min_x {
                p.x
            } else {
                b.min_x
            },
            min_y: if p.y < b.min_y {
                p.y
            } else {
                b.min_y
            },
            max_x: if p.x > b.max_x {
                p.x
            } else {
                b.max_x
            },
            max_y: if p.y > b.max_y {
                p.y
            } else {
                b.max_y
            },
        };
        proof {
            let t = r@.take(i + 1);
            assert(t.drop_last() =~= r@.take(i as int));
            assert(t[t.len() - 1] == r@[i as int]);
            assert(nb == box_union(bbox_spec(t.drop_last()), point_box(t[t.len() - 1])));
        }
        b = nb;
    }
    proof {
        assert(r@.take(n as int) =~= r@);
    }
    b
}

} // verus!
