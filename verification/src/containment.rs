//! Exact point-in-polygon predicate: the crossing-number (ray casting) test
//! over the exterior ring, with interior rings (holes) excluding the point.
//!
//! The horizontal ray goes to the right of the query point. An edge is
//! crossed when one endpoint lies strictly above the ray's line, the other
//! does not, and the crossing abscissa strictly exceeds the point's `x`.
//! The comparison is made in exact integer arithmetic (no division), so an
//! edge with both endpoints at the same `y` never divides by zero: it simply
//! never straddles the ray. Points exactly on an edge follow whichever side
//! the strict comparisons put them on; no tolerance is applied.

use vstd::prelude::*;
use crate::geometry::Point;
use crate::geometry::Polygon;
use crate::geometry::PolygonModel;
use crate::geometry::point_bounded;
use crate::geometry::ring_wf;
use crate::geometry::polygon_wf;
use crate::bbox::bbox_spec;
use crate::bbox::box_contains_pt;
use crate::bbox::lemma_bbox_covers;

verus! {

/// One endpoint strictly above the ray's line, the other not.
pub open spec fn edge_straddles(a: Point, b: Point, p: Point) -> bool {
    (a.y > p.y) != (b.y > p.y)
}

/// Sign-carrying comparison of the crossing abscissa with `p.x`: for an edge
/// straddling the ray, the ray crosses the edge right of `p` exactly when
/// this value has the sign of `b.y - a.y`.
pub open spec fn edge_cross_val(a: Point, b: Point, p: Point) -> int {
    (a.x - p.x) * (b.y - a.y) + (p.y - a.y) * (b.x - a.x)
}

/// The rightward horizontal ray from `p` crosses the open edge `(a, b)`.
pub open spec fn edge_crosses(a: Point, b: Point, p: Point) -> bool {
    &&& edge_straddles(a, b, p)
    &&& if b.y > a.y {
        edge_cross_val(a, b, p) > 0
    } else {
        edge_cross_val(a, b, p) < 0
    }
}

/// Number of edges among `(r[0],r[1]) .. (r[k-1],r[k])` that the ray crosses.
pub open spec fn crossings(r: Seq<Point>, p: Point, k: int) -> nat
    decreases k,
{
    if k <= 0 {
        0
    } else {
        crossings(r, p, k - 1) + if edge_crosses(r[k - 1], r[k], p) {
            1nat
        } else {
            0nat
        }
    }
}

/// Ring membership by crossing-number parity over the closed ring's edges.
pub open spec fn ring_contains(r: Seq<Point>, p: Point) -> bool {
    crossings(r, p, r.len() - 1) % 2 == 1
}

/// A polygon contains a point when its exterior ring does and no hole does.
pub open spec fn polygon_contains(m: PolygonModel, p: Point) -> bool {
    &&& ring_contains(m.rings[0], p)
    &&& forall|i: int| 1 <= i < m.rings.len() ==> !ring_contains(#[trigger] m.rings[i], p)
}

/// If no edge up to `k` is crossed, the crossing count up to `k` is zero.
proof fn lemma_crossings_zero(r: Seq<Point>, p: Point, k: int)
    requires
        0 <= k < r.len(),
        forall|i: int| 0 <= i < k ==> !edge_crosses(#[trigger] r[i], r[i + 1], p),
    ensures
        crossings(r, p, k) == 0,
    decreases k,
{
    if k > 0 {
        lemma_crossings_zero(r, p, k - 1);
    }
}

/// A crossed edge has an endpoint strictly right of the query point.
proof fn lemma_cross_x_upper(a: Point, b: Point, p: Point)
    requires
        edge_crosses(a, b, p),
    ensures
        p.x < a.x || p.x < b.x,
{
    let u = a.x - p.x;
    let v = b.x - p.x;
    let s = a.y - p.y;
    let t = b.y - p.y;
    assert(edge_cross_val(a, b, p) == u * t - s * v) by (nonlinear_arith)
        requires
            u == a.x - p.x,
            v == b.x - p.x,
            s == a.y - p.y,
            t == b.y - p.y,
            edge_cross_val(a, b, p) == (a.x - p.x) * (b.y - a.y) + (p.y - a.y) * (b.x - a.x),
    ;
    if p.x >= a.x && p.x >= b.x {
        if b.y > a.y {
            assert(u * t <= 0 && s * v >= 0) by (nonlinear_arith)
                requires
                    u <= 0,
                    v <= 0,
                    t > 0,
                    s <= 0,
            ;
        } else {
            assert(u * t >= 0 && s * v <= 0) by (nonlinear_arith)
                requires
                    u <= 0,
                    v <= 0,
                    t <= 0,
                    s > 0,
            ;
        }
    }
}

/// Left of both endpoints, every straddling edge is crossed.
proof fn lemma_low_x_crosses(a: Point, b: Point, p: Point)
    requires
        edge_straddles(a, b, p),
        p.x < a.x,
        p.x < b.x,
    ensures
        edge_crosses(a, b, p),
{
    let u = a.x - p.x;
    let v = b.x - p.x;
    let s = a.y - p.y;
    let t = b.y - p.y;
    assert(edge_cross_val(a, b, p) == u * t - s * v) by (nonlinear_arith)
        requires
            u == a.x - p.x,
            v == b.x - p.x,
            s == a.y - p.y,
            t == b.y - p.y,
            edge_cross_val(a, b, p) == (a.x - p.x) * (b.y - a.y) + (p.y - a.y) * (b.x - a.x),
    ;
    if b.y > a.y {
        assert(u * t > 0 && s * v <= 0) by (nonlinear_arith)
            requires
                u > 0,
                v > 0,
                t > 0,
                s <= 0,
        ;
    } else {
        assert(u * t <= 0 && s * v > 0) by (nonlinear_arith)
            requires
                u > 0,
                v > 0,
                t <= 0,
                s > 0,
        ;
    }
}

/// Strictly left of the whole ring, the crossing count up to `k` has the
/// parity of the straddle between the ring's first and `k`-th points.
proof fn lemma_low_x_parity(r: Seq<Point>, p: Point, k: int)
    requires
        0 <= k < r.len(),
        forall|i: int| 0 <= i < r.len() ==> p.x < (#[trigger] r[i]).x,
    ensures
        crossings(r, p, k) % 2 == if (r[0].y > p.y) != (r[k].y > p.y) {
            1int
        } else {
            0int
        },
    decreases k,
{
    if k > 0 {
        lemma_low_x_parity(r, p, k - 1);
        if edge_straddles(r[k - 1], r[k], p) {
            lemma_low_x_crosses(r[k - 1], r[k], p);
        } else {
            if edge_crosses(r[k - 1], r[k], p) {
                assert(false);
            }
        }
    }
}

/// A point the ring contains lies inside the ring's bounding box: the
/// coarse box phase never excludes a true match.
pub proof fn lemma_ring_contains_in_bbox(r: Seq<Point>, p: Point)
    requires
        r.len() >= 2,
        r[0] == r[r.len() - 1],
        ring_contains(r, p),
    ensures
        box_contains_pt(bbox_spec(r), p),
{
    let b = bbox_spec(r);
    lemma_bbox_covers(r);
    let k = r.len() - 1;
    if p.y < b.min_y || p.y >= b.max_y {
        assert forall|i: int| 0 <= i < k implies !edge_crosses(#[trigger] r[i], r[i + 1], p) by {
            assert(box_contains_pt(b, r[i]));
            assert(box_contains_pt(b, r[i + 1]));
        }
        lemma_crossings_zero(r, p, k);
        assert(false);
    }
    if p.x >= b.max_x {
        assert forall|i: int| 0 <= i < k implies !edge_crosses(#[trigger] r[i], r[i + 1], p) by {
            if edge_crosses(r[i], r[i + 1], p) {
                lemma_cross_x_upper(r[i], r[i + 1], p);
                assert(box_contains_pt(b, r[i]));
                assert(box_contains_pt(b, r[i + 1]));
            }
        }
        lemma_crossings_zero(r, p, k);
        assert(false);
    }
    if p.x < b.min_x {
        assert forall|i: int| 0 <= i < r.len() implies p.x < (#[trigger] r[i]).x by {
            assert(box_contains_pt(b, r[i]));
        }
        lemma_low_x_parity(r, p, k);
        assert(false);
    }
}

/// A point a polygon contains lies inside its exterior ring's bounding box.
pub proof fn lemma_polygon_contains_in_bbox(m: PolygonModel, p: Point)
    requires
        polygon_wf(m),
        polygon_contains(m, p),
    ensures
        box_contains_pt(bbox_spec(m.rings[0]), p),
{
    assert(ring_wf(m.rings[0]));
    lemma_ring_contains_in_bbox(m.rings[0], p);
}

/// A point inside a hole is excluded, whatever the exterior ring says.
pub proof fn lemma_hole_excludes(m: PolygonModel, p: Point, h: int)
    requires
        1 <= h < m.rings.len(),
        ring_contains(m.rings[h], p),
    ensures
        !polygon_contains(m, p),
{
}

/// Exact edge test in `i128`; never overflows for bounded edge endpoints,
/// whatever the query point.
fn edge_crosses_exec(a: Point, b: Point, p: Point) -> (res: bool)
    requires
        point_bounded(a),
        point_bounded(b),
    ensures
        res == edge_crosses(a, b, p),
{
    let straddles = (a.y > p.y) != (b.y > p.y);
    if !straddles {
        return false;
    }
    let dxa: i128 = a.x as i128 - p.x as i128;
    let dy: i128 = b.y as i128 - a.y as i128;
    let ty: i128 = p.y as i128 - a.y as i128;
    let dx: i128 = b.x as i128 - a.x as i128;
    assert(-18446744073709551616i128 <= dxa <= 18446744073709551616i128);
    assert(-2000000000i128 <= dy <= 2000000000i128);
    assert(-18446744073709551616i128 <= ty <= 18446744073709551616i128);
    assert(-2000000000i128 <= dx <= 2000000000i128);
    assert(-36893488147419103232000000000i128 <= dxa * dy <= 36893488147419103232000000000i128)
        by (nonlinear_arith)
        requires
            -18446744073709551616i128 <= dxa <= 18446744073709551616i128,
            -2000000000i128 <= dy <= 2000000000i128,
    ;
    assert(-36893488147419103232000000000i128 <= ty * dx <= 36893488147419103232000000000i128)
        by (nonlinear_arith)
        requires
            -18446744073709551616i128 <= ty <= 18446744073709551616i128,
            -2000000000i128 <= dx <= 2000000000i128,
    ;
    let val: i128 = dxa * dy + ty * dx;
    if b.y > a.y {
        val > 0
    } else {
        val < 0
    }
}

/// Crossing-number parity over one ring.
fn ring_contains_exec(r: &Vec<Point>, p: Point) -> (res: bool)
    requires
        ring_wf(r@),
    ensures
        res == ring_contains(r@, p),
{
    let n = r.len();
    let mut inside = false;
    for i in 0..(n - 1)
        invariant
            n == r@.len(),
            ring_wf(r@),
            inside == (crossings(r@, p, i as int) % 2 == 1),
    {
        if edge_crosses_exec(r[i], r[i + 1], p) {
            inside = !inside;
        }
    }
    inside
}

/// Exact containment test: inside the exterior ring and outside every hole.
pub fn contains(poly: &Polygon, p: Point) -> (res: bool)
    requires
        polygon_wf(poly@),
    ensures
        res == polygon_contains(poly@, p),
{
    assert(poly@.rings[0] == poly.rings@[0]@);
    if !ring_contains_exec(&poly.rings[0], p) {
        return false;
    }
    let n = poly.rings.len();
    for i in 1..n
        invariant
            n == poly.rings@.len(),
            polygon_wf(poly@),
            ring_contains(poly@.rings[0], p),
            forall|j: int| 1 <= j < i ==> !ring_contains(#[trigger] poly@.rings[j], p),
    {
        assert(poly@.rings[i as int] == poly.rings@[i as int]@);
        if ring_contains_exec(&poly.rings[i], p) {
            assert(ring_contains(poly@.rings[i as int], p));
            return false;
        }
    }
    true
}

} // verus!
