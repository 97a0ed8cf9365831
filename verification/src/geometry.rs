//! Value types for points, rings and polygons-with-holes, and their
//! construction-time validation.

use vstd::prelude::*;

verus! {

/// Coordinates of loaded geometry are kept within this bound so that every
/// product computed by the containment test and the index fits in `i128`.
pub const COORD_LIMIT: i64 = 1_000_000_000;

/// A point on the fixed-point coordinate grid.
#[derive(Clone, Copy, PartialEq, Eq, Structural, Debug)]
pub struct Point {
    pub x: i64,
    pub y: i64,
}

/// Why a polygon was rejected at construction.
#[derive(Clone, Copy, PartialEq, Eq, Structural, Debug)]
pub enum GeoError {
    /// A ring was too short, unclosed, or out of coordinate range,
    /// or the polygon had no rings at all.
    InvalidGeometry,
}

/// A polygon: `rings[0]` is the exterior ring, the rest are holes.
/// Rings are closed: the first point equals the last point, exactly.
pub struct Polygon {
    pub rings: Vec<Vec<Point>>,
    pub id: Option<String>,
    pub properties: Option<String>,
}

/// Mathematical model of a polygon.
#[verifier::ext_equal]
pub ghost struct PolygonModel {
    pub rings: Seq<Seq<Point>>,
    pub id: Option<Seq<char>>,
    pub properties: Option<Seq<char>>,
}

/// The rings of a polygon as a sequence of point sequences.
pub open spec fn rings_view(rings: Vec<Vec<Point>>) -> Seq<Seq<Point>> {
    Seq::new(rings@.len(), |i: int| rings@[i]@)
}

impl View for Polygon {
    type V = PolygonModel;

    open spec fn view(&self) -> PolygonModel {
        PolygonModel {
            rings: rings_view(self.rings),
            id: match self.id {
                Some(s) => Some(s@),
                None => None,
            },
            properties: match self.properties {
                Some(s) => Some(s@),
                None => None,
            },
        }
    }
}

pub open spec fn point_bounded(p: Point) -> bool {
    &&& -COORD_LIMIT <= p.x <= COORD_LIMIT
    &&& -COORD_LIMIT <= p.y <= COORD_LIMIT
}

/// A well-formed ring: at least four points, closed, within coordinate range.
pub open spec fn ring_wf(r: Seq<Point>) -> bool {
    &&& r.len() >= 4
    &&& r[0] == r[r.len() - 1]
    &&& forall|i: int| 0 <= i < r.len() ==> point_bounded(#[trigger] r[i])
}

/// A well-formed polygon: a mandatory exterior ring, every ring well-formed.
pub open spec fn polygon_wf(m: PolygonModel) -> bool {
    &&& m.rings.len() >= 1
    &&& forall|i: int| 0 <= i < m.rings.len() ==> ring_wf(#[trigger] m.rings[i])
}

/// The models of a polygon table, in insertion order.
pub open spec fn polys_view(v: Vec<Polygon>) -> Seq<PolygonModel> {
    Seq::new(v@.len(), |i: int| v@[i]@)
}

fn clone_points(v: &Vec<Point>) -> (r: Vec<Point>)
    ensures
        r@ == v@,
{
    let mut r: Vec<Point> = Vec::new();
    let n = v.len();
    for i in 0..n
        invariant
            n == v@.len(),
            r@ == v@.take(i as int),
    {
        r.push(v[i]);
        proof {
            assert(v@.take(i + 1) =~= v@.take(i as int).push(v@[i as int]));
        }
    }
    proof {
        assert(v@.take(n as int) =~= v@);
    }
    r
}

fn clone_rings(v: &Vec<Vec<Point>>) -> (r: Vec<Vec<Point>>)
    ensures
        rings_view(r) == rings_view(*v),
{
    let mut r: Vec<Vec<Point>> = Vec::new();
    let n = v.len();
    for i in 0..n
        invariant
            n == v@.len(),
            r@.len() == i,
            forall|j: int| 0 <= j < i ==> #[trigger] r@[j]@ == v@[j]@,
    {
        r.push(clone_points(&v[i]));
    }
    proof {
        assert(rings_view(r) =~= rings_view(*v));
    }
    r
}

/// A deep copy: the copy and the source have the same model.
pub fn clone_polygon(p: &Polygon) -> (r: Polygon)
    ensures
        r@ == p@,
{
    let rings = clone_rings(&p.rings);
    let id = match &p.id {
        Some(s) => Some(s.clone()),
        None => None,
    };
    let properties = match &p.properties {
        Some(s) => Some(s.clone()),
        None => None,
    };
    let r = Polygon { rings, id, properties };
    proof {
        assert(r@ =~= p@);
    }
    r
}

/// Checks one ring: length, exact closure, coordinate range.
pub fn check_ring(r: &Vec<Point>) -> (ok: bool)
    ensures
        ok == ring_wf(r@),
{
    let n = r.len();
    if n < 4 {
        return false;
    }
    if r[0] != r[n - 1] {
        return false;
    }
    for i in 0..n
        invariant
            n == r@.len(),
            forall|j: int| 0 <= j < i ==> point_bounded(#[trigger] r@[j]),
    {
        let p = r[i];
        if p.x < -COORD_LIMIT || p.x > COORD_LIMIT || p.y < -COORD_LIMIT || p.y > COORD_LIMIT {
            return false;
        }
    }
    true
}

/// Checks a whole polygon: at least one ring, every ring well-formed.
pub fn check_polygon(p: &Polygon) -> (ok: bool)
    ensures
        ok == polygon_wf(p@),
{
    let n = p.rings.len();
    if n == 0 {
        return false;
    }
    for i in 0..n
        invariant
            n == p.rings@.len(),
            forall|j: int| 0 <= j < i ==> ring_wf(#[trigger] p@.rings[j]),
    {
        if !check_ring(&p.rings[i]) {
            assert(!ring_wf(p@.rings[i as int]));
            return false;
        }
        assert(ring_wf(p@.rings[i as int]));
    }
    true
}

} // verus!
