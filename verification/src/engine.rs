//! The query engine: one immutable generation of the index, and the
//! two-phase point query over it — coarse candidates from the bounding-box
//! tree, then the exact containment test, in candidate order.

use vstd::prelude::*;
use crate::geometry::Point;
use crate::geometry::Polygon;
use crate::geometry::PolygonModel;
use crate::geometry::polygon_wf;
use crate::geometry::polys_view;
use crate::bbox::bbox_spec;
use crate::bbox::box_contains_pt;
use crate::containment::contains;
use crate::containment::polygon_contains;
use crate::containment::lemma_polygon_contains_in_bbox;
use crate::index::BoundingBoxIndex;
use crate::index::IndexEntry;
use crate::index::cand_pred;
use crate::index::lemma_filter_sub;

verus! {

broadcast use vstd::seq_lib::group_filter_ensures;

/// One immutable snapshot: the polygon table in insertion order, and the
/// coarse index over it. Queries borrow a generation; loads replace it.
pub struct Generation {
    pub polygons: Vec<Polygon>,
    pub index: BoundingBoxIndex,
}

/// The index entry a position `i` must be represented by: the exact
/// bounding box of that polygon's exterior ring.
pub open spec fn canonical_entry(ps: Seq<PolygonModel>, i: int) -> IndexEntry {
    IndexEntry { bbox: bbox_spec(ps[i].rings[0]), position: i as usize }
}

pub open spec fn canonical_entries(ps: Seq<PolygonModel>) -> Seq<IndexEntry> {
    Seq::new(ps.len(), |i: int| canonical_entry(ps, i))
}

/// An entry speaks of a real polygon and carries its exact exterior box.
pub open spec fn entry_ok(ps: Seq<PolygonModel>, e: IndexEntry) -> bool {
    &&& e.position < ps.len()
    &&& e.bbox == bbox_spec(ps[e.position as int].rings[0])
}

/// Some indexed entry carries position `i`.
pub open spec fn has_entry_for(es: Seq<IndexEntry>, i: int) -> bool {
    exists|k: int| 0 <= k < es.len() && (#[trigger] es[k]).position == i
}

/// A consistent generation: every stored polygon is well-formed, every
/// indexed entry is exact for its polygon, and every polygon is indexed.
pub open spec fn gen_wf(g: Generation) -> bool {
    let ps = polys_view(g.polygons);
    let es = g.index.entries();
    &&& g.index.wf()
    &&& ps.len() <= usize::MAX
    &&& es.len() == ps.len()
    &&& forall|k: int| 0 <= k < es.len() ==> entry_ok(ps, #[trigger] es[k])
    &&& forall|i: int| 0 <= i < ps.len() ==> polygon_wf(#[trigger] ps[i])
    &&& forall|i: int| 0 <= i < ps.len() ==> has_entry_for(es, i)
}

/// A freshly bulk-loaded generation: the tree's traversal order is exactly
/// insertion order, with the canonical entry at each position.
pub open spec fn gen_bulk(g: Generation) -> bool {
    g.index.entries() == canonical_entries(polys_view(g.polygons))
}

/// The first candidate, at or after `j`, whose polygon contains the point.
pub open spec fn first_match_from(
    cs: Seq<IndexEntry>,
    ps: Seq<PolygonModel>,
    p: Point,
    j: int,
) -> Option<int>
    decreases cs.len() - j,
{
    if j < 0 || j >= cs.len() {
        None
    } else if polygon_contains(ps[cs[j].position as int], p) {
        Some(j)
    } else {
        first_match_from(cs, ps, p, j + 1)
    }
}

/// The first candidate whose polygon contains the point, if any.
pub open spec fn first_match(cs: Seq<IndexEntry>, ps: Seq<PolygonModel>, p: Point) -> Option<
    int,
> {
    first_match_from(cs, ps, p, 0)
}

pub proof fn lemma_first_match_props(
    cs: Seq<IndexEntry>,
    ps: Seq<PolygonModel>,
    p: Point,
    j0: int,
)
    requires
        0 <= j0 <= cs.len(),
    ensures
        match first_match_from(cs, ps, p, j0) {
            Some(j) => j0 <= j < cs.len() && polygon_contains(ps[cs[j].position as int], p)
                && forall|k: int|
                j0 <= k < j ==> !polygon_contains(ps[(#[trigger] cs[k]).position as int], p),
            None => forall|k: int|
                j0 <= k < cs.len() ==> !polygon_contains(
                    ps[(#[trigger] cs[k]).position as int],
                    p,
                ),
        },
    decreases cs.len() - j0,
{
    if j0 < cs.len() && !polygon_contains(ps[cs[j0].position as int], p) {
        lemma_first_match_props(cs, ps, p, j0 + 1);
    }
}

/// The result of one point query.
pub struct QueryResult {
    pub found: bool,
    pub matched_id: Option<String>,
    pub matched_position: Option<usize>,
    pub candidates_checked: usize,
    pub elapsed_us: u64,
}

/// The results of one batch query; elapsed time applies to the whole batch.
pub struct BatchResult {
    pub results: Vec<QueryResult>,
    pub total_elapsed_us: u64,
}

pub open spec fn opt_id_view(o: Option<String>) -> Option<Seq<char>> {
    match o {
        Some(s) => Some(s@),
        None => None,
    }
}

/// What a query must report, apart from elapsed time: the first candidate
/// whose polygon contains the point, in candidate order; how many
/// candidates were tested before stopping; nothing on no match.
pub open spec fn result_matches(g: Generation, p: Point, r: QueryResult) -> bool {
    let ps = polys_view(g.polygons);
    let cs = g.index.candidates(p);
    match first_match(cs, ps, p) {
        Some(j) => {
            &&& r.found
            &&& r.matched_position == Some(cs[j].position)
            &&& opt_id_view(r.matched_id) == ps[cs[j].position as int].id
            &&& r.candidates_checked == j + 1
        },
        None => {
            &&& !r.found
            &&& r.matched_position is None
            &&& r.matched_id is None
            &&& r.candidates_checked == cs.len()
        },
    }
}

/// Members of the candidate list are indexed entries, hence exact.
proof fn lemma_candidate_ok(g: Generation, p: Point, j: int)
    requires
        gen_wf(g),
        0 <= j < g.index.candidates(p).len(),
    ensures
        entry_ok(polys_view(g.polygons), g.index.candidates(p)[j]),
        box_contains_pt(g.index.candidates(p)[j].bbox, p),
{
    let es = g.index.entries();
    let cs = g.index.candidates(p);
    lemma_filter_sub(es, cand_pred(p));
    assert(cs.contains(cs[j]));
    assert(es.contains(cs[j]));
    let k = choose|k: int| 0 <= k < es.len() && es[k] == cs[j];
    assert(entry_ok(polys_view(g.polygons), es[k]));
    assert(cand_pred(p)(cs[j]));
}

/// The coarse phase never excludes a true match: whichever polygon
/// contains the point, an entry for it stands among the candidates.
pub proof fn lemma_candidates_superset(g: Generation, p: Point, i: int)
    requires
        gen_wf(g),
        0 <= i < polys_view(g.polygons).len(),
        polygon_contains(polys_view(g.polygons)[i], p),
    ensures
        exists|k: int|
            0 <= k < g.index.candidates(p).len() && (#[trigger] g.index.candidates(
                p,
            )[k]).position == i,
{
    let ps = polys_view(g.polygons);
    let es = g.index.entries();
    let cs = g.index.candidates(p);
    assert(has_entry_for(es, i));
    let k = choose|k: int| 0 <= k < es.len() && (#[trigger] es[k]).position == i;
    let x = es[k];
    assert(entry_ok(ps, x));
    lemma_polygon_contains_in_bbox(ps[i], p);
    assert(cand_pred(p)(x));
    assert(cs.contains(es[k]));
    let k2 = choose|k2: int| 0 <= k2 < cs.len() && cs[k2] == x;
    assert((#[trigger] cs[k2]).position == i);
}

/// After a bulk load, each polygon's own canonical entry is among the
/// candidates for any point that polygon contains.
pub proof fn lemma_bulk_self_consistent(g: Generation, p: Point, i: int)
    requires
        gen_wf(g),
        gen_bulk(g),
        0 <= i < polys_view(g.polygons).len(),
        polygon_contains(polys_view(g.polygons)[i], p),
    ensures
        g.index.candidates(p).contains(canonical_entry(polys_view(g.polygons), i)),
{
    let ps = polys_view(g.polygons);
    let es = g.index.entries();
    let cs = g.index.candidates(p);
    assert(es[i] == canonical_entry(ps, i));
    lemma_polygon_contains_in_bbox(ps[i], p);
    assert(cand_pred(p)(es[i]));
    assert(cs.contains(es[i]));
}

/// A query finds a match exactly when some stored polygon contains the
/// point: the two-phase pipeline loses nothing and invents nothing.
pub proof fn lemma_query_found_iff(g: Generation, p: Point)
    requires
        gen_wf(g),
    ensures
        first_match(g.index.candidates(p), polys_view(g.polygons), p) is Some <==> exists|i: int|
            0 <= i < polys_view(g.polygons).len() && polygon_contains(
                #[trigger] polys_view(g.polygons)[i],
                p,
            ),
{
    let ps = polys_view(g.polygons);
    let cs = g.index.candidates(p);
    lemma_first_match_props(cs, ps, p, 0);
    match first_match(cs, ps, p) {
        Some(j) => {
            lemma_candidate_ok(g, p, j);
            assert(0 <= cs[j].position < ps.len() && polygon_contains(
                ps[cs[j].position as int],
                p,
            ));
        },
        None => {
            if exists|i: int|
                0 <= i < ps.len() && polygon_contains(#[trigger] ps[i], p) {
                let i = choose|i: int|
                    0 <= i < ps.len() && polygon_contains(#[trigger] ps[i], p);
                lemma_candidates_superset(g, p, i);
                let k = choose|k: int|
                    0 <= k < cs.len() && (#[trigger] cs[k]).position == i;
                assert(!polygon_contains(ps[cs[k].position as int], p));
            }
        },
    }
}

/// The two-phase query over one generation, without timing: candidates in
/// traversal order, exact test on each, stop at the first true match.
pub fn query_core(g: &Generation, p: Point) -> (r: QueryResult)
    requires
        gen_wf(*g),
    ensures
        result_matches(*g, p, r),
        r.elapsed_us == 0,
{
    let ghost ps = polys_view(g.polygons);
    let cands = g.index.query_candidates(p);
    let ghost cs = g.index.candidates(p);
    let m = cands.len();
    for j in 0..m
        invariant
            gen_wf(*g),
            ps == polys_view(g.polygons),
            cs == g.index.candidates(p),
            cands@ == cs,
            m == cs.len(),
            first_match(cs, ps, p) == first_match_from(cs, ps, p, j as int),
    {
        let e = cands[j];
        proof {
            lemma_candidate_ok(*g, p, j as int);
        }
        let pos = e.position;
        if contains(&g.polygons[pos], p) {
            let matched_id = match &g.polygons[pos].id {
                Some(s) => Some(s.clone()),
                None => None,
            };
            proof {
                assert(first_match_from(cs, ps, p, j as int) == Some(j as int));
                assert(ps[pos as int].id == opt_id_view(matched_id));
            }
            return QueryResult {
                found: true,
                matched_id,
                matched_position: Some(pos),
                candidates_checked: j + 1,
                elapsed_us: 0,
            };
        }
    }
    proof {
        assert(first_match_from(cs, ps, p, m as int) is None);
    }
    QueryResult {
        found: false,
        matched_id: None,
        matched_position: None,
        candidates_checked: m,
        elapsed_us: 0,
    }
}

} // verus!
