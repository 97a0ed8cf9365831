//! The index store: owner of the current generation. Loads replace the
//! generation wholesale and are all-or-nothing; appends extend it without
//! rebuilding; queries read whichever generation is current. A host serving
//! concurrent readers puts the store behind its own reader-writer guard, so
//! a replacement is atomic from a reader's point of view.

use vstd::prelude::*;
use crate::geometry::GeoError;
use crate::geometry::Point;
use crate::geometry::Polygon;
use crate::geometry::PolygonModel;
use crate::geometry::check_polygon;
use crate::geometry::clone_polygon;
use crate::geometry::polygon_wf;
use crate::geometry::polys_view;
use crate::geometry::ring_wf;
use crate::bbox::bbox_of_ring;
use crate::bbox::box_bounded;
use crate::bbox::lemma_bbox_bounded;
use crate::clock::instant_now;
use crate::clock::elapsed_micros;
use crate::engine::BatchResult;
use crate::engine::Generation;
use crate::engine::QueryResult;
use crate::engine::canonical_entry;
use crate::engine::canonical_entries;
use crate::engine::entry_ok;
use crate::engine::gen_bulk;
use crate::engine::gen_wf;
use crate::engine::has_entry_for;
use crate::engine::opt_id_view;
use crate::engine::query_core;
use crate::engine::result_matches;
use crate::index::BoundingBoxIndex;
use crate::index::IndexEntry;

verus! {

broadcast use vstd::seq_lib::group_to_multiset_ensures, vstd::multiset::group_multiset_axioms;

/// What the stats operation reports.
pub struct IndexStats {
    pub polygon_count: usize,
}

/// Owner of the current generation.
pub struct IndexStore {
    pub gen: Generation,
}

/// Every polygon of the table is well-formed.
pub open spec fn all_wf(ps: Seq<PolygonModel>) -> bool {
    forall|i: int| 0 <= i < ps.len() ==> polygon_wf(#[trigger] ps[i])
}

fn validate_all(polys: &Vec<Polygon>) -> (ok: bool)
    ensures
        ok == all_wf(polys_view(*polys)),
{
    let n = polys.len();
    for i in 0..n
        invariant
            n == polys@.len(),
            forall|j: int| 0 <= j < i ==> polygon_wf(#[trigger] polys_view(*polys)[j]),
    {
        if !check_polygon(&polys[i]) {
            assert(!polygon_wf(polys_view(*polys)[i as int]));
            return false;
        }
        assert(polygon_wf(polys_view(*polys)[i as int]));
    }
    true
}

/// The canonical entry table: each polygon's exact exterior box, at its
/// insertion-order position.
fn build_entries(polys: &Vec<Polygon>) -> (es: Vec<IndexEntry>)
    requires
        all_wf(polys_view(*polys)),
    ensures
        es@ == canonical_entries(polys_view(*polys)),
        forall|i: int| 0 <= i < es@.len() ==> box_bounded((#[trigger] es@[i]).bbox),
{
    let ghost ps = polys_view(*polys);
    let n = polys.len();
    let mut es: Vec<IndexEntry> = Vec::new();
    for i in 0..n
        invariant
            n == polys@.len(),
            ps == polys_view(*polys),
            all_wf(ps),
            es@.len() == i,
            forall|j: int| 0 <= j < i ==> #[trigger] es@[j] == canonical_entry(ps, j),
            forall|j: int| 0 <= j < i ==> box_bounded((#[trigger] es@[j]).bbox),
    {
        proof {
            assert(polygon_wf(ps[i as int]));
            assert(ps[i as int].rings[0] == polys@[i as int].rings@[0]@);
            assert(ring_wf(ps[i as int].rings[0]));
            lemma_bbox_bounded(ps[i as int].rings[0]);
        }
        let b = bbox_of_ring(&polys[i].rings[0]);
        es.push(IndexEntry { bbox: b, position: i });
    }
    proof {
        assert(es@ =~= canonical_entries(ps));
    }
    es
}

/// A canonically indexed generation is consistent.
proof fn lemma_canonical_gen_wf(g: Generation)
    requires
        g.index.wf(),
        polys_view(g.polygons).len() <= usize::MAX,
        all_wf(polys_view(g.polygons)),
        gen_bulk(g),
    ensures
        gen_wf(g),
{
    let ps = polys_view(g.polygons);
    let es = g.index.entries();
    assert(es.len() == ps.len());
    assert forall|k: int| 0 <= k < es.len() implies entry_ok(ps, #[trigger] es[k]) by {
        assert(es[k] == canonical_entry(ps, k));
    }
    assert forall|i: int| 0 <= i < ps.len() implies has_entry_for(es, i) by {
        assert((#[trigger] es[i]).position == i);
    }
}

impl IndexStore {
    pub open spec fn wf(self) -> bool {
        gen_wf(self.gen)
    }

    /// The stored polygon models, in insertion order.
    pub open spec fn polygons(self) -> Seq<PolygonModel> {
        polys_view(self.gen.polygons)
    }

    /// A fresh store over the empty generation.
    pub fn new() -> (s: Self)
        ensures
            s.wf(),
            gen_bulk(s.gen),
            s.polygons().len() == 0,
    {
        let polygons: Vec<Polygon> = Vec::new();
        let index = BoundingBoxIndex::new();
        let g = Generation { polygons, index };
        proof {
            assert(polys_view(g.polygons).len() == 0);
            assert(g.index.entries() =~= canonical_entries(polys_view(g.polygons)));
            lemma_canonical_gen_wf(g);
        }
        IndexStore { gen: g }
    }

    /// Full replacement: validates the whole batch, then rebuilds the index
    /// from scratch by bulk construction. All-or-nothing: a malformed
    /// polygon anywhere rejects the batch and leaves the store untouched.
    pub fn load(&mut self, polys: Vec<Polygon>) -> (r: Result<usize, GeoError>)
        requires
            old(self).wf(),
        ensures
            match r {
                Ok(n) => {
                    &&& n == polys_view(polys).len()
                    &&& all_wf(polys_view(polys))
                    &&& final(self).wf()
                    &&& gen_bulk(final(self).gen)
                    &&& final(self).polygons() == polys_view(polys)
                },
                Err(e) => {
                    &&& e == GeoError::InvalidGeometry
                    &&& !all_wf(polys_view(polys))
                    &&& *final(self) == *old(self)
                },
            },
    {
        if !validate_all(&polys) {
            return Err(GeoError::InvalidGeometry);
        }
        let es = build_entries(&polys);
        let index = BoundingBoxIndex::bulk_build(es);
        let n = polys.len();
        let g = Generation { polygons: polys, index };
        proof {
            lemma_canonical_gen_wf(g);
        }
        self.gen = g;
        Ok(n)
    }

    /// Extends the live generation by one validated polygon: pushed at the
    /// next insertion-order position and inserted into the tree.
    fn append_one(&mut self, poly: Polygon)
        requires
            old(self).wf(),
            polygon_wf(poly@),
        ensures
            final(self).wf(),
            final(self).polygons() == old(self).polygons().push(poly@),
    {
        let ghost old_ps = polys_view(self.gen.polygons);
        let ghost old_es = self.gen.index.entries();
        proof {
            assert(poly@.rings[0] == poly.rings@[0]@);
            lemma_bbox_bounded(poly@.rings[0]);
        }
        let b = bbox_of_ring(&poly.rings[0]);
        let pos = self.gen.polygons.len();
        let e = IndexEntry { bbox: b, position: pos };
        self.gen.polygons.push(poly);
        let n2 = self.gen.polygons.len();
        proof {
            assert(n2 == pos + 1);
            assert(self.gen.index.count == pos);
        }
        self.gen.index.insert(e);
        proof {
            let ps = polys_view(self.gen.polygons);
            let es = self.gen.index.entries();
            assert(ps =~= old_ps.push(poly@));
            assert(es.to_multiset() == old_es.to_multiset().insert(e));
            assert(entry_ok(ps, e));
            assert forall|k: int| 0 <= k < es.len() implies entry_ok(ps, #[trigger] es[k]) by {
                let x = es[k];
                assert(es.contains(x));
                assert(es.to_multiset().count(x) > 0);
                if x == e {
                } else {
                    assert(old_es.to_multiset().count(x) > 0);
                    assert(old_es.contains(x));
                    let k0 = choose|k0: int| 0 <= k0 < old_es.len() && old_es[k0] == x;
                    assert(entry_ok(old_ps, old_es[k0]));
                    assert(ps[x.position as int] == old_ps[x.position as int]);
                }
            }
            assert forall|i: int| 0 <= i < ps.len() implies has_entry_for(es, i) by {
                if i < old_ps.len() {
                    assert(has_entry_for(old_es, i));
                    let k0 = choose|k0: int|
                        0 <= k0 < old_es.len() && (#[trigger] old_es[k0]).position == i;
                    let x = old_es[k0];
                    assert(old_es.contains(x));
                    assert(old_es.to_multiset().count(x) > 0);
                    assert(es.to_multiset().count(x) > 0);
                    assert(es.contains(x));
                    let k1 = choose|k1: int| 0 <= k1 < es.len() && es[k1] == x;
                    assert((#[trigger] es[k1]).position == i);
                } else {
                    assert(es.to_multiset().count(e) > 0);
                    assert(es.contains(e));
                    let k1 = choose|k1: int| 0 <= k1 < es.len() && es[k1] == e;
                    assert((#[trigger] es[k1]).position == i);
                }
            }
        }
    }

    /// Incremental load: validates the whole batch, then inserts each
    /// polygon without rebuilding the existing tree. All-or-nothing on
    /// validation, like a full load.
    pub fn append(&mut self, polys: Vec<Polygon>) -> (r: Result<usize, GeoError>)
        requires
            old(self).wf(),
        ensures
            match r {
                Ok(n) => {
                    &&& n == polys_view(polys).len()
                    &&& all_wf(polys_view(polys))
                    &&& final(self).wf()
                    &&& final(self).polygons() == old(self).polygons() + polys_view(polys)
                },
                Err(e) => {
                    &&& e == GeoError::InvalidGeometry
                    &&& !all_wf(polys_view(polys))
                    &&& *final(self) == *old(self)
                },
            },
    {
        if !validate_all(&polys) {
            return Err(GeoError::InvalidGeometry);
        }
        let ghost ps = polys_view(polys);
        let n = polys.len();
        for i in 0..n
            invariant
                n == polys@.len(),
                ps == polys_view(polys),
                all_wf(ps),
                self.wf(),
                self.polygons() == old(self).polygons() + ps.take(i as int),
        {
            proof {
                assert(polygon_wf(ps[i as int]));
            }
            let cp = clone_polygon(&polys[i]);
            self.append_one(cp);
            proof {
                assert(old(self).polygons() + ps.take(i + 1) =~= (old(self).polygons()
                    + ps.take(i as int)).push(ps[i as int]));
            }
        }
        proof {
            assert(old(self).polygons() + ps.take(n as int) =~= old(self).polygons() + ps);
        }
        Ok(n)
    }

    /// Rebuild to empty: the next generation holds no polygons.
    pub fn clear(&mut self)
        ensures
            final(self).wf(),
            gen_bulk(final(self).gen),
            final(self).polygons().len() == 0,
    {
        let s = IndexStore::new();
        self.gen = s.gen;
    }

    /// Entry count of the current generation, from the index's own tally.
    pub fn stats(&self) -> (st: IndexStats)
        requires
            self.wf(),
        ensures
            st.polygon_count == self.polygons().len(),
    {
        IndexStats { polygon_count: self.gen.index.size() }
    }

    /// The stored polygons, reconstructed ring by ring with id and
    /// properties, in insertion order: loading the result again reproduces
    /// the generation.
    pub fn export(&self) -> (out: Vec<Polygon>)
        requires
            self.wf(),
        ensures
            polys_view(out) == self.polygons(),
    {
        let n = self.gen.polygons.len();
        let mut out: Vec<Polygon> = Vec::new();
        for i in 0..n
            invariant
                n == self.gen.polygons@.len(),
                out@.len() == i,
                forall|j: int| 0 <= j < i ==> #[trigger] out@[j]@ == self.gen.polygons@[j]@,
        {
            out.push(clone_polygon(&self.gen.polygons[i]));
        }
        proof {
            assert(polys_view(out) =~= self.polygons());
        }
        out
    }

    /// Single point query with wall-clock timing.
    pub fn query_point(&self, p: Point) -> (r: QueryResult)
        requires
            self.wf(),
        ensures
            result_matches(self.gen, p, r),
    {
        let start = instant_now();
        let mut r = query_core(&self.gen, p);
        r.elapsed_us = elapsed_micros(&start);
        r
    }

    /// Batch query: per-point results in order, timing for the whole batch
    /// only; each per-item elapsed reads zero.
    pub fn query_points(&self, pts: Vec<Point>) -> (b: BatchResult)
        requires
            self.wf(),
        ensures
            b.results@.len() == pts@.len(),
            forall|i: int|
                0 <= i < pts@.len() ==> result_matches(self.gen, pts@[i], #[trigger] b.results@[i])
                    && b.results@[i].elapsed_us == 0,
    {
        let start = instant_now();
        let n = pts.len();
        let mut results: Vec<QueryResult> = Vec::new();
        for i in 0..n
            invariant
                n == pts@.len(),
                self.wf(),
                results@.len() == i,
                forall|j: int|
                    0 <= j < i ==> result_matches(self.gen, pts@[j], #[trigger] results@[j])
                        && results@[j].elapsed_us == 0,
        {
            results.push(query_core(&self.gen, pts[i]));
        }
        BatchResult { results, total_elapsed_us: elapsed_micros(&start) }
    }
}

/// Exporting a bulk-loaded store and loading the result elsewhere
/// reproduces every query answer: the generations hold the same polygons,
/// build the same canonical index, and so give the same candidates, the
/// same match, and the same diagnostics.
pub proof fn lemma_reload_reproduces_queries(s1: IndexStore, s2: IndexStore, p: Point)
    requires
        s1.wf(),
        s2.wf(),
        gen_bulk(s1.gen),
        gen_bulk(s2.gen),
        s1.polygons() == s2.polygons(),
    ensures
        s1.gen.index.candidates(p) == s2.gen.index.candidates(p),
        forall|r1: QueryResult, r2: QueryResult|
            #[trigger] result_matches(s1.gen, p, r1) && #[trigger] result_matches(s2.gen, p, r2)
                ==> r1.found == r2.found && r1.matched_position == r2.matched_position
                && opt_id_view(r1.matched_id) == opt_id_view(r2.matched_id)
                && r1.candidates_checked == r2.candidates_checked,
{
    assert(s1.gen.index.entries() == s2.gen.index.entries());
}

/// The engine state a hosting service mounts at startup: a fresh store.
pub fn rocket() -> (s: IndexStore)
    ensures
        s.wf(),
        gen_bulk(s.gen),
        s.polygons().len() == 0,
{
    IndexStore::new()
}

} // verus!
