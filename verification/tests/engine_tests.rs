use pip_engine::geometry::GeoError;
use pip_engine::geometry::Point;
use pip_engine::geometry::Polygon;
use pip_engine::store::IndexStore;
use pip_engine::rocket;

fn pt(x: i64, y: i64) -> Point {
    Point { x, y }
}

fn ring(coords: &[(i64, i64)]) -> Vec<Point> {
    coords.iter().map(|&(x, y)| pt(x, y)).collect()
}

fn poly(rings: Vec<Vec<Point>>, id: Option<&str>) -> Polygon {
    Polygon { rings, id: id.map(|s| s.to_string()), properties: None }
}

fn unit_square_at(x0: i64, y0: i64, side: i64, id: &str) -> Polygon {
    poly(
        vec![ring(&[(x0, y0), (x0 + side, y0), (x0 + side, y0 + side), (x0, y0 + side), (x0, y0)])],
        Some(id),
    )
}

#[test]
fn single_square_query() {
    let mut s = IndexStore::new();
    let sq = poly(vec![ring(&[(0, 0), (4, 0), (4, 4), (0, 4), (0, 0)])], Some("sq1"));
    assert_eq!(s.load(vec![sq]), Ok(1));
    let hit = s.query_point(pt(2, 2));
    assert!(hit.found);
    assert_eq!(hit.matched_id, Some("sq1".to_string()));
    assert_eq!(hit.matched_position, Some(0));
    let miss = s.query_point(pt(5, 5));
    assert!(!miss.found);
    assert_eq!(miss.matched_id, None);
}

#[test]
fn square_with_hole() {
    // The spec's half-unit example, scaled by two onto the integer grid.
    let mut s = IndexStore::new();
    let p = poly(
        vec![
            ring(&[(0, 0), (8, 0), (8, 8), (0, 8), (0, 0)]),
            ring(&[(2, 2), (6, 2), (6, 6), (2, 6), (2, 2)]),
        ],
        Some("donut"),
    );
    assert_eq!(s.load(vec![p]), Ok(1));
    let in_hole = s.query_point(pt(4, 4));
    assert!(!in_hole.found);
    let in_rim = s.query_point(pt(1, 1));
    assert!(in_rim.found);
    assert_eq!(in_rim.matched_id, Some("donut".to_string()));
}

#[test]
fn batch_on_empty_index() {
    let s = IndexStore::new();
    let b = s.query_points(vec![pt(0, 0), pt(7, -3), pt(1000, 1000)]);
    assert_eq!(b.results.len(), 3);
    for r in &b.results {
        assert!(!r.found);
        assert_eq!(r.candidates_checked, 0);
        assert_eq!(r.matched_id, None);
    }
}

#[test]
fn short_ring_rejected() {
    let mut s = IndexStore::new();
    let bad = poly(vec![ring(&[(0, 0), (4, 0), (0, 0)])], None);
    assert_eq!(s.load(vec![bad]), Err(GeoError::InvalidGeometry));
    assert_eq!(s.stats().polygon_count, 0);
}

#[test]
fn unclosed_ring_rejected() {
    let mut s = IndexStore::new();
    let bad = poly(vec![ring(&[(0, 0), (4, 0), (4, 4), (0, 4)])], None);
    assert_eq!(s.load(vec![bad]), Err(GeoError::InvalidGeometry));
}

#[test]
fn no_rings_rejected() {
    let mut s = IndexStore::new();
    let bad = poly(vec![], None);
    assert_eq!(s.load(vec![bad]), Err(GeoError::InvalidGeometry));
}

#[test]
fn out_of_range_coordinate_rejected() {
    let mut s = IndexStore::new();
    let far = 2_000_000_000;
    let bad = poly(vec![ring(&[(0, 0), (far, 0), (far, far), (0, far), (0, 0)])], None);
    assert_eq!(s.load(vec![bad]), Err(GeoError::InvalidGeometry));
}

#[test]
fn bad_batch_leaves_prior_generation() {
    let mut s = IndexStore::new();
    assert_eq!(s.load(vec![unit_square_at(0, 0, 4, "keep")]), Ok(1));
    let bad = poly(vec![ring(&[(9, 9), (9, 9), (9, 9)])], None);
    let good = unit_square_at(10, 10, 4, "never");
    assert_eq!(s.load(vec![good, bad]), Err(GeoError::InvalidGeometry));
    assert_eq!(s.stats().polygon_count, 1);
    assert_eq!(s.query_point(pt(2, 2)).matched_id, Some("keep".to_string()));
    assert!(!s.query_point(pt(12, 12)).found);
}

#[test]
fn append_extends_without_replacing() {
    let mut s = IndexStore::new();
    assert_eq!(s.load(vec![unit_square_at(0, 0, 4, "a")]), Ok(1));
    assert_eq!(s.append(vec![unit_square_at(10, 0, 4, "b")]), Ok(1));
    assert_eq!(s.stats().polygon_count, 2);
    assert_eq!(s.query_point(pt(2, 2)).matched_id, Some("a".to_string()));
    assert_eq!(s.query_point(pt(12, 2)).matched_id, Some("b".to_string()));
}

#[test]
fn append_invalid_batch_is_atomic() {
    let mut s = IndexStore::new();
    assert_eq!(s.load(vec![unit_square_at(0, 0, 4, "a")]), Ok(1));
    let bad = poly(vec![ring(&[(0, 0), (1, 1), (0, 0)])], None);
    assert_eq!(
        s.append(vec![unit_square_at(10, 0, 4, "b"), bad]),
        Err(GeoError::InvalidGeometry)
    );
    assert_eq!(s.stats().polygon_count, 1);
    assert!(!s.query_point(pt(12, 2)).found);
}

#[test]
fn clear_then_stats_is_zero() {
    let mut s = IndexStore::new();
    assert_eq!(s.load(vec![unit_square_at(0, 0, 4, "a")]), Ok(1));
    s.clear();
    assert_eq!(s.stats().polygon_count, 0);
    assert!(!s.query_point(pt(2, 2)).found);
}

#[test]
fn export_reload_reproduces_queries() {
    let mut s1 = IndexStore::new();
    let batch = vec![
        unit_square_at(0, 0, 4, "a"),
        unit_square_at(10, 0, 4, "b"),
        poly(
            vec![
                ring(&[(20, 0), (28, 0), (28, 8), (20, 8), (20, 0)]),
                ring(&[(22, 2), (26, 2), (26, 6), (22, 6), (22, 2)]),
            ],
            Some("c"),
        ),
    ];
    assert_eq!(s1.load(batch), Ok(3));
    let dump = s1.export();
    let mut s2 = IndexStore::new();
    assert_eq!(s2.load(dump), Ok(3));
    let probes = [
        pt(2, 2),
        pt(12, 2),
        pt(24, 4),
        pt(21, 1),
        pt(100, 100),
        pt(-1, -1),
    ];
    for &p in &probes {
        let r1 = s1.query_point(p);
        let r2 = s2.query_point(p);
        assert_eq!(r1.found, r2.found);
        assert_eq!(r1.matched_id, r2.matched_id);
        assert_eq!(r1.matched_position, r2.matched_position);
        assert_eq!(r1.candidates_checked, r2.candidates_checked);
    }
}

#[test]
fn bulk_load_finds_every_member() {
    // Forty disjoint squares: the packed tree has several levels, and each
    // square's own centre must come back as a match.
    let mut s = IndexStore::new();
    let mut batch = Vec::new();
    for i in 0..40i64 {
        batch.push(unit_square_at(i * 10, (i % 7) * 10, 4, &format!("p{}", i)));
    }
    assert_eq!(s.load(batch), Ok(40));
    assert_eq!(s.stats().polygon_count, 40);
    for i in 0..40i64 {
        let r = s.query_point(pt(i * 10 + 2, (i % 7) * 10 + 2));
        assert!(r.found);
        assert_eq!(r.matched_id, Some(format!("p{}", i)));
        assert_eq!(r.matched_position, Some(i as usize));
        assert!(r.candidates_checked >= 1);
    }
}

#[test]
fn incremental_inserts_split_leaves() {
    // Enough single-polygon appends to overflow and split leaves.
    let mut s = IndexStore::new();
    for i in 0..40i64 {
        assert_eq!(s.append(vec![unit_square_at(i * 10, 0, 4, &format!("q{}", i))]), Ok(1));
    }
    assert_eq!(s.stats().polygon_count, 40);
    for i in 0..40i64 {
        let r = s.query_point(pt(i * 10 + 2, 2));
        assert!(r.found);
        assert_eq!(r.matched_id, Some(format!("q{}", i)));
    }
    assert!(!s.query_point(pt(-5, 0)).found);
}

#[test]
fn overlapping_polygons_first_candidate_wins() {
    let mut s = IndexStore::new();
    let big = poly(vec![ring(&[(0, 0), (10, 0), (10, 10), (0, 10), (0, 0)])], Some("big"));
    let small = poly(vec![ring(&[(2, 2), (6, 2), (6, 6), (2, 6), (2, 2)])], Some("small"));
    assert_eq!(s.load(vec![big, small]), Ok(2));
    // Bulk-built traversal order is insertion order, so the earlier polygon
    // wins where both contain the point.
    let r = s.query_point(pt(3, 3));
    assert!(r.found);
    assert_eq!(r.matched_id, Some("big".to_string()));
    assert_eq!(r.candidates_checked, 1);
    // Only the earlier polygon covers this point, but both boxes may not:
    let r2 = s.query_point(pt(8, 8));
    assert_eq!(r2.matched_id, Some("big".to_string()));
}

#[test]
fn candidates_checked_counts_tested_boxes() {
    let mut s = IndexStore::new();
    // Two stacked squares with the same box, one shifted away.
    let a = poly(vec![ring(&[(0, 0), (4, 0), (4, 4), (0, 4), (0, 0)])], Some("a"));
    let b = poly(vec![ring(&[(0, 0), (4, 0), (4, 4), (0, 4), (0, 0)])], Some("b"));
    let c = unit_square_at(100, 100, 4, "c");
    assert_eq!(s.load(vec![a, b, c]), Ok(3));
    let r = s.query_point(pt(2, 2));
    assert!(r.found);
    assert_eq!(r.matched_id, Some("a".to_string()));
    assert_eq!(r.candidates_checked, 1);
    let miss = s.query_point(pt(50, 50));
    assert!(!miss.found);
    assert_eq!(miss.candidates_checked, 0);
}

#[test]
fn properties_round_trip_through_export() {
    let mut s = IndexStore::new();
    let mut p = unit_square_at(0, 0, 4, "tagged");
    p.properties = Some("{\"zone\":\"north\"}".to_string());
    assert_eq!(s.load(vec![p]), Ok(1));
    let dump = s.export();
    assert_eq!(dump.len(), 1);
    assert_eq!(dump[0].id, Some("tagged".to_string()));
    assert_eq!(dump[0].properties, Some("{\"zone\":\"north\"}".to_string()));
    assert_eq!(dump[0].rings.len(), 1);
    assert_eq!(dump[0].rings[0].len(), 5);
    assert_eq!(dump[0].rings[0][1], pt(4, 0));
}

#[test]
fn rocket_mounts_an_empty_store() {
    let s = rocket();
    assert_eq!(s.stats().polygon_count, 0);
    assert!(!s.query_point(pt(0, 0)).found);
}

#[test]
fn query_points_batch_matches_single_queries() {
    let mut s = IndexStore::new();
    assert_eq!(s.load(vec![unit_square_at(0, 0, 4, "a"), unit_square_at(10, 0, 4, "b")]), Ok(2));
    let probes = vec![pt(2, 2), pt(12, 2), pt(50, 50)];
    let batch = s.query_points(probes.clone());
    assert_eq!(batch.results.len(), 3);
    for (i, &p) in probes.iter().enumerate() {
        let single = s.query_point(p);
        assert_eq!(batch.results[i].found, single.found);
        assert_eq!(batch.results[i].matched_id, single.matched_id);
        assert_eq!(batch.results[i].elapsed_us, 0);
    }
}

#[test]
fn degenerate_flat_polygon_contains_nothing() {
    // Zero-area ring with horizontal and zero-length edges: valid to load,
    // never a match, and no division anywhere to go wrong.
    let mut s = IndexStore::new();
    let flat = poly(vec![ring(&[(0, 0), (4, 0), (4, 0), (0, 0), (0, 0)])], Some("flat"));
    assert_eq!(s.load(vec![flat]), Ok(1));
    assert!(!s.query_point(pt(2, 1)).found);
    assert!(!s.query_point(pt(2, -1)).found);
}

#[test]
fn export_after_append_keeps_insertion_order() {
    let mut s = IndexStore::new();
    assert_eq!(s.load(vec![unit_square_at(0, 0, 4, "a")]), Ok(1));
    assert_eq!(s.append(vec![unit_square_at(10, 0, 4, "b"), unit_square_at(20, 0, 4, "c")]), Ok(2));
    let dump = s.export();
    assert_eq!(dump.len(), 3);
    assert_eq!(dump[0].id, Some("a".to_string()));
    assert_eq!(dump[1].id, Some("b".to_string()));
    assert_eq!(dump[2].id, Some("c".to_string()));
    let mut s2 = IndexStore::new();
    assert_eq!(s2.load(dump), Ok(3));
    for (x, id) in [(2i64, "a"), (12, "b"), (22, "c")] {
        assert_eq!(s2.query_point(pt(x, 2)).matched_id, Some(id.to_string()));
    }
}
