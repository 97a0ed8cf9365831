use pip_engine::containment::contains;
use pip_engine::geometry::Point;
use pip_engine::geometry::Polygon;

fn pt(x: i64, y: i64) -> Point {
    Point { x, y }
}

fn ring(coords: &[(i64, i64)]) -> Vec<Point> {
    coords.iter().map(|&(x, y)| pt(x, y)).collect()
}

fn shape(rings: Vec<Vec<Point>>) -> Polygon {
    Polygon { rings, id: None, properties: None }
}

#[test]
fn interior_points_are_inside_exterior_points_are_not() {
    let sq = shape(vec![ring(&[(0, 0), (10, 0), (10, 10), (0, 10), (0, 0)])]);
    for &(x, y) in &[(1, 1), (5, 5), (9, 9), (1, 9), (9, 1)] {
        assert!(contains(&sq, pt(x, y)));
    }
    for &(x, y) in &[(-1, 5), (11, 5), (5, -1), (5, 11), (100, 100), (-50, -50)] {
        assert!(!contains(&sq, pt(x, y)));
    }
}

#[test]
fn concave_shape_notch_is_outside() {
    // An L-shape: the notch in the upper right is outside.
    let l = shape(vec![ring(&[
        (0, 0),
        (10, 0),
        (10, 5),
        (5, 5),
        (5, 10),
        (0, 10),
        (0, 0),
    ])]);
    assert!(contains(&l, pt(2, 2)));
    assert!(contains(&l, pt(8, 2)));
    assert!(contains(&l, pt(2, 8)));
    assert!(!contains(&l, pt(8, 8)));
    assert!(!contains(&l, pt(6, 6)));
}

#[test]
fn hole_excludes_but_rim_remains() {
    let donut = shape(vec![
        ring(&[(0, 0), (10, 0), (10, 10), (0, 10), (0, 0)]),
        ring(&[(3, 3), (7, 3), (7, 7), (3, 7), (3, 3)]),
    ]);
    assert!(!contains(&donut, pt(5, 5)));
    assert!(contains(&donut, pt(1, 5)));
    assert!(contains(&donut, pt(5, 1)));
    assert!(!contains(&donut, pt(11, 5)));
}

#[test]
fn two_holes_each_excludes() {
    let p = shape(vec![
        ring(&[(0, 0), (20, 0), (20, 10), (0, 10), (0, 0)]),
        ring(&[(2, 2), (6, 2), (6, 6), (2, 6), (2, 2)]),
        ring(&[(12, 2), (16, 2), (16, 6), (12, 6), (12, 2)]),
    ]);
    assert!(!contains(&p, pt(4, 4)));
    assert!(!contains(&p, pt(14, 4)));
    assert!(contains(&p, pt(9, 4)));
}

#[test]
fn query_point_far_outside_coordinate_range_is_handled() {
    // Query coordinates may be any i64; only loaded geometry is bounded.
    let sq = shape(vec![ring(&[(0, 0), (10, 0), (10, 10), (0, 10), (0, 0)])]);
    assert!(!contains(&sq, pt(i64::MAX, 5)));
    assert!(!contains(&sq, pt(i64::MIN, 5)));
    assert!(!contains(&sq, pt(5, i64::MAX)));
    assert!(!contains(&sq, pt(5, i64::MIN)));
}

#[test]
fn diagonal_edges_and_vertex_rays() {
    // A diamond: edges are all diagonal; rays from inside pass near
    // vertices without double counting.
    let d = shape(vec![ring(&[(5, 0), (10, 5), (5, 10), (0, 5), (5, 0)])]);
    assert!(contains(&d, pt(5, 5)));
    assert!(contains(&d, pt(3, 5)));
    assert!(!contains(&d, pt(1, 1)));
    assert!(!contains(&d, pt(9, 9)));
}
