use framer::topology::{concave_polygon_corners, point_in_polygon, polygon_signed_area2, triangulate_simple_polygon};
use framer::units::{Length, Point2};

/// A point given in whole inches.
fn p(x_in: i64, y_in: i64) -> Point2 {
    Point2::new(Length::from_whole_inches(x_in), Length::from_whole_inches(y_in))
}

fn area_square_inches(points: &[Point2]) -> f64 {
    (polygon_signed_area2(&points.to_vec()) as f64).abs() / 2.0 / 256.0
}

/// Every triangle lies inside the polygon (its centroid tests inside, on the
/// polygon scaled by three so the centroid is a whole point) and the
/// triangles tile the polygon's area.
fn assert_triangulation_tiles(poly: &[Point2], tris: &[[usize; 3]]) {
    let expected = area_square_inches(poly);
    let scaled: Vec<Point2> = poly
        .iter()
        .map(|q| Point2::new(Length { ticks: q.x.ticks * 3 }, Length { ticks: q.y.ticks * 3 }))
        .collect();
    let mut total = 0.0;
    for &[a, b, c] in tris {
        let (pa, pb, pc) = (poly[a], poly[b], poly[c]);
        let area = area_square_inches(&[pa, pb, pc]);
        assert!(area > 0.5, "degenerate triangle {a},{b},{c}");
        total += area;
        let centroid = Point2::new(
            Length { ticks: pa.x.ticks + pb.x.ticks + pc.x.ticks },
            Length { ticks: pa.y.ticks + pb.y.ticks + pc.y.ticks },
        );
        assert!(point_in_polygon(centroid, &scaled), "triangle [{a},{b},{c}] centroid lies outside the polygon");
    }
    assert!((total - expected).abs() < 1.0, "triangles cover {total} sq in, polygon is {expected} sq in");
}

#[test]
fn triangulates_convex_rectangle() {
    let rect = vec![p(0, 0), p(40, 0), p(40, 20), p(0, 20)];
    let tris = triangulate_simple_polygon(&rect);
    assert_eq!(tris.len(), 2);
    assert_triangulation_tiles(&rect, &tris);
}

#[test]
fn triangulates_concave_l_shape_in_both_windings() {
    let ccw = vec![p(0, 0), p(40, 0), p(40, 20), p(20, 20), p(20, 40), p(0, 40)];
    let cw: Vec<Point2> = ccw.iter().rev().copied().collect();
    for poly in [ccw, cw] {
        let tris = triangulate_simple_polygon(&poly);
        assert_eq!(tris.len(), poly.len() - 2, "a simple n-gon yields n-2 triangles");
        assert_triangulation_tiles(&poly, &tris);
    }
}

#[test]
fn triangulate_rejects_degenerate_vertex_counts() {
    assert!(triangulate_simple_polygon(&vec![]).is_empty());
    assert!(triangulate_simple_polygon(&vec![p(0, 0), p(1, 0)]).is_empty());
    assert_eq!(triangulate_simple_polygon(&vec![p(0, 0), p(1, 0), p(0, 1)]), vec![[0, 1, 2]]);
}

#[test]
fn collinear_remainder_is_fanned_to_n_minus_two_triangles() {
    let line = vec![p(0, 0), p(10, 0), p(20, 0), p(30, 0), p(40, 0)];
    let tris = triangulate_simple_polygon(&line);
    assert_eq!(tris.len(), 3);
    for t in &tris {
        assert!(t[0] != t[1] && t[1] != t[2] && t[0] != t[2]);
    }
}

#[test]
fn signed_area_is_counter_clockwise_positive() {
    let ccw = vec![p(0, 0), p(10, 0), p(10, 10), p(0, 10)];
    let cw: Vec<Point2> = ccw.iter().rev().copied().collect();
    // 10" square = 160 ticks on a side; twice its area in ticks².
    assert_eq!(polygon_signed_area2(&ccw), 2 * 160 * 160);
    assert_eq!(polygon_signed_area2(&cw), -2 * 160 * 160);
}

#[test]
fn l_shape_has_one_reflex_corner_in_either_winding() {
    let ccw = vec![p(0, 0), p(40, 0), p(40, 20), p(20, 20), p(20, 40), p(0, 40)];
    let cw: Vec<Point2> = ccw.iter().rev().copied().collect();
    assert_eq!(concave_polygon_corners(&ccw), vec![p(20, 20)]);
    assert_eq!(concave_polygon_corners(&cw), vec![p(20, 20)]);
    assert!(concave_polygon_corners(&vec![p(0, 0), p(10, 0), p(10, 10), p(0, 10)]).is_empty());
    assert!(concave_polygon_corners(&vec![p(0, 0), p(10, 0), p(0, 10)]).is_empty());
}

#[test]
fn point_in_polygon_uses_the_even_odd_rule() {
    let l = vec![p(0, 0), p(40, 0), p(40, 20), p(20, 20), p(20, 40), p(0, 40)];
    assert!(point_in_polygon(p(10, 10), &l));
    assert!(point_in_polygon(p(10, 30), &l));
    assert!(!point_in_polygon(p(30, 30), &l), "the notch is outside");
    assert!(!point_in_polygon(p(50, 10), &l));
    assert!(!point_in_polygon(p(1, 1), &vec![p(0, 0), p(10, 0)]), "fewer than three vertices enclose nothing");
}

#[test]
fn ear_clipping_a_concave_outline_gives_counter_clockwise_triangles() {
    // An L-shaped room, counter-clockwise, with its reflex corner at (10, 10).
    let outline = vec![p(0, 0), p(20, 0), p(20, 10), p(10, 10), p(10, 20), p(0, 20)];
    let tris = triangulate_simple_polygon(&outline);
    assert_eq!(tris.len(), outline.len() - 2);
    for t in &tris {
        let (a, b, c) = (outline[t[0]], outline[t[1]], outline[t[2]]);
        let cross = (b.x.ticks - a.x.ticks) as i128 * (c.y.ticks - a.y.ticks) as i128
            - (b.y.ticks - a.y.ticks) as i128 * (c.x.ticks - a.x.ticks) as i128;
        assert!(cross > 0, "triangle {:?} is not counter-clockwise", t);
    }
    assert_triangulation_tiles(&outline, &tris);
}
