use avis::earclip::{each_is_convex, open_boundary, triangles_equal, triangles_from_polygon};
use avis::geometry::{Point2, UNIT};

const HALF: i32 = UNIT / 2;

fn points(coords: &[(i32, i32)]) -> Vec<Point2> {
    coords.iter().map(|&(x, y)| Point2::new(x, y)).collect()
}

// Test is_convex on a complex shape.
#[test]
fn test_is_convex() {
    // This is a box with a dot in the middle.
    let pts = points(&[(0, 0), (UNIT, 0), (UNIT, UNIT), (0, UNIT), (HALF, HALF)]);
    assert_eq!(each_is_convex(&pts), vec![true, true, true, true, false]);

    // These are four points, where three are colinear, so it looks like a triangle,
    // but for our purposes is not considered convex because it will cause problems rendering.
    let pts = points(&[(0, 0), (UNIT, 0), (UNIT, UNIT), (HALF, HALF)]);
    assert_eq!(each_is_convex(&pts), vec![true, true, true, false]);
}

#[test]
fn small_boundaries_are_all_convex() {
    let pts = points(&[(0, 0), (UNIT, UNIT), (2 * UNIT, 2 * UNIT)]);
    assert_eq!(each_is_convex(&pts), vec![true, true, true]);
    assert_eq!(each_is_convex(&[]), Vec::<bool>::new());
}

#[test]
fn clockwise_square_is_not_convex() {
    let pts = points(&[(0, 0), (0, UNIT), (UNIT, UNIT), (UNIT, 0)]);
    assert_eq!(each_is_convex(&pts), vec![false, false, false, false]);
}

/// Test triangles_from_polygon on a basic unit square
#[test]
fn test_triangles_from_polygon_on_a_square() {
    let pts = points(&[(0, 0), (UNIT, 0), (UNIT, UNIT), (0, UNIT)]);
    let triangles = triangles_from_polygon(&pts);
    assert_eq!(triangles.len(), 2);
    assert!(
        triangles_equal(&triangles[0], &[0, 1, 2]),
        "Triangle 0 is not correct: expected [0, 1, 2], got {:?}",
        triangles[0]
    );
    assert!(
        triangles_equal(&triangles[1], &[0, 2, 3]),
        "Triangle 1 is not correct: expected [0, 2, 3], got {:?}",
        triangles[1]
    );
}

/// Test triangles_from_polygon on a concave polygon
#[test]
fn test_triangles_from_polygon_on_a_concave_polygon() {
    let pts = points(&[(0, 0), (UNIT, 0), (UNIT, UNIT), (0, UNIT), (HALF, HALF)]);
    let triangles = triangles_from_polygon(&pts);
    assert_eq!(triangles.len(), 3);
    assert_eq!(triangles[0], [2, 3, 4]);
    assert_eq!(triangles[1], [1, 2, 4]);
    assert_eq!(triangles[2], [0, 1, 4]);
}

#[test]
fn fewer_than_three_points_give_no_triangles() {
    assert!(triangles_from_polygon(&[]).is_empty());
    assert!(triangles_from_polygon(&points(&[(0, 0), (UNIT, 0)])).is_empty());
}

#[test]
fn triangle_gives_itself() {
    let pts = points(&[(0, 0), (UNIT, 0), (0, UNIT)]);
    assert_eq!(triangles_from_polygon(&pts), vec![[0, 1, 2]]);
}

#[test]
fn concave_l_shape_triangulates_into_n_minus_two() {
    // An L: notch at vertex 3.
    let pts = points(&[(0, 0), (2, 0), (2, 1), (1, 1), (1, 2), (0, 2)]);
    assert_eq!(each_is_convex(&pts), vec![true, true, true, false, true, true]);
    let triangles = triangles_from_polygon(&pts);
    assert_eq!(triangles.len(), 4);
    for t in &triangles {
        assert!(t[0] != t[1] && t[1] != t[2] && t[0] != t[2]);
        assert!(t.iter().all(|&i| i < pts.len()));
    }
    // The first ear is cut at vertex 2, before the notch.
    assert_eq!(triangles[0], [1, 2, 3]);
}

#[test]
fn degenerate_boundary_falls_back_to_a_fan() {
    // All points on a line: no angle is convex, so no ear is ever found.
    let pts = points(&[(0, 0), (1, 0), (2, 0), (3, 0), (4, 0)]);
    assert_eq!(each_is_convex(&pts), vec![false; 5]);
    let triangles = triangles_from_polygon(&pts);
    assert_eq!(triangles, vec![[0, 1, 2], [0, 2, 3], [0, 3, 4]]);
}

#[test]
fn triangles_equal_accepts_rotations_only() {
    assert!(triangles_equal(&[0, 1, 2], &[0, 1, 2]));
    assert!(triangles_equal(&[1, 2, 0], &[0, 1, 2]));
    assert!(triangles_equal(&[2, 0, 1], &[0, 1, 2]));
    assert!(!triangles_equal(&[0, 2, 1], &[0, 1, 2]));
    assert!(!triangles_equal(&[0, 1, 3], &[0, 1, 2]));
}

#[test]
fn open_boundary_drops_the_closing_point() {
    let ring = points(&[(0, 0), (1, 0), (1, 1), (0, 0)]);
    assert_eq!(open_boundary(&ring), points(&[(0, 0), (1, 0), (1, 1)]));
    let open = points(&[(0, 0), (1, 0), (1, 1)]);
    assert_eq!(open_boundary(&open), open);
    assert_eq!(open_boundary(&[]), Vec::<Point2>::new());
}
