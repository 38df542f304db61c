use terra::geometry::{
    div_trunc, do_edges_intersect, isqrt, tri_orientation, Orientation, Vec2, Vec3, SCALE,
};

fn v3(x: i64, y: i64, z: i64) -> Vec3 {
    Vec3 { x, y, z }
}

fn v2(x: i64, y: i64) -> Vec2 {
    Vec2 { x, y }
}

#[test]
fn isqrt_small_values() {
    assert_eq!(isqrt(0), 0);
    assert_eq!(isqrt(1), 1);
    assert_eq!(isqrt(3), 1);
    assert_eq!(isqrt(4), 2);
    assert_eq!(isqrt(15), 3);
    assert_eq!(isqrt(16), 4);
    assert_eq!(isqrt(1000000000000), 1000000);
    assert_eq!(isqrt(999999999999), 999999);
}

#[test]
fn div_trunc_rounds_toward_zero() {
    assert_eq!(div_trunc(7, 2), 3);
    assert_eq!(div_trunc(-7, 2), -3);
    assert_eq!(div_trunc(6, 3), 2);
    assert_eq!(div_trunc(-6, 3), -2);
    assert_eq!(div_trunc(0, 5), 0);
}

#[test]
fn normalize_scales_onto_the_sphere() {
    let p = v3(2 * SCALE, 0, 0).normalize().unwrap();
    assert_eq!(p, v3(SCALE, 0, 0));
    // the zero vector names no direction
    assert!(v3(0, 0, 0).normalize().is_none());
}

#[test]
fn normalize_is_unit_within_rounding() {
    // an arbitrary direction: after normalising, the squared norm must sit
    // within rounding distance of SCALE squared
    let p = v3(314159, -271828, 999999).normalize().unwrap();
    let n2 = p.x * p.x + p.y * p.y + p.z * p.z;
    let target = SCALE * SCALE;
    let eps = 10 * SCALE;
    assert!(n2 > target - eps && n2 < target + eps);
}

#[test]
fn dot_and_dist_sq_are_exact() {
    let a = v3(3, 4, 5);
    let b = v3(-2, 1, 7);
    assert_eq!(a.dot(b), -6 + 4 + 35);
    assert_eq!(a.dist_sq(b), 25 + 9 + 4);
    assert_eq!(a.sum_with(b), v3(1, 5, 12));
}

#[test]
fn orientation_of_planar_triangles() {
    let a = v2(0, 0);
    let b = v2(10, 0);
    let c = v2(0, 10);
    assert_eq!(tri_orientation(a, b, c), Orientation::CounterClockwise);
    assert_eq!(tri_orientation(a, c, b), Orientation::Clockwise);
    assert_eq!(tri_orientation(a, b, v2(20, 0)), Orientation::Collinear);
}

#[test]
fn edge_intersection_by_orientation() {
    // a cross
    let a = (v2(-10, 0), v2(10, 0));
    let b = (v2(0, -10), v2(0, 10));
    assert!(do_edges_intersect(a, b));
    // parallel segments
    let c = (v2(-10, 5), v2(10, 5));
    assert!(!do_edges_intersect(a, c));
}

// tests if circumcenter found correctly by comparing with online calculator
#[test]
fn circumcenter_correct_location() {
    let test_points = vec![
        v3(0, 100, 0),
        v3(100, -100, 0),
        v3(-100, -100, 0),
        v3(-100, 0, 0),
        v3(0, 10, 0),
        v3(100, 0, 0),
    ];

    let tri_a = vec![0, 1, 2];
    let tri_b = vec![3, 4, 5];
    // results from online calc given same tri
    let expected_a = v3(0, -25, 0);
    let expected_b = v3(0, -495, 0);

    let result_a = terra::geometry::circumcenter(&test_points, tri_a);
    let result_b = terra::geometry::circumcenter(&test_points, tri_b);

    assert_eq!(result_a, Some(expected_a));
    assert_eq!(result_b, Some(expected_b));
}

#[test]
fn circumcenter_rejects_collinear_triangles() {
    let pts = vec![v3(0, 0, 0), v3(10, 0, 0), v3(20, 0, 0)];
    assert_eq!(terra::geometry::circumcenter(&pts, vec![0, 1, 2]), None);
}
