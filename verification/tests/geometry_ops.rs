use parcelmap::geometry::{boxes_overlap_ex, polys_intersect_ex, Polygon, Vec2i};
use parcelmap::polyline::{div_t, isqrt, Polyline};

fn v(x: i64, y: i64) -> Vec2i {
    Vec2i { x, y }
}

fn square(x0: i64, y0: i64, x1: i64, y1: i64) -> Polygon {
    Polygon { pts: vec![v(x0, y0), v(x1, y0), v(x1, y1), v(x0, y1)] }
}

#[test]
fn isqrt_exact_values() {
    assert_eq!(isqrt(0), 0);
    assert_eq!(isqrt(1), 1);
    assert_eq!(isqrt(15), 3);
    assert_eq!(isqrt(16), 4);
    assert_eq!(isqrt(17), 4);
    assert_eq!(isqrt(99), 9);
    assert_eq!(isqrt(100), 10);
    assert_eq!(isqrt(1 << 42), 1 << 21);
}

#[test]
fn div_t_truncates_toward_zero() {
    assert_eq!(div_t(7, 2), 3);
    assert_eq!(div_t(-7, 2), -3);
    assert_eq!(div_t(6, 3), 2);
    assert_eq!(div_t(-6, 3), -2);
    assert_eq!(div_t(0, 5), 0);
}

#[test]
fn overlapping_squares_intersect() {
    let a = square(0, 0, 10, 10);
    let b = square(5, 5, 15, 15);
    assert!(polys_intersect_ex(&a, &b));
    assert!(polys_intersect_ex(&b, &a));
}

#[test]
fn distant_squares_do_not_intersect() {
    let a = square(0, 0, 10, 10);
    let b = square(20, 20, 30, 30);
    assert!(!polys_intersect_ex(&a, &b));
    assert!(!polys_intersect_ex(&b, &a));
}

#[test]
fn separated_on_one_axis_only() {
    let a = square(0, 0, 10, 10);
    let b = square(11, 0, 21, 10);
    assert!(!polys_intersect_ex(&a, &b));
}

#[test]
fn triangle_against_square() {
    let t = Polygon { pts: vec![v(2, 2), v(8, 2), v(5, 8)] };
    let s = square(0, 0, 10, 10);
    assert!(polys_intersect_ex(&t, &s));
    let far = Polygon { pts: vec![v(100, 100), v(110, 100), v(105, 110)] };
    assert!(!polys_intersect_ex(&far, &s));
}

#[test]
fn bbox_of_polygon() {
    let t = Polygon { pts: vec![v(3, -2), v(8, 4), v(-1, 7)] };
    let bb = t.bbox();
    assert_eq!(bb.min.x, -1);
    assert_eq!(bb.min.y, -2);
    assert_eq!(bb.max.x, 8);
    assert_eq!(bb.max.y, 7);
    let other = square(9, 9, 12, 12).bbox();
    assert!(!boxes_overlap_ex(&bb, &other));
}

#[test]
fn polyline_length_and_walk() {
    let pl = Polyline { pts: vec![v(0, 0), v(100, 0)] };
    assert_eq!(pl.length(), 100);
    let (pos, dir) = pl.at_distance(40).unwrap();
    assert_eq!(pos, v(40, 0));
    assert_eq!(dir, v(100, 0));
    assert!(pl.at_distance(101).is_none());
    assert!(pl.at_distance(100).is_some());
}

#[test]
fn polyline_diagonal_length() {
    // each segment is a 3-4-5 triangle
    let pl = Polyline { pts: vec![v(0, 0), v(3, 4), v(6, 8)] };
    assert_eq!(pl.length(), 10);
    let (pos, _) = pl.at_distance(5).unwrap();
    assert_eq!(pos, v(3, 4));
}
