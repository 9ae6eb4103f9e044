//! Segment distance: symmetry, non-negativity, exact values for simple
//! configurations.

use curve_plot::point::Point;
use curve_plot::segment::LineSegment;

fn seg(x0: i64, y0: i64, x1: i64, y1: i64) -> LineSegment {
    LineSegment::new(Point { x: x0, y: y0 }, Point { x: x1, y: y1 })
}

#[test]
fn dist_squared_symmetric_and_nonnegative() {
    let pairs = [
        (seg(0, 0, 10, 0), seg(0, 5, 10, 5)),
        (seg(0, 0, 10, 10), seg(20, 0, 0, 20)),
        (seg(-7, 3, 4, -2), seg(1, 1, 1, 9)),
        (seg(0, 0, 0, 0), seg(5, 5, 6, 6)),
    ];
    for (a, b) in pairs.iter() {
        let ab = a.dist_squared(b);
        let ba = b.dist_squared(a);
        assert_eq!(ab, ba);
        assert!(ab >= 0);
    }
}

#[test]
fn dist_squared_identical_segments_is_zero() {
    let a = seg(3, 4, -5, 12);
    assert_eq!(a.dist_squared(&a), 0);
}

#[test]
fn dist_squared_parallel_segments() {
    // Parallel horizontal segments five units apart.
    let a = seg(0, 0, 10, 0);
    let b = seg(0, 5, 10, 5);
    assert_eq!(a.dist_squared(&b), 25);
    assert_eq!(a.dist(&b), 5);
}

#[test]
fn dist_squared_crossing_segments_is_zero() {
    let a = seg(0, 0, 10, 10);
    let b = seg(0, 10, 10, 0);
    assert_eq!(a.dist_squared(&b), 0);
}

#[test]
fn dist_squared_endpoint_to_interior() {
    // Vertical segment whose lower end is three units above a horizontal one.
    let a = seg(5, 3, 5, 13);
    let b = seg(0, 0, 10, 0);
    assert_eq!(a.dist_squared(&b), 9);
    assert_eq!(a.dist(&b), 3);
}

#[test]
fn point_distances() {
    let p = Point { x: 3, y: 4 };
    let o = Point { x: 0, y: 0 };
    assert_eq!(p.dist_squared(&o), 25);
    assert_eq!(p.dist(&o), 5);
    // A non-square distance rounds down.
    let q = Point { x: 1, y: 1 };
    assert_eq!(q.dist_squared(&o), 2);
    assert_eq!(q.dist(&o), 1);
}
