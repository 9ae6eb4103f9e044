//! Curve construction and arc-length queries, in fixed-point units
//! (scale: 10 units per world unit).

use curve_plot::curve::Curve;
use curve_plot::point::Point;

fn pt(x: i64, y: i64) -> Point {
    Point { x, y }
}

#[test]
fn curve_at() {
    let points = vec![pt(0, 0), pt(10, 0), pt(15, 0), pt(20, 0)];
    let curve = Curve::from_points(points);

    assert_eq!(curve.at(0), pt(0, 0));
    assert_eq!(curve.at(5), pt(5, 0));
    assert_eq!(curve.at(10), pt(10, 0));
    assert_eq!(curve.at(15), pt(15, 0));
    assert_eq!(curve.at(18), pt(18, 0));
    assert_eq!(curve.at(20), pt(20, 0));
}

#[test]
fn curve_at_clamps_out_of_range() {
    let points = vec![pt(0, 0), pt(10, 0), pt(15, 0), pt(20, 0)];
    let curve = Curve::from_points(points);

    assert_eq!(curve.at(-50), curve.at(0));
    assert_eq!(curve.at(1000), curve.at(curve.total_length()));
}

#[test]
fn curve_single_point() {
    let curve = Curve::from_points(vec![pt(7, 9)]);
    assert_eq!(curve.total_length(), 0);
    assert_eq!(curve.at(-3), pt(7, 9));
    assert_eq!(curve.at(0), pt(7, 9));
    assert_eq!(curve.at(42), pt(7, 9));
}

#[test]
fn cumulative_lengths_start_at_zero_and_never_decrease() {
    let points = vec![pt(0, 0), pt(30, 40), pt(30, 40), pt(-10, 40), pt(-10, -10)];
    let curve = Curve::from_points(points);
    let lengths = curve.cumulative_lengths();
    assert_eq!(lengths[0], 0);
    for w in lengths.windows(2) {
        assert!(w[0] <= w[1]);
    }
    // 3-4-5 triangle: the first segment has exact length 50.
    assert_eq!(lengths[1], 50);
}

#[test]
fn push_extends_lengths_by_segment_distance() {
    let mut curve = Curve::default();
    curve.push(pt(0, 0));
    assert_eq!(curve.cumulative_lengths(), &vec![0]);
    curve.push(pt(30, 40));
    assert_eq!(curve.cumulative_lengths(), &vec![0, 50]);
    curve.push(pt(30, 47));
    assert_eq!(curve.cumulative_lengths(), &vec![0, 50, 57]);
    assert_eq!(curve.total_length(), 57);
    assert_eq!(curve.points().len(), 3);
}

#[test]
fn line_segments_of_empty_and_single_point_curves() {
    let empty = Curve::default();
    assert!(empty.line_segments().is_empty());
    let single = Curve::from_points(vec![pt(3, 4)]);
    assert!(single.line_segments().is_empty());
}

#[test]
fn line_segments_pair_consecutive_points() {
    let curve = Curve::from_points(vec![pt(0, 0), pt(10, 0), pt(10, 10)]);
    let segs = curve.line_segments();
    assert_eq!(segs.len(), 2);
    assert_eq!(segs[0].p0, pt(0, 0));
    assert_eq!(segs[0].p1, pt(10, 0));
    assert_eq!(segs[1].p0, pt(10, 0));
    assert_eq!(segs[1].p1, pt(10, 10));
}
