//! The curve-distance field: evaluation and central-difference gradients.

use curve_plot::curve::Curve;
use curve_plot::field::CurveDistFn;
use curve_plot::point::Point;

fn pt(x: i64, y: i64) -> Point {
    Point { x, y }
}

#[test]
fn eval_is_the_distance_between_curve_points() {
    let c1 = Curve::from_points(vec![pt(0, 0), pt(100, 0)]);
    let c2 = Curve::from_points(vec![pt(0, 50), pt(100, 50)]);
    let field = CurveDistFn::new([c1, c2]);
    // Parameter (30, 70) picks (30, 0) on the first curve and (70, 50) on
    // the second: distance sqrt(40^2 + 50^2) = sqrt(4100), floored.
    assert_eq!(field.eval(pt(30, 70)), 64);
    // Equal parameters give the vertical separation exactly.
    assert_eq!(field.eval(pt(30, 30)), 50);
    // Out-of-range parameters clamp to the curve ends.
    assert_eq!(field.eval(pt(-100, -100)), 50);
}

#[test]
fn central_differences_track_the_slope() {
    // Both parameters walk the same line, so the field is |x - y|.
    let c1 = Curve::from_points(vec![pt(0, 0), pt(100, 0)]);
    let c2 = Curve::from_points(vec![pt(0, 0), pt(100, 0)]);
    let field = CurveDistFn::new([c1, c2]);
    let p = pt(50, 20);
    assert_eq!(field.eval(p), 30);
    assert_eq!(field.eval_partial_derivative_x(p), 1);
    assert_eq!(field.eval_partial_derivative_y(p), -1);
    // Gradient magnitude: sqrt(1 + 1) floored.
    assert_eq!(field.eval_gradient_magnitude(p), 1);
    let g = field.gradient(p);
    assert_eq!((g.dx, g.dy), (1, -1));
    assert_eq!(g.magnitude(), 1);
}

#[test]
fn distance_bounds_are_attained() {
    let c1 = Curve::from_points(vec![pt(0, 0), pt(30, 40)]);
    let c2 = Curve::from_points(vec![pt(0, 100), pt(30, 100)]);
    let field = CurveDistFn::new([c1, c2]);
    // Farthest pair: (0, 0) to (30, 100) at squared distance 900 + 10000.
    assert_eq!(field.max_dist_squared(), 10900);
    assert_eq!(field.max_dist(), 104);
    // Closest pair: (30, 40) up to the segment y = 100.
    assert_eq!(field.min_dist_squared(), 3600);
    assert_eq!(field.min_dist(), 60);
}
