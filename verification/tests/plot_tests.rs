//! Draw-time preparation and the end-to-end scenario of two parallel
//! straight curves (fixed-point scale: 10 units per world unit).

use curve_plot::curve::Curve;
use curve_plot::field::CurveDistFn;
use curve_plot::isolines::BuildIsolines;
use curve_plot::mesh::ElementMesh;
use curve_plot::plot::{isoline_thresholds, subdivide_lengths, ConstantRefinePredicate};
use curve_plot::point::Point;

fn pt(x: i64, y: i64) -> Point {
    Point { x, y }
}

#[test]
fn subdivide_lengths_splits_windows_evenly() {
    let lengths = vec![0, 100];
    let r = subdivide_lengths(&lengths, 25, [0, 100]);
    assert_eq!(r, vec![0, 25, 50, 75, 100]);
}

#[test]
fn subdivide_lengths_keeps_the_covering_window() {
    let lengths = vec![0, 100];
    let r = subdivide_lengths(&lengths, 25, [30, 60]);
    assert_eq!(r, vec![25, 50, 75]);
}

#[test]
fn subdivide_lengths_deduplicates_equal_lengths() {
    let lengths = vec![0, 50, 50, 100];
    let r = subdivide_lengths(&lengths, 50, [0, 100]);
    assert_eq!(r, vec![0, 50, 100]);
}

#[test]
fn subdivide_lengths_empty_input() {
    let lengths: Vec<i64> = vec![];
    let r = subdivide_lengths(&lengths, 10, [0, 100]);
    assert!(r.is_empty());
}

#[test]
fn isoline_thresholds_are_evenly_spaced() {
    let r = isoline_thresholds(0, 110, 10);
    assert_eq!(r, vec![10, 20, 30, 40, 50, 60, 70, 80, 90, 100]);
}

#[test]
fn parallel_curves_end_to_end() {
    // Two straight horizontal curves five world units apart (scale 10).
    let curve1 = Curve::from_points(vec![pt(0, 0), pt(100, 0)]);
    let curve2 = Curve::from_points(vec![pt(0, 50), pt(100, 50)]);
    let field = CurveDistFn::new([curve1.clone(), curve2.clone()]);

    // The closest segment pair is the parallel pair at distance 50;
    // the farthest point pair is diagonal at distance sqrt(12500).
    assert_eq!(field.min_dist_squared(), 2500);
    assert_eq!(field.min_dist(), 50);
    assert_eq!(field.max_dist_squared(), 12500);
    assert_eq!(field.max_dist(), 111);

    // Build the sample lattice from the curves' cumulative lengths.
    let x_points = subdivide_lengths(curve1.cumulative_lengths(), 25, [0, 100]);
    let y_points = subdivide_lengths(curve2.cumulative_lengths(), 25, [0, 100]);
    assert_eq!(x_points.len(), 5);
    assert_eq!(y_points.len(), 5);

    let mut mesh = ElementMesh::from_points((&x_points, &y_points), &field);
    assert_eq!(mesh.vertices().len(), 25);
    assert_eq!(mesh.triangles().len(), 32);

    // Every field value lies between the distance bounds.
    assert!(mesh.vertices().iter().all(|v| v.value >= 50 && v.value <= 111));

    // Refinement beyond the forced minimum depth never triggers.
    mesh.refine(&field, &ConstantRefinePredicate { result: false });
    assert_eq!(mesh.triangles().len(), 64);

    // Thresholds outside the value range produce no isoline segments.
    for threshold in [49, 120] {
        let mut it = BuildIsolines::new(mesh.iter_triangle_vertices(), threshold);
        assert!(it.next().is_none());
    }
}
