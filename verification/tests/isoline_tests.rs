//! Isoline extraction: the single-triangle case analysis and the scanning
//! cursor.

use curve_plot::isolines::{analyze_triangle, BuildIsolines};
use curve_plot::mesh::Vertex;
use curve_plot::point::Point;

fn v(x: i64, y: i64, value: i64) -> Vertex {
    Vertex { point: Point { x, y }, value }
}

#[test]
fn analyze_triangle_one_high_vertex() {
    // Values (0, 1000, 0), threshold 500: one segment, with both endpoints
    // on the edges touching the high vertex, each at parameter 1/2.
    let tri = [v(0, 0, 0), v(10, 0, 1000), v(0, 10, 0)];
    let seg = analyze_triangle(tri, 500).expect("one segment");
    assert_eq!(seg[0].point, Point { x: 5, y: 0 });
    assert_eq!(seg[0].value, 500);
    assert_eq!(seg[1].point, Point { x: 5, y: 5 });
    assert_eq!(seg[1].value, 500);
}

#[test]
fn analyze_triangle_all_same_side() {
    let below = [v(0, 0, 0), v(10, 0, 100), v(0, 10, 50)];
    assert!(analyze_triangle(below, 500).is_none());
    let above = [v(0, 0, 600), v(10, 0, 900), v(0, 10, 501)];
    assert!(analyze_triangle(above, 500).is_none());
}

#[test]
fn analyze_triangle_on_the_threshold_counts_as_below() {
    // Classification is by strict comparison: a vertex exactly at the
    // threshold sits on the "not above" side, so no crossing here.
    let tri = [v(0, 0, 500), v(10, 0, 500), v(0, 10, 400)];
    assert!(analyze_triangle(tri, 500).is_none());
}

#[test]
fn analyze_triangle_asymmetric_crossing() {
    // Values (0, 1000, 0), threshold 250: parameter 1/4 along both edges.
    let tri = [v(0, 0, 0), v(40, 0, 1000), v(0, 40, 0)];
    let seg = analyze_triangle(tri, 250).expect("one segment");
    assert_eq!(seg[0].point, Point { x: 10, y: 0 });
    assert_eq!(seg[0].value, 250);
    assert_eq!(seg[1].point, Point { x: 10, y: 30 });
    assert_eq!(seg[1].value, 250);
}

#[test]
fn build_isolines_skips_non_crossing_triangles() {
    let quiet = [v(0, 0, 0), v(10, 0, 10), v(0, 10, 20)];
    let loud = [v(0, 0, 0), v(10, 0, 1000), v(0, 10, 0)];
    let mut it = BuildIsolines::new(vec![quiet, quiet, loud, quiet], 500);
    let seg = it.next().expect("the third triangle crosses");
    assert_eq!(seg[0].point, Point { x: 5, y: 0 });
    assert!(it.next().is_none());
    assert!(it.next().is_none());
}
