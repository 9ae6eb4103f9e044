//! Mesh construction and refinement: lattice shape, connectivity symmetry,
//! crack-free refinement and the staleness rule of the work list.

use curve_plot::mesh::{ElementMesh, Triangle};
use curve_plot::plot::{ConstantField, ConstantRefinePredicate};

fn check_connectivity_symmetric(mesh: &ElementMesh) {
    let triangles = mesh.triangles();
    for (ti, t) in triangles.iter().enumerate() {
        for e in 0..3usize {
            if let Some((t2, e2)) = t.connectivity[e] {
                let other: &Triangle = &triangles[t2];
                assert_eq!(other.connectivity[e2], Some((ti, e)));
                assert_eq!(t.edge(e), other.edge_reverse(e2));
                assert_eq!(t.edge_degree(e), other.edge_degree(e2));
            }
        }
    }
}

fn boundary_edge_count(mesh: &ElementMesh) -> usize {
    mesh.triangles()
        .iter()
        .map(|t| t.connectivity.iter().filter(|c| c.is_none()).count())
        .sum()
}

#[test]
fn from_points() {
    let x_points = vec![0, 1, 2];
    let y_points = vec![0, 1, 2];
    ElementMesh::from_points((&x_points, &y_points), &ConstantField { value: 0 });
}

#[test]
fn from_points_lattice_shape() {
    let x_points = vec![0, 10, 20, 30];
    let y_points = vec![0, 10, 20];
    let mesh = ElementMesh::from_points((&x_points, &y_points), &ConstantField { value: 7 });
    assert_eq!(mesh.vertices().len(), 12);
    assert_eq!(mesh.triangles().len(), 2 * 3 * 2);
    assert!(mesh.vertices().iter().all(|v| v.value == 7));
    check_connectivity_symmetric(&mesh);
    // Immediately after construction the boundary has 2*(nx-1) + 2*(ny-1) edges.
    assert_eq!(boundary_edge_count(&mesh), 2 * 3 + 2 * 2);
}

#[test]
fn refine_splits_every_triangle_once_at_minimum_depth() {
    let x_points = vec![0, 10, 20];
    let y_points = vec![0, 10, 20];
    let field = ConstantField { value: 0 };
    let mut mesh = ElementMesh::from_points((&x_points, &y_points), &field);
    let initial = mesh.triangles().len();
    mesh.refine(&field, &ConstantRefinePredicate { result: false });
    // The forced minimum depth splits each triangle exactly once.
    assert_eq!(mesh.triangles().len(), 2 * initial);
    assert!(mesh.triangles().iter().all(|t| t.degree == 1));
    check_connectivity_symmetric(&mesh);
}

#[test]
fn refine_is_idempotent_past_the_minimum_depth() {
    let x_points = vec![0, 10, 20];
    let y_points = vec![0, 10];
    let field = ConstantField { value: 0 };
    let mut mesh = ElementMesh::from_points((&x_points, &y_points), &field);
    mesh.refine(&field, &ConstantRefinePredicate { result: false });
    let triangles_after_first = mesh.triangles().clone();
    let vertices_after_first = mesh.vertices().len();
    // A second pass sees no depth-zero triangle: every seeded entry is
    // stale, so nothing changes even under an always-true predicate.
    mesh.refine(&field, &ConstantRefinePredicate { result: true });
    assert_eq!(mesh.triangles().len(), triangles_after_first.len());
    assert_eq!(mesh.vertices().len(), vertices_after_first);
}

#[test]
fn refine_deepens_under_a_true_predicate_without_cracks() {
    let x_points = vec![0, 10, 20];
    let y_points = vec![0, 10, 20];
    let field = ConstantField { value: 3 };
    let initial = 8;
    let mut mesh = ElementMesh::from_points((&x_points, &y_points), &field);
    assert_eq!(mesh.triangles().len(), initial);
    mesh.refine(&field, &ConstantRefinePredicate { result: true });
    // An always-true predicate drives the mesh deep; every triangle ends
    // past the forced minimum and at most one past the maximum depth.
    assert!(mesh.triangles().len() > 100 * initial);
    assert!(mesh.triangles().iter().all(|t| t.degree >= 1 && t.degree <= 11));
    assert!(mesh.triangles().iter().any(|t| t.degree == 11));
    check_connectivity_symmetric(&mesh);
}

#[test]
fn vertices_are_append_only_across_refinement() {
    let x_points = vec![0, 10, 20];
    let y_points = vec![0, 10, 20];
    let field = ConstantField { value: 0 };
    let mut mesh = ElementMesh::from_points((&x_points, &y_points), &field);
    let before = mesh.vertices().clone();
    mesh.refine(&field, &ConstantRefinePredicate { result: false });
    let after = mesh.vertices();
    assert!(after.len() > before.len());
    for (i, v) in before.iter().enumerate() {
        assert_eq!(after[i].point, v.point);
        assert_eq!(after[i].value, v.value);
    }
}

#[test]
fn index_data_flattens_triangle_corners() {
    let x_points = vec![0, 10];
    let y_points = vec![0, 10];
    let mesh = ElementMesh::from_points((&x_points, &y_points), &ConstantField { value: 0 });
    let idx = mesh.index_data();
    assert_eq!(idx.len(), 3 * mesh.triangles().len());
    for (t, tri) in mesh.triangles().iter().enumerate() {
        for e in 0..3 {
            assert_eq!(idx[3 * t + e], tri.elements[e] as u32);
        }
    }
}

#[test]
fn iter_triangle_vertices_matches_elements() {
    let x_points = vec![0, 10];
    let y_points = vec![0, 10];
    let mesh = ElementMesh::from_points((&x_points, &y_points), &ConstantField { value: 1 });
    let tris = mesh.iter_triangle_vertices();
    let idxs = mesh.iter_triangle_elements();
    assert_eq!(tris.len(), idxs.len());
    for (tri, idx) in tris.iter().zip(idxs.iter()) {
        for corner in 0..3 {
            assert_eq!(tri[corner].point, mesh.vertices()[idx[corner]].point);
        }
    }
}
