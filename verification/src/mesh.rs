//! The element mesh: a vertex arena plus triangle records with half-edge
//! connectivity, built over a rectangular sample lattice and refined in
//! place by bisection of base edges.
//!
//! The central invariant is symmetry of the connectivity: whenever triangle
//! `A`'s edge `e` names `(B, f)`, triangle `B`'s edge `f` names `(A, e)`,
//! both edges join the same two vertices in opposite order, and both edges
//! have been halved the same number of times. Refinement preserves this
//! invariant by always propagating a base-edge split to the neighbour
//! across the base, so a shared edge is never subdivided on one side only.

use vstd::prelude::*;

verus! {

use vstd::arithmetic::div_mod::{
    lemma_div_multiples_vanish, lemma_div_pos_is_pos, lemma_fundamental_div_mod,
    lemma_fundamental_div_mod_converse, lemma_mod_division_less_than_divisor,
    lemma_multiply_divide_lt,
};
use vstd::arithmetic::mul::lemma_mul_inequality;
use crate::function::Function;
use crate::num::{Mix, Weight};
use crate::point::Point;

/// A mesh vertex: a parameter-space position and the field value there.
#[derive(Clone, Copy, Debug)]
pub struct Vertex {
    pub point: Point,
    pub value: i64,
}

impl Mix for Vertex {
    open spec fn mix_spec(self, other: Vertex, t: Weight) -> Vertex {
        Vertex {
            point: self.point.mix_spec(other.point, t),
            value: self.value.mix_spec(other.value, t),
        }
    }

    fn mix(self, other: Vertex, t: Weight) -> (r: Vertex) {
        Vertex { point: self.point.mix(other.point, t), value: self.value.mix(other.value, t) }
    }
}

/// Upper bound on the refinement depth bookkeeping (far above the depth the
/// refinement loop ever reaches).
pub const DEGREE_CAP: usize = 0x1000_0000;

/// A triangle of the mesh: corner vertex indices in fixed clockwise order
/// with the base edge first, per-edge half-edge connectivity (`None` on the
/// mesh boundary), and the refinement depth.
#[derive(Clone, Copy, Debug)]
pub struct Triangle {
    pub elements: [usize; 3],
    /// Map from edge index to the connected `(triangle, edge)` pair, or
    /// `None` if the edge lies on the mesh boundary.
    pub connectivity: [Option<(usize, usize)>; 3],
    /// How many times this triangle has been refined.
    pub degree: usize,
}

impl Triangle {
    /// The vertex pair of edge `e`, in order.
    pub open spec fn edge_spec(self, e: int) -> (usize, usize) {
        (self.elements[e], self.elements[(e + 1) % 3])
    }

    /// How often the edge has been halved: a triangle's base edge lags its
    /// other two edges by one generation.
    pub open spec fn edge_degree_spec(self, e: int) -> int {
        if e == 0 {
            self.degree as int
        } else {
            self.degree as int + 1
        }
    }

    /// The two vertex indices of edge `edge_idx`, in order.
    pub fn edge(&self, edge_idx: usize) -> (r: [usize; 2])
        requires
            edge_idx < 3,
        ensures
            r[0] == self.edge_spec(edge_idx as int).0,
            r[1] == self.edge_spec(edge_idx as int).1,
    {
        [self.elements[edge_idx], self.elements[(edge_idx + 1) % 3]]
    }

    /// The edge's vertex indices reversed (the order in which the
    /// neighbouring triangle traverses the shared edge).
    pub fn edge_reverse(&self, edge_idx: usize) -> (r: [usize; 2])
        requires
            edge_idx < 3,
        ensures
            r[0] == self.edge_spec(edge_idx as int).1,
            r[1] == self.edge_spec(edge_idx as int).0,
    {
        [self.elements[(edge_idx + 1) % 3], self.elements[edge_idx]]
    }

    /// The generation count of an edge.
    pub fn edge_degree(&self, edge_idx: usize) -> (r: usize)
        requires
            edge_idx < 3,
            self.degree < DEGREE_CAP,
        ensures
            r == self.edge_degree_spec(edge_idx as int),
    {
        if edge_idx == 0 {
            self.degree
        } else {
            self.degree + 1
        }
    }
}

/// Corner indices are in the vertex arena, pairwise distinct, and the
/// degree is below the bookkeeping cap.
pub open spec fn tri_wf(t: Triangle, vlen: int) -> bool {
    &&& t.elements[0] < vlen
    &&& t.elements[1] < vlen
    &&& t.elements[2] < vlen
    &&& t.elements[0] != t.elements[1]
    &&& t.elements[1] != t.elements[2]
    &&& t.elements[0] != t.elements[2]
    &&& t.degree < DEGREE_CAP
}

/// The triangle behind edge `e` of triangle `t`, or `-1` on the boundary.
pub open spec fn conn_target(t: Triangle, e: int) -> int {
    match t.connectivity[e] {
        Option::Some((j, _f)) => j as int,
        Option::None => -1,
    }
}

/// Edges that lead somewhere lead to pairwise different triangles.
pub open spec fn neighbors_distinct(t: Triangle) -> bool {
    &&& (t.connectivity[0] is Some && t.connectivity[1] is Some ==> conn_target(t, 0)
        != conn_target(t, 1))
    &&& (t.connectivity[0] is Some && t.connectivity[2] is Some ==> conn_target(t, 0)
        != conn_target(t, 2))
    &&& (t.connectivity[1] is Some && t.connectivity[2] is Some ==> conn_target(t, 1)
        != conn_target(t, 2))
}

/// Edge `e` of triangle `i` either lies on the boundary or is matched by
/// its neighbour: the back reference points here, the vertex pair is the
/// same in reversed order, and both sides agree on the edge's generation.
pub open spec fn conn_back(ts: Seq<Triangle>, i: int, e: int) -> bool {
    match ts[i].connectivity[e] {
        Option::Some((j, f)) => {
            &&& 0 <= j < ts.len()
            &&& f < 3
            &&& j != i
            &&& ts[j as int].connectivity[f as int] == Option::Some((i as usize, e as usize))
            &&& ts[j as int].edge_spec(f as int).0 == ts[i].edge_spec(e).1
            &&& ts[j as int].edge_spec(f as int).1 == ts[i].edge_spec(e).0
            &&& ts[j as int].edge_degree_spec(f as int) == ts[i].edge_degree_spec(e)
        },
        Option::None => true,
    }
}

/// Well-formedness of a triangle table over a vertex arena of length
/// `vlen`: every triangle is internally sound and every connectivity entry
/// is symmetric.
pub open spec fn mesh_tris_wf(ts: Seq<Triangle>, vlen: int) -> bool {
    &&& forall|i: int|
        0 <= i < ts.len() ==> tri_wf(#[trigger] ts[i], vlen) && neighbors_distinct(ts[i])
    &&& forall|i: int, e: int| 0 <= i < ts.len() && 0 <= e < 3 ==> #[trigger] conn_back(ts, i, e)
}

/// Largest sample count per axis accepted by the lattice construction.
pub const LATTICE_MAX_SAMPLES: usize = 0x4000;

/// Number of triangles of an `nx`-by-`ny` sample lattice.
pub open spec fn lattice_tri_count(nx: int, ny: int) -> int {
    2 * ((nx - 1) * (ny - 1))
}

/// The lattice-cell column of the triangle at table index `k`.
pub open spec fn cell_x(ny: int, k: int) -> int {
    (k / 2) / (ny - 1)
}

/// The lattice-cell row of the triangle at table index `k`.
pub open spec fn cell_y(ny: int, k: int) -> int {
    (k / 2) % (ny - 1)
}

/// What the lattice construction stores at table index `k`: each cell emits
/// two triangles sharing the cell diagonal as their common base, in
/// clockwise winding, with connectivity computed by index arithmetic (the
/// next triangle across a vertical edge is one entry away, across a
/// horizontal edge `2 * (ny - 1) + 1` entries away).
pub open spec fn lattice_tri_ok(nx: int, ny: int, k: int, t: Triangle) -> bool {
    let cx = cell_x(ny, k);
    let cy = cell_y(ny, k);
    let bl = cx * ny + cy;
    let tl = bl + 1;
    let br = bl + ny;
    let tr = br + 1;
    let horiz = 2 * (ny - 1) + 1;
    &&& t.degree == 0
    &&& if k % 2 == 0 {
        &&& t.elements[0] == bl
        &&& t.elements[1] == tr
        &&& t.elements[2] == br
        &&& t.connectivity[0] == Option::Some(((k + 1) as usize, 0usize))
        &&& t.connectivity[1] == (if cx + 1 < nx - 1 {
            Option::Some(((k + horiz) as usize, 1usize))
        } else {
            Option::None::<(usize, usize)>
        })
        &&& t.connectivity[2] == (if cy > 0 {
            Option::Some(((k - 1) as usize, 2usize))
        } else {
            Option::None::<(usize, usize)>
        })
    } else {
        &&& t.elements[0] == tr
        &&& t.elements[1] == bl
        &&& t.elements[2] == tl
        &&& t.connectivity[0] == Option::Some(((k - 1) as usize, 0usize))
        &&& t.connectivity[1] == (if cx > 0 {
            Option::Some(((k - horiz) as usize, 1usize))
        } else {
            Option::None::<(usize, usize)>
        })
        &&& t.connectivity[2] == (if cy + 1 < ny - 1 {
            Option::Some(((k + 1) as usize, 2usize))
        } else {
            Option::None::<(usize, usize)>
        })
    }
}

/// The cell coordinates of a lattice triangle index are in range and
/// reassemble the index.
pub proof fn lemma_lattice_cell(nx: int, ny: int, k: int)
    requires
        2 <= nx,
        2 <= ny,
        0 <= k < lattice_tri_count(nx, ny),
    ensures
        0 <= cell_x(ny, k) < nx - 1,
        0 <= cell_y(ny, k) < ny - 1,
        k == 2 * (cell_x(ny, k) * (ny - 1) + cell_y(ny, k)) + k % 2,
        0 <= k % 2 < 2,
{
    let q = k / 2;
    lemma_mod_division_less_than_divisor(k, 2);
    lemma_fundamental_div_mod(k, 2);
    lemma_div_pos_is_pos(k, 2);
    lemma_multiply_divide_lt(k, 2, (nx - 1) * (ny - 1));
    lemma_div_pos_is_pos(q, ny - 1);
    lemma_mod_division_less_than_divisor(q, ny - 1);
    lemma_fundamental_div_mod(q, ny - 1);
    assert((nx - 1) * (ny - 1) == (ny - 1) * (nx - 1)) by (nonlinear_arith);
    lemma_multiply_divide_lt(q, ny - 1, nx - 1);
    assert((ny - 1) * (q / (ny - 1)) == (q / (ny - 1)) * (ny - 1)) by (nonlinear_arith);
}

/// Recovers the cell coordinates and parity from a decomposed index.
pub proof fn lemma_cell_of(ny: int, k: int, cx: int, cy: int, parity: int)
    requires
        2 <= ny,
        0 <= cx,
        0 <= cy < ny - 1,
        0 <= parity < 2,
        k == 2 * (cx * (ny - 1) + cy) + parity,
    ensures
        cell_x(ny, k) == cx,
        cell_y(ny, k) == cy,
        k % 2 == parity,
{
    let q = cx * (ny - 1) + cy;
    assert(0 <= cx * (ny - 1) + cy) by (nonlinear_arith)
        requires
            0 <= cx,
            0 <= cy,
            2 <= ny,
    ;
    lemma_fundamental_div_mod_converse(k, 2, q, parity);
    lemma_fundamental_div_mod_converse(q, ny - 1, cx, cy);
}

/// A lattice triangle has in-range, distinct corners and distinct
/// neighbours.
proof fn lemma_lattice_tri_wf(nx: int, ny: int, k: int, t: Triangle)
    requires
        2 <= nx <= LATTICE_MAX_SAMPLES,
        2 <= ny <= LATTICE_MAX_SAMPLES,
        0 <= k < lattice_tri_count(nx, ny),
        lattice_tri_ok(nx, ny, k, t),
    ensures
        tri_wf(t, nx * ny),
        neighbors_distinct(t),
{
    lemma_lattice_cell(nx, ny, k);
    let cx = cell_x(ny, k);
    let cy = cell_y(ny, k);
    assert(0 <= cx * ny + cy && cx * ny + cy + ny + 1 < nx * ny) by (nonlinear_arith)
        requires
            0 <= cx < nx - 1,
            0 <= cy < ny - 1,
            2 <= ny,
            2 <= nx,
    ;
    assert((nx - 1) * (ny - 1) <= 0x4000int * 0x4000int) by (nonlinear_arith)
        requires
            0 <= nx - 1 <= 0x4000,
            0 <= ny - 1 <= 0x4000,
    ;
    assert(0 <= cx * (ny - 1)) by (nonlinear_arith)
        requires
            0 <= cx,
            0 <= ny - 1,
    ;
    assert(cx > 0 ==> (ny - 1) <= cx * (ny - 1)) by (nonlinear_arith)
        requires
            0 <= ny - 1,
    ;
    assert(k == 2 * (cx * (ny - 1) + cy) + k % 2);
}

/// Every connectivity entry of a full lattice table is symmetric: the
/// neighbour's back reference, vertex pair and edge generation all match.
proof fn lemma_lattice_conn_back(nx: int, ny: int, ts: Seq<Triangle>, k: int, e: int)
    requires
        2 <= nx <= LATTICE_MAX_SAMPLES,
        2 <= ny <= LATTICE_MAX_SAMPLES,
        ts.len() == lattice_tri_count(nx, ny),
        forall|j: int| 0 <= j < ts.len() ==> lattice_tri_ok(nx, ny, j, #[trigger] ts[j]),
        0 <= k < ts.len(),
        0 <= e < 3,
    ensures
        conn_back(ts, k, e),
{
    lemma_lattice_cell(nx, ny, k);
    let cx = cell_x(ny, k);
    let cy = cell_y(ny, k);
    let q = cx * (ny - 1) + cy;
    let horiz = 2 * (ny - 1) + 1;
    let t = ts[k];
    assert(lattice_tri_ok(nx, ny, k, t));
    lemma_mul_inequality(cx, nx - 2, ny - 1);
    assert((nx - 1) * (ny - 1) == (nx - 2) * (ny - 1) + (ny - 1)) by (nonlinear_arith);
    assert(q < (nx - 1) * (ny - 1));
    assert((nx - 1) * (ny - 1) <= 0x4000int * 0x4000int) by (nonlinear_arith)
        requires
            0 <= nx - 1 <= 0x4000,
            0 <= ny - 1 <= 0x4000,
    ;
    assert(0 <= cx * (ny - 1)) by (nonlinear_arith)
        requires
            0 <= cx,
            0 <= ny - 1,
    ;
    assert(cx > 0 ==> (ny - 1) <= cx * (ny - 1)) by (nonlinear_arith)
        requires
            0 <= ny - 1,
    ;
    if k % 2 == 0 {
        if e == 0 {
            let k2 = k + 1;
            lemma_cell_of(ny, k2, cx, cy, 1);
            assert(lattice_tri_ok(nx, ny, k2, ts[k2]));
        } else if e == 1 {
            if cx + 1 < nx - 1 {
                let k2 = k + horiz;
                assert((cx + 1) * (ny - 1) == cx * (ny - 1) + (ny - 1)) by (nonlinear_arith);
                lemma_cell_of(ny, k2, cx + 1, cy, 1);
                assert((cx + 2) * (ny - 1) == (cx + 1) * (ny - 1) + (ny - 1)) by (nonlinear_arith);
                lemma_mul_inequality(cx + 2, nx - 1, ny - 1);
                assert(0 <= k2 < ts.len());
                assert(lattice_tri_ok(nx, ny, k2, ts[k2]));
                assert((cx + 1) * ny == cx * ny + ny) by (nonlinear_arith);
            }
        } else {
            if cy > 0 {
                let k2 = k - 1;
                lemma_cell_of(ny, k2, cx, cy - 1, 1);
                assert(lattice_tri_ok(nx, ny, k2, ts[k2]));
            }
        }
    } else {
        if e == 0 {
            let k2 = k - 1;
            lemma_cell_of(ny, k2, cx, cy, 0);
            assert(lattice_tri_ok(nx, ny, k2, ts[k2]));
        } else if e == 1 {
            if cx > 0 {
                let k2 = k - horiz;
                assert((cx - 1) * (ny - 1) == cx * (ny - 1) - (ny - 1)) by (nonlinear_arith);
                assert(0 <= (cx - 1) * (ny - 1)) by (nonlinear_arith)
                    requires
                        0 <= cx - 1,
                        0 <= ny - 1,
                ;
                lemma_cell_of(ny, k2, cx - 1, cy, 0);
                assert(lattice_tri_ok(nx, ny, k2, ts[k2]));
                assert((cx - 1) * ny == cx * ny - ny) by (nonlinear_arith);
            }
        } else {
            if cy + 1 < ny - 1 {
                let k2 = k + 1;
                lemma_cell_of(ny, k2, cx, cy + 1, 0);
                assert(lattice_tri_ok(nx, ny, k2, ts[k2]));
            }
        }
    }
}

/// A full lattice table over `nx * ny` vertices is a well-formed mesh.
pub proof fn lemma_lattice_wf(nx: int, ny: int, ts: Seq<Triangle>, vlen: int)
    requires
        2 <= nx <= LATTICE_MAX_SAMPLES,
        2 <= ny <= LATTICE_MAX_SAMPLES,
        vlen == nx * ny,
        ts.len() == lattice_tri_count(nx, ny),
        forall|j: int| 0 <= j < ts.len() ==> lattice_tri_ok(nx, ny, j, #[trigger] ts[j]),
    ensures
        mesh_tris_wf(ts, vlen),
{
    assert forall|i: int| 0 <= i < ts.len() implies tri_wf(#[trigger] ts[i], vlen)
        && neighbors_distinct(ts[i]) by {
        lemma_lattice_tri_wf(nx, ny, i, ts[i]);
    }
    assert forall|i: int, e: int| 0 <= i < ts.len() && 0 <= e < 3 implies #[trigger] conn_back(
        ts,
        i,
        e,
    ) by {
        lemma_lattice_conn_back(nx, ny, ts, i, e);
    }
}

/// Whether the slot may keep its value across a split at depth `d`: it is a
/// boundary slot or faces a triangle that is too deep to be touched.
pub open spec fn conn_frame_keep(ts: Seq<Triangle>, t: int, e: int, d: int) -> bool {
    match ts[t].connectivity[e] {
        Option::Some((z, _f)) => ts[z as int].degree > d,
        Option::None => true,
    }
}

/// Frame of a split at depth `d`: triangles strictly deeper than `d` keep
/// their corners and degree, and every slot of theirs that does not face a
/// depth-`d`-or-shallower triangle keeps its value.
pub open spec fn split_frame(old_ts: Seq<Triangle>, new_ts: Seq<Triangle>, d: int) -> bool {
    &&& forall|t: int|
        0 <= t < old_ts.len() && old_ts[t].degree > d ==> (#[trigger] new_ts[t]).elements
            == old_ts[t].elements && new_ts[t].degree == old_ts[t].degree
    &&& forall|t: int, e: int|
        0 <= t < old_ts.len() && 0 <= e < 3 && old_ts[t].degree > d && conn_frame_keep(
            old_ts,
            t,
            e,
            d,
        ) ==> (#[trigger] new_ts[t].connectivity[e]) == old_ts[t].connectivity[e]
}

/// After a lone (boundary-base) split the triangle table is well formed
/// again: the table grew by one row, the split row and its appended sibling
/// are stitched to each other, the far neighbours' slots were redirected to
/// the children's bases, and everything else is unchanged.
#[verifier::rlimit(100)]
#[verifier::spinoff_prover]
proof fn lemma_split_lone_wf(ts1: Seq<Triangle>, tsf: Seq<Triangle>, vlen: int, idx: int, l1: int, m: int)
    requires
        mesh_tris_wf(ts1, vlen),
        0 <= idx < ts1.len(),
        ts1[idx].connectivity[0] is None,
        ts1[idx].degree + 1 < DEGREE_CAP,
        m == vlen,
        l1 == ts1.len(),
        l1 <= usize::MAX as int,
        tsf.len() == ts1.len() + 1,
        tsf[idx].elements[0] == ts1[idx].elements[1],
        tsf[idx].elements[1] == ts1[idx].elements[2],
        tsf[idx].elements[2] == m,
        tsf[idx].connectivity[0] == ts1[idx].connectivity[1],
        tsf[idx].connectivity[1] == Option::Some((l1 as usize, 2usize)),
        tsf[idx].connectivity[2] is None,
        tsf[idx].degree == ts1[idx].degree + 1,
        tsf[l1].elements[0] == ts1[idx].elements[2],
        tsf[l1].elements[1] == ts1[idx].elements[0],
        tsf[l1].elements[2] == m,
        tsf[l1].connectivity[0] == ts1[idx].connectivity[2],
        tsf[l1].connectivity[1] is None,
        tsf[l1].connectivity[2] == Option::Some((idx as usize, 1usize)),
        tsf[l1].degree == ts1[idx].degree + 1,
        ts1[idx].connectivity[1] matches Option::Some(p) ==> tsf[p.0 as int].connectivity[p.1 as int] == Option::Some((idx as usize, 0usize)),
        ts1[idx].connectivity[2] matches Option::Some(p) ==> tsf[p.0 as int].connectivity[p.1 as int] == Option::Some((l1 as usize, 0usize)),
        forall|t: int|
            0 <= t < ts1.len() && t != idx ==> (#[trigger] tsf[t]).elements == ts1[t].elements
                && tsf[t].degree == ts1[t].degree,
        forall|t: int, e: int|
            0 <= t < ts1.len() && 0 <= e < 3 && t != idx && !(ts1[idx].connectivity[1] matches
                Option::Some(p) && p.0 == t && p.1 == e) && !(ts1[idx].connectivity[2] matches
                Option::Some(p) && p.0 == t && p.1 == e) ==> (#[trigger] tsf[t].connectivity[e])
                == ts1[t].connectivity[e],
    ensures
        mesh_tris_wf(tsf, vlen + 1),
{
    let c1 = ts1[idx].connectivity[1];
    let c2 = ts1[idx].connectivity[2];
    assert(conn_back(ts1, idx, 1));
    assert(conn_back(ts1, idx, 2));
    assert(tri_wf(ts1[idx], vlen));
    assert(neighbors_distinct(ts1[idx]));
    match c1 {
        Option::Some(p) => {
            assert(conn_back(ts1, p.0 as int, 0));
            assert(conn_back(ts1, p.0 as int, 1));
            assert(conn_back(ts1, p.0 as int, 2));
            assert(neighbors_distinct(ts1[p.0 as int]));
            assert(tri_wf(ts1[p.0 as int], vlen));
        },
        Option::None => {},
    }
    match c2 {
        Option::Some(p) => {
            assert(conn_back(ts1, p.0 as int, 0));
            assert(conn_back(ts1, p.0 as int, 1));
            assert(conn_back(ts1, p.0 as int, 2));
            assert(neighbors_distinct(ts1[p.0 as int]));
            assert(tri_wf(ts1[p.0 as int], vlen));
        },
        Option::None => {},
    }
    assert(tri_wf(tsf[idx], vlen + 1));
    assert(tri_wf(tsf[l1], vlen + 1));
    assert(neighbors_distinct(tsf[idx]));
    assert(neighbors_distinct(tsf[l1]));
    assert(conn_back(tsf, idx, 0));
    assert(conn_back(tsf, idx, 1));
    assert(conn_back(tsf, idx, 2));
    assert(conn_back(tsf, l1, 0));
    assert(conn_back(tsf, l1, 1));
    assert(conn_back(tsf, l1, 2));
    match c1 {
        Option::Some(p) => {
            assert(tri_wf(tsf[p.0 as int], vlen + 1));
            assert(neighbors_distinct(tsf[p.0 as int]));
            assert(conn_back(tsf, p.0 as int, p.1 as int));
        },
        Option::None => {},
    }
    match c2 {
        Option::Some(p) => {
            assert(tri_wf(tsf[p.0 as int], vlen + 1));
            assert(neighbors_distinct(tsf[p.0 as int]));
            assert(conn_back(tsf, p.0 as int, p.1 as int));
        },
        Option::None => {},
    }
    assert forall|t: int| 0 <= t < tsf.len() implies tri_wf(#[trigger] tsf[t], vlen + 1)
        && neighbors_distinct(tsf[t]) by {
        if 0 <= t < ts1.len() {
            assert(tri_wf(ts1[t], vlen));
            assert(neighbors_distinct(ts1[t]));
            assert(conn_back(ts1, t, 0));
            assert(conn_back(ts1, t, 1));
            assert(conn_back(ts1, t, 2));
        }
    }
    assert forall|t: int, e: int| 0 <= t < tsf.len() && 0 <= e < 3 implies #[trigger] conn_back(
        tsf,
        t,
        e,
    ) by {
        if 0 <= t < ts1.len() {
            assert(conn_back(ts1, t, 0));
            assert(conn_back(ts1, t, 1));
            assert(conn_back(ts1, t, 2));
            assert(neighbors_distinct(ts1[t]));
            match ts1[t].connectivity[e] {
                Option::Some(zh) => {
                    assert(conn_back(ts1, zh.0 as int, 0));
                    assert(conn_back(ts1, zh.0 as int, 1));
                    assert(conn_back(ts1, zh.0 as int, 2));
                    assert(neighbors_distinct(ts1[zh.0 as int]));
                },
                Option::None => {},
            }
        }
    }
}

/// After a paired split (a triangle and its base-aligned neighbour, around
/// one shared midpoint) the triangle table is well formed again.
#[verifier::rlimit(100)]
#[verifier::spinoff_prover]
proof fn lemma_split_pair_wf(
    ts1: Seq<Triangle>,
    tsf: Seq<Triangle>,
    vlen: int,
    idx: int,
    nb: int,
    l1: int,
    l2: int,
    m: int,
)
    requires
        mesh_tris_wf(ts1, vlen),
        0 <= idx < ts1.len(),
        0 <= nb < ts1.len(),
        idx != nb,
        ts1[idx].connectivity[0] == Option::Some((nb as usize, 0usize)),
        ts1[idx].degree + 1 < DEGREE_CAP,
        m == vlen,
        l1 == ts1.len(),
        l2 == l1 + 1,
        l2 <= usize::MAX as int,
        tsf.len() == ts1.len() + 2,
        tsf[idx].elements[0] == ts1[idx].elements[1],
        tsf[idx].elements[1] == ts1[idx].elements[2],
        tsf[idx].elements[2] == m,
        tsf[idx].connectivity[0] == ts1[idx].connectivity[1],
        tsf[idx].connectivity[1] == Option::Some((l1 as usize, 2usize)),
        tsf[idx].connectivity[2] == Option::Some((l2 as usize, 1usize)),
        tsf[idx].degree == ts1[idx].degree + 1,
        tsf[l1].elements[0] == ts1[idx].elements[2],
        tsf[l1].elements[1] == ts1[idx].elements[0],
        tsf[l1].elements[2] == m,
        tsf[l1].connectivity[0] == ts1[idx].connectivity[2],
        tsf[l1].connectivity[1] == Option::Some((nb as usize, 2usize)),
        tsf[l1].connectivity[2] == Option::Some((idx as usize, 1usize)),
        tsf[l1].degree == ts1[idx].degree + 1,
        tsf[nb].elements[0] == ts1[nb].elements[1],
        tsf[nb].elements[1] == ts1[nb].elements[2],
        tsf[nb].elements[2] == m,
        tsf[nb].connectivity[0] == ts1[nb].connectivity[1],
        tsf[nb].connectivity[1] == Option::Some((l2 as usize, 2usize)),
        tsf[nb].connectivity[2] == Option::Some((l1 as usize, 1usize)),
        tsf[nb].degree == ts1[nb].degree + 1,
        tsf[l2].elements[0] == ts1[nb].elements[2],
        tsf[l2].elements[1] == ts1[nb].elements[0],
        tsf[l2].elements[2] == m,
        tsf[l2].connectivity[0] == ts1[nb].connectivity[2],
        tsf[l2].connectivity[1] == Option::Some((idx as usize, 2usize)),
        tsf[l2].connectivity[2] == Option::Some((nb as usize, 1usize)),
        tsf[l2].degree == ts1[nb].degree + 1,
        ts1[idx].connectivity[1] matches Option::Some(p) ==> tsf[p.0 as int].connectivity[p.1 as int] == Option::Some((idx as usize, 0usize)),
        ts1[idx].connectivity[2] matches Option::Some(p) ==> tsf[p.0 as int].connectivity[p.1 as int] == Option::Some((l1 as usize, 0usize)),
        ts1[nb].connectivity[1] matches Option::Some(p) ==> tsf[p.0 as int].connectivity[p.1 as int] == Option::Some((nb as usize, 0usize)),
        ts1[nb].connectivity[2] matches Option::Some(p) ==> tsf[p.0 as int].connectivity[p.1 as int] == Option::Some((l2 as usize, 0usize)),
        forall|t: int|
            0 <= t < ts1.len() && t != idx && t != nb ==> (#[trigger] tsf[t]).elements
                == ts1[t].elements && tsf[t].degree == ts1[t].degree,
        forall|t: int, e: int|
            0 <= t < ts1.len() && 0 <= e < 3 && t != idx && t != nb && !(
            ts1[idx].connectivity[1] matches Option::Some(p) && p.0 == t && p.1 == e) && !(
            ts1[idx].connectivity[2] matches Option::Some(p) && p.0 == t && p.1 == e) && !(
            ts1[nb].connectivity[1] matches Option::Some(p) && p.0 == t && p.1 == e) && !(
            ts1[nb].connectivity[2] matches Option::Some(p) && p.0 == t && p.1 == e) ==> (
            #[trigger] tsf[t].connectivity[e]) == ts1[t].connectivity[e],
    ensures
        mesh_tris_wf(tsf, vlen + 1),
{
    let c1 = ts1[idx].connectivity[1];
    let c2 = ts1[idx].connectivity[2];
    let e1 = ts1[nb].connectivity[1];
    let e2 = ts1[nb].connectivity[2];
    assert(conn_back(ts1, idx, 0));
    assert(conn_back(ts1, idx, 1));
    assert(conn_back(ts1, idx, 2));
    assert(conn_back(ts1, nb, 0));
    assert(conn_back(ts1, nb, 1));
    assert(conn_back(ts1, nb, 2));
    assert(tri_wf(ts1[idx], vlen));
    assert(tri_wf(ts1[nb], vlen));
    assert(neighbors_distinct(ts1[idx]));
    assert(neighbors_distinct(ts1[nb]));
    match c1 {
        Option::Some(p) => {
            assert(conn_back(ts1, p.0 as int, 0));
            assert(conn_back(ts1, p.0 as int, 1));
            assert(conn_back(ts1, p.0 as int, 2));
            assert(neighbors_distinct(ts1[p.0 as int]));
            assert(tri_wf(ts1[p.0 as int], vlen));
        },
        Option::None => {},
    }
    match c2 {
        Option::Some(p) => {
            assert(conn_back(ts1, p.0 as int, 0));
            assert(conn_back(ts1, p.0 as int, 1));
            assert(conn_back(ts1, p.0 as int, 2));
            assert(neighbors_distinct(ts1[p.0 as int]));
            assert(tri_wf(ts1[p.0 as int], vlen));
        },
        Option::None => {},
    }
    match e1 {
        Option::Some(p) => {
            assert(conn_back(ts1, p.0 as int, 0));
            assert(conn_back(ts1, p.0 as int, 1));
            assert(conn_back(ts1, p.0 as int, 2));
            assert(neighbors_distinct(ts1[p.0 as int]));
            assert(tri_wf(ts1[p.0 as int], vlen));
        },
        Option::None => {},
    }
    match e2 {
        Option::Some(p) => {
            assert(conn_back(ts1, p.0 as int, 0));
            assert(conn_back(ts1, p.0 as int, 1));
            assert(conn_back(ts1, p.0 as int, 2));
            assert(neighbors_distinct(ts1[p.0 as int]));
            assert(tri_wf(ts1[p.0 as int], vlen));
        },
        Option::None => {},
    }
    assert(tri_wf(tsf[idx], vlen + 1));
    assert(tri_wf(tsf[nb], vlen + 1));
    assert(tri_wf(tsf[l1], vlen + 1));
    assert(tri_wf(tsf[l2], vlen + 1));
    assert(neighbors_distinct(tsf[idx]));
    assert(neighbors_distinct(tsf[nb]));
    assert(neighbors_distinct(tsf[l1]));
    assert(neighbors_distinct(tsf[l2]));
    assert(conn_back(tsf, idx, 0));
    assert(conn_back(tsf, idx, 1));
    assert(conn_back(tsf, idx, 2));
    assert(conn_back(tsf, nb, 0));
    assert(conn_back(tsf, nb, 1));
    assert(conn_back(tsf, nb, 2));
    assert(conn_back(tsf, l1, 0));
    assert(conn_back(tsf, l1, 1));
    assert(conn_back(tsf, l1, 2));
    assert(conn_back(tsf, l2, 0));
    assert(conn_back(tsf, l2, 1));
    assert(conn_back(tsf, l2, 2));
    match c1 {
        Option::Some(p) => {
            assert(tri_wf(tsf[p.0 as int], vlen + 1));
            assert(neighbors_distinct(tsf[p.0 as int]));
            assert(conn_back(tsf, p.0 as int, p.1 as int));
        },
        Option::None => {},
    }
    match c2 {
        Option::Some(p) => {
            assert(tri_wf(tsf[p.0 as int], vlen + 1));
            assert(neighbors_distinct(tsf[p.0 as int]));
            assert(conn_back(tsf, p.0 as int, p.1 as int));
        },
        Option::None => {},
    }
    match e1 {
        Option::Some(p) => {
            assert(tri_wf(tsf[p.0 as int], vlen + 1));
            assert(neighbors_distinct(tsf[p.0 as int]));
            assert(conn_back(tsf, p.0 as int, p.1 as int));
        },
        Option::None => {},
    }
    match e2 {
        Option::Some(p) => {
            assert(tri_wf(tsf[p.0 as int], vlen + 1));
            assert(neighbors_distinct(tsf[p.0 as int]));
            assert(conn_back(tsf, p.0 as int, p.1 as int));
        },
        Option::None => {},
    }
    assert forall|t: int| 0 <= t < tsf.len() implies tri_wf(#[trigger] tsf[t], vlen + 1)
        && neighbors_distinct(tsf[t]) by {
        if 0 <= t < ts1.len() {
            assert(tri_wf(ts1[t], vlen));
            assert(neighbors_distinct(ts1[t]));
            assert(conn_back(ts1, t, 0));
            assert(conn_back(ts1, t, 1));
            assert(conn_back(ts1, t, 2));
        }
    }
    assert forall|t: int, e: int| 0 <= t < tsf.len() && 0 <= e < 3 implies #[trigger] conn_back(
        tsf,
        t,
        e,
    ) by {
        if 0 <= t < ts1.len() {
            assert(conn_back(ts1, t, 0));
            assert(conn_back(ts1, t, 1));
            assert(conn_back(ts1, t, 2));
            assert(neighbors_distinct(ts1[t]));
            match ts1[t].connectivity[e] {
                Option::Some(zh) => {
                    assert(conn_back(ts1, zh.0 as int, 0));
                    assert(conn_back(ts1, zh.0 as int, 1));
                    assert(conn_back(ts1, zh.0 as int, 2));
                    assert(neighbors_distinct(ts1[zh.0 as int]));
                },
                Option::None => {},
            }
        }
    }
}

/// Depth below which a triangle is always split, establishing a baseline
/// refinement level everywhere.
pub const MIN_DEGREE: usize = 1;

/// Depth above which no further split is considered.
pub const MAX_DEGREE: usize = 10;

/// Powers of three, for the refinement work-list termination measure.
pub open spec fn pow3(n: nat) -> nat
    decreases n,
{
    if n == 0 {
        1
    } else {
        3 * pow3((n - 1) as nat)
    }
}

proof fn lemma_pow3_pos(n: nat)
    ensures
        pow3(n) >= 1,
    decreases n,
{
    if n > 0 {
        lemma_pow3_pos((n - 1) as nat);
    }
}

/// The termination weight of one work-list entry: deeper entries weigh
/// less, and one split trades an entry for two strictly lighter ones.
pub open spec fn entry_weight(x: (usize, usize)) -> nat {
    if x.1 <= MAX_DEGREE + 1 {
        pow3((MAX_DEGREE + 2 - x.1) as nat)
    } else {
        1
    }
}

proof fn lemma_entry_weight_pos(x: (usize, usize))
    ensures
        entry_weight(x) >= 1,
{
    if x.1 <= MAX_DEGREE + 1 {
        lemma_pow3_pos((MAX_DEGREE + 2 - x.1) as nat);
    }
}

/// The combined weight of the pending part of the work list.
pub open spec fn queue_weight(q: Seq<(usize, usize)>, start: int) -> nat
    decreases q.len() - start,
{
    if start < 0 || start >= q.len() {
        0
    } else {
        entry_weight(q[start]) + queue_weight(q, start + 1)
    }
}

proof fn lemma_queue_weight_push(q: Seq<(usize, usize)>, start: int, x: (usize, usize))
    requires
        0 <= start <= q.len(),
    ensures
        queue_weight(q.push(x), start) == queue_weight(q, start) + entry_weight(x),
    decreases q.len() - start,
{
    if start == q.len() {
        assert(q.push(x)[start] == x);
        assert(queue_weight(q.push(x), start + 1) == 0);
    } else {
        assert(q.push(x)[start] == q[start]);
        lemma_queue_weight_push(q, start + 1, x);
    }
}

/// A refinement step's overall effect on the triangle table: depths never
/// sink, an existing record keeps its corners unless its depth rose (it
/// was consumed by a bisection and became a child), a record whose depth
/// rose holds a freshly appended midpoint as its third corner, and every
/// appended record is a split child with a fresh midpoint too.
pub open spec fn refine_effect(old_ts: Seq<Triangle>, old_vlen: int, new_ts: Seq<Triangle>) -> bool {
    &&& old_ts.len() <= new_ts.len()
    &&& forall|t: int|
        0 <= t < old_ts.len() ==> (#[trigger] new_ts[t]).degree >= old_ts[t].degree
    &&& forall|t: int|
        0 <= t < old_ts.len() && (#[trigger] new_ts[t]).degree == old_ts[t].degree
            ==> new_ts[t].elements == old_ts[t].elements
    &&& forall|t: int|
        0 <= t < old_ts.len() && (#[trigger] new_ts[t]).degree > old_ts[t].degree
            ==> new_ts[t].elements[2] >= old_vlen
    &&& forall|t: int|
        old_ts.len() <= t < new_ts.len() ==> (#[trigger] new_ts[t]).degree >= 1
            && new_ts[t].elements[2] >= old_vlen
}

/// Two refinement effects in sequence compose (with a vertex arena that
/// only grows between them).
pub proof fn lemma_refine_effect_trans(
    ts0: Seq<Triangle>,
    v0: int,
    ts1: Seq<Triangle>,
    v1: int,
    ts2: Seq<Triangle>,
)
    requires
        refine_effect(ts0, v0, ts1),
        refine_effect(ts1, v1, ts2),
        v0 <= v1,
    ensures
        refine_effect(ts0, v0, ts2),
{
    assert forall|t: int|
        0 <= t < ts0.len() && (#[trigger] ts2[t]).degree > ts0[t].degree implies ts2[t].elements[2]
        >= v0 by {
        assert(ts1[t].degree >= ts0[t].degree);
        if ts2[t].degree > ts1[t].degree {
        } else {
            assert(ts2[t].elements == ts1[t].elements);
        }
    }
    assert forall|t: int|
        ts0.len() <= t < ts2.len() implies (#[trigger] ts2[t]).degree >= 1 && ts2[t].elements[2]
        >= v0 by {
        if t < ts1.len() {
            assert(ts1[t].degree >= 1 && ts1[t].elements[2] >= v0);
            if ts2[t].degree == ts1[t].degree {
                assert(ts2[t].elements == ts1[t].elements);
            }
        }
    }
}

/// The vertex at `k` sits exactly half way between two earlier vertices'
/// positions.
pub open spec fn is_midpoint_of_earlier(vs: Seq<Vertex>, k: int) -> bool {
    exists|i: int, j: int|
        #![trigger vs[i], vs[j]]
        0 <= i < k && 0 <= j < k && vs[k].point == vs[i].point.mix_spec(
            vs[j].point,
            Weight { num: 1, den: 2 },
        )
}

/// Every vertex appended on top of the first `old_vlen` entries is the
/// exact midpoint of two earlier vertices' positions and carries the value
/// function's value at that position.
pub open spec fn appended_are_midpoints<F: Function<Point, Output = i64>>(
    f: &F,
    vs: Seq<Vertex>,
    old_vlen: int,
) -> bool {
    forall|k: int|
        old_vlen <= k < vs.len() ==> (#[trigger] vs[k]).value == f.eval_spec(vs[k].point)
            && is_midpoint_of_earlier(vs, k)
}

/// Midpoint pedigrees of two refinement steps in sequence compose, since
/// the vertex arena is append-only.
pub proof fn lemma_appended_midpoints_trans<F: Function<Point, Output = i64>>(
    f: &F,
    vs1: Seq<Vertex>,
    vs2: Seq<Vertex>,
    old_vlen: int,
)
    requires
        0 <= old_vlen <= vs1.len() <= vs2.len(),
        forall|k: int| 0 <= k < vs1.len() ==> vs2[k] == vs1[k],
        appended_are_midpoints(f, vs1, old_vlen),
        appended_are_midpoints(f, vs2, vs1.len() as int),
    ensures
        appended_are_midpoints(f, vs2, old_vlen),
{
    assert forall|k: int|
        old_vlen <= k < vs2.len() implies (#[trigger] vs2[k]).value == f.eval_spec(vs2[k].point)
            && is_midpoint_of_earlier(vs2, k) by {
        if k < vs1.len() {
            assert(vs1[k].value == f.eval_spec(vs1[k].point));
            assert(is_midpoint_of_earlier(vs1, k));
            assert(vs2[k] == vs1[k]);
            assert(vs2[k].value == f.eval_spec(vs2[k].point));
            let (i, j) = choose|i: int, j: int|
                #![trigger vs1[i], vs1[j]]
                0 <= i < k && 0 <= j < k && vs1[k].point == vs1[i].point.mix_spec(
                    vs1[j].point,
                    Weight { num: 1, den: 2 },
                );
            assert(vs2[i] == vs1[i] && vs2[j] == vs1[j]);
            assert(0 <= i < k && 0 <= j < k && vs2[k].point == vs2[i].point.mix_spec(
                vs2[j].point,
                Weight { num: 1, den: 2 },
            ));
            assert(is_midpoint_of_earlier(vs2, k));
        } else {
            assert(vs1.len() as int <= k < vs2.len());
            assert(vs2[k].value == f.eval_spec(vs2[k].point));
            assert(is_midpoint_of_earlier(vs2, k));
        }
    }
}

/// Appending one exact-midpoint vertex with its field value extends a
/// midpoint pedigree by one entry.
proof fn lemma_appended_midpoints_push<F: Function<Point, Output = i64>>(
    f: &F,
    vs1: Seq<Vertex>,
    v: Vertex,
    i: int,
    j: int,
)
    requires
        0 <= i < vs1.len(),
        0 <= j < vs1.len(),
        v.point == vs1[i].point.mix_spec(vs1[j].point, (Weight { num: 1, den: 2 })),
        v.value == f.eval_spec(v.point),
    ensures
        appended_are_midpoints(f, vs1.push(v), vs1.len() as int),
{
    let vs2 = vs1.push(v);
    assert forall|k: int|
        vs1.len() as int <= k < vs2.len() implies (#[trigger] vs2[k]).value == f.eval_spec(
        vs2[k].point,
    ) && is_midpoint_of_earlier(vs2, k) by {
        assert(k == vs1.len());
        assert(vs2[k] == v);
        assert(vs2[i] == vs1[i]);
        assert(vs2[j] == vs1[j]);
        assert(0 <= i < k && 0 <= j < k && vs2[k].point == vs2[i].point.mix_spec(
            vs2[j].point,
            Weight { num: 1, den: 2 },
        ));
        assert(is_midpoint_of_earlier(vs2, k));
    }
}

/// The number of depth-zero triangles in a table.
pub open spec fn zeros(ts: Seq<Triangle>) -> int
    decreases ts.len(),
{
    if ts.len() == 0 {
        0
    } else {
        zeros(ts.drop_last()) + if ts.last().degree == 0 {
            1int
        } else {
            0int
        }
    }
}

/// Tables with pointwise equal depths have equally many depth-zero rows.
proof fn lemma_zeros_congruent(s1: Seq<Triangle>, s2: Seq<Triangle>)
    requires
        s1.len() == s2.len(),
        forall|t: int| 0 <= t < s1.len() ==> (#[trigger] s2[t]).degree == s1[t].degree,
    ensures
        zeros(s2) == zeros(s1),
    decreases s1.len(),
{
    if s1.len() > 0 {
        lemma_zeros_congruent(s1.drop_last(), s2.drop_last());
    }
}

/// Raising one depth-zero row off zero lowers the count by one.
proof fn lemma_zeros_flip_one(s1: Seq<Triangle>, s2: Seq<Triangle>, idx: int)
    requires
        s1.len() == s2.len(),
        0 <= idx < s1.len(),
        s1[idx].degree == 0,
        s2[idx].degree != 0,
        forall|t: int|
            0 <= t < s1.len() && t != idx ==> (#[trigger] s2[t]).degree == s1[t].degree,
    ensures
        zeros(s2) == zeros(s1) - 1,
    decreases s1.len(),
{
    if idx == s1.len() - 1 {
        lemma_zeros_congruent(s1.drop_last(), s2.drop_last());
    } else {
        lemma_zeros_flip_one(s1.drop_last(), s2.drop_last(), idx);
    }
}

/// Appending only non-zero-depth rows keeps the count.
proof fn lemma_zeros_append_nonzero(s1: Seq<Triangle>, s2: Seq<Triangle>)
    requires
        s1.len() <= s2.len(),
        forall|t: int| 0 <= t < s1.len() ==> (#[trigger] s2[t]).degree == s1[t].degree,
        forall|t: int| s1.len() <= t < s2.len() ==> (#[trigger] s2[t]).degree != 0,
    ensures
        zeros(s2) == zeros(s1),
    decreases s2.len() - s1.len(),
{
    if s1.len() == s2.len() {
        lemma_zeros_congruent(s1, s2);
    } else {
        lemma_zeros_append_nonzero(s1, s2.drop_last());
    }
}

/// A table of only depth-zero rows counts its whole length.
proof fn lemma_zeros_all(ts: Seq<Triangle>)
    requires
        forall|t: int| 0 <= t < ts.len() ==> (#[trigger] ts[t]).degree == 0,
    ensures
        zeros(ts) == ts.len(),
    decreases ts.len(),
{
    if ts.len() > 0 {
        lemma_zeros_all(ts.drop_last());
    }
}

/// A table with no depth-zero row counts zero, and conversely.
proof fn lemma_zeros_none(ts: Seq<Triangle>)
    requires
        forall|t: int| 0 <= t < ts.len() ==> (#[trigger] ts[t]).degree != 0,
    ensures
        zeros(ts) == 0,
    decreases ts.len(),
{
    if ts.len() > 0 {
        lemma_zeros_none(ts.drop_last());
    }
}

/// A single split (of one triangle, or of a base-aligned pair around one
/// shared midpoint) is a refinement effect: the split rows' depths rose by
/// one and their third corners are the fresh midpoint, everything else kept
/// its depth and corners.
proof fn lemma_split_effect(
    ts1: Seq<Triangle>,
    tsf: Seq<Triangle>,
    v1: int,
    idx: int,
    pair: bool,
    nb: int,
)
    requires
        0 <= idx < ts1.len(),
        tsf.len() == ts1.len() + (if pair {
            2int
        } else {
            1int
        }),
        tsf[idx].degree == ts1[idx].degree + 1,
        tsf[idx].elements[2] == v1,
        tsf[ts1.len() as int].degree == ts1[idx].degree + 1,
        tsf[ts1.len() as int].elements[2] == v1,
        pair ==> 0 <= nb < ts1.len() && nb != idx && tsf[nb].degree == ts1[nb].degree + 1
            && tsf[nb].elements[2] == v1 && tsf[ts1.len() as int + 1].degree == ts1[nb].degree + 1
            && tsf[ts1.len() as int + 1].elements[2] == v1,
        forall|t: int|
            0 <= t < ts1.len() && t != idx && (!pair || t != nb) ==> (#[trigger] tsf[t]).degree
                == ts1[t].degree && tsf[t].elements == ts1[t].elements,
    ensures
        refine_effect(ts1, v1, tsf),
{
}

/// After a split, every other triangle's base slot that faced a neighbour
/// base-to-base still does: the far rewiring only touches slots that faced
/// a split triangle's edge 1 or 2, and a base-to-base slot faces an edge 0.
proof fn lemma_split_base_slots(
    ts1: Seq<Triangle>,
    tsf: Seq<Triangle>,
    vlen: int,
    idx: int,
    pair: bool,
    nb: int,
)
    requires
        mesh_tris_wf(ts1, vlen),
        0 <= idx < ts1.len(),
        pair ==> 0 <= nb < ts1.len() && nb != idx,
        forall|t: int, e: int|
            0 <= t < ts1.len() && 0 <= e < 3 && t != idx && (!pair || t != nb) && !(
            ts1[idx].connectivity[1] matches Option::Some(p) && p.0 == t && p.1 == e) && !(
            ts1[idx].connectivity[2] matches Option::Some(p) && p.0 == t && p.1 == e) && (!pair
                || !(ts1[nb].connectivity[1] matches Option::Some(p) && p.0 == t && p.1 == e)) && (
            !pair || !(ts1[nb].connectivity[2] matches Option::Some(p) && p.0 == t && p.1 == e))
                ==> (#[trigger] tsf[t].connectivity[e]) == ts1[t].connectivity[e],
    ensures
        forall|t: int|
            0 <= t < ts1.len() && t != idx && (!pair || t != nb) && (ts1[t].connectivity[0] matches
            Option::Some(q) && q.1 == 0) ==> (#[trigger] tsf[t]).connectivity[0]
                == ts1[t].connectivity[0],
{
    assert forall|t: int|
        0 <= t < ts1.len() && t != idx && (!pair || t != nb) && (ts1[t].connectivity[0] matches
        Option::Some(q) && q.1 == 0) implies (#[trigger] tsf[t]).connectivity[0]
        == ts1[t].connectivity[0] by {
        assert(conn_back(ts1, idx, 1));
        assert(conn_back(ts1, idx, 2));
        match ts1[idx].connectivity[1] {
            Option::Some(pq) => {
                if pq.0 == t && pq.1 == 0 {
                    assert(ts1[t].connectivity[0] == Option::Some(((idx as usize), 1usize)));
                }
            },
            Option::None => {},
        }
        match ts1[idx].connectivity[2] {
            Option::Some(pq) => {
                if pq.0 == t && pq.1 == 0 {
                    assert(ts1[t].connectivity[0] == Option::Some(((idx as usize), 2usize)));
                }
            },
            Option::None => {},
        }
        if pair {
            assert(conn_back(ts1, nb, 1));
            assert(conn_back(ts1, nb, 2));
            match ts1[nb].connectivity[1] {
                Option::Some(pq) => {
                    if pq.0 == t && pq.1 == 0 {
                        assert(ts1[t].connectivity[0] == Option::Some(((nb as usize), 1usize)));
                    }
                },
                Option::None => {},
            }
            match ts1[nb].connectivity[2] {
                Option::Some(pq) => {
                    if pq.0 == t && pq.1 == 0 {
                        assert(ts1[t].connectivity[0] == Option::Some(((nb as usize), 2usize)));
                    }
                },
                Option::None => {},
            }
        }
    }
}

/// The element mesh: an append-only vertex arena and the triangle table.
pub struct ElementMesh {
    vertices: Vec<Vertex>,
    triangles: Vec<Triangle>,
}

impl ElementMesh {
    /// The vertex arena.
    pub closed spec fn vertices_view(self) -> Seq<Vertex> {
        self.vertices@
    }

    /// The triangle table.
    pub closed spec fn triangles_view(self) -> Seq<Triangle> {
        self.triangles@
    }

    /// The mesh connectivity invariant.
    pub open spec fn wf(self) -> bool {
        mesh_tris_wf(self.triangles_view(), self.vertices_view().len() as int)
    }

    /// The vertex arena, as a vector.
    pub fn vertices(&self) -> (r: &Vec<Vertex>)
        ensures
            r@ == self.vertices_view(),
    {
        &self.vertices
    }

    /// The triangle table, as a vector.
    pub fn triangles(&self) -> (r: &Vec<Triangle>)
        ensures
            r@ == self.triangles_view(),
    {
        &self.triangles
    }

    /// Builds the initial mesh over the cartesian product of two sample
    /// sequences: one vertex per lattice point (with the field value
    /// evaluated there) and two triangles per lattice cell sharing the cell
    /// diagonal as their common base, connected by index arithmetic without
    /// any search.
    pub fn from_points<F: Function<Point, Output = i64>>(
        points: (&Vec<i64>, &Vec<i64>),
        value_at_point: &F,
    ) -> (r: ElementMesh)
        requires
            2 <= points.0@.len() <= LATTICE_MAX_SAMPLES,
            2 <= points.1@.len() <= LATTICE_MAX_SAMPLES,
            forall|p: Point| #[trigger] value_at_point.eval_req(p),
        ensures
            r.wf(),
            r.vertices_view().len() == points.0@.len() * points.1@.len(),
            r.triangles_view().len() == lattice_tri_count(
                points.0@.len() as int,
                points.1@.len() as int,
            ),
            forall|k: int|
                0 <= k < r.vertices_view().len() ==> (#[trigger] r.vertices_view()[k]).point == (
                Point {
                    x: points.0@[k / points.1@.len() as int],
                    y: points.1@[k % points.1@.len() as int],
                }),
            forall|k: int|
                0 <= k < r.vertices_view().len() ==> (#[trigger] r.vertices_view()[k]).value
                    == value_at_point.eval_spec(r.vertices_view()[k].point),
            forall|k: int|
                0 <= k < r.triangles_view().len() ==> lattice_tri_ok(
                    points.0@.len() as int,
                    points.1@.len() as int,
                    k,
                    #[trigger] r.triangles_view()[k],
                ),
    {
        let x_points = points.0;
        let y_points = points.1;
        let nx = x_points.len();
        let ny = y_points.len();
        let mut vertices: Vec<Vertex> = Vec::new();
        let mut xi: usize = 0;
        while xi < nx
            invariant
                nx == x_points@.len(),
                ny == y_points@.len(),
                2 <= nx <= LATTICE_MAX_SAMPLES,
                2 <= ny <= LATTICE_MAX_SAMPLES,
                forall|p: Point| #[trigger] value_at_point.eval_req(p),
                xi <= nx,
                vertices@.len() == xi * ny,
                forall|k: int|
                    0 <= k < vertices@.len() ==> (#[trigger] vertices@[k]).point == (Point {
                        x: x_points@[k / ny as int],
                        y: y_points@[k % ny as int],
                    }),
                forall|k: int|
                    0 <= k < vertices@.len() ==> (#[trigger] vertices@[k]).value
                        == value_at_point.eval_spec(vertices@[k].point),
            decreases nx - xi,
        {
            let mut yi: usize = 0;
            while yi < ny
                invariant
                    nx == x_points@.len(),
                    ny == y_points@.len(),
                    2 <= nx <= LATTICE_MAX_SAMPLES,
                    2 <= ny <= LATTICE_MAX_SAMPLES,
                    forall|p: Point| #[trigger] value_at_point.eval_req(p),
                    xi < nx,
                    yi <= ny,
                    vertices@.len() == xi * ny + yi,
                    forall|k: int|
                        0 <= k < vertices@.len() ==> (#[trigger] vertices@[k]).point == (Point {
                            x: x_points@[k / ny as int],
                            y: y_points@[k % ny as int],
                        }),
                    forall|k: int|
                        0 <= k < vertices@.len() ==> (#[trigger] vertices@[k]).value
                            == value_at_point.eval_spec(vertices@[k].point),
                decreases ny - yi,
            {
                let p = Point { x: x_points[xi], y: y_points[yi] };
                proof {
                    assert(value_at_point.eval_req(p));
                    assert(0 <= (xi as int) * (ny as int)) by (nonlinear_arith)
                        requires
                            0 <= xi as int,
                            0 <= ny as int,
                    ;
                    assert((xi as int) * (ny as int) <= 0x4000int * 0x4000int)
                        by (nonlinear_arith)
                        requires
                            0 <= xi as int <= 0x4000,
                            0 <= ny as int <= 0x4000,
                    ;
                    lemma_fundamental_div_mod_converse(
                        (xi as int) * (ny as int) + yi as int,
                        ny as int,
                        xi as int,
                        yi as int,
                    );
                }
                let v = value_at_point.eval(p);
                vertices.push(Vertex { point: p, value: v });
                yi = yi + 1;
            }
            proof {
                assert((xi as int + 1) * (ny as int) == (xi as int) * (ny as int) + (ny as int))
                    by (nonlinear_arith);
            }
            xi = xi + 1;
        }
        let horiz = 2 * (ny - 1) + 1;
        let mut triangles: Vec<Triangle> = Vec::new();
        let mut cx: usize = 0;
        while cx < nx - 1
            invariant
                nx == x_points@.len(),
                ny == y_points@.len(),
                2 <= nx <= LATTICE_MAX_SAMPLES,
                2 <= ny <= LATTICE_MAX_SAMPLES,
                horiz == 2 * (ny - 1) + 1,
                cx <= nx - 1,
                triangles@.len() == 2 * ((cx as int) * (ny as int - 1)),
                forall|j: int|
                    0 <= j < triangles@.len() ==> lattice_tri_ok(
                        nx as int,
                        ny as int,
                        j,
                        #[trigger] triangles@[j],
                    ),
            decreases nx - 1 - cx,
        {
            let mut cy: usize = 0;
            while cy < ny - 1
                invariant
                    nx == x_points@.len(),
                    ny == y_points@.len(),
                    2 <= nx <= LATTICE_MAX_SAMPLES,
                    2 <= ny <= LATTICE_MAX_SAMPLES,
                    horiz == 2 * (ny - 1) + 1,
                    cx < nx - 1,
                    cy <= ny - 1,
                    triangles@.len() == 2 * ((cx as int) * (ny as int - 1) + cy as int),
                    forall|j: int|
                        0 <= j < triangles@.len() ==> lattice_tri_ok(
                            nx as int,
                            ny as int,
                            j,
                            #[trigger] triangles@[j],
                        ),
                decreases ny - 1 - cy,
            {
                proof {
                    assert(0 <= (cx as int) * (ny as int) && (cx as int) * (ny as int)
                        <= 0x4000int * 0x4000int && 0 <= (cx as int) * (ny as int - 1) && (
                    cx as int) * (ny as int - 1) <= 0x4000int * 0x4000int) by (nonlinear_arith)
                        requires
                            0 <= cx as int <= 0x4000,
                            2 <= ny as int <= 0x4000,
                    ;
                }
                let bl = cy + cx * ny;
                let tl = bl + 1;
                let br = bl + ny;
                let tr = br + 1;
                let ti = 2 * (cx * (ny - 1) + cy);
                let even = Triangle {
                    elements: [bl, tr, br],
                    connectivity: [
                        Option::Some((ti + 1, 0)),
                        if cx + 1 < nx - 1 {
                            Option::Some((ti + horiz, 1))
                        } else {
                            Option::None
                        },
                        if cy > 0 {
                            Option::Some((ti - 1, 2))
                        } else {
                            Option::None
                        },
                    ],
                    degree: 0,
                };
                proof {
                    if cx > 0 {
                        lemma_mul_inequality(1, cx as int, ny as int - 1);
                    }
                }
                let odd = Triangle {
                    elements: [tr, bl, tl],
                    connectivity: [
                        Option::Some((ti, 0)),
                        if cx > 0 {
                            Option::Some((ti + 1 - horiz, 1))
                        } else {
                            Option::None
                        },
                        if cy + 1 < ny - 1 {
                            Option::Some((ti + 2, 2))
                        } else {
                            Option::None
                        },
                    ],
                    degree: 0,
                };
                proof {
                    lemma_cell_of(ny as int, ti as int, cx as int, cy as int, 0);
                    lemma_cell_of(ny as int, ti as int + 1, cx as int, cy as int, 1);
                    assert(lattice_tri_ok(nx as int, ny as int, ti as int, even));
                    assert(lattice_tri_ok(nx as int, ny as int, ti as int + 1, odd));
                }
                triangles.push(even);
                triangles.push(odd);
                cy = cy + 1;
            }
            proof {
                assert((cx as int + 1) * (ny as int - 1) == (cx as int) * (ny as int - 1) + (
                ny as int - 1)) by (nonlinear_arith);
            }
            cx = cx + 1;
        }
        proof {
            lemma_lattice_wf(
                nx as int,
                ny as int,
                triangles@,
                (nx as int) * (ny as int),
            );
        }
        ElementMesh { vertices, triangles }
    }

    /// Overwrites one connectivity slot of one triangle.
    fn set_conn(&mut self, t: usize, e: usize, v: Option<(usize, usize)>)
        requires
            t < old(self).triangles_view().len(),
            e < 3,
        ensures
            final(self).vertices_view() == old(self).vertices_view(),
            final(self).triangles_view().len() == old(self).triangles_view().len(),
            final(self).triangles_view()[t as int].connectivity[e as int] == v,
            forall|e2: int|
                0 <= e2 < 3 && e2 != e as int ==> final(self).triangles_view()[t as int].connectivity[e2]
                    == old(self).triangles_view()[t as int].connectivity[e2],
            final(self).triangles_view()[t as int].elements == old(self).triangles_view()[t as int].elements,
            final(self).triangles_view()[t as int].degree == old(self).triangles_view()[t as int].degree,
            forall|t2: int|
                0 <= t2 < old(self).triangles_view().len() && t2 != t as int ==> final(self).triangles_view()[t2] == old(self).triangles_view()[t2],
    {
        let row = self.triangles[t];
        let c = row.connectivity;
        let newc = [
            if e == 0 {
                v
            } else {
                c[0]
            },
            if e == 1 {
                v
            } else {
                c[1]
            },
            if e == 2 {
                v
            } else {
                c[2]
            },
        ];
        let newrow = Triangle { elements: row.elements, connectivity: newc, degree: row.degree };
        self.triangles.set(t, newrow);
    }

    /// Bisects the triangle at `triangle_idx` at the midpoint of its base
    /// edge, replacing it in place by one child and appending the other;
    /// returns the two child indices. When a triangle sits across the base
    /// whose shared edge is not its own base, that neighbour is bisected
    /// first (its base-aligned child then faces us), and both sides split
    /// around one shared midpoint vertex, so a shared edge never subdivides
    /// on one side only.
    /// Splits a triangle whose base lies on the mesh boundary: the
    /// midpoint vertex `mid` is appended, the triangle is replaced in place
    /// by the child keeping edges 1 and 2, and the second child is appended.
    #[verifier::rlimit(100)]
    #[verifier::spinoff_prover]
    fn split_lone(&mut self, triangle_idx: usize, mid: Vertex) -> (r: [usize; 2])
        requires
            old(self).wf(),
            triangle_idx < old(self).triangles_view().len(),
            old(self).triangles_view()[triangle_idx as int].degree + 1 < DEGREE_CAP,
            old(self).triangles_view()[triangle_idx as int].connectivity[0] is None,
        ensures
            final(self).wf(),
            final(self).vertices_view() == old(self).vertices_view().push(mid),
            final(self).triangles_view().len() == old(self).triangles_view().len() + 1,
            r[0] == triangle_idx,
            r[1] == old(self).triangles_view().len(),
            final(self).triangles_view()[r[0] as int].degree == old(self).triangles_view()[triangle_idx as int].degree + 1,
            final(self).triangles_view()[r[1] as int].degree == old(self).triangles_view()[triangle_idx as int].degree + 1,
            final(self).triangles_view()[r[0] as int].elements == [
                old(self).triangles_view()[triangle_idx as int].elements[1],
                old(self).triangles_view()[triangle_idx as int].elements[2],
                (old(self).vertices_view().len() as usize),
            ],
            final(self).triangles_view()[r[1] as int].elements == [
                old(self).triangles_view()[triangle_idx as int].elements[2],
                old(self).triangles_view()[triangle_idx as int].elements[0],
                (old(self).vertices_view().len() as usize),
            ],
            final(self).triangles_view()[r[0] as int].elements[2] == old(self).vertices_view().len(),
            final(self).triangles_view()[r[1] as int].elements[2] == old(self).vertices_view().len(),
            split_frame(
                old(self).triangles_view(),
                final(self).triangles_view(),
                old(self).triangles_view()[triangle_idx as int].degree as int,
            ),
            old(self).triangles_view()[triangle_idx as int].connectivity[1] matches Option::Some(
                p1,
            ) ==> final(self).triangles_view()[p1.0 as int].connectivity[p1.1 as int]
                == Option::Some((r[0], 0usize)),
            old(self).triangles_view()[triangle_idx as int].connectivity[2] matches Option::Some(
                p2,
            ) ==> final(self).triangles_view()[p2.0 as int].connectivity[p2.1 as int]
                == Option::Some((r[1], 0usize)),
            forall|t: int|
                0 <= t < old(self).triangles_view().len() ==> (#[trigger] final(self).triangles_view()[t]).degree >= old(self).triangles_view()[t].degree,
            forall|t: int|
                old(self).triangles_view().len() <= t < final(self).triangles_view().len() ==> (
                #[trigger] final(self).triangles_view()[t]).degree >= 1,
            final(self).triangles_view()[r[0] as int].connectivity[0] == old(self).triangles_view()[triangle_idx as int].connectivity[1],
            final(self).triangles_view()[r[0] as int].connectivity[1] == Option::Some((r[1], 2usize)),
            final(self).triangles_view()[r[0] as int].connectivity[2] is None,
            final(self).triangles_view()[r[1] as int].connectivity[0] == old(self).triangles_view()[triangle_idx as int].connectivity[2],
            final(self).triangles_view()[r[1] as int].connectivity[1] is None,
            final(self).triangles_view()[r[1] as int].connectivity[2] == Option::Some((r[0], 1usize)),
            forall|t: int|
                0 <= t < old(self).triangles_view().len() && t != triangle_idx ==> (#[trigger] final(self).triangles_view()[t]).degree == old(self).triangles_view()[t].degree
                    && final(self).triangles_view()[t].elements == old(self).triangles_view()[t].elements,
            forall|t: int, e: int|
                0 <= t < old(self).triangles_view().len() && 0 <= e < 3 && t != triangle_idx && !(
                old(self).triangles_view()[triangle_idx as int].connectivity[1] matches Option::Some(p)
                    && p.0 == t && p.1 == e) && !(
                old(self).triangles_view()[triangle_idx as int].connectivity[2] matches Option::Some(p)
                    && p.0 == t && p.1 == e) ==> (#[trigger] final(self).triangles_view()[t].connectivity[e])
                    == old(self).triangles_view()[t].connectivity[e],
    {
        let ghost ts1 = self.triangles@;
        let ghost vs1 = self.vertices@;
        proof {
            assert(conn_back(ts1, triangle_idx as int, 0));
            assert(conn_back(ts1, triangle_idx as int, 1));
            assert(conn_back(ts1, triangle_idx as int, 2));
        }
        let t1 = self.triangles[triangle_idx];
        let a = t1.elements[0];
        let b = t1.elements[1];
        let c = t1.elements[2];
        let m = self.vertices.len();
        self.vertices.push(mid);
        let new_idx = self.triangles.len();
        let child1 = Triangle {
            elements: [b, c, m],
            connectivity: [t1.connectivity[1], Option::Some((new_idx, 2)), Option::None],
            degree: t1.degree + 1,
        };
        let child2 = Triangle {
            elements: [c, a, m],
            connectivity: [t1.connectivity[2], Option::None, Option::Some((triangle_idx, 1))],
            degree: t1.degree + 1,
        };
        self.triangles.set(triangle_idx, child1);
        self.triangles.push(child2);
        if let Option::Some((x1, s1)) = t1.connectivity[1] {
            self.set_conn(x1, s1, Option::Some((triangle_idx, 0)));
        }
        if let Option::Some((x2, s2)) = t1.connectivity[2] {
            self.set_conn(x2, s2, Option::Some((new_idx, 0)));
        }
        proof {
            let tsf = self.triangles@;
            let idx = triangle_idx as int;
            let l1 = new_idx as int;
            assert(conn_back(ts1, idx, 1));
            assert(conn_back(ts1, idx, 2));
            assert(neighbors_distinct(ts1[idx]));
            assert(tri_wf(ts1[idx], vs1.len() as int));
            lemma_split_lone_wf(ts1, tsf, vs1.len() as int, idx, l1, m as int);
        }
        [triangle_idx, new_idx]
    }

    /// Splits a triangle and the base-aligned neighbour across its base
    /// around one shared midpoint vertex: both are replaced in place by one
    /// child each, the two remaining children are appended, and the four
    /// new edges around the midpoint are stitched symmetrically.
    #[verifier::rlimit(100)]
    #[verifier::spinoff_prover]
    fn split_pair(&mut self, triangle_idx: usize, nbi: usize, mid: Vertex) -> (r: [usize; 2])
        requires
            old(self).wf(),
            triangle_idx < old(self).triangles_view().len(),
            old(self).triangles_view()[triangle_idx as int].degree + 1 < DEGREE_CAP,
            old(self).triangles_view()[triangle_idx as int].connectivity[0] == Option::Some(
                (nbi, 0usize),
            ),
        ensures
            final(self).wf(),
            final(self).vertices_view() == old(self).vertices_view().push(mid),
            final(self).triangles_view().len() == old(self).triangles_view().len() + 2,
            r[0] == triangle_idx,
            r[1] == old(self).triangles_view().len(),
            final(self).triangles_view()[r[0] as int].degree == old(self).triangles_view()[triangle_idx as int].degree + 1,
            final(self).triangles_view()[r[1] as int].degree == old(self).triangles_view()[triangle_idx as int].degree + 1,
            final(self).triangles_view()[r[0] as int].elements == [
                old(self).triangles_view()[triangle_idx as int].elements[1],
                old(self).triangles_view()[triangle_idx as int].elements[2],
                (old(self).vertices_view().len() as usize),
            ],
            final(self).triangles_view()[r[1] as int].elements == [
                old(self).triangles_view()[triangle_idx as int].elements[2],
                old(self).triangles_view()[triangle_idx as int].elements[0],
                (old(self).vertices_view().len() as usize),
            ],
            final(self).triangles_view()[r[0] as int].elements[2] == old(self).vertices_view().len(),
            final(self).triangles_view()[r[1] as int].elements[2] == old(self).vertices_view().len(),
            split_frame(
                old(self).triangles_view(),
                final(self).triangles_view(),
                old(self).triangles_view()[triangle_idx as int].degree as int,
            ),
            old(self).triangles_view()[triangle_idx as int].connectivity[1] matches Option::Some(
                p1,
            ) ==> final(self).triangles_view()[p1.0 as int].connectivity[p1.1 as int]
                == Option::Some((r[0], 0usize)),
            old(self).triangles_view()[triangle_idx as int].connectivity[2] matches Option::Some(
                p2,
            ) ==> final(self).triangles_view()[p2.0 as int].connectivity[p2.1 as int]
                == Option::Some((r[1], 0usize)),
            forall|t: int|
                0 <= t < old(self).triangles_view().len() ==> (#[trigger] final(self).triangles_view()[t]).degree >= old(self).triangles_view()[t].degree,
            forall|t: int|
                old(self).triangles_view().len() <= t < final(self).triangles_view().len() ==> (
                #[trigger] final(self).triangles_view()[t]).degree >= 1,
            final(self).triangles_view()[r[0] as int].connectivity[0] == old(self).triangles_view()[triangle_idx as int].connectivity[1],
            final(self).triangles_view()[r[0] as int].connectivity[1] == Option::Some((r[1], 2usize)),
            final(self).triangles_view()[r[0] as int].connectivity[2] == Option::Some((
                ((old(self).triangles_view().len() + 1) as usize),
                1usize,
            )),
            final(self).triangles_view()[r[1] as int].connectivity[0] == old(self).triangles_view()[triangle_idx as int].connectivity[2],
            final(self).triangles_view()[r[1] as int].connectivity[2] == Option::Some((r[0], 1usize)),
            final(self).triangles_view()[nbi as int].degree == old(self).triangles_view()[nbi as int].degree + 1,
            final(self).triangles_view()[(old(self).triangles_view().len() + 1) as int].degree
                == old(self).triangles_view()[nbi as int].degree + 1,
            final(self).triangles_view()[nbi as int].elements[2] == old(self).vertices_view().len(),
            final(self).triangles_view()[(old(self).triangles_view().len() + 1) as int].elements[2]
                == old(self).vertices_view().len(),
            forall|t: int|
                0 <= t < old(self).triangles_view().len() && t != triangle_idx && t != nbi ==> (
                #[trigger] final(self).triangles_view()[t]).degree == old(self).triangles_view()[t].degree
                    && final(self).triangles_view()[t].elements == old(self).triangles_view()[t].elements,
            forall|t: int, e: int|
                0 <= t < old(self).triangles_view().len() && 0 <= e < 3 && t != triangle_idx && t
                    != nbi && !(
                old(self).triangles_view()[triangle_idx as int].connectivity[1] matches Option::Some(p)
                    && p.0 == t && p.1 == e) && !(
                old(self).triangles_view()[triangle_idx as int].connectivity[2] matches Option::Some(p)
                    && p.0 == t && p.1 == e) && !(
                old(self).triangles_view()[nbi as int].connectivity[1] matches Option::Some(p)
                    && p.0 == t && p.1 == e) && !(
                old(self).triangles_view()[nbi as int].connectivity[2] matches Option::Some(p)
                    && p.0 == t && p.1 == e) ==> (#[trigger] final(self).triangles_view()[t].connectivity[e])
                    == old(self).triangles_view()[t].connectivity[e],
    {
        let ghost ts1 = self.triangles@;
        let ghost vs1 = self.vertices@;
        proof {
            assert(conn_back(ts1, triangle_idx as int, 0));
            assert(conn_back(ts1, triangle_idx as int, 1));
            assert(conn_back(ts1, triangle_idx as int, 2));
            assert(conn_back(ts1, nbi as int, 1));
            assert(conn_back(ts1, nbi as int, 2));
        }
        let t1 = self.triangles[triangle_idx];
        let a = t1.elements[0];
        let b = t1.elements[1];
        let c = t1.elements[2];
        let m = self.vertices.len();
        self.vertices.push(mid);
        let t2 = self.triangles[nbi];
        let c2 = t2.elements[2];
        let len1 = self.triangles.len();
        let child2 = Triangle {
            elements: [c, a, m],
            connectivity: [
                t1.connectivity[2],
                Option::Some((nbi, 2)),
                Option::Some((triangle_idx, 1)),
            ],
            degree: t1.degree + 1,
        };
        self.triangles.push(child2);
        let len2 = self.triangles.len();
        let nchild2 = Triangle {
            elements: [c2, t2.elements[0], m],
            connectivity: [
                t2.connectivity[2],
                Option::Some((triangle_idx, 2)),
                Option::Some((nbi, 1)),
            ],
            degree: t2.degree + 1,
        };
        self.triangles.push(nchild2);
        let child1 = Triangle {
            elements: [b, c, m],
            connectivity: [t1.connectivity[1], Option::Some((len1, 2)), Option::Some((len2, 1))],
            degree: t1.degree + 1,
        };
        let nchild1 = Triangle {
            elements: [t2.elements[1], c2, m],
            connectivity: [t2.connectivity[1], Option::Some((len2, 2)), Option::Some((len1, 1))],
            degree: t2.degree + 1,
        };
        self.triangles.set(triangle_idx, child1);
        self.triangles.set(nbi, nchild1);
        if let Option::Some((x1, s1)) = t1.connectivity[1] {
            self.set_conn(x1, s1, Option::Some((triangle_idx, 0)));
        }
        if let Option::Some((x2, s2)) = t1.connectivity[2] {
            self.set_conn(x2, s2, Option::Some((len1, 0)));
        }
        if let Option::Some((y1, u1)) = t2.connectivity[1] {
            self.set_conn(y1, u1, Option::Some((nbi, 0)));
        }
        if let Option::Some((y2, u2)) = t2.connectivity[2] {
            self.set_conn(y2, u2, Option::Some((len2, 0)));
        }
        proof {
            let tsf = self.triangles@;
            let idx = triangle_idx as int;
            let nb = nbi as int;
            assert(conn_back(ts1, idx, 0));
            assert(conn_back(ts1, idx, 1));
            assert(conn_back(ts1, idx, 2));
            assert(conn_back(ts1, nb, 1));
            assert(conn_back(ts1, nb, 2));
            assert(neighbors_distinct(ts1[idx]));
            assert(neighbors_distinct(ts1[nb]));
            assert(tri_wf(ts1[idx], vs1.len() as int));
            assert(tri_wf(ts1[nb], vs1.len() as int));
            lemma_split_pair_wf(
                ts1,
                tsf,
                vs1.len() as int,
                idx,
                nb,
                len1 as int,
                len2 as int,
                m as int,
            );
        }
        [triangle_idx, len1]
    }

    /// Bisects the triangle at `triangle_idx` at the midpoint of its base
    /// edge, replacing it in place by one child and appending the other;
    /// returns the two child indices. When the neighbour across the base is
    /// not itself base-aligned on the shared edge it is bisected first (its
    /// returned child then faces us base-to-base), and both sides split
    /// around one shared midpoint vertex, so a shared edge never subdivides
    /// on one side only.
    #[verifier::rlimit(100)]
    #[verifier::spinoff_prover]
    fn refine_triangle_base<F: Function<Point, Output = i64>>(
        &mut self,
        triangle_idx: usize,
        value_at_point: &F,
    ) -> (r: [usize; 2])
        requires
            old(self).wf(),
            triangle_idx < old(self).triangles_view().len(),
            old(self).triangles_view()[triangle_idx as int].degree + 1 < DEGREE_CAP,
            forall|p: Point| #[trigger] value_at_point.eval_req(p),
        ensures
            final(self).wf(),
            old(self).vertices_view().len() < final(self).vertices_view().len(),
            forall|k: int|
                0 <= k < old(self).vertices_view().len() ==> final(self).vertices_view()[k] == old(self).vertices_view()[k],
            old(self).triangles_view().len() < final(self).triangles_view().len(),
            r[0] == triangle_idx,
            old(self).triangles_view().len() <= r[1] < final(self).triangles_view().len(),
            final(self).triangles_view()[r[0] as int].degree == old(self).triangles_view()[triangle_idx as int].degree + 1,
            final(self).triangles_view()[r[1] as int].degree == old(self).triangles_view()[triangle_idx as int].degree + 1,
            final(self).triangles_view()[r[0] as int].elements == [
                old(self).triangles_view()[triangle_idx as int].elements[1],
                old(self).triangles_view()[triangle_idx as int].elements[2],
                ((final(self).vertices_view().len() - 1) as usize),
            ],
            final(self).triangles_view()[r[1] as int].elements == [
                old(self).triangles_view()[triangle_idx as int].elements[2],
                old(self).triangles_view()[triangle_idx as int].elements[0],
                ((final(self).vertices_view().len() - 1) as usize),
            ],
            final(self).vertices_view().last().point == old(self).vertices_view()[old(
                self,
            ).triangles_view()[triangle_idx as int].elements[0] as int].point.mix_spec(
                old(self).vertices_view()[old(self).triangles_view()[triangle_idx as int].elements[1] as int].point,
                Weight { num: 1, den: 2 },
            ),
            split_frame(
                old(self).triangles_view(),
                final(self).triangles_view(),
                old(self).triangles_view()[triangle_idx as int].degree as int,
            ),
            old(self).triangles_view()[triangle_idx as int].connectivity[1] matches Option::Some(
                p1,
            ) ==> final(self).triangles_view()[p1.0 as int].connectivity[p1.1 as int]
                == Option::Some((r[0], 0usize)),
            old(self).triangles_view()[triangle_idx as int].connectivity[2] matches Option::Some(
                p2,
            ) ==> final(self).triangles_view()[p2.0 as int].connectivity[p2.1 as int]
                == Option::Some((r[1], 0usize)),
            forall|t: int|
                0 <= t < old(self).triangles_view().len() ==> (#[trigger] final(self).triangles_view()[t]).degree >= old(self).triangles_view()[t].degree,
            forall|t: int|
                old(self).triangles_view().len() <= t < final(self).triangles_view().len() ==> (
                #[trigger] final(self).triangles_view()[t]).degree >= 1,
            final(self).triangles_view()[r[0] as int].connectivity[1] == Option::Some((r[1], 2usize)),
            final(self).triangles_view()[r[1] as int].connectivity[2] == Option::Some((r[0], 1usize)),
            final(self).vertices_view().last().value == value_at_point.eval_spec(
                final(self).vertices_view().last().point,
            ),
            appended_are_midpoints(
                value_at_point,
                final(self).vertices_view(),
                old(self).vertices_view().len() as int,
            ),
            refine_effect(
                old(self).triangles_view(),
                old(self).vertices_view().len() as int,
                final(self).triangles_view(),
            ),
            forall|t: int|
                0 <= t < final(self).triangles_view().len() ==> (#[trigger] final(self).triangles_view()[t]).degree <= old(self).triangles_view()[triangle_idx as int].degree
                    + 1 || (t < old(self).triangles_view().len() && final(self).triangles_view()[t].degree == old(self).triangles_view()[t].degree),
            old(self).triangles_view()[triangle_idx as int].connectivity[0] is None ==> final(self).vertices_view().len() == old(self).vertices_view().len() + 1 && final(self).triangles_view().len() == old(self).triangles_view().len() + 1 && final(self).triangles_view()[r[0] as int].connectivity[2] is None && final(self).triangles_view()[r[1] as int].connectivity[1] is None,
            old(self).triangles_view()[triangle_idx as int].connectivity[0] matches Option::Some(
                p,
            ) ==> (p.1 == 0 ==> final(self).vertices_view().len() == old(
                self,
            ).vertices_view().len() + 1 && final(self).triangles_view().len() == old(
                self,
            ).triangles_view().len() + 2 && final(self).triangles_view()[p.0 as int].degree == old(
                self,
            ).triangles_view()[p.0 as int].degree + 1 && final(self).triangles_view()[(old(
                self,
            ).triangles_view().len() + 1) as int].degree == old(self).triangles_view()[p.0 as int].degree + 1),
            (old(self).triangles_view()[triangle_idx as int].connectivity[0] is None || (old(self).triangles_view()[triangle_idx as int].connectivity[0] matches Option::Some(p) && p.1
                == 0)) ==> (forall|t: int|
                0 <= t < old(self).triangles_view().len() && t != triangle_idx && t != conn_target(
                    old(self).triangles_view()[triangle_idx as int],
                    0,
                ) ==> (#[trigger] final(self).triangles_view()[t]).degree == old(self).triangles_view()[t].degree && final(self).triangles_view()[t].elements == old(self).triangles_view()[t].elements),
            (old(self).triangles_view()[triangle_idx as int].connectivity[0] is None || (old(self).triangles_view()[triangle_idx as int].connectivity[0] matches Option::Some(p) && p.1
                == 0)) ==> (forall|t: int|
                0 <= t < old(self).triangles_view().len() && t != triangle_idx && t != conn_target(
                    old(self).triangles_view()[triangle_idx as int],
                    0,
                ) && (old(self).triangles_view()[t].connectivity[0] matches Option::Some(q) && q.1
                    == 0) ==> (#[trigger] final(self).triangles_view()[t]).connectivity[0] == old(self).triangles_view()[t].connectivity[0]),
        decreases old(self).triangles_view()[triangle_idx as int].degree,
    {
        let ghost ts0 = self.triangles@;
        let ghost vs0 = self.vertices@;
        let ghost d = ts0[triangle_idx as int].degree as int;
        let t0 = self.triangles[triangle_idx];
        proof {
            assert(conn_back(ts0, triangle_idx as int, 0));
            assert(conn_back(ts0, triangle_idx as int, 1));
            assert(conn_back(ts0, triangle_idx as int, 2));
        }
        let mut nb_aligned: Option<usize> = Option::None;
        match t0.connectivity[0] {
            Option::Some((nb, f)) => {
                if f != 0 {
                    proof {
                        assert(ts0[nb as int].degree as int == d - 1);
                    }
                    let rr = self.refine_triangle_base(nb, value_at_point);
                    let child = if f == 1 {
                        rr[0]
                    } else {
                        rr[1]
                    };
                    nb_aligned = Option::Some(child);
                    proof {
                        assert(ts0[nb as int].connectivity[f as int] == Option::Some(
                            (triangle_idx, 0usize),
                        ));
                        assert(self.triangles@[triangle_idx as int].connectivity[0]
                            == Option::Some((child, 0usize)));
                        assert(conn_frame_keep(ts0, triangle_idx as int, 1, d - 1));
                        assert(conn_frame_keep(ts0, triangle_idx as int, 2, d - 1));
                        assert(self.triangles@[triangle_idx as int].connectivity[1]
                            == ts0[triangle_idx as int].connectivity[1]);
                        assert(self.triangles@[triangle_idx as int].connectivity[2]
                            == ts0[triangle_idx as int].connectivity[2]);
                        assert(self.triangles@[triangle_idx as int].elements == ts0[triangle_idx as int].elements);
                        assert(self.triangles@[triangle_idx as int].degree as int == d);
                    }
                } else {
                    nb_aligned = Option::Some(nb);
                }
            },
            Option::None => {},
        }
        let ghost ts1 = self.triangles@;
        let ghost vs1 = self.vertices@;
        proof {
            assert(mesh_tris_wf(ts1, vs1.len() as int));
            assert(conn_back(ts1, triangle_idx as int, 0));
            assert(conn_back(ts1, triangle_idx as int, 1));
            assert(conn_back(ts1, triangle_idx as int, 2));
            assert(ts1[triangle_idx as int].connectivity[1] == ts0[triangle_idx as int].connectivity[1]);
            assert(ts1[triangle_idx as int].connectivity[2] == ts0[triangle_idx as int].connectivity[2]);
            match ts0[triangle_idx as int].connectivity[1] {
                Option::Some(xs1) => {
                    assert(conn_frame_keep(ts0, xs1.0 as int, xs1.1 as int, d - 1));
                    assert(ts1[xs1.0 as int].connectivity[xs1.1 as int] == ts0[xs1.0 as int].connectivity[xs1.1 as int]);
                },
                Option::None => {},
            }
            match ts0[triangle_idx as int].connectivity[2] {
                Option::Some(xs2) => {
                    assert(conn_frame_keep(ts0, xs2.0 as int, xs2.1 as int, d - 1));
                    assert(ts1[xs2.0 as int].connectivity[xs2.1 as int] == ts0[xs2.0 as int].connectivity[xs2.1 as int]);
                },
                Option::None => {},
            }
        }
        let t1 = self.triangles[triangle_idx];
        let a = t1.elements[0];
        let b = t1.elements[1];
        let va = self.vertices[a];
        let vb = self.vertices[b];
        let mid_point = va.point.mix(vb.point, Weight::half());
        proof {
            assert(value_at_point.eval_req(mid_point));
        }
        let mid_value = value_at_point.eval(mid_point);
        let mid = Vertex { point: mid_point, value: mid_value };
        let rr2 = match nb_aligned {
            Option::None => self.split_lone(triangle_idx, mid),
            Option::Some(nbi) => self.split_pair(triangle_idx, nbi, mid),
        };
        proof {
            let tsf = self.triangles@;
            let idx = triangle_idx as int;
            assert forall|t: int|
                0 <= t < ts0.len() && ts0[t].degree > d implies (#[trigger] tsf[t]).elements
                    == ts0[t].elements && tsf[t].degree == ts0[t].degree by {
                assert(ts1[t].elements == ts0[t].elements);
                assert(ts1[t].degree == ts0[t].degree);
            }
            assert forall|t: int, e: int|
                0 <= t < ts0.len() && 0 <= e < 3 && ts0[t].degree > d && conn_frame_keep(
                    ts0,
                    t,
                    e,
                    d,
                ) implies (#[trigger] tsf[t].connectivity[e]) == ts0[t].connectivity[e] by {
                assert(conn_back(ts0, t, e));
                assert(conn_frame_keep(ts0, t, e, d - 1));
                assert(ts1[t].connectivity[e] == ts0[t].connectivity[e]);
                match ts0[t].connectivity[e] {
                    Option::Some(zh) => {
                        assert(0 <= zh.0 as int && (zh.0 as int) < ts0.len());
                        assert(ts0[zh.0 as int].degree > d - 1);
                        assert(ts1[zh.0 as int].degree == ts0[zh.0 as int].degree);
                        assert(conn_frame_keep(ts1, t, e, d));
                    },
                    Option::None => {},
                }
            }
            assert(split_frame(ts0, tsf, d));
            let vsf = self.vertices@;
            assert(tri_wf(ts1[idx], vs1.len() as int));
            assert(appended_are_midpoints(value_at_point, vs1, vs0.len() as int));
            lemma_appended_midpoints_push(value_at_point, vs1, mid, a as int, b as int);
            assert(vsf == vs1.push(mid));
            assert(appended_are_midpoints(value_at_point, vsf, vs1.len() as int));
            lemma_appended_midpoints_trans(value_at_point, vs1, vsf, vs0.len() as int);
            assert(refine_effect(ts0, vs0.len() as int, ts1));
            assert(conn_back(ts1, idx, 0));
            match ts1[idx].connectivity[0] {
                Option::None => {
                    lemma_split_effect(ts1, tsf, vs1.len() as int, idx, false, 0);
                    lemma_split_base_slots(ts1, tsf, vs1.len() as int, idx, false, 0);
                },
                Option::Some(pp) => {
                    assert(pp.1 == 0);
                    lemma_split_effect(ts1, tsf, vs1.len() as int, idx, true, pp.0 as int);
                    lemma_split_base_slots(ts1, tsf, vs1.len() as int, idx, true, pp.0 as int);
                },
            }
            lemma_refine_effect_trans(ts0, vs0.len() as int, ts1, vs1.len() as int, tsf);
            assert forall|t: int|
                0 <= t < tsf.len() implies (#[trigger] tsf[t]).degree <= d + 1 || (t < ts0.len()
                && tsf[t].degree == ts0[t].degree) by {
                assert(conn_back(ts1, idx, 0));
            }
        }
        rr2
    }

    /// Adaptively refines the mesh: a FIFO work list seeded with every
    /// triangle at depth zero is processed to completion. An entry whose
    /// recorded depth no longer matches the triangle's current depth is
    /// stale (the triangle was already consumed by a cascading neighbour
    /// split) and is skipped; entries below `MIN_DEGREE` always split;
    /// entries above `MAX_DEGREE` never do; in between the caller's
    /// predicate decides. Both children of a split re-enter the list.
    ///
    /// A mesh with no depth-zero triangle is left exactly as it is,
    /// whatever the predicate says: every seeded entry is stale. On an
    /// all-depth-zero mesh under a predicate that never asks for a split,
    /// refinement stops at the forced minimum: every triangle ends at depth
    /// one and the table exactly doubles (one shared midpoint per
    /// base-linked pair). In every case depths only grow, a record keeps
    /// its corners unless it was bisected (its third corner is then a
    /// fresh midpoint), and each appended vertex is the exact midpoint of
    /// two earlier vertices carrying the value function's value there.
    pub fn refine<F: Function<Point, Output = i64>, P: Function<[Vertex; 3], Output = bool>>(
        &mut self,
        value_at_point: &F,
        should_refine_triangle: &P,
    )
        requires
            old(self).wf(),
            forall|p: Point| #[trigger] value_at_point.eval_req(p),
            forall|t: [Vertex; 3]| #[trigger] should_refine_triangle.eval_req(t),
        ensures
            final(self).wf(),
            old(self).vertices_view().len() <= final(self).vertices_view().len(),
            forall|k: int|
                0 <= k < old(self).vertices_view().len() ==> final(self).vertices_view()[k] == old(self).vertices_view()[k],
            old(self).triangles_view().len() <= final(self).triangles_view().len(),
            forall|t: int|
                0 <= t < final(self).triangles_view().len() ==> (#[trigger] final(self).triangles_view()[t]).degree >= MIN_DEGREE,
            refine_effect(
                old(self).triangles_view(),
                old(self).vertices_view().len() as int,
                final(self).triangles_view(),
            ),
            appended_are_midpoints(
                value_at_point,
                final(self).vertices_view(),
                old(self).vertices_view().len() as int,
            ),
            forall|t: int|
                0 <= t < final(self).triangles_view().len() ==> (#[trigger] final(self).triangles_view()[t]).degree <= MAX_DEGREE + 1 || (t < old(self).triangles_view().len()
                    && final(self).triangles_view()[t].degree == old(self).triangles_view()[t].degree),
            (forall|i: int|
                0 <= i < old(self).triangles_view().len() ==> (#[trigger] old(self).triangles_view()[i]).degree != 0) ==> final(self).vertices_view() == old(self).vertices_view()
                && final(self).triangles_view() == old(self).triangles_view(),
            ((forall|i: int|
                0 <= i < old(self).triangles_view().len() ==> (#[trigger] old(self).triangles_view()[i]).degree == 0) && (forall|tri: [Vertex; 3]|
                !(#[trigger] should_refine_triangle.eval_spec(tri)))) ==> final(self).triangles_view().len() == 2 * old(self).triangles_view().len() && (forall|t: int|
                0 <= t < final(self).triangles_view().len() ==> (#[trigger] final(self).triangles_view()[t]).degree == 1),
            ((forall|i: int|
                0 <= i < old(self).triangles_view().len() ==> (#[trigger] old(self).triangles_view()[i]).degree == 0) && (forall|tri: [Vertex; 3]|
                !(#[trigger] should_refine_triangle.eval_spec(tri))) && (forall|i: int|
                0 <= i < old(self).triangles_view().len() ==> (#[trigger] old(self).triangles_view()[i]).connectivity[0] is Some)) ==> final(self).vertices_view().len() == old(
                self,
            ).vertices_view().len() + old(self).triangles_view().len() / 2,
    {
        let ghost vs0 = self.vertices@;
        let ghost ts0 = self.triangles@;
        let mut queue: Vec<(usize, usize)> = Vec::new();
        let n = self.triangles.len();
        let mut i: usize = 0;
        while i < n
            invariant
                i <= n,
                queue@.len() == i,
                forall|k: int| 0 <= k < i ==> #[trigger] queue@[k] == (k as usize, 0usize),
            decreases n - i,
        {
            queue.push((i, 0));
            i = i + 1;
        }
        let mut head: usize = 0;
        proof {
            assert forall|t: int|
                0 <= t < self.triangles_view().len() && (#[trigger] self.triangles_view()[t]).degree == 0 implies exists|k: int|
                0 <= k < queue@.len() && (#[trigger] queue@[k]).0 == t && queue@[k].1 == 0 by {
                assert(queue@[t] == (t as usize, 0usize));
                assert((queue@[t]).0 == t && queue@[t].1 == 0);
            }
            assert(refine_effect(ts0, vs0.len() as int, self.triangles@));
            assert(appended_are_midpoints(value_at_point, self.vertices@, vs0.len() as int));
            if forall|ii: int| 0 <= ii < ts0.len() ==> (#[trigger] ts0[ii]).degree == 0 {
                lemma_zeros_all(ts0);
            }
        }
        while head < queue.len()
            invariant
                self.wf(),
                forall|p: Point| #[trigger] value_at_point.eval_req(p),
                forall|t: [Vertex; 3]| #[trigger] should_refine_triangle.eval_req(t),
                head <= queue@.len(),
                n == ts0.len(),
                forall|k: int|
                    0 <= k < queue@.len() ==> (#[trigger] queue@[k]).1 <= MAX_DEGREE + 1
                        && queue@[k].0 < self.triangles_view().len() && queue@[k].1 + 1
                        < DEGREE_CAP,
                vs0.len() <= self.vertices@.len(),
                forall|k: int| 0 <= k < vs0.len() ==> self.vertices@[k] == vs0[k],
                ts0.len() <= self.triangles@.len(),
                refine_effect(ts0, vs0.len() as int, self.triangles@),
                appended_are_midpoints(value_at_point, self.vertices@, vs0.len() as int),
                forall|t: int|
                    0 <= t < self.triangles_view().len() ==> (#[trigger] self.triangles_view()[t]).degree <= MAX_DEGREE + 1 || (t < ts0.len() && self.triangles_view()[t].degree
                        == ts0[t].degree),
                forall|t: int|
                    0 <= t < self.triangles_view().len() && (#[trigger] self.triangles_view()[t]).degree == 0 ==> exists|k: int|
                        head <= k < queue@.len() && (#[trigger] queue@[k]).0 == t && queue@[k].1
                            == 0,
                (forall|ii: int| 0 <= ii < ts0.len() ==> (#[trigger] ts0[ii]).degree != 0)
                    ==> self.vertices@ == vs0 && self.triangles@ == ts0 && (forall|k: int|
                    head <= k < queue@.len() ==> (#[trigger] queue@[k]).1 == 0),
                ((forall|ii: int| 0 <= ii < ts0.len() ==> (#[trigger] ts0[ii]).degree == 0) && (
                forall|tri: [Vertex; 3]| !(#[trigger] should_refine_triangle.eval_spec(tri))))
                    ==> (forall|t: int|
                    0 <= t < self.triangles_view().len() ==> (#[trigger] self.triangles_view()[t]).degree <= 1) && self.triangles@.len() == 2 * ts0.len() - zeros(
                    self.triangles@,
                ),
                ((forall|ii: int| 0 <= ii < ts0.len() ==> (#[trigger] ts0[ii]).degree == 0) && (
                forall|tri: [Vertex; 3]| !(#[trigger] should_refine_triangle.eval_spec(tri))) && (
                forall|ii: int|
                    0 <= ii < ts0.len() ==> (#[trigger] ts0[ii]).connectivity[0] is Some)) ==> (
                forall|t: int|
                    0 <= t < self.triangles_view().len() && (#[trigger] self.triangles_view()[t]).degree == 0 ==> t < ts0.len() && self.triangles_view()[t].connectivity[0]
                        == ts0[t].connectivity[0]) && 2 * (self.vertices@.len() - vs0.len())
                    == self.triangles@.len() - ts0.len(),
            decreases queue_weight(queue@, head as int),
        {
            let ghost head0 = head as int;
            let ghost q0 = queue@;
            let ghost tsb = self.triangles@;
            let ghost vsb = self.vertices@;
            let ghost w_before = queue_weight(queue@, head as int);
            let entry = queue[head];
            head = head + 1;
            proof {
                assert(w_before == entry_weight(entry) + queue_weight(queue@, head as int));
                lemma_entry_weight_pos(entry);
            }
            let tidx = entry.0;
            let tdeg = entry.1;
            if tdeg > MAX_DEGREE {
                proof {
                    assert forall|t: int|
                        0 <= t < self.triangles_view().len() && (#[trigger] self.triangles_view()[t]).degree == 0 implies exists|k: int|
                        head <= k < queue@.len() && (#[trigger] queue@[k]).0 == t && queue@[k].1
                            == 0 by {
                        let k0 = choose|k: int|
                            head0 <= k < q0.len() && (#[trigger] q0[k]).0 == t && q0[k].1 == 0;
                        assert(k0 != head0);
                        assert((queue@[k0]).0 == t && queue@[k0].1 == 0 && head <= k0
                            < queue@.len());
                    }
                }
                continue ;
            }
            if self.triangles[tidx].degree != tdeg {
                proof {
                    assert forall|t: int|
                        0 <= t < self.triangles_view().len() && (#[trigger] self.triangles_view()[t]).degree == 0 implies exists|k: int|
                        head <= k < queue@.len() && (#[trigger] queue@[k]).0 == t && queue@[k].1
                            == 0 by {
                        let k0 = choose|k: int|
                            head0 <= k < q0.len() && (#[trigger] q0[k]).0 == t && q0[k].1 == 0;
                        assert(k0 != head0);
                        assert((queue@[k0]).0 == t && queue@[k0].1 == 0 && head <= k0
                            < queue@.len());
                    }
                }
                continue ;
            }
            if tdeg >= MIN_DEGREE {
                let t = self.triangles[tidx];
                let tri = [
                    self.vertices[t.elements[0]],
                    self.vertices[t.elements[1]],
                    self.vertices[t.elements[2]],
                ];
                proof {
                    assert(should_refine_triangle.eval_req(tri));
                }
                let wants_split = should_refine_triangle.eval(tri);
                if !wants_split {
                    proof {
                        assert forall|t2: int|
                            0 <= t2 < self.triangles_view().len() && (#[trigger] self.triangles_view()[t2]).degree == 0 implies exists|k: int|
                            head <= k < queue@.len() && (#[trigger] queue@[k]).0 == t2
                                && queue@[k].1 == 0 by {
                            let k0 = choose|k: int|
                                head0 <= k < q0.len() && (#[trigger] q0[k]).0 == t2 && q0[k].1
                                    == 0;
                            assert(k0 != head0);
                            assert((queue@[k0]).0 == t2 && queue@[k0].1 == 0 && head <= k0
                                < queue@.len());
                        }
                    }
                    continue ;
                }
                proof {
                    if forall|tri2: [Vertex; 3]| !(#[trigger] should_refine_triangle.eval_spec(
                        tri2,
                    )) {
                        assert(!should_refine_triangle.eval_spec(tri));
                        assert(false);
                    }
                }
            }
            proof {
                if forall|ii: int| 0 <= ii < ts0.len() ==> (#[trigger] ts0[ii]).degree != 0 {
                    assert(queue@[head as int - 1].1 == 0);
                    assert(self.triangles@ == ts0);
                    assert(ts0[tidx as int].degree != 0);
                    assert(false);
                }
                assert(conn_back(tsb, tidx as int, 0));
            }
            let rr = self.refine_triangle_base(tidx, value_at_point);
            let ghost q_before = queue@;
            queue.push((rr[0], tdeg + 1));
            queue.push((rr[1], tdeg + 1));
            proof {
                lemma_queue_weight_push(q_before, head as int, (rr[0], (tdeg + 1) as usize));
                lemma_queue_weight_push(
                    q_before.push((rr[0], (tdeg + 1) as usize)),
                    head as int,
                    (rr[1], (tdeg + 1) as usize),
                );
                lemma_pow3_pos((MAX_DEGREE + 1 - tdeg) as nat);
                assert(entry_weight(entry) == 3 * pow3((MAX_DEGREE + 1 - tdeg) as nat));
                assert(entry_weight((rr[0], (tdeg + 1) as usize)) == pow3(
                    (MAX_DEGREE + 1 - tdeg) as nat,
                ));
                assert forall|t: int|
                    0 <= t < self.triangles_view().len() && (#[trigger] self.triangles_view()[t]).degree == 0 implies exists|k: int|
                    head <= k < queue@.len() && (#[trigger] queue@[k]).0 == t && queue@[k].1
                        == 0 by {
                    if t >= tsb.len() {
                        assert(self.triangles@[t].degree >= 1);
                    }
                    assert(0 <= t < tsb.len());
                    assert(self.triangles@[t].degree >= tsb[t].degree);
                    assert(tsb[t].degree == 0);
                    let k0 = choose|k: int|
                        head0 <= k < q0.len() && (#[trigger] q0[k]).0 == t && q0[k].1 == 0;
                    assert(self.triangles@[tidx as int].degree >= 1);
                    assert(t != tidx as int);
                    assert(k0 != head0);
                    assert(queue@[k0] == q0[k0]);
                    assert((queue@[k0]).0 == t && queue@[k0].1 == 0 && head <= k0 < queue@.len());
                }
                lemma_refine_effect_trans(
                    ts0,
                    vs0.len() as int,
                    tsb,
                    vsb.len() as int,
                    self.triangles@,
                );
                lemma_appended_midpoints_trans(
                    value_at_point,
                    vsb,
                    self.vertices@,
                    vs0.len() as int,
                );
                let tsn = self.triangles@;
                if (forall|ii: int| 0 <= ii < ts0.len() ==> (#[trigger] ts0[ii]).degree == 0) && (
                forall|tri2: [Vertex; 3]| !(#[trigger] should_refine_triangle.eval_spec(tri2))) {
                    assert(tdeg == 0);
                    assert(tsb[tidx as int].degree == 0);
                    assert(tsn[tidx as int].degree == 1);
                    match tsb[tidx as int].connectivity[0] {
                        Option::None => {
                            assert(tsn.len() == tsb.len() + 1);
                            let smid = tsb.update(tidx as int, tsn[tidx as int]);
                            lemma_zeros_flip_one(tsb, smid, tidx as int);
                            lemma_zeros_append_nonzero(smid, tsn);
                            assert(zeros(tsn) == zeros(tsb) - 1);
                        },
                        Option::Some(pp) => {
                            assert(pp.1 == 0);
                            assert(tsb[pp.0 as int].degree == 0);
                            assert(tsn[pp.0 as int].degree == 1);
                            assert(tsn.len() == tsb.len() + 2);
                            let smid = tsb.update(tidx as int, tsn[tidx as int]);
                            let smid2 = smid.update(pp.0 as int, tsn[pp.0 as int]);
                            lemma_zeros_flip_one(tsb, smid, tidx as int);
                            lemma_zeros_flip_one(smid, smid2, pp.0 as int);
                            lemma_zeros_append_nonzero(smid2, tsn);
                            assert(zeros(tsn) == zeros(tsb) - 2);
                        },
                    }
                    if forall|ii: int|
                        0 <= ii < ts0.len() ==> (#[trigger] ts0[ii]).connectivity[0] is Some {
                        assert(tsb[tidx as int].connectivity[0] == ts0[tidx as int].connectivity[0]);
                        match tsb[tidx as int].connectivity[0] {
                            Option::None => {
                                assert(false);
                            },
                            Option::Some(pp) => {
                                assert(self.vertices@.len() == vsb.len() + 1);
                                assert(tsn.len() == tsb.len() + 2);
                                assert forall|t: int|
                                    0 <= t < tsn.len() && (#[trigger] tsn[t]).degree == 0 implies t
                                    < ts0.len() && tsn[t].connectivity[0]
                                    == ts0[t].connectivity[0] by {
                                    if t >= tsb.len() {
                                        assert(tsn[t].degree >= 1);
                                    }
                                    assert(0 <= t < tsb.len());
                                    assert(tsn[t].degree >= tsb[t].degree);
                                    assert(tsb[t].degree == 0);
                                    assert(t < ts0.len());
                                    assert(tsb[t].connectivity[0] == ts0[t].connectivity[0]);
                                    assert(conn_back(tsb, t, 0));
                                    assert(t != tidx as int);
                                    assert(t != pp.0 as int);
                                }
                            },
                        }
                    }
                }
            }
        }
        proof {
            assert forall|t: int| 0 <= t < self.triangles_view().len() implies (
            #[trigger] self.triangles_view()[t]).degree >= MIN_DEGREE by {
                if self.triangles_view()[t].degree == 0 {
                    let k0 = choose|k: int|
                        head as int <= k < queue@.len() && (#[trigger] queue@[k]).0 == t
                            && queue@[k].1 == 0;
                    assert(false);
                }
            }
            if (forall|ii: int| 0 <= ii < ts0.len() ==> (#[trigger] ts0[ii]).degree == 0) && (
            forall|tri2: [Vertex; 3]| !(#[trigger] should_refine_triangle.eval_spec(tri2))) {
                lemma_zeros_none(self.triangles@);
                assert(self.triangles@.len() == 2 * ts0.len());
                if forall|ii: int|
                    0 <= ii < ts0.len() ==> (#[trigger] ts0[ii]).connectivity[0] is Some {
                    let dv = self.vertices@.len() - vs0.len();
                    assert(2 * dv == ts0.len());
                    lemma_div_multiples_vanish(dv as int, 2);
                    assert(ts0.len() as int / 2 == dv);
                }
            }
        }
    }

    /// The connectivity invariant, stated edge by edge: in a well-formed
    /// mesh, an edge that names a neighbour is named back by it, joins the
    /// same two vertices in opposite order on both sides, and has been
    /// halved equally often on both sides. It holds after construction and
    /// is preserved by every refinement, so a shared edge can never be
    /// subdivided on one side only.
    pub proof fn lemma_connectivity_symmetric(self, i: int, e: int)
        requires
            self.wf(),
            0 <= i < self.triangles_view().len(),
            0 <= e < 3,
        ensures
            conn_back(self.triangles_view(), i, e),
    {
    }

    /// The corner index triples of all triangles, in table order.
    pub fn iter_triangle_elements(&self) -> (r: Vec<[usize; 3]>)
        ensures
            r@.len() == self.triangles_view().len(),
            forall|k: int|
                0 <= k < r@.len() ==> #[trigger] r@[k] == self.triangles_view()[k].elements,
    {
        let n = self.triangles.len();
        let mut out: Vec<[usize; 3]> = Vec::new();
        let mut k: usize = 0;
        while k < n
            invariant
                n == self.triangles_view().len(),
                k <= n,
                out@.len() == k,
                forall|m: int|
                    0 <= m < k ==> #[trigger] out@[m] == self.triangles_view()[m].elements,
            decreases n - k,
        {
            out.push(self.triangles[k].elements);
            k = k + 1;
        }
        out
    }

    /// The flat triangle index buffer a renderer consumes: three vertex
    /// indices per triangle, in table order.
    pub fn index_data(&self) -> (r: Vec<u32>)
        requires
            self.wf(),
            self.vertices_view().len() <= 0xffff_ffff,
        ensures
            r@.len() == 3 * self.triangles_view().len(),
            forall|t: int|
                0 <= t < self.triangles_view().len() ==> (#[trigger] self.triangles_view()[t]).elements[0] == r@[3 * t] && self.triangles_view()[t].elements[1] == r@[3 * t + 1]
                    && self.triangles_view()[t].elements[2] == r@[3 * t + 2],
    {
        let n = self.triangles.len();
        let mut out: Vec<u32> = Vec::new();
        let mut k: usize = 0;
        while k < n
            invariant
                self.wf(),
                self.vertices_view().len() <= 0xffff_ffff,
                n == self.triangles_view().len(),
                k <= n,
                out@.len() == 3 * k,
                forall|t: int|
                    0 <= t < k ==> (#[trigger] self.triangles_view()[t]).elements[0] == out@[3 * t]
                        && self.triangles_view()[t].elements[1] == out@[3 * t + 1]
                        && self.triangles_view()[t].elements[2] == out@[3 * t + 2],
            decreases n - k,
        {
            let t = self.triangles[k];
            proof {
                assert(tri_wf(self.triangles_view()[k as int], self.vertices_view().len() as int));
            }
            out.push(t.elements[0] as u32);
            out.push(t.elements[1] as u32);
            out.push(t.elements[2] as u32);
            k = k + 1;
        }
        out
    }

    /// The corner vertices of all triangles, in table order.
    pub fn iter_triangle_vertices(&self) -> (r: Vec<[Vertex; 3]>)
        requires
            self.wf(),
        ensures
            r@.len() == self.triangles_view().len(),
            forall|k: int|
                0 <= k < r@.len() ==> #[trigger] r@[k] == [
                    self.vertices_view()[self.triangles_view()[k].elements[0] as int],
                    self.vertices_view()[self.triangles_view()[k].elements[1] as int],
                    self.vertices_view()[self.triangles_view()[k].elements[2] as int],
                ],
    {
        let n = self.triangles.len();
        let mut out: Vec<[Vertex; 3]> = Vec::new();
        let mut k: usize = 0;
        while k < n
            invariant
                self.wf(),
                n == self.triangles_view().len(),
                k <= n,
                out@.len() == k,
                forall|m: int|
                    0 <= m < k ==> #[trigger] out@[m] == [
                        self.vertices_view()[self.triangles_view()[m].elements[0] as int],
                        self.vertices_view()[self.triangles_view()[m].elements[1] as int],
                        self.vertices_view()[self.triangles_view()[m].elements[2] as int],
                    ],
            decreases n - k,
        {
            let t = self.triangles[k];
            assert(tri_wf(self.triangles_view()[k as int], self.vertices_view().len() as int));
            out.push(
                [
                    self.vertices[t.elements[0]],
                    self.vertices[t.elements[1]],
                    self.vertices[t.elements[2]],
                ],
            );
            k = k + 1;
        }
        out
    }
}

} // verus!
