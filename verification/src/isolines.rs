//! Isoline (contour) extraction: per-triangle threshold-crossing analysis
//! producing line-segment endpoints by inverse linear interpolation along
//! the edges that cross the threshold.

use vstd::prelude::*;

verus! {

use crate::mesh::Vertex;
use crate::num::{InverseMix, Mix, VAL_MAX};

/// A vertex value small enough for exact interpolation arithmetic.
pub open spec fn value_ok(v: Vertex) -> bool {
    -VAL_MAX <= v.value <= VAL_MAX
}

/// Whether the vertex value lies strictly above the threshold.
pub open spec fn above(v: Vertex, threshold: i64) -> bool {
    v.value > threshold
}

/// The isoline endpoint on the edge from `v1` to `v2`: the vertex (point
/// and value jointly) interpolated at the parameter where the value crosses
/// the threshold.
pub open spec fn crossing_spec(v1: Vertex, v2: Vertex, threshold: i64) -> Vertex {
    v1.mix_spec(v2, threshold.inverse_mix_spec(v1.value, v2.value))
}

/// All three vertices lie on the same side of the threshold, so the
/// triangle contributes no segment.
pub open spec fn no_crossing(tri: [Vertex; 3], threshold: i64) -> bool {
    above(tri[0], threshold) == above(tri[1], threshold) && above(tri[1], threshold) == above(
        tri[2],
        threshold,
    )
}

/// The segment a crossing triangle contributes: its endpoints are the
/// threshold crossings on the two edges between the odd-one-out vertex and
/// the other two, in the fixed rotation of the case analysis.
pub open spec fn segment_spec(tri: [Vertex; 3], threshold: i64) -> [Vertex; 2] {
    if above(tri[0], threshold) == above(tri[1], threshold) {
        [crossing_spec(tri[0], tri[2], threshold), crossing_spec(tri[1], tri[2], threshold)]
    } else if above(tri[0], threshold) == above(tri[2], threshold) {
        [crossing_spec(tri[0], tri[1], threshold), crossing_spec(tri[2], tri[1], threshold)]
    } else {
        [crossing_spec(tri[1], tri[0], threshold), crossing_spec(tri[2], tri[0], threshold)]
    }
}

/// Whether `seg` is exactly the segment a crossing triangle contributes.
pub open spec fn segment_spec_ok(tri: [Vertex; 3], threshold: i64, seg: [Vertex; 2]) -> bool {
    seg == segment_spec(tri, threshold)
}

/// The threshold crossing on the edge from `v1` to `v2` (the two values
/// straddle the threshold, `v1` on one side strictly).
fn crossing(v1: Vertex, v2: Vertex, threshold: i64) -> (r: Vertex)
    requires
        value_ok(v1),
        value_ok(v2),
        -VAL_MAX <= threshold <= VAL_MAX,
        above(v1, threshold) != above(v2, threshold),
    ensures
        r == crossing_spec(v1, v2, threshold),
{
    let t = threshold.inverse_mix(v1.value, v2.value);
    v1.mix(v2, t)
}

/// Classifies one triangle against one threshold: either all three vertex
/// values lie on one side (strictly above, or not) and no segment is
/// produced, or exactly one vertex is on the other side and the segment
/// joining the two edge crossings around it is returned.
pub fn analyze_triangle(triangle: [Vertex; 3], threshold: i64) -> (r: Option<[Vertex; 2]>)
    requires
        value_ok(triangle[0]),
        value_ok(triangle[1]),
        value_ok(triangle[2]),
        -VAL_MAX <= threshold <= VAL_MAX,
    ensures
        r is None <==> no_crossing(triangle, threshold),
        r matches Option::Some(seg) ==> segment_spec_ok(triangle, threshold, seg),
{
    let v0 = triangle[0];
    let v1 = triangle[1];
    let v2 = triangle[2];
    let a0 = v0.value > threshold;
    let a1 = v1.value > threshold;
    let a2 = v2.value > threshold;
    if a0 == a1 && a1 == a2 {
        Option::None
    } else if a0 == a1 {
        Option::Some([crossing(v0, v2, threshold), crossing(v1, v2, threshold)])
    } else if a0 == a2 {
        Option::Some([crossing(v0, v1, threshold), crossing(v2, v1, threshold)])
    } else {
        Option::Some([crossing(v1, v0, threshold), crossing(v2, v0, threshold)])
    }
}

/// A cursor over a triangle list that yields the isoline segments for one
/// threshold, skipping the triangles that contribute none.
pub struct BuildIsolines {
    triangles: Vec<[Vertex; 3]>,
    threshold: i64,
    pos: usize,
}

impl BuildIsolines {
    /// The triangle list being scanned.
    pub closed spec fn triangles_view(self) -> Seq<[Vertex; 3]> {
        self.triangles@
    }

    /// The threshold being extracted.
    pub closed spec fn threshold_spec(self) -> i64 {
        self.threshold
    }

    /// The scan position: triangles before it have been consumed.
    pub closed spec fn pos_spec(self) -> int {
        self.pos as int
    }

    /// All values involved are small enough for exact interpolation.
    pub open spec fn wf(self) -> bool {
        &&& -VAL_MAX <= self.threshold_spec() <= VAL_MAX
        &&& forall|k: int, j: int|
            0 <= k < self.triangles_view().len() && 0 <= j < 3 ==> value_ok(
                #[trigger] self.triangles_view()[k][j],
            )
        &&& 0 <= self.pos_spec() <= self.triangles_view().len()
    }

    /// Starts a scan over `it` for one threshold.
    pub fn new(it: Vec<[Vertex; 3]>, threshold: i64) -> (r: BuildIsolines)
        ensures
            r.triangles_view() == it@,
            r.threshold_spec() == threshold,
            r.pos_spec() == 0,
    {
        BuildIsolines { triangles: it, threshold, pos: 0 }
    }

    /// Yields the next isoline segment: scans forward from the current
    /// position past the triangles with no crossing, and returns the
    /// segment of the first crossing triangle, or `None` when none is left.
    pub fn next(&mut self) -> (r: Option<[Vertex; 2]>)
        requires
            old(self).wf(),
        ensures
            final(self).wf(),
            final(self).triangles_view() == old(self).triangles_view(),
            final(self).threshold_spec() == old(self).threshold_spec(),
            old(self).pos_spec() <= final(self).pos_spec() <= old(self).triangles_view().len(),
            r is None ==> final(self).pos_spec() == old(self).triangles_view().len() && (forall|
                k: int,
            |
                old(self).pos_spec() <= k < old(self).triangles_view().len() ==> no_crossing(
                    #[trigger] old(self).triangles_view()[k],
                    old(self).threshold_spec(),
                )),
            r matches Option::Some(seg) ==> {
                &&& old(self).pos_spec() <= final(self).pos_spec() - 1 < old(
                    self,
                ).triangles_view().len()
                &&& !no_crossing(
                    old(self).triangles_view()[final(self).pos_spec() - 1],
                    old(self).threshold_spec(),
                )
                &&& segment_spec_ok(
                    old(self).triangles_view()[final(self).pos_spec() - 1],
                    old(self).threshold_spec(),
                    seg,
                )
                &&& forall|k: int|
                    old(self).pos_spec() <= k < final(self).pos_spec() - 1 ==> no_crossing(
                        #[trigger] old(self).triangles_view()[k],
                        old(self).threshold_spec(),
                    )
            },
    {
        let ghost start = self.pos as int;
        let n = self.triangles.len();
        while self.pos < n
            invariant
                self.wf(),
                self.triangles_view() == old(self).triangles_view(),
                self.threshold_spec() == old(self).threshold_spec(),
                start == old(self).pos_spec(),
                n == self.triangles_view().len(),
                start <= self.pos_spec() <= n,
                forall|k: int|
                    start <= k < self.pos_spec() ==> no_crossing(
                        #[trigger] self.triangles_view()[k],
                        self.threshold_spec(),
                    ),
            decreases n - self.pos,
        {
            let tri = self.triangles[self.pos];
            let seg = analyze_triangle(tri, self.threshold);
            self.pos = self.pos + 1;
            match seg {
                Option::Some(segment) => {
                    return Option::Some(segment);
                },
                Option::None => {},
            }
        }
        Option::None
    }
}

} // verus!
