//! Piecewise-linear curves with an arc-length parameterisation: a point
//! sequence plus the parallel sequence of cumulative lengths, queried by
//! binary search and exact interpolation.

use vstd::prelude::*;

verus! {

use crate::num::{DIST_MAX, Mix, Weight};
use crate::point::Point;
use crate::segment::LineSegment;

/// Largest number of points a curve may hold (keeps cumulative lengths well
/// inside `i64`).
pub const CURVE_MAX_POINTS: usize = 0x4000_0000;

/// Index of the first element of a sorted sequence that is `>= v` (the
/// partition point of `< v`).
pub open spec fn first_ge(s: Seq<i64>, v: int) -> int
    decreases s.len(),
{
    if s.len() == 0 {
        0
    } else if s.last() < v {
        s.len() as int
    } else {
        first_ge(s.drop_last(), v)
    }
}

/// A sequence is sorted in non-decreasing order.
pub open spec fn sorted(s: Seq<i64>) -> bool {
    forall|i: int, j: int| 0 <= i <= j < s.len() ==> s[i] <= s[j]
}

/// `first_ge` always lands inside the sequence bounds.
pub proof fn lemma_first_ge_range(s: Seq<i64>, v: int)
    ensures
        0 <= first_ge(s, v) <= s.len(),
    decreases s.len(),
{
    if s.len() > 0 && !(s.last() < v) {
        lemma_first_ge_range(s.drop_last(), v);
    }
}

/// `first_ge` grows with the query value, on any sequence.
pub proof fn lemma_first_ge_monotone(s: Seq<i64>, v1: int, v2: int)
    requires
        v1 <= v2,
    ensures
        first_ge(s, v1) <= first_ge(s, v2),
    decreases s.len(),
{
    lemma_first_ge_range(s, v1);
    lemma_first_ge_range(s, v2);
    if s.len() > 0 {
        if s.last() < v1 {
        } else if s.last() < v2 {
            lemma_first_ge_range(s.drop_last(), v1);
        } else {
            lemma_first_ge_monotone(s.drop_last(), v1, v2);
        }
    }
}

/// On a sorted sequence, `first_ge` brackets `v`.
pub proof fn lemma_first_ge_props(s: Seq<i64>, v: int)
    requires
        sorted(s),
    ensures
        0 <= first_ge(s, v) <= s.len(),
        first_ge(s, v) > 0 ==> s[first_ge(s, v) - 1] < v,
        first_ge(s, v) < s.len() ==> s[first_ge(s, v)] >= v,
    decreases s.len(),
{
    if s.len() == 0 {
    } else if s.last() < v {
    } else {
        assert(sorted(s.drop_last()));
        lemma_first_ge_props(s.drop_last(), v);
        let r = first_ge(s, v);
        if r < s.len() {
            if r == s.len() - 1 {
                assert(s[r] >= v);
            } else {
                assert(s.drop_last()[r] == s[r]);
            }
        }
        if r > 0 {
            assert(s.drop_last()[r - 1] == s[r - 1]);
        }
    }
}

/// On a sorted sequence the bracketing index is unique.
pub proof fn lemma_first_ge_unique(s: Seq<i64>, v: int, idx: int)
    requires
        sorted(s),
        0 <= idx <= s.len(),
        idx > 0 ==> s[idx - 1] < v,
        idx < s.len() ==> s[idx] >= v,
    ensures
        idx == first_ge(s, v),
{
    lemma_first_ge_props(s, v);
    let r = first_ge(s, v);
    if idx < r {
        assert(s[idx] <= s[r - 1]);
    }
    if r < idx {
        assert(s[r] <= s[idx - 1]);
    }
}

/// A piecewise-linear curve: an ordered point sequence and the parallel
/// cumulative arc lengths (first entry zero, each step adding the floored
/// distance of one segment).
#[derive(Clone, Debug)]
pub struct Curve {
    points: Vec<Point>,
    cumulative_lengths: Vec<i64>,
}

impl Curve {
    /// The owned point sequence.
    pub closed spec fn points_view(self) -> Seq<Point> {
        self.points@
    }

    /// The owned cumulative-length sequence.
    pub closed spec fn lengths_view(self) -> Seq<i64> {
        self.cumulative_lengths@
    }

    /// Structural invariant: the two sequences run in parallel, points are
    /// in bounds, lengths start at zero and grow by one floored segment
    /// length per point.
    pub open spec fn wf(self) -> bool {
        &&& self.lengths_view().len() == self.points_view().len()
        &&& self.points_view().len() <= CURVE_MAX_POINTS
        &&& forall|i: int|
            0 <= i < self.points_view().len() ==> (#[trigger] self.points_view()[i]).in_bounds()
        &&& self.points_view().len() > 0 ==> self.lengths_view()[0] == 0
        &&& forall|i: int|
            1 <= i < self.points_view().len() ==> #[trigger] self.lengths_view()[i]
                == self.lengths_view()[i - 1] + self.points_view()[i - 1].dist_spec(
                self.points_view()[i],
            )
    }

    /// Each cumulative length of a well-formed curve is non-negative and at
    /// most `i * DIST_MAX`.
    pub proof fn lemma_length_bound(self, i: int)
        requires
            self.wf(),
            0 <= i < self.lengths_view().len(),
        ensures
            0 <= self.lengths_view()[i] <= i * DIST_MAX,
        decreases i,
    {
        if i > 0 {
            self.lemma_length_bound(i - 1);
            self.points_view()[i - 1].lemma_dist_range(self.points_view()[i]);
        }
    }

    /// Cumulative lengths start at zero and never decrease.
    pub proof fn lemma_lengths_monotone(self)
        requires
            self.wf(),
        ensures
            self.lengths_view().len() > 0 ==> self.lengths_view()[0] == 0,
            sorted(self.lengths_view()),
    {
        assert forall|i: int, j: int| 0 <= i <= j < self.lengths_view().len() implies self
            .lengths_view()[i] <= self.lengths_view()[j] by {
            self.lemma_lengths_le(i, j);
        }
    }

    /// Cumulative lengths are ordered between any two indices.
    pub proof fn lemma_lengths_le(self, i: int, j: int)
        requires
            self.wf(),
            0 <= i <= j < self.lengths_view().len(),
        ensures
            self.lengths_view()[i] <= self.lengths_view()[j],
        decreases j - i,
    {
        if i < j {
            self.lemma_lengths_le(i, j - 1);
            self.points_view()[j - 1].lemma_dist_range(self.points_view()[j]);
        }
    }

    /// Builds a curve from a point sequence, computing the cumulative
    /// arc-length table by a prefix sum of floored segment lengths.
    pub fn from_points(points: Vec<Point>) -> (r: Curve)
        requires
            points@.len() <= CURVE_MAX_POINTS,
            forall|i: int| 0 <= i < points@.len() ==> (#[trigger] points@[i]).in_bounds(),
        ensures
            r.wf(),
            r.points_view() == points@,
    {
        let n = points.len();
        let mut cumulative_lengths: Vec<i64> = Vec::new();
        let mut i: usize = 0;
        while i < n
            invariant
                n == points@.len(),
                n <= CURVE_MAX_POINTS,
                forall|k: int| 0 <= k < n ==> (#[trigger] points@[k]).in_bounds(),
                i <= n,
                cumulative_lengths@.len() == i,
                i > 0 ==> cumulative_lengths@[0] == 0,
                forall|k: int|
                    1 <= k < i ==> #[trigger] cumulative_lengths@[k] == cumulative_lengths@[k - 1]
                        + points@[k - 1].dist_spec(points@[k]),
                forall|k: int|
                    0 <= k < i ==> 0 <= #[trigger] cumulative_lengths@[k] <= k * DIST_MAX,
            decreases n - i,
        {
            if i == 0 {
                cumulative_lengths.push(0);
            } else {
                let d = points[i - 1].dist(&points[i]);
                let prev = cumulative_lengths[i - 1];
                proof {
                    assert(prev <= (i - 1) * DIST_MAX);
                    assert((i - 1) * DIST_MAX + DIST_MAX == i as int * DIST_MAX);
                }
                cumulative_lengths.push(prev + d);
            }
            i = i + 1;
        }
        Curve { points, cumulative_lengths }
    }

    /// Appends one point, extending the cumulative-length table by the
    /// floored distance from the previous last point.
    pub fn push(&mut self, point: Point)
        requires
            old(self).wf(),
            point.in_bounds(),
            old(self).points_view().len() < CURVE_MAX_POINTS,
        ensures
            final(self).wf(),
            final(self).points_view() == old(self).points_view().push(point),
            old(self).points_view().len() == 0 ==> final(self).lengths_view() == old(
                self,
            ).lengths_view().push(0i64),
            old(self).points_view().len() > 0 ==> final(self).lengths_view() == old(
                self,
            ).lengths_view().push(
                (old(self).lengths_view().last() + old(self).points_view().last().dist_spec(point))
                    as i64,
            ),
    {
        let n = self.points.len();
        if n == 0 {
            self.points.push(point);
            self.cumulative_lengths.push(0);
        } else {
            let d = self.points[n - 1].dist(&point);
            let prev = self.cumulative_lengths[n - 1];
            proof {
                self.lemma_length_bound(n as int - 1);
                assert((n as int - 1) * DIST_MAX <= 0x4000_0000int * DIST_MAX)
                    by (nonlinear_arith)
                    requires
                        n as int - 1 <= 0x4000_0000int,
                        0 < DIST_MAX,
                ;
            }
            self.points.push(point);
            self.cumulative_lengths.push(prev + d);
        }
    }

    /// The total arc length of the curve.
    pub fn total_length(&self) -> (r: i64)
        requires
            self.wf(),
            self.points_view().len() > 0,
        ensures
            r == self.lengths_view().last(),
    {
        self.cumulative_lengths[self.cumulative_lengths.len() - 1]
    }

    /// The point sequence.
    pub fn points(&self) -> (r: &Vec<Point>)
        ensures
            r@ == self.points_view(),
    {
        &self.points
    }

    /// The cumulative-length sequence.
    pub fn cumulative_lengths(&self) -> (r: &Vec<i64>)
        ensures
            r@ == self.lengths_view(),
    {
        &self.cumulative_lengths
    }

    /// The polyline's segments, one per consecutive point pair (none for a
    /// curve with fewer than two points).
    pub fn line_segments(&self) -> (r: Vec<LineSegment>)
        ensures
            r@.len() == (if self.points_view().len() == 0 {
                0int
            } else {
                self.points_view().len() - 1
            }),
            forall|i: int|
                0 <= i < r@.len() ==> #[trigger] r@[i] == (LineSegment {
                    p0: self.points_view()[i],
                    p1: self.points_view()[i + 1],
                }),
    {
        let n = self.points.len();
        let mut segments: Vec<LineSegment> = Vec::new();
        if n == 0 {
            return segments;
        }
        let mut i: usize = 0;
        while i + 1 < n
            invariant
                n == self.points_view().len(),
                i < n,
                segments@.len() == i,
                forall|k: int|
                    0 <= k < i ==> #[trigger] segments@[k] == (LineSegment {
                        p0: self.points_view()[k],
                        p1: self.points_view()[k + 1],
                    }),
            decreases n - i,
        {
            segments.push(LineSegment { p0: self.points[i], p1: self.points[i + 1] });
            i = i + 1;
        }
        segments
    }

    /// The query length clamped to `[0, total_length]`.
    pub open spec fn clamp_spec(self, length: int) -> int {
        if length < 0 {
            0
        } else if length > self.lengths_view().last() {
            self.lengths_view().last() as int
        } else {
            length
        }
    }

    /// The point at a given arc length: out-of-range lengths are clamped,
    /// the bracketing segment is found on the cumulative-length table and
    /// its endpoints are interpolated by the fractional position within the
    /// segment.
    pub open spec fn at_spec(self, length: int) -> Point {
        let l = self.clamp_spec(length);
        let idx = first_ge(self.lengths_view(), l);
        if idx == 0 {
            self.points_view()[0]
        } else {
            let l1 = self.lengths_view()[idx - 1];
            let l2 = self.lengths_view()[idx];
            self.points_view()[idx - 1].mix_spec(
                self.points_view()[idx],
                Weight { num: (l - l1) as i64, den: (l2 - l1) as i64 },
            )
        }
    }

    /// Evaluates the curve at an arc length (clamping out-of-range queries).
    pub fn at(&self, length: i64) -> (r: Point)
        requires
            self.wf(),
            self.points_view().len() > 0,
        ensures
            r == self.at_spec(length as int),
            r.in_bounds(),
    {
        proof {
            self.lemma_lengths_monotone();
        }
        let total = self.total_length();
        let l: i64 = if length < 0 {
            0
        } else if length > total {
            total
        } else {
            length
        };
        assert(l == self.clamp_spec(length as int));
        let n = self.cumulative_lengths.len();
        let mut lo: usize = 0;
        let mut hi: usize = n;
        while lo < hi
            invariant
                n == self.lengths_view().len(),
                lo <= hi <= n,
                lo > 0 ==> self.lengths_view()[lo as int - 1] < l,
                hi < n ==> self.lengths_view()[hi as int] >= l,
            decreases hi - lo,
        {
            let mid = lo + (hi - lo) / 2;
            if self.cumulative_lengths[mid] < l {
                lo = mid + 1;
            } else {
                hi = mid;
            }
        }
        proof {
            lemma_first_ge_unique(self.lengths_view(), l as int, lo as int);
        }
        if lo == 0 {
            self.points[0]
        } else {
            proof {
                if lo == n {
                    assert(self.lengths_view()[n as int - 1] < l);
                    assert(l <= self.lengths_view().last());
                }
                self.lemma_length_bound(lo as int - 1);
                self.lemma_length_bound(lo as int);
            }
            let l1 = self.cumulative_lengths[lo - 1];
            let l2 = self.cumulative_lengths[lo];
            assert(l1 < l && l <= l2);
            let t = Weight { num: l - l1, den: l2 - l1 };
            let p1 = self.points[lo - 1];
            let p2 = self.points[lo];
            let rx = crate::num::mix_i64(p1.x, p2.x, t);
            let ry = crate::num::mix_i64(p1.y, p2.y, t);
            Point { x: rx, y: ry }
        }
    }
}

impl Default for Curve {
    /// The empty curve.
    fn default() -> (r: Curve)
        ensures
            r.wf(),
            r.points_view().len() == 0,
    {
        Curve { points: Vec::new(), cumulative_lengths: Vec::new() }
    }
}

} // verus!
