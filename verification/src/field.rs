//! The curve-distance scalar field: evaluates the distance between two
//! parametric curves at a parameter point, global distance bounds over the
//! two polylines, and central-difference gradient estimates.

use vstd::prelude::*;

verus! {

use vstd::arithmetic::div_mod::lemma_div_is_ordered;
use crate::curve::Curve;
use crate::function::{Function, ScalarField};
use crate::num::{DIST_MAX, div_floor_i128, isqrt, sqrt_floor};
use crate::point::Point;
use crate::segment::{LineSegment, seg_seg_dist_sq};

/// Central-difference step, in fixed-point arc-length units.
pub const SPACING: i64 = 1;

/// The segment of a curve's polyline starting at point `i`.
pub open spec fn curve_seg(c: Curve, i: int) -> LineSegment {
    LineSegment { p0: c.points_view()[i], p1: c.points_view()[i + 1] }
}

/// The scalar field `(x, y) -> dist(curve1.at(x), curve2.at(y))`.
pub struct CurveDistFn {
    curves: [Curve; 2],
}

/// The two central-difference partial derivatives of a scalar field at one
/// point.
#[derive(Clone, Copy, Debug)]
pub struct GradientPlan {
    pub dx: i64,
    pub dy: i64,
}

impl GradientPlan {
    /// The Euclidean norm of the gradient estimate, rounded down.
    pub fn magnitude(&self) -> (r: i64)
        requires
            -DIST_MAX <= self.dx <= DIST_MAX,
            -DIST_MAX <= self.dy <= DIST_MAX,
        ensures
            r == sqrt_floor((self.dx * self.dx + self.dy * self.dy) as nat),
            0 <= r < 2 * DIST_MAX,
    {
        let dx128: i128 = self.dx as i128;
        let dy128: i128 = self.dy as i128;
        assert(0 <= dx128 * dx128 <= DIST_MAX * DIST_MAX && 0 <= dy128 * dy128 <= DIST_MAX
            * DIST_MAX) by (nonlinear_arith)
            requires
                -DIST_MAX <= dx128 <= DIST_MAX,
                -DIST_MAX <= dy128 <= DIST_MAX,
        ;
        let sum: u64 = (dx128 * dx128 + dy128 * dy128) as u64;
        let root = isqrt(sum);
        proof {
            crate::num::lemma_sqrt_floor_bounds(sum as nat);
            assert(sqrt_floor(sum as nat) < 2 * DIST_MAX) by (nonlinear_arith)
                requires
                    sqrt_floor(sum as nat) * sqrt_floor(sum as nat) <= sum as nat,
                    sum as nat <= 2 * DIST_MAX * DIST_MAX,
                    0 < DIST_MAX,
            ;
        }
        root as i64
    }
}

impl CurveDistFn {
    /// The curve parameterising the first axis.
    pub closed spec fn curve1(self) -> Curve {
        self.curves[0]
    }

    /// The curve parameterising the second axis.
    pub closed spec fn curve2(self) -> Curve {
        self.curves[1]
    }

    /// Both curves are well-formed and non-empty.
    pub open spec fn wf(self) -> bool {
        &&& self.curve1().wf()
        &&& self.curve2().wf()
        &&& self.curve1().points_view().len() > 0
        &&& self.curve2().points_view().len() > 0
    }

    /// A parameter point far enough from the integer limits for the
    /// central-difference probes.
    pub open spec fn safe_arg(p: Point) -> bool {
        &&& -0x7fff_ffff_ffff_fffe <= p.x <= 0x7fff_ffff_ffff_fffe
        &&& -0x7fff_ffff_ffff_fffe <= p.y <= 0x7fff_ffff_ffff_fffe
    }

    pub fn new(curves: [Curve; 2]) -> (r: CurveDistFn)
        ensures
            r.curve1() == curves[0],
            r.curve2() == curves[1],
    {
        CurveDistFn { curves }
    }

    /// The field value at `p`: the distance between the point of the first
    /// curve at arc length `p.x` and the point of the second at `p.y`.
    pub open spec fn dist_at_spec(self, p: Point) -> int {
        self.curve1().at_spec(p.x as int).dist_spec(self.curve2().at_spec(p.y as int))
    }

    /// Evaluates the field at a parameter point.
    pub fn eval(&self, p: Point) -> (r: i64)
        requires
            self.wf(),
        ensures
            r == self.dist_at_spec(p),
            0 <= r < DIST_MAX,
    {
        let p1 = self.curves[0].at(p.x);
        let p2 = self.curves[1].at(p.y);
        p1.dist(&p2)
    }

    /// The central difference along the first axis.
    pub open spec fn partial_x_spec(self, p: Point) -> int {
        (self.dist_at_spec(Point { x: (p.x + SPACING) as i64, y: p.y }) - self.dist_at_spec(
            Point { x: (p.x - SPACING) as i64, y: p.y },
        )) / (2 * SPACING)
    }

    /// The central difference along the second axis.
    pub open spec fn partial_y_spec(self, p: Point) -> int {
        (self.dist_at_spec(Point { x: p.x, y: (p.y + SPACING) as i64 }) - self.dist_at_spec(
            Point { x: p.x, y: (p.y - SPACING) as i64 },
        )) / (2 * SPACING)
    }

    /// Estimates the partial derivative along the first axis by a central
    /// difference with step `SPACING`.
    pub fn eval_partial_derivative_x(&self, p: Point) -> (r: i64)
        requires
            self.wf(),
            Self::safe_arg(p),
        ensures
            r == self.partial_x_spec(p),
            -DIST_MAX <= r <= DIST_MAX,
    {
        let f1 = self.eval(Point { x: p.x + SPACING, y: p.y });
        let f2 = self.eval(Point { x: p.x - SPACING, y: p.y });
        let d = div_floor_i128((f1 - f2) as i128, (2 * SPACING) as i128);
        proof {
            lemma_div_is_ordered(-2 * DIST_MAX, f1 - f2, 2);
            lemma_div_is_ordered(f1 - f2, 2 * DIST_MAX, 2);
        }
        d as i64
    }

    /// Estimates the partial derivative along the second axis by a central
    /// difference with step `SPACING`.
    pub fn eval_partial_derivative_y(&self, p: Point) -> (r: i64)
        requires
            self.wf(),
            Self::safe_arg(p),
        ensures
            r == self.partial_y_spec(p),
            -DIST_MAX <= r <= DIST_MAX,
    {
        let f1 = self.eval(Point { x: p.x, y: p.y + SPACING });
        let f2 = self.eval(Point { x: p.x, y: p.y - SPACING });
        let d = div_floor_i128((f1 - f2) as i128, (2 * SPACING) as i128);
        proof {
            lemma_div_is_ordered(-2 * DIST_MAX, f1 - f2, 2);
            lemma_div_is_ordered(f1 - f2, 2 * DIST_MAX, 2);
        }
        d as i64
    }

    /// Both central differences at one point.
    pub fn gradient(&self, p: Point) -> (g: GradientPlan)
        requires
            self.wf(),
            Self::safe_arg(p),
        ensures
            g.dx == self.partial_x_spec(p),
            g.dy == self.partial_y_spec(p),
            -DIST_MAX <= g.dx <= DIST_MAX,
            -DIST_MAX <= g.dy <= DIST_MAX,
    {
        GradientPlan {
            dx: self.eval_partial_derivative_x(p),
            dy: self.eval_partial_derivative_y(p),
        }
    }

    /// The squared norm of the central-difference gradient.
    pub open spec fn gradient_sq_spec(self, p: Point) -> int {
        self.partial_x_spec(p) * self.partial_x_spec(p) + self.partial_y_spec(p)
            * self.partial_y_spec(p)
    }

    /// Estimates the gradient magnitude at a parameter point.
    pub fn eval_gradient_magnitude(&self, p: Point) -> (r: i64)
        requires
            self.wf(),
            Self::safe_arg(p),
        ensures
            r == sqrt_floor(self.gradient_sq_spec(p) as nat),
            0 <= r < 2 * DIST_MAX,
    {
        let g = self.gradient(p);
        g.magnitude()
    }

    /// The largest squared distance between a point of the first polyline
    /// and a point of the second; the returned value is attained and bounds
    /// every pair.
    pub fn max_dist_squared(&self) -> (r: i64)
        requires
            self.wf(),
        ensures
            exists|i: int, j: int|
                0 <= i < self.curve1().points_view().len() && 0 <= j
                    < self.curve2().points_view().len() && r == #[trigger] self.curve1(
                ).points_view()[i].dist_sq_spec(self.curve2().points_view()[j]),
            forall|i: int, j: int|
                0 <= i < self.curve1().points_view().len() && 0 <= j
                    < self.curve2().points_view().len() ==> #[trigger] self.curve1(
                ).points_view()[i].dist_sq_spec(self.curve2().points_view()[j]) <= r,
            0 <= r <= crate::point::DIST_SQ_MAX,
    {
        let pts1 = self.curves[0].points();
        let pts2 = self.curves[1].points();
        let n1 = pts1.len();
        let n2 = pts2.len();
        let mut best: i64 = pts1[0].dist_squared(&pts2[0]);
        let mut i: usize = 0;
        while i < n1
            invariant
                self.wf(),
                pts1@ == self.curve1().points_view(),
                pts2@ == self.curve2().points_view(),
                n1 == pts1@.len(),
                n2 == pts2@.len(),
                0 < n1,
                0 < n2,
                i <= n1,
                0 <= best <= crate::point::DIST_SQ_MAX,
                exists|a: int, b: int|
                    0 <= a < n1 && 0 <= b < n2 && best == #[trigger] pts1@[a].dist_sq_spec(
                        pts2@[b],
                    ),
                forall|a: int, b: int|
                    0 <= a < i && 0 <= b < n2 ==> #[trigger] pts1@[a].dist_sq_spec(pts2@[b])
                        <= best,
            decreases n1 - i,
        {
            let mut j: usize = 0;
            while j < n2
                invariant
                    self.wf(),
                    pts1@ == self.curve1().points_view(),
                    pts2@ == self.curve2().points_view(),
                    n1 == pts1@.len(),
                    n2 == pts2@.len(),
                    0 < n1,
                    0 < n2,
                    i < n1,
                    j <= n2,
                    0 <= best <= crate::point::DIST_SQ_MAX,
                    exists|a: int, b: int|
                        0 <= a < n1 && 0 <= b < n2 && best == #[trigger] pts1@[a].dist_sq_spec(
                            pts2@[b],
                        ),
                    forall|a: int, b: int|
                        0 <= a < i && 0 <= b < n2 ==> #[trigger] pts1@[a].dist_sq_spec(pts2@[b])
                            <= best,
                    forall|b: int|
                        0 <= b < j ==> #[trigger] pts1@[i as int].dist_sq_spec(pts2@[b]) <= best,
                decreases n2 - j,
            {
                let d = pts1[i].dist_squared(&pts2[j]);
                if d > best {
                    best = d;
                }
                j = j + 1;
            }
            i = i + 1;
        }
        best
    }

    /// The distance version of `max_dist_squared`, rounded down.
    pub fn max_dist(&self) -> (r: i64)
        requires
            self.wf(),
        ensures
            exists|i: int, j: int|
                0 <= i < self.curve1().points_view().len() && 0 <= j
                    < self.curve2().points_view().len() && r == sqrt_floor(
                    (#[trigger] self.curve1().points_view()[i].dist_sq_spec(
                        self.curve2().points_view()[j],
                    )) as nat,
                ),
            forall|i: int, j: int|
                0 <= i < self.curve1().points_view().len() && 0 <= j
                    < self.curve2().points_view().len() ==> #[trigger] self.curve1(
                ).points_view()[i].dist_sq_spec(self.curve2().points_view()[j]) < (r + 1) * (r + 1),
            0 <= r < DIST_MAX,
    {
        let m = self.max_dist_squared();
        let root = isqrt(m as u64);
        proof {
            crate::num::lemma_sqrt_floor_bounds(m as nat);
            assert(sqrt_floor(m as nat) < DIST_MAX) by (nonlinear_arith)
                requires
                    sqrt_floor(m as nat) * sqrt_floor(m as nat) <= m as nat,
                    m as nat <= crate::point::DIST_SQ_MAX,
            ;
        }
        root as i64
    }

    /// The smallest squared distance between a segment of the first
    /// polyline and a segment of the second; the returned value is attained
    /// and is a lower bound for every pair.
    pub fn min_dist_squared(&self) -> (r: i64)
        requires
            self.wf(),
            self.curve1().points_view().len() >= 2,
            self.curve2().points_view().len() >= 2,
        ensures
            exists|i: int, j: int|
                0 <= i < self.curve1().points_view().len() - 1 && 0 <= j < self.curve2(
                ).points_view().len() - 1 && r == #[trigger] seg_seg_dist_sq(
                    curve_seg(self.curve1(), i),
                    curve_seg(self.curve2(), j),
                ),
            forall|i: int, j: int|
                0 <= i < self.curve1().points_view().len() - 1 && 0 <= j < self.curve2(
                ).points_view().len() - 1 ==> r <= #[trigger] seg_seg_dist_sq(
                    curve_seg(self.curve1(), i),
                    curve_seg(self.curve2(), j),
                ),
            0 <= r <= crate::point::DIST_SQ_MAX,
    {
        let segs1 = self.curves[0].line_segments();
        let segs2 = self.curves[1].line_segments();
        let n1 = segs1.len();
        let n2 = segs2.len();
        assert(forall|k: int| 0 <= k < n1 ==> (#[trigger] segs1@[k]).in_bounds());
        assert(forall|k: int| 0 <= k < n2 ==> (#[trigger] segs2@[k]).in_bounds());
        let mut best: i64 = segs1[0].dist_squared(&segs2[0]);
        let mut i: usize = 0;
        while i < n1
            invariant
                n1 == segs1@.len(),
                n2 == segs2@.len(),
                0 < n1,
                0 < n2,
                i <= n1,
                forall|k: int| 0 <= k < n1 ==> (#[trigger] segs1@[k]).in_bounds(),
                forall|k: int| 0 <= k < n2 ==> (#[trigger] segs2@[k]).in_bounds(),
                n1 == self.curve1().points_view().len() - 1,
                n2 == self.curve2().points_view().len() - 1,
                forall|k: int| 0 <= k < n1 ==> segs1@[k] == curve_seg(self.curve1(), k),
                forall|k: int| 0 <= k < n2 ==> segs2@[k] == curve_seg(self.curve2(), k),
                0 <= best <= crate::point::DIST_SQ_MAX,
                exists|a: int, b: int|
                    0 <= a < n1 && 0 <= b < n2 && best == #[trigger] seg_seg_dist_sq(
                        segs1@[a],
                        segs2@[b],
                    ),
                forall|a: int, b: int|
                    0 <= a < i && 0 <= b < n2 ==> best <= #[trigger] seg_seg_dist_sq(
                        segs1@[a],
                        segs2@[b],
                    ),
            decreases n1 - i,
        {
            let mut j: usize = 0;
            while j < n2
                invariant
                    n1 == segs1@.len(),
                    n2 == segs2@.len(),
                    0 < n1,
                    0 < n2,
                    i < n1,
                    j <= n2,
                    forall|k: int| 0 <= k < n1 ==> (#[trigger] segs1@[k]).in_bounds(),
                    forall|k: int| 0 <= k < n2 ==> (#[trigger] segs2@[k]).in_bounds(),
                    0 <= best <= crate::point::DIST_SQ_MAX,
                    exists|a: int, b: int|
                        0 <= a < n1 && 0 <= b < n2 && best == #[trigger] seg_seg_dist_sq(
                            segs1@[a],
                            segs2@[b],
                        ),
                    forall|a: int, b: int|
                        0 <= a < i && 0 <= b < n2 ==> best <= #[trigger] seg_seg_dist_sq(
                            segs1@[a],
                            segs2@[b],
                        ),
                    forall|b: int|
                        0 <= b < j ==> best <= #[trigger] seg_seg_dist_sq(
                            segs1@[i as int],
                            segs2@[b],
                        ),
                decreases n2 - j,
            {
                let d = segs1[i].dist_squared(&segs2[j]);
                if d < best {
                    best = d;
                }
                j = j + 1;
            }
            i = i + 1;
        }
        best
    }

    /// The distance version of `min_dist_squared`, rounded down.
    pub fn min_dist(&self) -> (r: i64)
        requires
            self.wf(),
            self.curve1().points_view().len() >= 2,
            self.curve2().points_view().len() >= 2,
        ensures
            exists|i: int, j: int|
                0 <= i < self.curve1().points_view().len() - 1 && 0 <= j < self.curve2(
                ).points_view().len() - 1 && r == sqrt_floor(
                    (#[trigger] seg_seg_dist_sq(
                        curve_seg(self.curve1(), i),
                        curve_seg(self.curve2(), j),
                    )) as nat,
                ),
            forall|i: int, j: int|
                0 <= i < self.curve1().points_view().len() - 1 && 0 <= j < self.curve2(
                ).points_view().len() - 1 ==> r * r <= #[trigger] seg_seg_dist_sq(
                    curve_seg(self.curve1(), i),
                    curve_seg(self.curve2(), j),
                ),
            0 <= r < DIST_MAX,
    {
        let m = self.min_dist_squared();
        let root = isqrt(m as u64);
        proof {
            crate::num::lemma_sqrt_floor_bounds(m as nat);
            assert(sqrt_floor(m as nat) < DIST_MAX) by (nonlinear_arith)
                requires
                    sqrt_floor(m as nat) * sqrt_floor(m as nat) <= m as nat,
                    m as nat <= crate::point::DIST_SQ_MAX,
            ;
        }
        root as i64
    }
}

impl Function<Point> for CurveDistFn {
    type Output = i64;

    open spec fn eval_req(&self, p: Point) -> bool {
        self.wf()
    }

    open spec fn eval_spec(&self, p: Point) -> i64 {
        self.dist_at_spec(p) as i64
    }

    fn eval(&self, p: Point) -> (r: i64) {
        let v = CurveDistFn::eval(self, p);
        proof {
            assert(0 <= self.dist_at_spec(p) < DIST_MAX);
        }
        v
    }
}

impl ScalarField for CurveDistFn {

}

} // verus!
