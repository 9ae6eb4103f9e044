//! Line segments and the exact minimum squared distance between two
//! segments.
//!
//! In the plane the minimum distance between two segments is zero when they
//! cross, and otherwise is attained at an endpoint of one of them; the
//! computation therefore reduces to a crossing test plus four point-segment
//! distances, all evaluated in exact integer arithmetic (the interior
//! point-segment case is `cross^2 / len^2` by the Lagrange identity, rounded
//! down to the fixed-point grid).

use vstd::prelude::*;

verus! {

use vstd::arithmetic::div_mod::{lemma_div_by_multiple, lemma_div_is_ordered, lemma_div_pos_is_pos};
use crate::num::{isqrt, sqrt_floor};
use crate::point::{DIST_SQ_MAX, Point};

/// A directed line segment between two points.
#[derive(Clone, Copy, Debug, PartialEq, Eq, Structural)]
pub struct LineSegment {
    pub p0: Point,
    pub p1: Point,
}

/// Twice the signed area of the triangle `(a, b, c)`; positive when `c` lies
/// to the left of the directed line through `a` and `b`.
pub open spec fn orient_spec(a: Point, b: Point, c: Point) -> int {
    (b.x - a.x) * (c.y - a.y) - (b.y - a.y) * (c.x - a.x)
}

/// Whether two segments properly cross (intersect in a point interior to
/// both).
pub open spec fn segments_cross(s: LineSegment, o: LineSegment) -> bool {
    orient_spec(s.p0, s.p1, o.p0) * orient_spec(s.p0, s.p1, o.p1) < 0 && orient_spec(
        o.p0,
        o.p1,
        s.p0,
    ) * orient_spec(o.p0, o.p1, s.p1) < 0
}

/// The squared length of the segment from `a` to `b`.
pub open spec fn seg_len_sq(a: Point, b: Point) -> int {
    (b.x - a.x) * (b.x - a.x) + (b.y - a.y) * (b.y - a.y)
}

/// Projection of `p - a` onto `b - a`.
pub open spec fn psd_dot(p: Point, a: Point, b: Point) -> int {
    (p.x - a.x) * (b.x - a.x) + (p.y - a.y) * (b.y - a.y)
}

/// Cross product of `p - a` with `b - a`.
pub open spec fn psd_cross(p: Point, a: Point, b: Point) -> int {
    (p.x - a.x) * (b.y - a.y) - (p.y - a.y) * (b.x - a.x)
}

/// The squared distance from a point to a segment, rounded down to the
/// fixed-point grid: the nearest endpoint when the projection of `p` falls
/// outside the segment, else the squared distance to the carrying line.
pub open spec fn point_seg_dist_sq(p: Point, a: Point, b: Point) -> int {
    if seg_len_sq(a, b) == 0 || psd_dot(p, a, b) <= 0 {
        p.dist_sq_spec(a)
    } else if psd_dot(p, a, b) >= seg_len_sq(a, b) {
        p.dist_sq_spec(b)
    } else {
        (psd_cross(p, a, b) * psd_cross(p, a, b)) / seg_len_sq(a, b)
    }
}

/// The smaller of two values.
pub open spec fn min2(a: int, b: int) -> int {
    if a <= b {
        a
    } else {
        b
    }
}

/// The minimum squared distance between two segments, rounded down: zero
/// when they cross, else the best of the four endpoint-to-segment distances.
pub open spec fn seg_seg_dist_sq(s: LineSegment, o: LineSegment) -> int {
    if segments_cross(s, o) {
        0
    } else {
        min2(
            min2(point_seg_dist_sq(s.p0, o.p0, o.p1), point_seg_dist_sq(s.p1, o.p0, o.p1)),
            min2(point_seg_dist_sq(o.p0, s.p0, s.p1), point_seg_dist_sq(o.p1, s.p0, s.p1)),
        )
    }
}

/// Bounds the product of two bounded factors.
pub proof fn lemma_mul_bound(x: int, y: int, m: int)
    requires
        0 <= m,
        -m <= x <= m,
        -m <= y <= m,
    ensures
        -(m * m) <= x * y <= m * m,
{
    assert(-(m * m) <= x * y <= m * m) by (nonlinear_arith)
        requires
            0 <= m,
            -m <= x <= m,
            -m <= y <= m,
    ;
}

/// Regroups a product of two monomials.
proof fn lemma_mul_swap(p: int, q: int, r: int, s: int)
    ensures
        (p * q) * (r * s) == (p * s) * (r * q),
{
    assert((p * q) * (r * s) == (p * s) * (r * q)) by (nonlinear_arith);
}

/// The Lagrange identity in the plane: `cross^2 + dot^2 == |w|^2 |v|^2`.
proof fn lemma_lagrange(wx: int, wy: int, vx: int, vy: int)
    ensures
        (wx * vy - wy * vx) * (wx * vy - wy * vx) + (wx * vx + wy * vy) * (wx * vx + wy * vy) == (
        wx * wx + wy * wy) * (vx * vx + vy * vy),
{
    let a = wx * vx;
    let b = wx * vy;
    let c = wy * vx;
    let d = wy * vy;
    let sx = wx * wx;
    let sy = wy * wy;
    let tx = vx * vx;
    let ty = vy * vy;
    lemma_mul_swap(wx, wx, vx, vx);
    lemma_mul_swap(wx, wx, vy, vy);
    lemma_mul_swap(wy, wy, vx, vx);
    lemma_mul_swap(wy, wy, vy, vy);
    lemma_mul_swap(wx, vx, wy, vy);
    assert(sx * tx == a * a && sx * ty == b * b && sy * tx == c * c && sy * ty == d * d && a * d
        == b * c);
    assert((sx + sy) * (tx + ty) == sx * tx + sx * ty + sy * tx + sy * ty) by (nonlinear_arith);
    assert((b - c) * (b - c) + (a + d) * (a + d) == a * a + b * b + c * c + d * d)
        by (nonlinear_arith)
        requires
            a * d == b * c,
    ;
}

/// A point-segment distance is never negative.
pub proof fn lemma_point_seg_dist_sq_nonneg(p: Point, a: Point, b: Point)
    ensures
        0 <= point_seg_dist_sq(p, a, b),
{
    assert(0 <= (p.x - a.x) * (p.x - a.x) + (p.y - a.y) * (p.y - a.y)) by (nonlinear_arith);
    assert(0 <= (p.x - b.x) * (p.x - b.x) + (p.y - b.y) * (p.y - b.y)) by (nonlinear_arith);
    assert(0 <= (b.x - a.x) * (b.x - a.x) + (b.y - a.y) * (b.y - a.y)) by (nonlinear_arith);
    assert(0 <= psd_cross(p, a, b) * psd_cross(p, a, b)) by (nonlinear_arith);
    if !(seg_len_sq(a, b) == 0 || psd_dot(p, a, b) <= 0) && !(psd_dot(p, a, b) >= seg_len_sq(a, b))
        {
        lemma_div_pos_is_pos(psd_cross(p, a, b) * psd_cross(p, a, b), seg_len_sq(a, b));
    }
}

/// A point-segment distance between in-bounds points fits the grid range.
pub proof fn lemma_point_seg_dist_sq_range(p: Point, a: Point, b: Point)
    requires
        p.in_bounds(),
        a.in_bounds(),
        b.in_bounds(),
    ensures
        0 <= point_seg_dist_sq(p, a, b) <= DIST_SQ_MAX,
{
    lemma_point_seg_dist_sq_nonneg(p, a, b);
    p.lemma_dist_sq_range(a);
    p.lemma_dist_sq_range(b);
    if !(seg_len_sq(a, b) == 0 || psd_dot(p, a, b) <= 0) && !(psd_dot(p, a, b) >= seg_len_sq(a, b))
        {
        lemma_lagrange(p.x - a.x, p.y - a.y, b.x - a.x, b.y - a.y);
        assert(0 <= psd_dot(p, a, b) * psd_dot(p, a, b)) by (nonlinear_arith);
        assert(psd_cross(p, a, b) * psd_cross(p, a, b) <= p.dist_sq_spec(a) * seg_len_sq(a, b));
        lemma_div_is_ordered(
            psd_cross(p, a, b) * psd_cross(p, a, b),
            p.dist_sq_spec(a) * seg_len_sq(a, b),
            seg_len_sq(a, b),
        );
        lemma_div_by_multiple(p.dist_sq_spec(a), seg_len_sq(a, b));
    }
}

/// Segment distance is symmetric in its two arguments.
pub proof fn lemma_seg_dist_sq_symmetric(s: LineSegment, o: LineSegment)
    ensures
        seg_seg_dist_sq(s, o) == seg_seg_dist_sq(o, s),
{
}

/// Segment distance is never negative.
pub proof fn lemma_seg_dist_sq_nonneg(s: LineSegment, o: LineSegment)
    ensures
        0 <= seg_seg_dist_sq(s, o),
{
    lemma_point_seg_dist_sq_nonneg(s.p0, o.p0, o.p1);
    lemma_point_seg_dist_sq_nonneg(s.p1, o.p0, o.p1);
    lemma_point_seg_dist_sq_nonneg(o.p0, s.p0, s.p1);
    lemma_point_seg_dist_sq_nonneg(o.p1, s.p0, s.p1);
}

/// The distance between a segment and itself is zero.
pub proof fn lemma_seg_dist_sq_self_zero(s: LineSegment)
    ensures
        seg_seg_dist_sq(s, s) == 0,
{
    lemma_seg_dist_sq_nonneg(s, s);
    assert(psd_dot(s.p0, s.p0, s.p1) == 0);
    assert(point_seg_dist_sq(s.p0, s.p0, s.p1) == 0);
    assert(orient_spec(s.p0, s.p1, s.p0) == 0);
    assert(orient_spec(s.p0, s.p1, s.p0) * orient_spec(s.p0, s.p1, s.p1) == 0);
    assert(!segments_cross(s, s));
}

impl LineSegment {
    /// Both endpoints are small enough for exact distance arithmetic.
    pub open spec fn in_bounds(self) -> bool {
        self.p0.in_bounds() && self.p1.in_bounds()
    }

    pub fn new(p0: Point, p1: Point) -> (r: LineSegment)
        ensures
            r == (LineSegment { p0, p1 }),
    {
        LineSegment { p0, p1 }
    }

    /// The squared distance from `p` to this segment, rounded down.
    pub fn point_dist_squared(&self, p: &Point) -> (r: i64)
        requires
            self.in_bounds(),
            p.in_bounds(),
        ensures
            r == point_seg_dist_sq(*p, self.p0, self.p1),
            0 <= r <= DIST_SQ_MAX,
    {
        let a = self.p0;
        let b = self.p1;
        proof {
            lemma_point_seg_dist_sq_range(*p, a, b);
        }
        let vx: i128 = (b.x - a.x) as i128;
        let vy: i128 = (b.y - a.y) as i128;
        let wx: i128 = (p.x - a.x) as i128;
        let wy: i128 = (p.y - a.y) as i128;
        proof {
            lemma_mul_bound(vx as int, vx as int, 0x200000);
            lemma_mul_bound(vy as int, vy as int, 0x200000);
            lemma_mul_bound(wx as int, vx as int, 0x200000);
            lemma_mul_bound(wy as int, vy as int, 0x200000);
            lemma_mul_bound(wx as int, vy as int, 0x200000);
            lemma_mul_bound(wy as int, vx as int, 0x200000);
            assert(0 <= vx * vx) by (nonlinear_arith);
            assert(0 <= vy * vy) by (nonlinear_arith);
        }
        let len2: i128 = vx * vx + vy * vy;
        let dt: i128 = wx * vx + wy * vy;
        assert(len2 == seg_len_sq(a, b));
        assert(dt == psd_dot(*p, a, b));
        if len2 == 0 || dt <= 0 {
            p.dist_squared(&a)
        } else if dt >= len2 {
            p.dist_squared(&b)
        } else {
            let cr: i128 = wx * vy - wy * vx;
            assert(cr == psd_cross(*p, a, b));
            proof {
                lemma_mul_bound(cr as int, cr as int, 0x800_0000_0000);
                assert(0 <= cr * cr) by (nonlinear_arith);
            }
            let q: u128 = (cr * cr) as u128 / (len2 as u128);
            assert(q == (psd_cross(*p, a, b) * psd_cross(*p, a, b)) / seg_len_sq(a, b));
            q as i64
        }
    }

    /// Whether the two segments properly cross.
    pub fn crosses(&self, other: &LineSegment) -> (r: bool)
        requires
            self.in_bounds(),
            other.in_bounds(),
        ensures
            r == segments_cross(*self, *other),
    {
        let o1 = orient_exec(&self.p0, &self.p1, &other.p0);
        let o2 = orient_exec(&self.p0, &self.p1, &other.p1);
        let o3 = orient_exec(&other.p0, &other.p1, &self.p0);
        let o4 = orient_exec(&other.p0, &other.p1, &self.p1);
        proof {
            lemma_mul_bound(o1 as int, o2 as int, 0x800_0000_0000);
            lemma_mul_bound(o3 as int, o4 as int, 0x800_0000_0000);
        }
        let first = o1 * o2 < 0;
        let second = o3 * o4 < 0;
        first && second
    }

    /// Computes the minimum squared distance between two segments, rounded
    /// down to the fixed-point grid.
    pub fn dist_squared(&self, other: &Self) -> (r: i64)
        requires
            self.in_bounds(),
            other.in_bounds(),
        ensures
            r == seg_seg_dist_sq(*self, *other),
            0 <= r <= DIST_SQ_MAX,
    {
        proof {
            lemma_seg_dist_sq_nonneg(*self, *other);
            lemma_point_seg_dist_sq_range(self.p0, other.p0, other.p1);
        }
        if self.crosses(other) {
            return 0;
        }
        let d1 = other.point_dist_squared(&self.p0);
        let d2 = other.point_dist_squared(&self.p1);
        let d3 = self.point_dist_squared(&other.p0);
        let d4 = self.point_dist_squared(&other.p1);
        let m1 = if d1 <= d2 {
            d1
        } else {
            d2
        };
        let m2 = if d3 <= d4 {
            d3
        } else {
            d4
        };
        if m1 <= m2 {
            m1
        } else {
            m2
        }
    }

    /// Computes the minimum distance between two segments, rounded down.
    pub fn dist(&self, other: &Self) -> (r: i64)
        requires
            self.in_bounds(),
            other.in_bounds(),
        ensures
            r == sqrt_floor(seg_seg_dist_sq(*self, *other) as nat),
    {
        let dsq = self.dist_squared(other);
        let root = isqrt(dsq as u64);
        proof {
            crate::num::lemma_sqrt_floor_bounds(dsq as nat);
            assert(sqrt_floor(dsq as nat) < 0x200_0000) by (nonlinear_arith)
                requires
                    sqrt_floor(dsq as nat) * sqrt_floor(dsq as nat) <= dsq as nat,
                    dsq as nat <= DIST_SQ_MAX,
            ;
        }
        root as i64
    }
}

/// Twice the signed area of `(a, b, c)`, evaluated exactly.
fn orient_exec(a: &Point, b: &Point, c: &Point) -> (r: i128)
    requires
        a.in_bounds(),
        b.in_bounds(),
        c.in_bounds(),
    ensures
        r == orient_spec(*a, *b, *c),
        -4 * DIST_SQ_MAX <= r <= 4 * DIST_SQ_MAX,
{
    let ux: i128 = (b.x - a.x) as i128;
    let uy: i128 = (b.y - a.y) as i128;
    let vx: i128 = (c.x - a.x) as i128;
    let vy: i128 = (c.y - a.y) as i128;
    proof {
        lemma_mul_bound(ux as int, vy as int, 0x200000);
        lemma_mul_bound(uy as int, vx as int, 0x200000);
    }
    let r = ux * vy - uy * vx;
    assert(r == orient_spec(*a, *b, *c));
    r
}

} // verus!
