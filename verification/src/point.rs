//! Immutable 2-D points in fixed-point coordinates, with exact squared
//! distances and grid-floored Euclidean distances.

use vstd::prelude::*;

verus! {

use crate::num::{COORD_MAX, DIST_MAX, Mix, Weight, isqrt, mix_i64, sqrt_floor};

/// Largest squared distance between two in-bounds points.
pub const DIST_SQ_MAX: i64 = 0x200_0000_0000;

/// An immutable 2-D coordinate, in fixed-point units.
#[derive(Clone, Copy, Debug, PartialEq, Eq, Structural)]
pub struct Point {
    pub x: i64,
    pub y: i64,
}

impl Point {
    /// Coordinates small enough for exact distance arithmetic.
    pub open spec fn in_bounds(self) -> bool {
        -COORD_MAX <= self.x <= COORD_MAX && -COORD_MAX <= self.y <= COORD_MAX
    }

    /// The exact squared Euclidean distance between two points.
    pub open spec fn dist_sq_spec(self, other: Point) -> int {
        (self.x - other.x) * (self.x - other.x) + (self.y - other.y) * (self.y - other.y)
    }

    /// The Euclidean distance, rounded down to the fixed-point grid.
    pub open spec fn dist_spec(self, other: Point) -> int {
        sqrt_floor(self.dist_sq_spec(other) as nat) as int
    }

    /// Squared distances of in-bounds points are non-negative and bounded.
    pub proof fn lemma_dist_sq_range(self, other: Point)
        requires
            self.in_bounds(),
            other.in_bounds(),
        ensures
            0 <= self.dist_sq_spec(other) <= DIST_SQ_MAX,
    {
        let dx = self.x - other.x;
        let dy = self.y - other.y;
        assert(0 <= dx * dx + dy * dy <= DIST_SQ_MAX) by (nonlinear_arith)
            requires
                -2 * COORD_MAX <= dx <= 2 * COORD_MAX,
                -2 * COORD_MAX <= dy <= 2 * COORD_MAX,
        ;
    }

    /// The floored distance of in-bounds points is below `DIST_MAX`.
    pub proof fn lemma_dist_range(self, other: Point)
        requires
            self.in_bounds(),
            other.in_bounds(),
        ensures
            0 <= self.dist_spec(other) < DIST_MAX,
    {
        self.lemma_dist_sq_range(other);
        let n = self.dist_sq_spec(other) as nat;
        crate::num::lemma_sqrt_floor_bounds(n);
        let s = sqrt_floor(n);
        assert(s < DIST_MAX) by (nonlinear_arith)
            requires
                s * s <= n,
                n <= DIST_SQ_MAX,
        ;
    }

    /// The exact squared Euclidean distance between two points.
    pub fn dist_squared(&self, other: &Point) -> (r: i64)
        requires
            self.in_bounds(),
            other.in_bounds(),
        ensures
            r == self.dist_sq_spec(*other),
            0 <= r <= DIST_SQ_MAX,
    {
        proof {
            self.lemma_dist_sq_range(*other);
        }
        let dx: i128 = (self.x - other.x) as i128;
        let dy: i128 = (self.y - other.y) as i128;
        assert(dx * dx + dy * dy == self.dist_sq_spec(*other) && 0 <= dx * dx <= DIST_SQ_MAX && 0
            <= dy * dy <= DIST_SQ_MAX) by (nonlinear_arith)
            requires
                dx == self.x - other.x,
                dy == self.y - other.y,
                -2 * COORD_MAX <= dx <= 2 * COORD_MAX,
                -2 * COORD_MAX <= dy <= 2 * COORD_MAX,
        ;
        (dx * dx + dy * dy) as i64
    }

    /// Computes the Euclidean distance between the two points, rounded down.
    pub fn dist(&self, other: &Point) -> (r: i64)
        requires
            self.in_bounds(),
            other.in_bounds(),
        ensures
            r == self.dist_spec(*other),
            0 <= r < DIST_MAX,
    {
        proof {
            self.lemma_dist_range(*other);
        }
        let dsq = self.dist_squared(other);
        isqrt(dsq as u64) as i64
    }
}

impl Mix for Point {
    open spec fn mix_spec(self, other: Point, t: Weight) -> Point {
        Point { x: self.x.mix_spec(other.x, t), y: self.y.mix_spec(other.y, t) }
    }

    fn mix(self, other: Point, t: Weight) -> (r: Point) {
        Point { x: mix_i64(self.x, other.x, t), y: mix_i64(self.y, other.y, t) }
    }
}

} // verus!
