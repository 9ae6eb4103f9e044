//! Function objects with caller-visible contracts: the curve as a function
//! of arc length, and the scalar-field marker.

use vstd::prelude::*;

verus! {

use crate::curve::Curve;
use crate::point::Point;

/// A pure function object. Implementations publish when evaluation is
/// allowed (`eval_req`) and what it returns (`eval_spec`).
pub trait Function<T>: Sized {
    type Output;

    /// When evaluation is allowed.
    spec fn eval_req(&self, x: T) -> bool;

    /// The mathematical value of `eval`.
    spec fn eval_spec(&self, x: T) -> Self::Output;

    /// Evaluates the function at `x`.
    fn eval(&self, x: T) -> (r: Self::Output)
        requires
            self.eval_req(x),
        ensures
            r == self.eval_spec(x);
}

/// A scalar field over 2-D parameter points.
pub trait ScalarField: Function<Point, Output = i64> {

}

impl Function<i64> for Curve {
    type Output = Point;

    open spec fn eval_req(&self, x: i64) -> bool {
        self.wf() && self.points_view().len() > 0
    }

    open spec fn eval_spec(&self, x: i64) -> Point {
        self.at_spec(x as int)
    }

    fn eval(&self, x: i64) -> (r: Point) {
        self.at(x)
    }
}

} // verus!
