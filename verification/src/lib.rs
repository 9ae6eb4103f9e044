//! Geometry core for a curve-distance density plot: piecewise-linear curves
//! with arc-length parameterisation, exact segment-distance queries, a
//! half-edge triangular mesh with adaptive bisection refinement, and isoline
//! extraction.
//!
//! All coordinates and scalar values are fixed-point integers: the caller
//! picks a scale (units per world unit) and the library computes exactly on
//! the scaled values, taking floors where a real-valued result (a square
//! root, an interpolation) does not land on the grid.

pub mod curve;
pub mod field;
pub mod function;
pub mod isolines;
pub mod mesh;
pub mod num;
pub mod plot;
pub mod point;
pub mod segment;

pub use curve::Curve;
pub use field::{CurveDistFn, GradientPlan};
pub use function::{Function, ScalarField};
pub use isolines::{BuildIsolines, analyze_triangle};
pub use mesh::{ElementMesh, Triangle, Vertex};
pub use num::{InverseMix, Mix, Weight};
pub use point::Point;
pub use segment::LineSegment;
