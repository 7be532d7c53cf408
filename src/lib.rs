//! B-spline curves over an integer parameter lattice, with verified knot
//! insertion and removal, clamping, cutting, joining and degree elevation,
//! and the classification of boundary loops in a face's parameter plane.

pub mod point;
pub mod knot_vec;
pub mod bspcurve;
pub mod polyline;

pub use bspcurve::{BSplineCurve, ConcatError, Error};
pub use knot_vec::KnotVec;
pub use point::{ControlPoint, Point2};
pub use polyline::{BoundaryStatus, PolylineCurve};
