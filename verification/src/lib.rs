//! Skeleton extraction for 2D binary shapes.
//!
//! The crate turns the boundary of a binary raster into a compact,
//! noise-tolerant skeleton: a graph of maximal inscribed balls.  It covers
//! boundary contour extraction (marching squares over a labeled raster) and a
//! Delaunay-based skeleton-propagation engine with an epsilon-tolerant
//! coverage criterion, together with the exact circle-fitting arithmetic the
//! engine depends on.
//!
//! All geometry is carried out exactly, over integer coordinates.  Boundary
//! points produced by the extractors lie on a half-integer grid, so every
//! coordinate in this crate is stored doubled: the raster vertex `(c, r)`
//! becomes the point `(2c, 2r)`, and the midpoint of a pixel side becomes a
//! point with one odd coordinate.  Circumcircle centers are then rational
//! with a common denominator, and every comparison the engine makes
//! (point-in-dilated-circle, radius ordering) is decided exactly in integer
//! arithmetic.
//!
//! The Delaunay triangulation itself is an external collaborator: the engine
//! consumes a flat list of point-index triples and never computes it.

use vstd::prelude::*;

pub mod arith;
pub mod boundary2d;
pub mod geometry_objects;
pub mod geometry_operations;
pub mod skeleton2d;

verus! {

/// Largest coordinate magnitude (in doubled units) the geometric kernel
/// accepts.  Keeping coordinates within this bound lets every intermediate
/// product of the exact circle arithmetic fit in `i128`.
pub const COORD_LIMIT: i64 = 16384;

/// Largest numerator accepted for the coverage tolerance.
pub const EPS_NUM_LIMIT: i64 = 0x1000000;

/// Largest denominator accepted for the coverage tolerance.
pub const EPS_DEN_LIMIT: i64 = 1024;

/// The error kinds of the skeleton pipeline.  Every failure is fatal for the
/// call in which it occurs; no call retries or returns a partial success.
#[derive(Clone, Copy, Debug, PartialEq, Eq, Structural)]
pub enum SkelError {
    /// The circle (or sphere) through the defining points does not exist:
    /// the points are collinear (coplanar) or duplicated.
    GeometryDegenerate,
    /// An edge or adjacency reference points outside the produced index
    /// range, or the produced successor maps do not close into cycles.
    IndexInconsistency,
    /// A seed search was invoked on a loop with zero points.
    EmptyInput,
    /// No triangle matches the expected (closest point, successor) pair.
    SeedNotFound,
    /// A raster configuration the naive boundary variant refuses to resolve.
    AmbiguousTopology,
}

/// The coverage tolerance: a non-negative rational `num / den`, expressed in
/// the same doubled units as the point coordinates.
#[derive(Clone, Copy, Debug, PartialEq, Eq, Structural)]
pub struct Epsilon {
    pub num: i64,
    pub den: i64,
}

impl Epsilon {
    /// The bounds under which the coverage comparison cannot overflow.
    pub open spec fn wf(self) -> bool {
        0 <= self.num <= EPS_NUM_LIMIT && 1 <= self.den <= EPS_DEN_LIMIT
    }

    /// A zero tolerance: coverage requires every boundary point strictly
    /// inside the ball itself.
    pub fn zero() -> (r: Epsilon)
        ensures
            r.wf(),
            r.num == 0,
            r.den == 1,
    {
        Epsilon { num: 0, den: 1 }
    }

    /// The tolerance `num / den`, rejecting values outside the supported
    /// range.
    pub fn new(num: i64, den: i64) -> (r: Option<Epsilon>)
        ensures
            match r {
                Some(e) => e.wf() && e.num == num && e.den == den,
                None => !(0 <= num <= EPS_NUM_LIMIT && 1 <= den <= EPS_DEN_LIMIT),
            },
    {
        if 0 <= num && num <= EPS_NUM_LIMIT && 1 <= den && den <= EPS_DEN_LIMIT {
            Some(Epsilon { num, den })
        } else {
            None
        }
    }
}

} // verus!
