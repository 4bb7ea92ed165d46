//! Geometric objects: integer points and the exact circles and spheres
//! through them.
//!
//! A circle through three integer points has a rational center and an
//! irrational radius in general.  The `Circle` type therefore stores the
//! center as a pair of numerators over one positive denominator, and the
//! radius through its scaled square: `radius^2 == radius_sq_num / den^2`.
//! Every question the skeleton engine asks of a circle (is a point strictly
//! inside the dilated circle, which of two radii is larger) is decided
//! exactly from these integers.

use vstd::prelude::*;

use crate::geometry_operations;
use crate::SkelError;
use crate::COORD_LIMIT;

verus! {

/// Bound on the center numerators of a circle fitted to in-bounds points.
pub const CENTER_NUM_LIMIT: i128 = 0x4000_0000_0000;

/// Bound on the denominator of a circle fitted to in-bounds points.
pub const DEN_LIMIT: i128 = 0x1_0000_0000;

/// Bound on the scaled squared radius of a circle fitted to in-bounds points.
pub const RADIUS_SQ_LIMIT: i128 = 0x8000_0000_0000_0000_0000_0000;

/// A 2D point with integer coordinates, in doubled units: the raster vertex
/// `(c, r)` is stored as `(2c, 2r)`, so half-integer side midpoints are
/// exactly representable.
#[derive(Clone, Copy, Debug, PartialEq, Eq, Structural)]
pub struct Point2 {
    pub x: i64,
    pub y: i64,
}

impl Point2 {
    /// Within the coordinate range the exact circle arithmetic supports.
    pub open spec fn in_bounds(self) -> bool {
        -COORD_LIMIT <= self.x <= COORD_LIMIT && -COORD_LIMIT <= self.y <= COORD_LIMIT
    }
}

/// Largest coordinate magnitude the exact sphere arithmetic supports;
/// tighter than the planar bound because the 3D solve multiplies deeper.
pub const COORD_LIMIT_3D: i64 = 1024;

/// A 3D point with integer coordinates, in the same doubled units.
#[derive(Clone, Copy, Debug, PartialEq, Eq, Structural)]
pub struct Point3 {
    pub x: i64,
    pub y: i64,
    pub z: i64,
}

impl Point3 {
    /// Within the coordinate range the exact sphere arithmetic supports.
    pub open spec fn in_bounds(self) -> bool {
        -COORD_LIMIT_3D <= self.x <= COORD_LIMIT_3D && -COORD_LIMIT_3D <= self.y <= COORD_LIMIT_3D
            && -COORD_LIMIT_3D <= self.z <= COORD_LIMIT_3D
    }
}

/// The squaring helper used throughout the scaled-distance specifications.
pub open spec fn sq(a: int) -> int {
    a * a
}

/// The circle through three points: center `(center_x_num / den,
/// center_y_num / den)` and radius `sqrt(radius_sq_num) / den`.
#[derive(Clone, Copy, Debug, PartialEq, Eq, Structural)]
pub struct Circle {
    pub center_x_num: i128,
    pub center_y_num: i128,
    pub den: i128,
    pub radius_sq_num: i128,
}

impl Circle {
    /// The denominator is positive and the squared radius non-negative.
    pub open spec fn wf(self) -> bool {
        self.den > 0 && self.radius_sq_num >= 0
    }

    /// The field bounds that hold of every circle fitted to in-bounds
    /// points; they keep the coverage and radius comparisons inside `i128`.
    pub open spec fn bounded(self) -> bool {
        -CENTER_NUM_LIMIT <= self.center_x_num <= CENTER_NUM_LIMIT && -CENTER_NUM_LIMIT
            <= self.center_y_num <= CENTER_NUM_LIMIT && 0 < self.den <= DEN_LIMIT && 0
            <= self.radius_sq_num <= RADIUS_SQ_LIMIT
    }

    /// The squared distance from `p` to the center, scaled by `den^2`:
    /// `dist(p, center)^2 == scaled_sq_dist / den^2`.
    pub open spec fn scaled_sq_dist(self, p: Point2) -> int {
        sq(p.x * self.den - self.center_x_num) + sq(p.y * self.den - self.center_y_num)
    }

    /// `self` is the circle through the three points: all three lie at the
    /// same scaled squared distance from the center, and that distance is
    /// the stored squared radius.
    pub open spec fn is_circumcircle(self, p1: Point2, p2: Point2, p3: Point2) -> bool {
        self.den > 0 && self.scaled_sq_dist(p1) == self.radius_sq_num && self.scaled_sq_dist(p2)
            == self.radius_sq_num && self.scaled_sq_dist(p3) == self.radius_sq_num
    }

    /// Fits the unique circle through the three points.  Fails exactly when
    /// the points are collinear (or duplicated), in which case no such
    /// circle exists.
    pub fn from(pt1: &Point2, pt2: &Point2, pt3: &Point2) -> (r: Result<Circle, SkelError>)
        requires
            pt1.in_bounds(),
            pt2.in_bounds(),
            pt3.in_bounds(),
        ensures
            match r {
                Ok(c) => {
                    &&& !geometry_operations::collinear(*pt1, *pt2, *pt3)
                    &&& c == geometry_operations::circle_spec(*pt1, *pt2, *pt3)
                    &&& c.is_circumcircle(*pt1, *pt2, *pt3)
                    &&& c.wf()
                    &&& c.bounded()
                },
                Err(e) => e == SkelError::GeometryDegenerate && geometry_operations::collinear(
                    *pt1,
                    *pt2,
                    *pt3,
                ),
            },
    {
        match geometry_operations::circle_center(pt1, pt2, pt3) {
            Some(ctr) => {
                proof {
                    crate::arith::lemma_mul_bounds(
                        pt1.x as int,
                        ctr.2 as int,
                        0x4000,
                        0x1_0000_0000,
                    );
                    crate::arith::lemma_mul_bounds(
                        pt1.y as int,
                        ctr.2 as int,
                        0x4000,
                        0x1_0000_0000,
                    );
                }
                let ex: i128 = pt1.x as i128 * ctr.2 - ctr.0;
                let ey: i128 = pt1.y as i128 * ctr.2 - ctr.1;
                proof {
                    crate::arith::lemma_sq_bounds(ex as int, 0x8000_0000_0000);
                    crate::arith::lemma_sq_bounds(ey as int, 0x8000_0000_0000);
                }
                let c = Circle {
                    center_x_num: ctr.0,
                    center_y_num: ctr.1,
                    den: ctr.2,
                    radius_sq_num: ex * ex + ey * ey,
                };
                proof {
                    geometry_operations::lemma_circle_spec_equidistant(*pt1, *pt2, *pt3);
                }
                Ok(c)
            },
            None => Err(SkelError::GeometryDegenerate),
        }
    }
}

/// The sphere through four points: center `(center_x_num / den,
/// center_y_num / den, center_z_num / den)` and radius
/// `sqrt(radius_sq_num) / den`.
#[derive(Clone, Copy, Debug, PartialEq, Eq, Structural)]
pub struct Sphere {
    pub center_x_num: i128,
    pub center_y_num: i128,
    pub center_z_num: i128,
    pub den: i128,
    pub radius_sq_num: i128,
}

impl Sphere {
    /// The denominator is positive and the squared radius non-negative.
    pub open spec fn wf(self) -> bool {
        self.den > 0 && self.radius_sq_num >= 0
    }

    /// The squared distance from `p` to the center, scaled by `den^2`.
    pub open spec fn scaled_sq_dist(self, p: Point3) -> int {
        sq(p.x * self.den - self.center_x_num) + sq(p.y * self.den - self.center_y_num) + sq(
            p.z * self.den - self.center_z_num,
        )
    }

    /// Fits the unique sphere through the four points.  Fails exactly
    /// when the points are coplanar (or degenerate), in which case no
    /// such sphere exists.
    pub fn from(pt1: &Point3, pt2: &Point3, pt3: &Point3, pt4: &Point3) -> (r: Result<
        Sphere,
        SkelError,
    >)
        requires
            pt1.in_bounds(),
            pt2.in_bounds(),
            pt3.in_bounds(),
            pt4.in_bounds(),
        ensures
            match r {
                Ok(s) => {
                    &&& !geometry_operations::coplanar(*pt1, *pt2, *pt3, *pt4)
                    &&& s == geometry_operations::sphere_spec(*pt1, *pt2, *pt3, *pt4)
                    &&& s.is_circumsphere(*pt1, *pt2, *pt3, *pt4)
                    &&& s.wf()
                },
                Err(e) => e == SkelError::GeometryDegenerate && geometry_operations::coplanar(
                    *pt1,
                    *pt2,
                    *pt3,
                    *pt4,
                ),
            },
    {
        match geometry_operations::sphere_center(pt1, pt2, pt3, pt4) {
            Some(ctr) => {
                proof {
                    crate::arith::lemma_mul_bounds(
                        pt1.x as int,
                        ctr.3 as int,
                        0x400,
                        0x40_0000_0000,
                    );
                    crate::arith::lemma_mul_bounds(
                        pt1.y as int,
                        ctr.3 as int,
                        0x400,
                        0x40_0000_0000,
                    );
                    crate::arith::lemma_mul_bounds(
                        pt1.z as int,
                        ctr.3 as int,
                        0x400,
                        0x40_0000_0000,
                    );
                }
                let ex: i128 = pt1.x as i128 * ctr.3 - ctr.0;
                let ey: i128 = pt1.y as i128 * ctr.3 - ctr.1;
                let ez: i128 = pt1.z as i128 * ctr.3 - ctr.2;
                proof {
                    crate::arith::lemma_sq_bounds(ex as int, 0x2_0000_0000_0000);
                    crate::arith::lemma_sq_bounds(ey as int, 0x2_0000_0000_0000);
                    crate::arith::lemma_sq_bounds(ez as int, 0x2_0000_0000_0000);
                }
                let s = Sphere {
                    center_x_num: ctr.0,
                    center_y_num: ctr.1,
                    center_z_num: ctr.2,
                    den: ctr.3,
                    radius_sq_num: ex * ex + ey * ey + ez * ez,
                };
                proof {
                    geometry_operations::lemma_sphere_spec_equidistant(*pt1, *pt2, *pt3, *pt4);
                }
                Ok(s)
            },
            None => Err(SkelError::GeometryDegenerate),
        }
    }

    /// `self` is the sphere through the four points.
    pub open spec fn is_circumsphere(self, p1: Point3, p2: Point3, p3: Point3, p4: Point3) -> bool {
        self.den > 0 && self.scaled_sq_dist(p1) == self.radius_sq_num && self.scaled_sq_dist(p2)
            == self.radius_sq_num && self.scaled_sq_dist(p3) == self.radius_sq_num
            && self.scaled_sq_dist(p4) == self.radius_sq_num
    }

}

} // verus!
