//! Exact geometric computations: circumcircle centers, the strict
//! point-in-dilated-circle test used by the coverage criterion, and the
//! exact ordering of circle radii.
//!
//! The circumcenter of three points `p1, p2, p3` is the solution of the two
//! linear equations stating equal distance to consecutive point pairs.  The
//! solution is computed by Cramer's rule over the integers, as a pair of
//! numerators over the common denominator `2 * d0`, where `d0` is the
//! collinearity determinant; it exists exactly when `d0 != 0`.

use vstd::prelude::*;

use crate::arith;
use crate::geometry_objects::sq;
use crate::geometry_objects::Circle;
use crate::geometry_objects::Point2;
use crate::geometry_objects::Point3;
use crate::geometry_objects::Sphere;
use crate::geometry_objects::CENTER_NUM_LIMIT;
use crate::geometry_objects::DEN_LIMIT;
use crate::geometry_objects::RADIUS_SQ_LIMIT;
use crate::Epsilon;

verus! {

/// The three points lie on one line (degenerate circumcircle), including
/// the case of duplicated points.
pub open spec fn collinear(p1: Point2, p2: Point2, p3: Point2) -> bool {
    (p2.x - p1.x) * (p3.y - p2.y) - (p2.y - p1.y) * (p3.x - p2.x) == 0
}

/// The circumcenter of the three points as `(x numerator, y numerator,
/// denominator)`, with the denominator normalized to be positive.  Only
/// meaningful when the points are not collinear.
pub open spec fn circle_center_spec(p1: Point2, p2: Point2, p3: Point2) -> (int, int, int) {
    let dx1 = p2.x - p1.x;
    let dy1 = p2.y - p1.y;
    let dx2 = p3.x - p2.x;
    let dy2 = p3.y - p2.y;
    let b1 = p2.x * p2.x + p2.y * p2.y - p1.x * p1.x - p1.y * p1.y;
    let b2 = p3.x * p3.x + p3.y * p3.y - p2.x * p2.x - p2.y * p2.y;
    let d0 = dx1 * dy2 - dy1 * dx2;
    let nx = b1 * dy2 - b2 * dy1;
    let ny = b2 * dx1 - b1 * dx2;
    if d0 > 0 {
        (nx, ny, 2 * d0)
    } else {
        (-nx, -ny, -(2 * d0))
    }
}

/// The circle through the three points: the circumcenter together with the
/// scaled squared distance from it to the first point.
pub open spec fn circle_spec(p1: Point2, p2: Point2, p3: Point2) -> Circle {
    let cc = circle_center_spec(p1, p2, p3);
    Circle {
        center_x_num: cc.0 as i128,
        center_y_num: cc.1 as i128,
        den: cc.2 as i128,
        radius_sq_num: (sq(p1.x * cc.2 - cc.0) + sq(p1.y * cc.2 - cc.1)) as i128,
    }
}

/// Cramer's rule, verified by direct polynomial expansion: the candidate
/// numerators solve the two equal-distance equations scaled by the
/// determinant.
proof fn lemma_cramer_identity_first(dx1: int, dy1: int, dx2: int, dy2: int, b1: int, b2: int)
    ensures
        2 * dx1 * (b1 * dy2 - b2 * dy1) + 2 * dy1 * (b2 * dx1 - b1 * dx2) == b1 * (2 * (dx1 * dy2
            - dy1 * dx2)),
        2 * dx1 * (-(b1 * dy2 - b2 * dy1)) + 2 * dy1 * (-(b2 * dx1 - b1 * dx2)) == b1 * (-(2 * (
        dx1 * dy2 - dy1 * dx2))),
{
    assert(dx1 * (b1 * dy2 - b2 * dy1) + dy1 * (b2 * dx1 - b1 * dx2) == b1 * (dx1 * dy2 - dy1
        * dx2)) by (nonlinear_arith);
    assert(2 * dx1 * (b1 * dy2 - b2 * dy1) == 2 * (dx1 * (b1 * dy2 - b2 * dy1))) by (nonlinear_arith);
    assert(2 * dy1 * (b2 * dx1 - b1 * dx2) == 2 * (dy1 * (b2 * dx1 - b1 * dx2))) by (nonlinear_arith);
    assert(b1 * (2 * (dx1 * dy2 - dy1 * dx2)) == 2 * (b1 * (dx1 * dy2 - dy1 * dx2))) by (nonlinear_arith);
    assert(2 * dx1 * (-(b1 * dy2 - b2 * dy1)) == -(2 * dx1 * (b1 * dy2 - b2 * dy1))) by (nonlinear_arith);
    assert(2 * dy1 * (-(b2 * dx1 - b1 * dx2)) == -(2 * dy1 * (b2 * dx1 - b1 * dx2))) by (nonlinear_arith);
    assert(b1 * (-(2 * (dx1 * dy2 - dy1 * dx2))) == -(b1 * (2 * (dx1 * dy2 - dy1 * dx2)))) by (nonlinear_arith);
}

/// The second half of Cramer's rule, for the second equal-distance
/// equation.
proof fn lemma_cramer_identity_second(dx1: int, dy1: int, dx2: int, dy2: int, b1: int, b2: int)
    ensures
        2 * dx2 * (b1 * dy2 - b2 * dy1) + 2 * dy2 * (b2 * dx1 - b1 * dx2) == b2 * (2 * (dx1 * dy2
            - dy1 * dx2)),
        2 * dx2 * (-(b1 * dy2 - b2 * dy1)) + 2 * dy2 * (-(b2 * dx1 - b1 * dx2)) == b2 * (-(2 * (
        dx1 * dy2 - dy1 * dx2))),
{
    assert(dx2 * (b1 * dy2 - b2 * dy1) + dy2 * (b2 * dx1 - b1 * dx2) == b2 * (dx1 * dy2 - dy1
        * dx2)) by (nonlinear_arith);
    assert(2 * dx2 * (b1 * dy2 - b2 * dy1) == 2 * (dx2 * (b1 * dy2 - b2 * dy1))) by (nonlinear_arith);
    assert(2 * dy2 * (b2 * dx1 - b1 * dx2) == 2 * (dy2 * (b2 * dx1 - b1 * dx2))) by (nonlinear_arith);
    assert(b2 * (2 * (dx1 * dy2 - dy1 * dx2)) == 2 * (b2 * (dx1 * dy2 - dy1 * dx2))) by (nonlinear_arith);
    assert(2 * dx2 * (-(b1 * dy2 - b2 * dy1)) == -(2 * dx2 * (b1 * dy2 - b2 * dy1))) by (nonlinear_arith);
    assert(2 * dy2 * (-(b2 * dx1 - b1 * dx2)) == -(2 * dy2 * (b2 * dx1 - b1 * dx2))) by (nonlinear_arith);
    assert(b2 * (-(2 * (dx1 * dy2 - dy1 * dx2))) == -(b2 * (2 * (dx1 * dy2 - dy1 * dx2)))) by (nonlinear_arith);
}

/// The center components satisfy Cramer's identities for the two
/// equal-distance equations, with a positive denominator.
proof fn lemma_cramer(p1: Point2, p2: Point2, p3: Point2)
    requires
        !collinear(p1, p2, p3),
    ensures
        ({
            let cc = circle_center_spec(p1, p2, p3);
            &&& cc.2 > 0
            &&& 2 * (p2.x - p1.x) * cc.0 + 2 * (p2.y - p1.y) * cc.1 == (
            p2.x * p2.x + p2.y * p2.y - p1.x * p1.x - p1.y * p1.y) * cc.2
            &&& 2 * (p3.x - p2.x) * cc.0 + 2 * (p3.y - p2.y) * cc.1 == (
            p3.x * p3.x + p3.y * p3.y - p2.x * p2.x - p2.y * p2.y) * cc.2
        }),
{
    let dx1 = p2.x - p1.x as int;
    let dy1 = p2.y - p1.y as int;
    let dx2 = p3.x - p2.x as int;
    let dy2 = p3.y - p2.y as int;
    let b1 = p2.x * p2.x + p2.y * p2.y - p1.x * p1.x - p1.y * p1.y;
    let b2 = p3.x * p3.x + p3.y * p3.y - p2.x * p2.x - p2.y * p2.y;
    lemma_cramer_identity_first(dx1, dy1, dx2, dy2, b1, b2);
    lemma_cramer_identity_second(dx1, dy1, dx2, dy2, b1, b2);
}

/// A difference of two squared offsets, expanded: the binomial identity
/// behind the equidistance derivation.
proof fn lemma_sq_diff_expand(xa: int, xb: int, n: int, den: int)
    ensures
        (xb * den - n) * (xb * den - n) - (xa * den - n) * (xa * den - n) == (xb * xb - xa * xa) * (
        den * den) - (2 * (xb - xa) * n) * den,
{
    let t = xb * den;
    let s = xa * den;
    assert((t - n) * (t - n) - (s - n) * (s - n) == t * t - s * s - 2 * (t - s) * n)
        by (nonlinear_arith);
    assert(t * t == (xb * xb) * (den * den)) by (nonlinear_arith)
        requires
            t == xb * den,
    ;
    assert(s * s == (xa * xa) * (den * den)) by (nonlinear_arith)
        requires
            s == xa * den,
    ;
    assert(2 * (t - s) * n == (2 * (xb - xa) * n) * den) by (nonlinear_arith)
        requires
            t == xb * den && s == xa * den,
    ;
    assert((xb * xb) * (den * den) - (xa * xa) * (den * den) == (xb * xb - xa * xa) * (den * den))
        by (nonlinear_arith);
}

/// If the center numerators satisfy the equal-distance identity for a pair
/// of points, the two points have the same scaled squared distance from the
/// center.
proof fn lemma_equidistant_step(
    xa: int,
    ya: int,
    xb: int,
    yb: int,
    nx: int,
    ny: int,
    den: int,
)
    requires
        2 * (xb - xa) * nx + 2 * (yb - ya) * ny == (xb * xb + yb * yb - xa * xa - ya * ya) * den,
    ensures
        sq(xa * den - nx) + sq(ya * den - ny) == sq(xb * den - nx) + sq(yb * den - ny),
{
    let b = xb * xb + yb * yb - xa * xa - ya * ya;
    lemma_sq_diff_expand(xa, xb, nx, den);
    lemma_sq_diff_expand(ya, yb, ny, den);
    assert((xb * xb - xa * xa) * (den * den) + (yb * yb - ya * ya) * (den * den) == b * (den
        * den)) by (nonlinear_arith)
        requires
            b == xb * xb + yb * yb - xa * xa - ya * ya,
    ;
    assert((2 * (xb - xa) * nx) * den + (2 * (yb - ya) * ny) * den == (2 * (xb - xa) * nx + 2 * (yb
        - ya) * ny) * den) by (nonlinear_arith);
    assert((2 * (xb - xa) * nx + 2 * (yb - ya) * ny) * den == (b * den) * den) by (nonlinear_arith)
        requires
            2 * (xb - xa) * nx + 2 * (yb - ya) * ny == b * den,
    ;
    assert((b * den) * den == b * (den * den)) by (nonlinear_arith);
}

/// Bounds on every field of `circle_spec` when the defining points are in
/// bounds; these keep the downstream comparisons inside `i128`.
proof fn lemma_circle_spec_bounds(p1: Point2, p2: Point2, p3: Point2)
    requires
        p1.in_bounds(),
        p2.in_bounds(),
        p3.in_bounds(),
    ensures
        ({
            let cc = circle_center_spec(p1, p2, p3);
            &&& -CENTER_NUM_LIMIT <= cc.0 <= CENTER_NUM_LIMIT
            &&& -CENTER_NUM_LIMIT <= cc.1 <= CENTER_NUM_LIMIT
            &&& 0 <= cc.2 <= DEN_LIMIT
            &&& 0 <= sq(p1.x * cc.2 - cc.0) + sq(p1.y * cc.2 - cc.1) <= RADIUS_SQ_LIMIT
        }),
{
    let dx1 = p2.x - p1.x as int;
    let dy1 = p2.y - p1.y as int;
    let dx2 = p3.x - p2.x as int;
    let dy2 = p3.y - p2.y as int;
    let b1 = p2.x * p2.x + p2.y * p2.y - p1.x * p1.x - p1.y * p1.y;
    let b2 = p3.x * p3.x + p3.y * p3.y - p2.x * p2.x - p2.y * p2.y;
    arith::lemma_sq_bounds(p1.x as int, 0x4000);
    arith::lemma_sq_bounds(p1.y as int, 0x4000);
    arith::lemma_sq_bounds(p2.x as int, 0x4000);
    arith::lemma_sq_bounds(p2.y as int, 0x4000);
    arith::lemma_sq_bounds(p3.x as int, 0x4000);
    arith::lemma_sq_bounds(p3.y as int, 0x4000);
    arith::lemma_mul_bounds(dx1, dy2, 0x8000, 0x8000);
    arith::lemma_mul_bounds(dy1, dx2, 0x8000, 0x8000);
    arith::lemma_mul_bounds(b1, dy2, 0x20000000, 0x8000);
    arith::lemma_mul_bounds(b2, dy1, 0x20000000, 0x8000);
    arith::lemma_mul_bounds(b2, dx1, 0x20000000, 0x8000);
    arith::lemma_mul_bounds(b1, dx2, 0x20000000, 0x8000);
    let cc = circle_center_spec(p1, p2, p3);
    arith::lemma_mul_bounds(p1.x as int, cc.2, 0x4000, 0x1_0000_0000);
    arith::lemma_mul_bounds(p1.y as int, cc.2, 0x4000, 0x1_0000_0000);
    arith::lemma_sq_bounds(p1.x * cc.2 - cc.0, 0x8000_0000_0000);
    arith::lemma_sq_bounds(p1.y * cc.2 - cc.1, 0x8000_0000_0000);
}

/// `circle_spec` of three non-collinear in-bounds points is a well-formed,
/// bounded circle through all three.
pub proof fn lemma_circle_spec_equidistant(p1: Point2, p2: Point2, p3: Point2)
    requires
        !collinear(p1, p2, p3),
        p1.in_bounds(),
        p2.in_bounds(),
        p3.in_bounds(),
    ensures
        circle_spec(p1, p2, p3).wf(),
        circle_spec(p1, p2, p3).bounded(),
        circle_spec(p1, p2, p3).is_circumcircle(p1, p2, p3),
{
    let cc = circle_center_spec(p1, p2, p3);
    let c = circle_spec(p1, p2, p3);
    lemma_cramer(p1, p2, p3);
    lemma_circle_spec_bounds(p1, p2, p3);
    assert(c.center_x_num == cc.0 && c.center_y_num == cc.1 && c.den == cc.2);
    assert(c.radius_sq_num == sq(p1.x * cc.2 - cc.0) + sq(p1.y * cc.2 - cc.1));
    lemma_equidistant_step(
        p1.x as int,
        p1.y as int,
        p2.x as int,
        p2.y as int,
        cc.0,
        cc.1,
        cc.2,
    );
    lemma_equidistant_step(
        p2.x as int,
        p2.y as int,
        p3.x as int,
        p3.y as int,
        cc.0,
        cc.1,
        cc.2,
    );
}

/// Computes the circumcenter of the three points as exact numerators over a
/// positive denominator, or `None` exactly when the points are collinear.
pub fn circle_center(pt1: &Point2, pt2: &Point2, pt3: &Point2) -> (r: Option<(i128, i128, i128)>)
    requires
        pt1.in_bounds(),
        pt2.in_bounds(),
        pt3.in_bounds(),
    ensures
        match r {
            Some(ctr) => {
                let cc = circle_center_spec(*pt1, *pt2, *pt3);
                &&& !collinear(*pt1, *pt2, *pt3)
                &&& ctr.0 == cc.0
                &&& ctr.1 == cc.1
                &&& ctr.2 == cc.2
                &&& 0 < ctr.2 <= DEN_LIMIT
                &&& -CENTER_NUM_LIMIT <= ctr.0 <= CENTER_NUM_LIMIT
                &&& -CENTER_NUM_LIMIT <= ctr.1 <= CENTER_NUM_LIMIT
            },
            None => collinear(*pt1, *pt2, *pt3),
        },
{
    proof {
        lemma_circle_spec_bounds(*pt1, *pt2, *pt3);
    }
    let x1: i128 = pt1.x as i128;
    let y1: i128 = pt1.y as i128;
    let x2: i128 = pt2.x as i128;
    let y2: i128 = pt2.y as i128;
    let x3: i128 = pt3.x as i128;
    let y3: i128 = pt3.y as i128;
    let dx1: i128 = x2 - x1;
    let dy1: i128 = y2 - y1;
    let dx2: i128 = x3 - x2;
    let dy2: i128 = y3 - y2;
    proof {
        arith::lemma_sq_bounds(x1 as int, 0x4000);
        arith::lemma_sq_bounds(y1 as int, 0x4000);
        arith::lemma_sq_bounds(x2 as int, 0x4000);
        arith::lemma_sq_bounds(y2 as int, 0x4000);
        arith::lemma_sq_bounds(x3 as int, 0x4000);
        arith::lemma_sq_bounds(y3 as int, 0x4000);
        arith::lemma_mul_bounds(dx1 as int, dy2 as int, 0x8000, 0x8000);
        arith::lemma_mul_bounds(dy1 as int, dx2 as int, 0x8000, 0x8000);
    }
    let b1: i128 = x2 * x2 + y2 * y2 - x1 * x1 - y1 * y1;
    let b2: i128 = x3 * x3 + y3 * y3 - x2 * x2 - y2 * y2;
    let d0: i128 = dx1 * dy2 - dy1 * dx2;
    if d0 == 0 {
        return None;
    }
    proof {
        arith::lemma_mul_bounds(b1 as int, dy2 as int, 0x20000000, 0x8000);
        arith::lemma_mul_bounds(b2 as int, dy1 as int, 0x20000000, 0x8000);
        arith::lemma_mul_bounds(b2 as int, dx1 as int, 0x20000000, 0x8000);
        arith::lemma_mul_bounds(b1 as int, dx2 as int, 0x20000000, 0x8000);
    }
    let nx: i128 = b1 * dy2 - b2 * dy1;
    let ny: i128 = b2 * dx1 - b1 * dx2;
    if d0 > 0 {
        Some((nx, ny, 2 * d0))
    } else {
        Some((-nx, -ny, -(2 * d0)))
    }
}

/// The strict comparison `sqrt(a) < sqrt(n) + k` for non-negative integers,
/// expressed without square roots: squaring twice gives the equivalent
/// integer condition below.
pub open spec fn sqrt_lt(a: int, n: int, k: int) -> bool {
    let m = a - n - k * k;
    m < 0 || m * m < 4 * (k * k) * n
}

/// The point lies strictly inside the circle dilated by `eps`:
/// `dist(p, center) < radius + eps`.  Scaling the comparison by
/// `den * eps.den` turns it into `sqrt_lt` on integers.
pub open spec fn point_in_dilated_circle(c: Circle, p: Point2, eps: Epsilon) -> bool {
    sqrt_lt(
        c.scaled_sq_dist(p) * (eps.den * eps.den),
        c.radius_sq_num * (eps.den * eps.den),
        eps.num * c.den,
    )
}

/// Decides `dist(p, center) < radius + eps` exactly.
pub fn point_within_dilated(c: &Circle, p: &Point2, eps: Epsilon) -> (r: bool)
    requires
        c.wf(),
        c.bounded(),
        p.in_bounds(),
        eps.wf(),
    ensures
        r == point_in_dilated_circle(*c, *p, eps),
{
    proof {
        arith::lemma_mul_bounds(p.x as int, c.den as int, 0x4000, 0x1_0000_0000);
        arith::lemma_mul_bounds(p.y as int, c.den as int, 0x4000, 0x1_0000_0000);
    }
    let ex: i128 = p.x as i128 * c.den - c.center_x_num;
    let ey: i128 = p.y as i128 * c.den - c.center_y_num;
    proof {
        arith::lemma_sq_bounds(ex as int, 0x8000_0000_0000);
        arith::lemma_sq_bounds(ey as int, 0x8000_0000_0000);
        arith::lemma_sq_bounds(eps.den as int, 0x400);
    }
    let a: i128 = ex * ex + ey * ey;
    let q: i128 = eps.den as i128 * eps.den as i128;
    proof {
        arith::lemma_mul_bounds(
            a as int,
            q as int,
            0x1_0000_0000_0000_0000_0000_0000,
            0x100000,
        );
        arith::lemma_mul_bounds(
            c.radius_sq_num as int,
            q as int,
            0x8000_0000_0000_0000_0000_0000,
            0x100000,
        );
        arith::lemma_mul_bounds(eps.num as int, c.den as int, 0x1000000, 0x1_0000_0000);
    }
    let ascaled: i128 = a * q;
    let nscaled: i128 = c.radius_sq_num * q;
    let k: i128 = eps.num as i128 * c.den;
    proof {
        arith::lemma_mul_bounds(k as int, k as int, 0x100_0000_0000_0000, 0x100_0000_0000_0000);
        assert(nscaled >= 0) by (nonlinear_arith)
            requires
                c.radius_sq_num >= 0 && q >= 0 && nscaled == c.radius_sq_num * q,
        ;
        assert(ascaled == c.scaled_sq_dist(*p) * (eps.den * eps.den) && nscaled
            == c.radius_sq_num * (eps.den * eps.den) && k == eps.num * c.den);
    }
    let m: i128 = ascaled - nscaled - k * k;
    if m < 0 {
        true
    } else {
        arith::prod_lt(m, m, 4 * (k * k), nscaled)
    }
}

/// The exact ordering of two circle radii: `radius(a) < radius(b)`, decided
/// on the scaled squares (`sqrt` is monotone on non-negative values).
pub open spec fn radius_lt_spec(a: Circle, b: Circle) -> bool {
    a.radius_sq_num * (b.den * b.den) < b.radius_sq_num * (a.den * a.den)
}

/// Decides `radius(a) < radius(b)` exactly.
pub fn radius_lt(a: &Circle, b: &Circle) -> (r: bool)
    requires
        a.wf(),
        a.bounded(),
        b.wf(),
        b.bounded(),
    ensures
        r == radius_lt_spec(*a, *b),
{
    proof {
        arith::lemma_mul_bounds(a.den as int, a.den as int, 0x1_0000_0000, 0x1_0000_0000);
        arith::lemma_mul_bounds(b.den as int, b.den as int, 0x1_0000_0000, 0x1_0000_0000);
        assert(a.den * a.den >= 0 && b.den * b.den >= 0) by (nonlinear_arith)
            requires
                a.den > 0 && b.den > 0,
        ;
    }
    let ad: i128 = a.den * a.den;
    let bd: i128 = b.den * b.den;
    arith::prod_lt(a.radius_sq_num, bd, b.radius_sq_num, ad)
}

/// The radius ordering is transitive: comparisons of scaled squares over
/// positive denominators chain.
pub proof fn lemma_radius_lt_trans(a: Circle, b: Circle, c: Circle)
    requires
        a.den > 0,
        b.den > 0,
        c.den > 0,
        radius_lt_spec(a, b),
        radius_lt_spec(b, c),
    ensures
        radius_lt_spec(a, c),
{
    let na = a.radius_sq_num as int;
    let nb = b.radius_sq_num as int;
    let nc = c.radius_sq_num as int;
    let da = (a.den * a.den) as int;
    let db = (b.den * b.den) as int;
    let dc = (c.den * c.den) as int;
    assert(da > 0 && db > 0 && dc > 0) by (nonlinear_arith)
        requires
            a.den > 0 && b.den > 0 && c.den > 0 && da == a.den * a.den && db == b.den * b.den
                && dc == c.den * c.den,
    ;
    assert((na * db) * dc < (nb * da) * dc) by (nonlinear_arith)
        requires
            na * db < nb * da && dc > 0,
    ;
    assert((nb * dc) * da < (nc * db) * da) by (nonlinear_arith)
        requires
            nb * dc < nc * db && da > 0,
    ;
    assert((nb * da) * dc == (nb * dc) * da) by (nonlinear_arith);
    assert((na * db) * dc == (na * dc) * db) by (nonlinear_arith);
    assert((nc * db) * da == (nc * da) * db) by (nonlinear_arith);
    assert((na * dc) * db < (nc * da) * db);
    assert(na * dc < nc * da) by (nonlinear_arith)
        requires
            (na * dc) * db < (nc * da) * db && db > 0,
    ;
}

/// At a coverage distance exactly equal to `radius + epsilon` the strict
/// comparison rejects the point: when `sqrt(a) == sqrt(n) + k` exactly
/// (witnessed by the integer square root `s` of `n`), `sqrt_lt(a, n, k)`
/// is false.
pub proof fn lemma_at_exact_distance_not_within(a: int, n: int, k: int, s: int)
    requires
        s >= 0,
        k >= 0,
        s * s == n,
        a == n + k * k + 2 * (k * s),
    ensures
        !sqrt_lt(a, n, k),
{
    let m = a - n - k * k;
    assert(m == 2 * (k * s));
    assert(m >= 0) by (nonlinear_arith)
        requires
            k >= 0 && s >= 0 && m == 2 * (k * s),
    ;
    assert(m * m == 4 * (k * k) * (s * s)) by (nonlinear_arith)
        requires
            m == 2 * (k * s),
    ;
}


/// The four points lie in one plane (degenerate circumsphere), including
/// duplicated points: the determinant of their difference vectors is zero.
pub open spec fn coplanar(p1: Point3, p2: Point3, p3: Point3, p4: Point3) -> bool {
    sphere_det(p1, p2, p3, p4) == 0
}

/// The determinant of the three difference vectors of four points.
pub open spec fn sphere_det(p1: Point3, p2: Point3, p3: Point3, p4: Point3) -> int {
    let d1x = p2.x - p1.x;
    let d1y = p2.y - p1.y;
    let d1z = p2.z - p1.z;
    let d2x = p3.x - p2.x;
    let d2y = p3.y - p2.y;
    let d2z = p3.z - p2.z;
    let d3x = p4.x - p3.x;
    let d3y = p4.y - p3.y;
    let d3z = p4.z - p3.z;
    d1x * (d2y * d3z - d2z * d3y) - d1y * (d2x * d3z - d2z * d3x) + d1z * (d2x * d3y - d2y * d3x)
}

/// The circumcenter of four points as `(x, y, z numerators, denominator)`
/// by Cramer's rule on the three equal-distance equations, denominator
/// normalized positive.  Meaningful only when the points are not coplanar.
pub open spec fn sphere_center_spec(p1: Point3, p2: Point3, p3: Point3, p4: Point3) -> (
    int,
    int,
    int,
    int,
) {
    let d1x = p2.x - p1.x;
    let d1y = p2.y - p1.y;
    let d1z = p2.z - p1.z;
    let d2x = p3.x - p2.x;
    let d2y = p3.y - p2.y;
    let d2z = p3.z - p2.z;
    let d3x = p4.x - p3.x;
    let d3y = p4.y - p3.y;
    let d3z = p4.z - p3.z;
    let b1 = p2.x * p2.x + p2.y * p2.y + p2.z * p2.z - p1.x * p1.x - p1.y * p1.y - p1.z * p1.z;
    let b2 = p3.x * p3.x + p3.y * p3.y + p3.z * p3.z - p2.x * p2.x - p2.y * p2.y - p2.z * p2.z;
    let b3 = p4.x * p4.x + p4.y * p4.y + p4.z * p4.z - p3.x * p3.x - p3.y * p3.y - p3.z * p3.z;
    let m1 = d2y * d3z - d2z * d3y;
    let m2 = d2x * d3z - d2z * d3x;
    let m3 = d2x * d3y - d2y * d3x;
    let n1 = b2 * d3z - b3 * d2z;
    let n2 = b2 * d3y - b3 * d2y;
    let n3 = d2x * b3 - d3x * b2;
    let det = d1x * m1 - d1y * m2 + d1z * m3;
    let nx = b1 * m1 - d1y * n1 + d1z * n2;
    let ny = d1x * n1 - b1 * m2 + d1z * n3;
    let nz = -(d1x * n2) - d1y * n3 + b1 * m3;
    if det > 0 {
        (nx, ny, nz, 2 * det)
    } else {
        (-nx, -ny, -nz, -(2 * det))
    }
}

/// Cramer's rule for the first row: an identity over the cofactor values.
proof fn lemma_cramer3_row1(
    d1x: int,
    d1y: int,
    d1z: int,
    b1: int,
    m1: int,
    m2: int,
    m3: int,
    n1: int,
    n2: int,
    n3: int,
)
    ensures
        d1x * (b1 * m1 - d1y * n1 + d1z * n2) + d1y * (d1x * n1 - b1 * m2 + d1z * n3) + d1z * (-(
        d1x * n2) - d1y * n3 + b1 * m3) == b1 * (d1x * m1 - d1y * m2 + d1z * m3),
{
    assert(d1x * (b1 * m1 - d1y * n1 + d1z * n2) == d1x * (b1 * m1) - d1x * (d1y * n1) + d1x * (
    d1z * n2)) by (nonlinear_arith);
    assert(d1y * (d1x * n1 - b1 * m2 + d1z * n3) == d1y * (d1x * n1) - d1y * (b1 * m2) + d1y * (
    d1z * n3)) by (nonlinear_arith);
    assert(d1z * (-(d1x * n2) - d1y * n3 + b1 * m3) == -(d1z * (d1x * n2)) - d1z * (d1y * n3)
        + d1z * (b1 * m3)) by (nonlinear_arith);
    assert(d1x * (d1y * n1) == d1y * (d1x * n1)) by (nonlinear_arith);
    assert(d1x * (d1z * n2) == d1z * (d1x * n2)) by (nonlinear_arith);
    assert(d1y * (d1z * n3) == d1z * (d1y * n3)) by (nonlinear_arith);
    assert(d1x * (b1 * m1) == b1 * (d1x * m1)) by (nonlinear_arith);
    assert(d1y * (b1 * m2) == b1 * (d1y * m2)) by (nonlinear_arith);
    assert(d1z * (b1 * m3) == b1 * (d1z * m3)) by (nonlinear_arith);
    assert(b1 * (d1x * m1 - d1y * m2 + d1z * m3) == b1 * (d1x * m1) - b1 * (d1y * m2) + b1 * (d1z
        * m3)) by (nonlinear_arith);
}

/// Cramer's rule for a repeated row: dotting the candidate numerators
/// with one of the cofactor-defining rows gives that row's right-hand
/// side times the determinant.
#[verifier::rlimit(30)]
proof fn lemma_cramer3_row_other(
    d1x: int,
    d1y: int,
    d1z: int,
    b1: int,
    rx: int,
    ry: int,
    rz: int,
    br: int,
    d2x: int,
    d2y: int,
    d2z: int,
    d3x: int,
    d3y: int,
    d3z: int,
    b2: int,
    b3: int,
    m1: int,
    m2: int,
    m3: int,
    n1: int,
    n2: int,
    n3: int,
)
    requires
        m1 == d2y * d3z - d2z * d3y,
        m2 == d2x * d3z - d2z * d3x,
        m3 == d2x * d3y - d2y * d3x,
        n1 == b2 * d3z - b3 * d2z,
        n2 == b2 * d3y - b3 * d2y,
        n3 == d2x * b3 - d3x * b2,
        rx * m1 - ry * m2 + rz * m3 == 0,
        ry * n1 - rz * n2 == br * m1,
        -(rx * n1) - rz * n3 == -(br * m2),
        rx * n2 + ry * n3 == br * m3,
    ensures
        rx * (b1 * m1 - d1y * n1 + d1z * n2) + ry * (d1x * n1 - b1 * m2 + d1z * n3) + rz * (-(d1x
            * n2) - d1y * n3 + b1 * m3) == br * (d1x * m1 - d1y * m2 + d1z * m3),
{
    assert(rx * (b1 * m1 - d1y * n1 + d1z * n2) == rx * (b1 * m1) - rx * (d1y * n1) + rx * (d1z
        * n2)) by (nonlinear_arith);
    assert(ry * (d1x * n1 - b1 * m2 + d1z * n3) == ry * (d1x * n1) - ry * (b1 * m2) + ry * (d1z
        * n3)) by (nonlinear_arith);
    assert(rz * (-(d1x * n2) - d1y * n3 + b1 * m3) == -(rz * (d1x * n2)) - rz * (d1y * n3) + rz * (
    b1 * m3)) by (nonlinear_arith);
    assert(rx * (b1 * m1) == b1 * (rx * m1)) by (nonlinear_arith);
    assert(ry * (b1 * m2) == b1 * (ry * m2)) by (nonlinear_arith);
    assert(rz * (b1 * m3) == b1 * (rz * m3)) by (nonlinear_arith);
    assert(rx * (d1y * n1) == d1y * (rx * n1)) by (nonlinear_arith);
    assert(rx * (d1z * n2) == d1z * (rx * n2)) by (nonlinear_arith);
    assert(ry * (d1x * n1) == d1x * (ry * n1)) by (nonlinear_arith);
    assert(ry * (d1z * n3) == d1z * (ry * n3)) by (nonlinear_arith);
    assert(rz * (d1x * n2) == d1x * (rz * n2)) by (nonlinear_arith);
    assert(rz * (d1y * n3) == d1y * (rz * n3)) by (nonlinear_arith);
    assert(b1 * (rx * m1 - ry * m2 + rz * m3) == b1 * (rx * m1) - b1 * (ry * m2) + b1 * (rz
        * m3)) by (nonlinear_arith);
    assert(d1x * (ry * n1 - rz * n2) == d1x * (ry * n1) - d1x * (rz * n2)) by (nonlinear_arith);
    assert(d1y * (-(rx * n1) - rz * n3) == -(d1y * (rx * n1)) - d1y * (rz * n3)) by (nonlinear_arith);
    assert(d1z * (rx * n2 + ry * n3) == d1z * (rx * n2) + d1z * (ry * n3)) by (nonlinear_arith);
    assert(rx * (b1 * m1 - d1y * n1 + d1z * n2) + ry * (d1x * n1 - b1 * m2 + d1z * n3) + rz * (-(
    d1x * n2) - d1y * n3 + b1 * m3) == b1 * (rx * m1 - ry * m2 + rz * m3) + d1x * (ry * n1 - rz
        * n2) + d1y * (-(rx * n1) - rz * n3) + d1z * (rx * n2 + ry * n3));
    assert(b1 * (rx * m1 - ry * m2 + rz * m3) == 0);
    assert(d1x * (ry * n1 - rz * n2) == d1x * (br * m1)) by (nonlinear_arith)
        requires
            ry * n1 - rz * n2 == br * m1,
    ;
    assert(d1y * (-(rx * n1) - rz * n3) == d1y * (-(br * m2))) by (nonlinear_arith)
        requires
            -(rx * n1) - rz * n3 == -(br * m2),
    ;
    assert(d1z * (rx * n2 + ry * n3) == d1z * (br * m3)) by (nonlinear_arith)
        requires
            rx * n2 + ry * n3 == br * m3,
    ;
    assert(d1y * (-(br * m2)) == -(d1y * (br * m2))) by (nonlinear_arith);
    assert(d1x * (br * m1) == br * (d1x * m1)) by (nonlinear_arith);
    assert(d1y * (br * m2) == br * (d1y * m2)) by (nonlinear_arith);
    assert(d1z * (br * m3) == br * (d1z * m3)) by (nonlinear_arith);
    assert(br * (d1x * m1 - d1y * m2 + d1z * m3) == br * (d1x * m1) - br * (d1y * m2) + br * (d1z
        * m3)) by (nonlinear_arith);
}

/// The four auxiliary cofactor facts used by the repeated-row lemma, for
/// the row `(rx, ry, rz)` being either of the cofactor-defining rows.
#[verifier::rlimit(30)]
proof fn lemma_cramer3_row_facts(
    d2x: int,
    d2y: int,
    d2z: int,
    d3x: int,
    d3y: int,
    d3z: int,
    b2: int,
    b3: int,
)
    ensures
        d2x * (d2y * d3z - d2z * d3y) - d2y * (d2x * d3z - d2z * d3x) + d2z * (d2x * d3y - d2y
            * d3x) == 0,
        d2y * (b2 * d3z - b3 * d2z) - d2z * (b2 * d3y - b3 * d2y) == b2 * (d2y * d3z - d2z * d3y),
        -(d2x * (b2 * d3z - b3 * d2z)) - d2z * (d2x * b3 - d3x * b2) == -(b2 * (d2x * d3z - d2z
            * d3x)),
        d2x * (b2 * d3y - b3 * d2y) + d2y * (d2x * b3 - d3x * b2) == b2 * (d2x * d3y - d2y * d3x),
        d3x * (d2y * d3z - d2z * d3y) - d3y * (d2x * d3z - d2z * d3x) + d3z * (d2x * d3y - d2y
            * d3x) == 0,
        d3y * (b2 * d3z - b3 * d2z) - d3z * (b2 * d3y - b3 * d2y) == b3 * (d2y * d3z - d2z * d3y),
        -(d3x * (b2 * d3z - b3 * d2z)) - d3z * (d2x * b3 - d3x * b2) == -(b3 * (d2x * d3z - d2z
            * d3x)),
        d3x * (b2 * d3y - b3 * d2y) + d3y * (d2x * b3 - d3x * b2) == b3 * (d2x * d3y - d2y * d3x),
{
    assert(d2x * (d2y * d3z - d2z * d3y) - d2y * (d2x * d3z - d2z * d3x) + d2z * (d2x * d3y - d2y
        * d3x) == 0) by (nonlinear_arith);
    assert(d2y * (b2 * d3z - b3 * d2z) - d2z * (b2 * d3y - b3 * d2y) == b2 * (d2y * d3z - d2z
        * d3y)) by (nonlinear_arith);
    assert(-(d2x * (b2 * d3z - b3 * d2z)) - d2z * (d2x * b3 - d3x * b2) == -(b2 * (d2x * d3z - d2z
        * d3x))) by (nonlinear_arith);
    assert(d2x * (b2 * d3y - b3 * d2y) + d2y * (d2x * b3 - d3x * b2) == b2 * (d2x * d3y - d2y
        * d3x)) by (nonlinear_arith);
    assert(d3x * (d2y * d3z - d2z * d3y) - d3y * (d2x * d3z - d2z * d3x) + d3z * (d2x * d3y - d2y
        * d3x) == 0) by (nonlinear_arith);
    assert(d3y * (b2 * d3z - b3 * d2z) - d3z * (b2 * d3y - b3 * d2y) == b3 * (d2y * d3z - d2z
        * d3y)) by (nonlinear_arith);
    assert(-(d3x * (b2 * d3z - b3 * d2z)) - d3z * (d2x * b3 - d3x * b2) == -(b3 * (d2x * d3z - d2z
        * d3x))) by (nonlinear_arith);
    assert(d3x * (b2 * d3y - b3 * d2y) + d3y * (d2x * b3 - d3x * b2) == b3 * (d2x * d3y - d2y
        * d3x)) by (nonlinear_arith);
}

/// The equal-distance transfer in three dimensions: a pair of points
/// whose equal-distance identity the center satisfies lies at one scaled
/// squared distance from it.
proof fn lemma_equidistant_step3(
    xa: int,
    ya: int,
    za: int,
    xb: int,
    yb: int,
    zb: int,
    nx: int,
    ny: int,
    nz: int,
    den: int,
)
    requires
        2 * (xb - xa) * nx + 2 * (yb - ya) * ny + 2 * (zb - za) * nz == (xb * xb + yb * yb + zb
            * zb - xa * xa - ya * ya - za * za) * den,
    ensures
        sq(xa * den - nx) + sq(ya * den - ny) + sq(za * den - nz) == sq(xb * den - nx) + sq(
            yb * den - ny,
        ) + sq(zb * den - nz),
{
    let b = xb * xb + yb * yb + zb * zb - xa * xa - ya * ya - za * za;
    lemma_sq_diff_expand(xa, xb, nx, den);
    lemma_sq_diff_expand(ya, yb, ny, den);
    lemma_sq_diff_expand(za, zb, nz, den);
    assert((xb * xb - xa * xa) * (den * den) + (yb * yb - ya * ya) * (den * den) + (zb * zb - za
        * za) * (den * den) == b * (den * den)) by (nonlinear_arith)
        requires
            b == xb * xb + yb * yb + zb * zb - xa * xa - ya * ya - za * za,
    ;
    assert((2 * (xb - xa) * nx) * den + (2 * (yb - ya) * ny) * den + (2 * (zb - za) * nz) * den == (
    2 * (xb - xa) * nx + 2 * (yb - ya) * ny + 2 * (zb - za) * nz) * den) by (nonlinear_arith);
    assert((2 * (xb - xa) * nx + 2 * (yb - ya) * ny + 2 * (zb - za) * nz) * den == (b * den)
        * den) by (nonlinear_arith)
        requires
            2 * (xb - xa) * nx + 2 * (yb - ya) * ny + 2 * (zb - za) * nz == b * den,
    ;
    assert((b * den) * den == b * (den * den)) by (nonlinear_arith);
}

/// The three Cramer identities hold of `sphere_center_spec`, with a
/// positive denominator, whenever the points are not coplanar.
proof fn lemma_cramer3(p1: Point3, p2: Point3, p3: Point3, p4: Point3)
    requires
        !coplanar(p1, p2, p3, p4),
    ensures
        ({
            let cc = sphere_center_spec(p1, p2, p3, p4);
            &&& cc.3 > 0
            &&& 2 * (p2.x - p1.x) * cc.0 + 2 * (p2.y - p1.y) * cc.1 + 2 * (p2.z - p1.z) * cc.2 == (
            p2.x * p2.x + p2.y * p2.y + p2.z * p2.z - p1.x * p1.x - p1.y * p1.y - p1.z * p1.z)
                * cc.3
            &&& 2 * (p3.x - p2.x) * cc.0 + 2 * (p3.y - p2.y) * cc.1 + 2 * (p3.z - p2.z) * cc.2 == (
            p3.x * p3.x + p3.y * p3.y + p3.z * p3.z - p2.x * p2.x - p2.y * p2.y - p2.z * p2.z)
                * cc.3
            &&& 2 * (p4.x - p3.x) * cc.0 + 2 * (p4.y - p3.y) * cc.1 + 2 * (p4.z - p3.z) * cc.2 == (
            p4.x * p4.x + p4.y * p4.y + p4.z * p4.z - p3.x * p3.x - p3.y * p3.y - p3.z * p3.z)
                * cc.3
        }),
{
    let d1x = p2.x - p1.x as int;
    let d1y = p2.y - p1.y as int;
    let d1z = p2.z - p1.z as int;
    let d2x = p3.x - p2.x as int;
    let d2y = p3.y - p2.y as int;
    let d2z = p3.z - p2.z as int;
    let d3x = p4.x - p3.x as int;
    let d3y = p4.y - p3.y as int;
    let d3z = p4.z - p3.z as int;
    let b1 = p2.x * p2.x + p2.y * p2.y + p2.z * p2.z - p1.x * p1.x - p1.y * p1.y - p1.z * p1.z;
    let b2 = p3.x * p3.x + p3.y * p3.y + p3.z * p3.z - p2.x * p2.x - p2.y * p2.y - p2.z * p2.z;
    let b3 = p4.x * p4.x + p4.y * p4.y + p4.z * p4.z - p3.x * p3.x - p3.y * p3.y - p3.z * p3.z;
    let m1 = d2y * d3z - d2z * d3y;
    let m2 = d2x * d3z - d2z * d3x;
    let m3 = d2x * d3y - d2y * d3x;
    let n1 = b2 * d3z - b3 * d2z;
    let n2 = b2 * d3y - b3 * d2y;
    let n3 = d2x * b3 - d3x * b2;
    lemma_cramer3_row1(d1x, d1y, d1z, b1, m1, m2, m3, n1, n2, n3);
    lemma_cramer3_row_facts(d2x, d2y, d2z, d3x, d3y, d3z, b2, b3);
    lemma_cramer3_row_other(
        d1x, d1y, d1z, b1, d2x, d2y, d2z, b2, d2x, d2y, d2z, d3x, d3y, d3z, b2, b3, m1, m2, m3,
        n1, n2, n3,
    );
    lemma_cramer3_row_other(
        d1x, d1y, d1z, b1, d3x, d3y, d3z, b3, d2x, d2y, d2z, d3x, d3y, d3z, b2, b3, m1, m2, m3,
        n1, n2, n3,
    );
    let det = d1x * m1 - d1y * m2 + d1z * m3;
    let nx = b1 * m1 - d1y * n1 + d1z * n2;
    let ny = d1x * n1 - b1 * m2 + d1z * n3;
    let nz = -(d1x * n2) - d1y * n3 + b1 * m3;
    assert(d1x * nx + d1y * ny + d1z * nz == b1 * det);
    assert(d2x * nx + d2y * ny + d2z * nz == b2 * det);
    assert(d3x * nx + d3y * ny + d3z * nz == b3 * det);
    assert(2 * d1x * nx + 2 * d1y * ny + 2 * d1z * nz == b1 * (2 * det)) by (nonlinear_arith)
        requires
            d1x * nx + d1y * ny + d1z * nz == b1 * det,
    ;
    assert(2 * d2x * nx + 2 * d2y * ny + 2 * d2z * nz == b2 * (2 * det)) by (nonlinear_arith)
        requires
            d2x * nx + d2y * ny + d2z * nz == b2 * det,
    ;
    assert(2 * d3x * nx + 2 * d3y * ny + 2 * d3z * nz == b3 * (2 * det)) by (nonlinear_arith)
        requires
            d3x * nx + d3y * ny + d3z * nz == b3 * det,
    ;
    if det > 0 {
    } else {
        assert(2 * d1x * (-nx) + 2 * d1y * (-ny) + 2 * d1z * (-nz) == b1 * (-(2 * det)))
            by (nonlinear_arith)
            requires
                2 * d1x * nx + 2 * d1y * ny + 2 * d1z * nz == b1 * (2 * det),
        ;
        assert(2 * d2x * (-nx) + 2 * d2y * (-ny) + 2 * d2z * (-nz) == b2 * (-(2 * det)))
            by (nonlinear_arith)
            requires
                2 * d2x * nx + 2 * d2y * ny + 2 * d2z * nz == b2 * (2 * det),
        ;
        assert(2 * d3x * (-nx) + 2 * d3y * (-ny) + 2 * d3z * (-nz) == b3 * (-(2 * det)))
            by (nonlinear_arith)
            requires
                2 * d3x * nx + 2 * d3y * ny + 2 * d3z * nz == b3 * (2 * det),
        ;
    }
}

/// `sphere_center_spec` of four non-coplanar points is equidistant from
/// all four: the scaled squared distances agree pairwise.
pub proof fn lemma_sphere_spec_equidistant(p1: Point3, p2: Point3, p3: Point3, p4: Point3)
    requires
        !coplanar(p1, p2, p3, p4),
    ensures
        ({
            let cc = sphere_center_spec(p1, p2, p3, p4);
            &&& cc.3 > 0
            &&& sq(p1.x * cc.3 - cc.0) + sq(p1.y * cc.3 - cc.1) + sq(p1.z * cc.3 - cc.2) == sq(
                p2.x * cc.3 - cc.0,
            ) + sq(p2.y * cc.3 - cc.1) + sq(p2.z * cc.3 - cc.2)
            &&& sq(p2.x * cc.3 - cc.0) + sq(p2.y * cc.3 - cc.1) + sq(p2.z * cc.3 - cc.2) == sq(
                p3.x * cc.3 - cc.0,
            ) + sq(p3.y * cc.3 - cc.1) + sq(p3.z * cc.3 - cc.2)
            &&& sq(p3.x * cc.3 - cc.0) + sq(p3.y * cc.3 - cc.1) + sq(p3.z * cc.3 - cc.2) == sq(
                p4.x * cc.3 - cc.0,
            ) + sq(p4.y * cc.3 - cc.1) + sq(p4.z * cc.3 - cc.2)
        }),
{
    let cc = sphere_center_spec(p1, p2, p3, p4);
    lemma_cramer3(p1, p2, p3, p4);
    lemma_equidistant_step3(
        p1.x as int,
        p1.y as int,
        p1.z as int,
        p2.x as int,
        p2.y as int,
        p2.z as int,
        cc.0,
        cc.1,
        cc.2,
        cc.3,
    );
    lemma_equidistant_step3(
        p2.x as int,
        p2.y as int,
        p2.z as int,
        p3.x as int,
        p3.y as int,
        p3.z as int,
        cc.0,
        cc.1,
        cc.2,
        cc.3,
    );
    lemma_equidistant_step3(
        p3.x as int,
        p3.y as int,
        p3.z as int,
        p4.x as int,
        p4.y as int,
        p4.z as int,
        cc.0,
        cc.1,
        cc.2,
        cc.3,
    );
}


/// The sphere through the four points: the circumcenter together with the
/// scaled squared distance from it to the first point.
pub open spec fn sphere_spec(p1: Point3, p2: Point3, p3: Point3, p4: Point3) -> Sphere {
    let cc = sphere_center_spec(p1, p2, p3, p4);
    Sphere {
        center_x_num: cc.0 as i128,
        center_y_num: cc.1 as i128,
        center_z_num: cc.2 as i128,
        den: cc.3 as i128,
        radius_sq_num: (sq(p1.x * cc.3 - cc.0) + sq(p1.y * cc.3 - cc.1) + sq(
            p1.z * cc.3 - cc.2,
        )) as i128,
    }
}

/// Bounds on the components of `sphere_center_spec` for in-bounds points.
proof fn lemma_sphere_spec_bounds(p1: Point3, p2: Point3, p3: Point3, p4: Point3)
    requires
        p1.in_bounds(),
        p2.in_bounds(),
        p3.in_bounds(),
        p4.in_bounds(),
    ensures
        ({
            let cc = sphere_center_spec(p1, p2, p3, p4);
            &&& -0x1_0000_0000_0000 <= cc.0 <= 0x1_0000_0000_0000
            &&& -0x1_0000_0000_0000 <= cc.1 <= 0x1_0000_0000_0000
            &&& -0x1_0000_0000_0000 <= cc.2 <= 0x1_0000_0000_0000
            &&& 0 <= cc.3 <= 0x40_0000_0000
        }),
{
    let d1x = p2.x - p1.x as int;
    let d1y = p2.y - p1.y as int;
    let d1z = p2.z - p1.z as int;
    let d2x = p3.x - p2.x as int;
    let d2y = p3.y - p2.y as int;
    let d2z = p3.z - p2.z as int;
    let d3x = p4.x - p3.x as int;
    let d3y = p4.y - p3.y as int;
    let d3z = p4.z - p3.z as int;
    let b1 = p2.x * p2.x + p2.y * p2.y + p2.z * p2.z - p1.x * p1.x - p1.y * p1.y - p1.z * p1.z;
    let b2 = p3.x * p3.x + p3.y * p3.y + p3.z * p3.z - p2.x * p2.x - p2.y * p2.y - p2.z * p2.z;
    let b3 = p4.x * p4.x + p4.y * p4.y + p4.z * p4.z - p3.x * p3.x - p3.y * p3.y - p3.z * p3.z;
    arith::lemma_sq_bounds(p1.x as int, 0x400);
    arith::lemma_sq_bounds(p1.y as int, 0x400);
    arith::lemma_sq_bounds(p1.z as int, 0x400);
    arith::lemma_sq_bounds(p2.x as int, 0x400);
    arith::lemma_sq_bounds(p2.y as int, 0x400);
    arith::lemma_sq_bounds(p2.z as int, 0x400);
    arith::lemma_sq_bounds(p3.x as int, 0x400);
    arith::lemma_sq_bounds(p3.y as int, 0x400);
    arith::lemma_sq_bounds(p3.z as int, 0x400);
    arith::lemma_sq_bounds(p4.x as int, 0x400);
    arith::lemma_sq_bounds(p4.y as int, 0x400);
    arith::lemma_sq_bounds(p4.z as int, 0x400);
    arith::lemma_mul_bounds(d2y, d3z, 0x800, 0x800);
    arith::lemma_mul_bounds(d2z, d3y, 0x800, 0x800);
    arith::lemma_mul_bounds(d2x, d3z, 0x800, 0x800);
    arith::lemma_mul_bounds(d2z, d3x, 0x800, 0x800);
    arith::lemma_mul_bounds(d2x, d3y, 0x800, 0x800);
    arith::lemma_mul_bounds(d2y, d3x, 0x800, 0x800);
    arith::lemma_mul_bounds(b2, d3z, 0x400000, 0x800);
    arith::lemma_mul_bounds(b3, d2z, 0x400000, 0x800);
    arith::lemma_mul_bounds(b2, d3y, 0x400000, 0x800);
    arith::lemma_mul_bounds(b3, d2y, 0x400000, 0x800);
    arith::lemma_mul_bounds(d2x, b3, 0x800, 0x400000);
    arith::lemma_mul_bounds(d3x, b2, 0x800, 0x400000);
    let m1 = d2y * d3z - d2z * d3y;
    let m2 = d2x * d3z - d2z * d3x;
    let m3 = d2x * d3y - d2y * d3x;
    let n1 = b2 * d3z - b3 * d2z;
    let n2 = b2 * d3y - b3 * d2y;
    let n3 = d2x * b3 - d3x * b2;
    arith::lemma_mul_bounds(d1x, m1, 0x800, 0x800000);
    arith::lemma_mul_bounds(d1y, m2, 0x800, 0x800000);
    arith::lemma_mul_bounds(d1z, m3, 0x800, 0x800000);
    arith::lemma_mul_bounds(b1, m1, 0x400000, 0x800000);
    arith::lemma_mul_bounds(b1, m2, 0x400000, 0x800000);
    arith::lemma_mul_bounds(b1, m3, 0x400000, 0x800000);
    arith::lemma_mul_bounds(d1x, n1, 0x800, 0x4_0000_0000);
    arith::lemma_mul_bounds(d1x, n2, 0x800, 0x4_0000_0000);
    arith::lemma_mul_bounds(d1y, n1, 0x800, 0x4_0000_0000);
    arith::lemma_mul_bounds(d1y, n3, 0x800, 0x4_0000_0000);
    arith::lemma_mul_bounds(d1z, n2, 0x800, 0x4_0000_0000);
    arith::lemma_mul_bounds(d1z, n3, 0x800, 0x4_0000_0000);
}

/// Computes the circumcenter of the four points as exact numerators over
/// a positive denominator, or `None` exactly when the points are
/// coplanar.
pub fn sphere_center(pt1: &Point3, pt2: &Point3, pt3: &Point3, pt4: &Point3) -> (r: Option<
    (i128, i128, i128, i128),
>)
    requires
        pt1.in_bounds(),
        pt2.in_bounds(),
        pt3.in_bounds(),
        pt4.in_bounds(),
    ensures
        match r {
            Some(ctr) => {
                let cc = sphere_center_spec(*pt1, *pt2, *pt3, *pt4);
                &&& !coplanar(*pt1, *pt2, *pt3, *pt4)
                &&& ctr.0 == cc.0
                &&& ctr.1 == cc.1
                &&& ctr.2 == cc.2
                &&& ctr.3 == cc.3
                &&& 0 < ctr.3 <= 0x40_0000_0000
                &&& -0x1_0000_0000_0000 <= ctr.0 <= 0x1_0000_0000_0000
                &&& -0x1_0000_0000_0000 <= ctr.1 <= 0x1_0000_0000_0000
                &&& -0x1_0000_0000_0000 <= ctr.2 <= 0x1_0000_0000_0000
            },
            None => coplanar(*pt1, *pt2, *pt3, *pt4),
        },
{
    proof {
        lemma_sphere_spec_bounds(*pt1, *pt2, *pt3, *pt4);
    }
    let x1: i128 = pt1.x as i128;
    let y1: i128 = pt1.y as i128;
    let z1: i128 = pt1.z as i128;
    let x2: i128 = pt2.x as i128;
    let y2: i128 = pt2.y as i128;
    let z2: i128 = pt2.z as i128;
    let x3: i128 = pt3.x as i128;
    let y3: i128 = pt3.y as i128;
    let z3: i128 = pt3.z as i128;
    let x4: i128 = pt4.x as i128;
    let y4: i128 = pt4.y as i128;
    let z4: i128 = pt4.z as i128;
    let d1x: i128 = x2 - x1;
    let d1y: i128 = y2 - y1;
    let d1z: i128 = z2 - z1;
    let d2x: i128 = x3 - x2;
    let d2y: i128 = y3 - y2;
    let d2z: i128 = z3 - z2;
    let d3x: i128 = x4 - x3;
    let d3y: i128 = y4 - y3;
    let d3z: i128 = z4 - z3;
    proof {
        arith::lemma_sq_bounds(x1 as int, 0x400);
        arith::lemma_sq_bounds(y1 as int, 0x400);
        arith::lemma_sq_bounds(z1 as int, 0x400);
        arith::lemma_sq_bounds(x2 as int, 0x400);
        arith::lemma_sq_bounds(y2 as int, 0x400);
        arith::lemma_sq_bounds(z2 as int, 0x400);
        arith::lemma_sq_bounds(x3 as int, 0x400);
        arith::lemma_sq_bounds(y3 as int, 0x400);
        arith::lemma_sq_bounds(z3 as int, 0x400);
        arith::lemma_sq_bounds(x4 as int, 0x400);
        arith::lemma_sq_bounds(y4 as int, 0x400);
        arith::lemma_sq_bounds(z4 as int, 0x400);
        arith::lemma_mul_bounds(d2y as int, d3z as int, 0x800, 0x800);
        arith::lemma_mul_bounds(d2z as int, d3y as int, 0x800, 0x800);
        arith::lemma_mul_bounds(d2x as int, d3z as int, 0x800, 0x800);
        arith::lemma_mul_bounds(d2z as int, d3x as int, 0x800, 0x800);
        arith::lemma_mul_bounds(d2x as int, d3y as int, 0x800, 0x800);
        arith::lemma_mul_bounds(d2y as int, d3x as int, 0x800, 0x800);
    }
    let b1: i128 = x2 * x2 + y2 * y2 + z2 * z2 - x1 * x1 - y1 * y1 - z1 * z1;
    let b2: i128 = x3 * x3 + y3 * y3 + z3 * z3 - x2 * x2 - y2 * y2 - z2 * z2;
    let b3: i128 = x4 * x4 + y4 * y4 + z4 * z4 - x3 * x3 - y3 * y3 - z3 * z3;
    let m1: i128 = d2y * d3z - d2z * d3y;
    let m2: i128 = d2x * d3z - d2z * d3x;
    let m3: i128 = d2x * d3y - d2y * d3x;
    proof {
        arith::lemma_mul_bounds(b2 as int, d3z as int, 0x400000, 0x800);
        arith::lemma_mul_bounds(b3 as int, d2z as int, 0x400000, 0x800);
        arith::lemma_mul_bounds(b2 as int, d3y as int, 0x400000, 0x800);
        arith::lemma_mul_bounds(b3 as int, d2y as int, 0x400000, 0x800);
        arith::lemma_mul_bounds(d2x as int, b3 as int, 0x800, 0x400000);
        arith::lemma_mul_bounds(d3x as int, b2 as int, 0x800, 0x400000);
        arith::lemma_mul_bounds(d1x as int, m1 as int, 0x800, 0x800000);
        arith::lemma_mul_bounds(d1y as int, m2 as int, 0x800, 0x800000);
        arith::lemma_mul_bounds(d1z as int, m3 as int, 0x800, 0x800000);
    }
    let n1: i128 = b2 * d3z - b3 * d2z;
    let n2: i128 = b2 * d3y - b3 * d2y;
    let n3: i128 = d2x * b3 - d3x * b2;
    let det: i128 = d1x * m1 - d1y * m2 + d1z * m3;
    if det == 0 {
        return None;
    }
    proof {
        arith::lemma_mul_bounds(b1 as int, m1 as int, 0x400000, 0x800000);
        arith::lemma_mul_bounds(b1 as int, m2 as int, 0x400000, 0x800000);
        arith::lemma_mul_bounds(b1 as int, m3 as int, 0x400000, 0x800000);
        arith::lemma_mul_bounds(d1x as int, n1 as int, 0x800, 0x4_0000_0000);
        arith::lemma_mul_bounds(d1x as int, n2 as int, 0x800, 0x4_0000_0000);
        arith::lemma_mul_bounds(d1y as int, n1 as int, 0x800, 0x4_0000_0000);
        arith::lemma_mul_bounds(d1y as int, n3 as int, 0x800, 0x4_0000_0000);
        arith::lemma_mul_bounds(d1z as int, n2 as int, 0x800, 0x4_0000_0000);
        arith::lemma_mul_bounds(d1z as int, n3 as int, 0x800, 0x4_0000_0000);
    }
    let nx: i128 = b1 * m1 - d1y * n1 + d1z * n2;
    let ny: i128 = d1x * n1 - b1 * m2 + d1z * n3;
    let nz: i128 = -(d1x * n2) - d1y * n3 + b1 * m3;
    if det > 0 {
        Some((nx, ny, nz, 2 * det))
    } else {
        Some((-nx, -ny, -nz, -(2 * det)))
    }
}


/// Scaling a square-root comparison by a positive factor does not change
/// it: `sqrt(a) < sqrt(n) + k` iff `sqrt(a t^2) < sqrt(n t^2) + k t`.
proof fn lemma_sqrt_lt_scale(a: int, n: int, k: int, t: int)
    requires
        t > 0,
    ensures
        sqrt_lt(a, n, k) <==> sqrt_lt(a * (t * t), n * (t * t), k * t),
{
    let m = a - n - k * k;
    let t2 = t * t;
    let ms = a * t2 - n * t2 - (k * t) * (k * t);
    assert(t2 > 0) by (nonlinear_arith)
        requires
            t > 0 && t2 == t * t,
    ;
    assert(ms == m * t2) by (nonlinear_arith)
        requires
            m == a - n - k * k && t2 == t * t && ms == a * t2 - n * t2 - (k * t) * (k * t),
    ;
    assert((m < 0) <==> (ms < 0)) by (nonlinear_arith)
        requires
            ms == m * t2 && t2 > 0,
    ;
    assert(ms * ms == (m * m) * (t2 * t2)) by (nonlinear_arith)
        requires
            ms == m * t2,
    ;
    assert(4 * ((k * t) * (k * t)) * (n * t2) == (4 * (k * k) * n) * (t2 * t2))
        by (nonlinear_arith)
        requires
            t2 == t * t,
    ;
    assert(t2 * t2 > 0) by (nonlinear_arith)
        requires
            t2 > 0,
    ;
    assert((m * m < 4 * (k * k) * n) <==> ((m * m) * (t2 * t2) < (4 * (k * k) * n) * (t2 * t2)))
        by (nonlinear_arith)
        requires
            t2 * t2 > 0,
    ;
}

/// Widening the tolerance keeps a square-root comparison true:
/// `sqrt(a) < sqrt(n) + k` and `k <= k2` give `sqrt(a) < sqrt(n) + k2`.
proof fn lemma_sqrt_lt_mono(a: int, n: int, k: int, k2: int)
    requires
        0 <= k <= k2,
        n >= 0,
        sqrt_lt(a, n, k),
    ensures
        sqrt_lt(a, n, k2),
{
    let m = a - n - k * k;
    let m2 = a - n - k2 * k2;
    assert(k * k <= k2 * k2) by (nonlinear_arith)
        requires
            0 <= k <= k2,
    ;
    if m < 0 {
        assert(m2 < 0);
    } else {
        assert(m * m < 4 * (k * k) * n);
        if m2 < 0 {
        } else {
            assert(m2 * m2 <= m * m) by (nonlinear_arith)
                requires
                    0 <= m2 <= m,
            ;
            assert(4 * (k * k) * n <= 4 * (k2 * k2) * n) by (nonlinear_arith)
                requires
                    k * k <= k2 * k2 && n >= 0,
            ;
        }
    }
}

/// A point strictly inside a circle dilated by one tolerance stays
/// strictly inside it under any larger tolerance: coverage is monotone in
/// epsilon.
pub proof fn lemma_point_within_monotone(c: Circle, p: Point2, e1: Epsilon, e2: Epsilon)
    requires
        c.wf(),
        e1.wf(),
        e2.wf(),
        e1.num * e2.den <= e2.num * e1.den,
        point_in_dilated_circle(c, p, e1),
    ensures
        point_in_dilated_circle(c, p, e2),
{
    let a = c.scaled_sq_dist(p);
    let n = c.radius_sq_num as int;
    let d = c.den as int;
    let q1 = e1.den as int;
    let q2 = e2.den as int;
    let p1 = e1.num as int;
    let p2 = e2.num as int;
    assert(n >= 0);
    lemma_sqrt_lt_scale(a * (q1 * q1), n * (q1 * q1), p1 * d, q2);
    assert((a * (q1 * q1)) * (q2 * q2) == (a * (q2 * q2)) * (q1 * q1)) by (nonlinear_arith);
    assert((n * (q1 * q1)) * (q2 * q2) == (n * (q2 * q2)) * (q1 * q1)) by (nonlinear_arith);
    assert((p1 * d) * q2 == (p1 * q2) * d) by (nonlinear_arith);
    assert((p2 * d) * q1 == (p2 * q1) * d) by (nonlinear_arith);
    assert(0 <= (p1 * q2) * d) by (nonlinear_arith)
        requires
            p1 >= 0 && q2 >= 1 && d > 0,
    ;
    assert((p1 * q2) * d <= (p2 * q1) * d) by (nonlinear_arith)
        requires
            p1 * q2 <= p2 * q1 && d > 0,
    ;
    assert((n * (q2 * q2)) * (q1 * q1) >= 0) by (nonlinear_arith)
        requires
            n >= 0,
    ;
    lemma_sqrt_lt_mono(
        (a * (q2 * q2)) * (q1 * q1),
        (n * (q2 * q2)) * (q1 * q1),
        (p1 * q2) * d,
        (p2 * q1) * d,
    );
    lemma_sqrt_lt_scale(a * (q2 * q2), n * (q2 * q2), p2 * d, q1);
    assert((p2 * d) * q1 == (p2 * q1) * d);
}

} // verus!
