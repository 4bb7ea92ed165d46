//! Exact comparison of large integer products.
//!
//! The geometric kernel compares quantities of the form `a * b` against
//! `c * d` where each factor fits in an `i128` but the products do not.  The
//! comparison is carried out on a double-width representation: each product
//! is split into a high and a low `u128` limb and the limbs are compared
//! lexicographically.

use vstd::prelude::*;

verus! {

/// 2^64, the limb radix used to split a `u128` into halves.
pub const HALF_RADIX: u128 = 0x1_0000_0000_0000_0000;

/// 2^128, the weight of the high limb of a double-width product.
pub open spec fn radix() -> int {
    (HALF_RADIX as int) * (HALF_RADIX as int)
}

/// The full 256-bit product of two `u128` values, as `(high, low)` limbs.
fn mul_wide(a: u128, b: u128) -> (r: (u128, u128))
    ensures
        r.0 * radix() + r.1 == a * b,
        r.1 < radix(),
{
    let ah: u128 = a / HALF_RADIX;
    let al: u128 = a % HALF_RADIX;
    let bh: u128 = b / HALF_RADIX;
    let bl: u128 = b % HALF_RADIX;
    proof {
        assert(a == ah * HALF_RADIX + al && ah < HALF_RADIX && al < HALF_RADIX);
        assert(b == bh * HALF_RADIX + bl && bh < HALF_RADIX && bl < HALF_RADIX);
        assert(ah * bh <= (HALF_RADIX - 1) * (HALF_RADIX - 1) && ah * bl <= (HALF_RADIX - 1)
            * (HALF_RADIX - 1) && al * bh <= (HALF_RADIX - 1) * (HALF_RADIX - 1) && al * bl <= (
        HALF_RADIX - 1) * (HALF_RADIX - 1)) by (nonlinear_arith)
            requires
                ah < HALF_RADIX && al < HALF_RADIX && bh < HALF_RADIX && bl < HALF_RADIX,
        ;
    }
    let hh: u128 = ah * bh;
    let hl: u128 = ah * bl;
    let lh: u128 = al * bh;
    let ll: u128 = al * bl;
    // carry sum of the three contributions to the second limb; at most
    // 3 * (2^64 - 1), far below overflow
    let mid: u128 = ll / HALF_RADIX + hl % HALF_RADIX + lh % HALF_RADIX;
    let lo: u128 = (mid % HALF_RADIX) * HALF_RADIX + ll % HALF_RADIX;
    let hi: u128 = hh + hl / HALF_RADIX + lh / HALF_RADIX + mid / HALF_RADIX;
    proof {
        let h = HALF_RADIX as int;
        let llq = (ll / HALF_RADIX) as int;
        let llr = (ll % HALF_RADIX) as int;
        let hlq = (hl / HALF_RADIX) as int;
        let hlr = (hl % HALF_RADIX) as int;
        let lhq = (lh / HALF_RADIX) as int;
        let lhr = (lh % HALF_RADIX) as int;
        let midq = (mid / HALF_RADIX) as int;
        let midr = (mid % HALF_RADIX) as int;
        assert(a * b == hh * (h * h) + hl * h + lh * h + ll) by (nonlinear_arith)
            requires
                a == ah * h + al,
                b == bh * h + bl,
                hh == ah * bh,
                hl == ah * bl,
                lh == al * bh,
                ll == al * bl,
        ;
        assert(hl * h == hlq * (h * h) + hlr * h) by (nonlinear_arith)
            requires
                hl == hlq * h + hlr,
        ;
        assert(lh * h == lhq * (h * h) + lhr * h) by (nonlinear_arith)
            requires
                lh == lhq * h + lhr,
        ;
        let s = (hh + hlq + lhq) as int;
        assert(a * b == s * (h * h) + mid * h + llr) by (nonlinear_arith)
            requires
                a * b == hh * (h * h) + hl * h + lh * h + ll,
                hl * h == hlq * (h * h) + hlr * h,
                lh * h == lhq * (h * h) + lhr * h,
                ll == llq * h + llr,
                mid == llq + hlr + lhr,
                s == hh + hlq + lhq,
        ;
        assert(mid * h == midq * (h * h) + midr * h) by (nonlinear_arith)
            requires
                mid == midq * h + midr,
        ;
        assert(a * b == (s + midq) * (h * h) + midr * h + llr) by (nonlinear_arith)
            requires
                a * b == s * (h * h) + mid * h + llr,
                mid * h == midq * (h * h) + midr * h,
        ;
        assert(hi * radix() + lo == a * b) by (nonlinear_arith)
            requires
                radix() == h * h,
                a * b == (s + midq) * (h * h) + midr * h + llr,
                hi == s + midq,
                lo == midr * h + llr,
        ;
        assert(midr * h + llr < h * h) by (nonlinear_arith)
            requires
                midr < h && llr < h && 0 <= midr && 0 <= llr && h >= 1,
        ;
    }
    (hi, lo)
}

/// A product of values bounded in magnitude is bounded by the product of
/// the bounds.
pub proof fn lemma_mul_bounds(x: int, y: int, bx: int, by: int)
    by (nonlinear_arith)
    requires
        -bx <= x <= bx,
        -by <= y <= by,
    ensures
        -(bx * by) <= x * y <= bx * by,
{
}

/// A square of a value bounded in magnitude is non-negative and bounded by
/// the square of the bound.
pub proof fn lemma_sq_bounds(x: int, bx: int)
    by (nonlinear_arith)
    requires
        -bx <= x <= bx,
    ensures
        0 <= x * x <= bx * bx,
{
}

/// Whether `a * b < c * d`, for non-negative factors whose products may
/// exceed the `i128` range.
pub fn prod_lt(a: i128, b: i128, c: i128, d: i128) -> (r: bool)
    requires
        a >= 0,
        b >= 0,
        c >= 0,
        d >= 0,
    ensures
        r <==> a * b < c * d,
{
    let p = mul_wide(a as u128, b as u128);
    let q = mul_wide(c as u128, d as u128);
    proof {
        assert(p.0 < q.0 || (p.0 == q.0 && p.1 < q.1) <==> p.0 * radix() + p.1 < q.0 * radix()
            + q.1) by (nonlinear_arith)
            requires
                p.1 < radix() && q.1 < radix() && radix() > 0,
        ;
    }
    p.0 < q.0 || (p.0 == q.0 && p.1 < q.1)
}

} // verus!
