//! Exact arithmetic on numbers of up to 256 bits, held as a high and a low
//! half of 128 bits each.
//!
//! The discriminant of a ray against a sphere is a difference of products of
//! 128-bit numbers. Its sign, its root and the quotients that give the
//! parameters of the hit are formed here without any rounding but the one
//! that the root and the quotient themselves ask for.

use vstd::prelude::*;
use crate::scalar::is_floor_sqrt;

verus! {

/// Two to the power 64.
pub const HALF: u128 = 0x1_0000_0000_0000_0000;

/// The number whose high half is `hi` and whose low half is `lo`.
pub open spec fn wide(hi: u128, lo: u128) -> int {
    hi * 0x1_0000_0000_0000_0000_0000_0000_0000_0000 + lo
}

/// The exact product of `x` and `y`, as high and low half.
pub fn mul_wide(x: u128, y: u128) -> (r: (u128, u128))
    ensures
        wide(r.0, r.1) == x * y,
{
    let x0: u128 = x % HALF;
    let x1: u128 = x / HALF;
    let y0: u128 = y % HALF;
    let y1: u128 = y / HALF;
    proof {
        lemma_half_product(x0 as int, y0 as int);
        lemma_half_product(x0 as int, y1 as int);
        lemma_half_product(x1 as int, y0 as int);
        lemma_half_product(x1 as int, y1 as int);
    }
    let low_low: u128 = x0 * y0;
    let low_high: u128 = x0 * y1;
    let high_low: u128 = x1 * y0;
    let high_high: u128 = x1 * y1;
    let mid: u128 = low_low / HALF + low_high % HALF + high_low % HALF;
    let lo: u128 = (mid % HALF) * HALF + low_low % HALF;
    let hi: u128 = high_high + low_high / HALF + high_low / HALF + mid / HALF;
    proof {
        let b = HALF as int;
        let bb = 0x1_0000_0000_0000_0000_0000_0000_0000_0000int;
        assert(b * b == bb);
        let m = x0 * y1 + x1 * y0;
        assert(x * y == (x1 * y1) * bb + m * b + x0 * y0) by (nonlinear_arith)
            requires
                x == x1 * b + x0,
                y == y1 * b + y0,
                bb == b * b,
                m == x0 * y1 + x1 * y0,
        ;
        assert(m == low_high + high_low);
        assert(low_high == (low_high / HALF) * b + low_high % HALF);
        assert(high_low == (high_low / HALF) * b + high_low % HALF);
        assert(low_low == (low_low / HALF) * b + low_low % HALF);
        assert(mid == (mid / HALF) * b + mid % HALF);
        let c = low_high / HALF + high_low / HALF;
        let d = low_high % HALF + high_low % HALF;
        assert(m * b == c * bb + d * b) by (nonlinear_arith)
            requires
                m == c * b + d,
                bb == b * b,
        ;
        let e = low_low / HALF;
        assert((d + e) * b == (mid / HALF) * bb + (mid % HALF) * b) by (nonlinear_arith)
            requires
                d + e == (mid / HALF) * b + mid % HALF,
                bb == b * b,
        ;
        assert((d + e) * b == d * b + e * b) by (nonlinear_arith);
        assert(wide(hi, lo) == hi * bb + lo);
        assert(hi * bb == high_high * bb + c * bb + (mid / HALF) * bb) by (nonlinear_arith)
            requires
                hi == high_high + c + mid / HALF,
        ;
    }
    (hi, lo)
}

/// The product of two numbers below two to the 64 is below two to the 128,
/// by more than twice two to the 64.
proof fn lemma_half_product(a: int, b: int)
    requires
        0 <= a < 0x1_0000_0000_0000_0000,
        0 <= b < 0x1_0000_0000_0000_0000,
    ensures
        0 <= a * b <= 0xffff_ffff_ffff_ffff * 0xffff_ffff_ffff_ffff,
{
    assert(0 <= a * b <= 0xffff_ffff_ffff_ffff * 0xffff_ffff_ffff_ffff) by (nonlinear_arith)
        requires
            0 <= a <= 0xffff_ffff_ffff_ffff,
            0 <= b <= 0xffff_ffff_ffff_ffff,
    ;
}

/// Whether the first wide number is smaller than the second.
pub fn wide_less(a: (u128, u128), b: (u128, u128)) -> (r: bool)
    ensures
        r == (wide(a.0, a.1) < wide(b.0, b.1)),
{
    a.0 < b.0 || (a.0 == b.0 && a.1 < b.1)
}

/// The sum of two wide numbers that stays below two to the 256.
pub(crate) fn wide_add(a: (u128, u128), b: (u128, u128)) -> (r: (u128, u128))
    requires
        wide(a.0, a.1) + wide(b.0, b.1) < 0x1_0000_0000_0000_0000_0000_0000_0000_0000
            * 0x1_0000_0000_0000_0000_0000_0000_0000_0000,
    ensures
        wide(r.0, r.1) == wide(a.0, a.1) + wide(b.0, b.1),
{
    let room: u128 = 0xffff_ffff_ffff_ffff_ffff_ffff_ffff_ffff - a.1;
    if b.1 <= room {
        (a.0 + b.0, a.1 + b.1)
    } else {
        (a.0 + b.0 + 1, b.1 - room - 1)
    }
}

/// The difference of two wide numbers, the larger first.
pub(crate) fn wide_sub(a: (u128, u128), b: (u128, u128)) -> (r: (u128, u128))
    requires
        wide(a.0, a.1) >= wide(b.0, b.1),
    ensures
        wide(r.0, r.1) == wide(a.0, a.1) - wide(b.0, b.1),
{
    if a.1 >= b.1 {
        (a.0 - b.0, a.1 - b.1)
    } else {
        (a.0 - b.0 - 1, 0xffff_ffff_ffff_ffff_ffff_ffff_ffff_ffff - b.1 + a.1 + 1)
    }
}

/// The square root of a wide number, rounded down, by bisection.
pub fn wide_sqrt(d: (u128, u128)) -> (r: u128)
    ensures
        is_floor_sqrt(wide(d.0, d.1), r as int),
{
    let mut lo: u128 = 0;
    let mut hi: u128 = 0xffff_ffff_ffff_ffff_ffff_ffff_ffff_ffff;
    while lo < hi
        invariant
            lo <= hi,
            lo * lo <= wide(d.0, d.1),
            wide(d.0, d.1) < (hi + 1) * (hi + 1),
        decreases hi - lo,
    {
        let mid: u128 = hi - (hi - lo) / 2;
        let square = mul_wide(mid, mid);
        if wide_less(d, square) {
            assert((mid - 1 + 1) * (mid - 1 + 1) == mid * mid);
            hi = mid - 1;
        } else {
            lo = mid;
        }
    }
    lo
}

/// The quotient of a wide number by `a`, rounded down, or `cap` where the
/// quotient is that large or larger.
pub(crate) fn wide_div(w: (u128, u128), a: u128, cap: u128) -> (r: u128)
    requires
        a > 0,
        0 < cap < 0x1_0000_0000_0000_0000,
    ensures
        r == (if wide(w.0, w.1) / (a as int) >= cap {
            cap as int
        } else {
            wide(w.0, w.1) / (a as int)
        }),
{
    let top = mul_wide(cap, a);
    if !wide_less(w, top) {
        proof {
            lemma_quotient_from_below(wide(w.0, w.1), a as int, cap as int);
        }
        return cap;
    }
    let mut lo: u128 = 0;
    let mut hi: u128 = cap;
    assert(0 * a == 0);
    while hi - lo > 1
        invariant
            lo < hi <= cap,
            lo * a <= wide(w.0, w.1),
            wide(w.0, w.1) < hi * a,
        decreases hi - lo,
    {
        let mid: u128 = lo + (hi - lo) / 2;
        let step = mul_wide(mid, a);
        if wide_less(w, step) {
            hi = mid;
        } else {
            lo = mid;
        }
    }
    proof {
        lemma_quotient_is(wide(w.0, w.1), a as int, lo as int);
    }
    lo
}

/// A number `q` with `q a <= w < (q + 1) a` is the quotient of `w` by `a`.
pub proof fn lemma_quotient_is(w: int, a: int, q: int)
    requires
        a > 0,
        q * a <= w,
        w < (q + 1) * a,
    ensures
        w / a == q,
{
    let k = w / a;
    assert(k * a <= w < (k + 1) * a) by (nonlinear_arith)
        requires
            k == w / a,
            a > 0,
    ;
    if k < q {
        assert((k + 1) * a <= q * a) by (nonlinear_arith)
            requires
                k + 1 <= q,
                a > 0,
        ;
    } else if k > q {
        assert((q + 1) * a <= k * a) by (nonlinear_arith)
            requires
                q + 1 <= k,
                a > 0,
        ;
    }
}

/// A number `q` with `q a <= w` is at most the quotient of `w` by `a`.
pub proof fn lemma_quotient_from_below(w: int, a: int, q: int)
    requires
        a > 0,
        q * a <= w,
    ensures
        w / a >= q,
{
    let k = w / a;
    assert(k * a <= w < (k + 1) * a) by (nonlinear_arith)
        requires
            k == w / a,
            a > 0,
    ;
    if k < q {
        assert((k + 1) * a <= q * a) by (nonlinear_arith)
            requires
                k + 1 <= q,
                a > 0,
        ;
    }
}

} // verus!
