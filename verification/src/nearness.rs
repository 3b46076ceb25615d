//! How near a reported hit lies to the sphere.
//!
//! The parameter of a hit is the root of a quadratic, rounded twice: once
//! where the root of the discriminant is taken, once where it is divided by
//! the squared length of the direction. The point on the ray is rounded once
//! more. This module bounds what the three roundings can do to the squared
//! distance of the point from the center.

use vstd::prelude::*;

verus! {

/// The magnitude of an integer.
pub open spec fn gauge(x: int) -> int {
    if x < 0 {
        -x
    } else {
        x
    }
}

/// The square of one coordinate of the unrounded point, scaled by `s`.
pub proof fn lemma_coordinate_square(s: int, oc: int, d: int, t: int)
    ensures
        (s * oc + t * d) * (s * oc + t * d) == (s * s) * (oc * oc) + 2 * (s * (t * (oc * d))) + (t
            * t) * (d * d),
{
    let p = s * oc;
    let q = t * d;
    assert((p + q) * (p + q) == p * p + 2 * (p * q) + q * q) by (nonlinear_arith);
    assert(p * p == (s * s) * (oc * oc)) by (nonlinear_arith)
        requires
            p == s * oc,
    ;
    assert(q * q == (t * t) * (d * d)) by (nonlinear_arith)
        requires
            q == t * d,
    ;
    let od = oc * d;
    assert(oc * q == t * od) by (nonlinear_arith)
        requires
            q == t * d,
            od == oc * d,
    ;
    assert(p * q == s * (oc * q)) by (nonlinear_arith)
        requires
            p == s * oc,
    ;
}

/// Completing the square: `a` times the quadratic is a square less `s^2`
/// times the discriminant.
pub proof fn lemma_complete_square(s: int, a: int, t: int, hb: int, c: int)
    ensures
        a * (a * (t * t) + 2 * (s * (t * hb)) + (s * s) * c) == (a * t + s * hb) * (a * t + s * hb)
            - (s * s) * (hb * hb - a * c),
{
    let u = a * t;
    let v = s * hb;
    assert((u + v) * (u + v) == u * u + 2 * (u * v) + v * v) by (nonlinear_arith);
    let tt = t * t;
    assert(u * u == a * (a * tt)) by (nonlinear_arith)
        requires
            u == a * t,
            tt == t * t,
    ;
    let th = t * hb;
    assert(t * v == s * th) by (nonlinear_arith)
        requires
            v == s * hb,
            th == t * hb,
    ;
    assert(u * v == a * (t * v)) by (nonlinear_arith)
        requires
            u == a * t,
    ;
    let ss = s * s;
    assert(v * v == ss * (hb * hb)) by (nonlinear_arith)
        requires
            v == s * hb,
            ss == s * s,
    ;
    let ac = a * c;
    assert(a * (ss * c) == ss * ac) by (nonlinear_arith)
        requires
            ac == a * c,
    ;
    let sth = s * th;
    assert(a * (a * tt + 2 * sth + ss * c) == a * (a * tt) + 2 * (a * sth) + a * (ss * c))
        by (nonlinear_arith);
    assert(ss * (hb * hb - ac) == ss * (hb * hb) - ss * ac) by (nonlinear_arith);
}

/// What the two roundings of the parameter leave of the quadratic: with
/// `x = s r - tau` for the signed root `r` of the discriminant less `rho`,
/// `x^2 - s^2 (r^2 + rho)` is at most `2 s^2 |r| + 2 s |r| a + a^2` in
/// magnitude.
pub proof fn lemma_rounded_square(s: int, r: int, reach: int, rho: int, tau: int, a: int)
    requires
        s >= 1,
        a >= 1,
        reach >= 0,
        r == reach || r == -reach,
        0 <= rho <= 2 * reach,
        -a < tau < a,
    ensures
        gauge((s * r - tau) * (s * r - tau) - (s * s) * (r * r + rho)) <= 2 * ((s * s) * reach) + 2
            * (s * (reach * a)) + a * a,
{
    let p = s * r;
    let ss = s * s;
    assert((p - tau) * (p - tau) == p * p - 2 * (p * tau) + tau * tau) by (nonlinear_arith);
    assert(p * p == ss * (r * r)) by (nonlinear_arith)
        requires
            p == s * r,
            ss == s * s,
    ;
    assert(ss * (r * r + rho) == ss * (r * r) + ss * rho) by (nonlinear_arith);
    let rt = r * tau;
    assert(p * tau == s * rt) by (nonlinear_arith)
        requires
            p == s * r,
            rt == r * tau,
    ;
    let ra = reach * a;
    assert(-ra <= rt <= ra) by (nonlinear_arith)
        requires
            rt == r * tau,
            ra == reach * a,
            r == reach || r == -reach,
            reach >= 0,
            -a < tau < a,
    ;
    assert(-(s * ra) <= s * rt <= s * ra) by (nonlinear_arith)
        requires
            s >= 1,
            -ra <= rt <= ra,
    ;
    assert(0 <= tau * tau <= a * a) by (nonlinear_arith)
        requires
            -a < tau < a,
    ;
    assert(ss >= 1) by (nonlinear_arith)
        requires
            ss == s * s,
            s >= 1,
    ;
    assert(0 <= ss * rho <= 2 * (ss * reach)) by (nonlinear_arith)
        requires
            ss >= 1,
            0 <= rho <= 2 * reach,
    ;
}

/// What the rounding of one coordinate of the point leaves: with
/// `v = s w + mu`, `s^2 w^2 - v^2` is at most `s^2 (2 |w| + 1)` in
/// magnitude.
pub proof fn lemma_rounded_coordinate(s: int, w: int, mu: int)
    requires
        s >= 1,
        -s < mu < s,
    ensures
        gauge((s * s) * (w * w) - (s * w + mu) * (s * w + mu)) <= (s * s) * (2 * gauge(w) + 1),
{
    let p = s * w;
    let ss = s * s;
    assert((p + mu) * (p + mu) == p * p + 2 * (p * mu) + mu * mu) by (nonlinear_arith);
    assert(p * p == ss * (w * w)) by (nonlinear_arith)
        requires
            p == s * w,
            ss == s * s,
    ;
    let g = gauge(w);
    let wm = w * mu;
    assert(p * mu == s * wm) by (nonlinear_arith)
        requires
            p == s * w,
            wm == w * mu,
    ;
    let sg = s * g;
    assert(-sg <= wm <= sg) by (nonlinear_arith)
        requires
            wm == w * mu,
            sg == s * g,
            g == w || g == -w,
            g >= 0,
            -s < mu < s,
    ;
    assert(-(s * sg) <= s * wm <= s * sg) by (nonlinear_arith)
        requires
            s >= 1,
            -sg <= wm <= sg,
    ;
    assert(s * sg == ss * g) by (nonlinear_arith)
        requires
            sg == s * g,
            ss == s * s,
    ;
    assert(0 <= mu * mu <= ss) by (nonlinear_arith)
        requires
            -s < mu < s,
            ss == s * s,
    ;
    assert(ss * (2 * g + 1) == 2 * (ss * g) + ss) by (nonlinear_arith);
}

/// What the rounding of one coordinate of the normal leaves: with
/// `r g = s w - e`, `r^2 g^2 - s^2 w^2` is at most `r (2 s |w| + r)` in
/// magnitude.
pub proof fn lemma_rounded_quotient(s: int, w: int, g: int, r: int, e: int)
    requires
        s >= 1,
        r >= 1,
        r * g == s * w - e,
        -r < e < r,
    ensures
        gauge((r * r) * (g * g) - (s * s) * (w * w)) <= 2 * (s * (r * gauge(w))) + r * r,
{
    let p = s * w;
    let q = r * g;
    assert(q * q == (r * r) * (g * g)) by (nonlinear_arith)
        requires
            q == r * g,
    ;
    assert(p * p == (s * s) * (w * w)) by (nonlinear_arith)
        requires
            p == s * w,
    ;
    assert((p - e) * (p - e) == p * p - 2 * (p * e) + e * e) by (nonlinear_arith);
    let we = w * e;
    assert(p * e == s * we) by (nonlinear_arith)
        requires
            p == s * w,
            we == w * e,
    ;
    let rw = r * gauge(w);
    assert(-rw <= we <= rw) by (nonlinear_arith)
        requires
            we == w * e,
            rw == r * gauge(w),
            gauge(w) == w || gauge(w) == -w,
            gauge(w) >= 0,
            -r < e < r,
    ;
    assert(-(s * rw) <= s * we <= s * rw) by (nonlinear_arith)
        requires
            s >= 1,
            -rw <= we <= rw,
    ;
    assert(0 <= e * e <= r * r) by (nonlinear_arith)
        requires
            -r < e < r,
    ;
}

} // verus!
