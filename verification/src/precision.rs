//! How far rounding can carry lengths and right angles from what they
//! would be exactly.

use vstd::prelude::*;
use crate::scalar::{
    floor_sqrt, is_floor_sqrt, lemma_floor_sqrt_exists, quot, Scalar, RAW_MAX, SCALE,
};
use crate::nearness::{
    gauge, lemma_coordinate_square, lemma_rounded_coordinate, lemma_rounded_quotient,
};
use crate::scalar::lemma_quot_error;
use crate::vec3::{Vec3, STRETCHED};

verus! {

/// The magnitude of an integer.
pub open spec fn abs_int(x: int) -> int {
    if x < 0 {
        -x
    } else {
        x
    }
}

/// `u` is `a * SCALE` divided by `l`, rounded down.
spec fn normalized(a: int, l: int, u: int) -> bool {
    0 <= u && l * u <= a * SCALE < l * u + l
}

/// Division by a positive length rounds a non-negative number down.
proof fn lemma_normalized(a: int, l: int)
    requires
        a >= 0,
        l > 0,
    ensures
        normalized(a, l, (a * SCALE) / l),
{
    let n = a * SCALE;
    assert(0 <= n / l && l * (n / l) <= n < l * (n / l) + l) by (nonlinear_arith)
        requires
            n >= 0,
            l > 0,
    ;
}

/// One component of the unit vector: its magnitude is the stretched
/// component times `SCALE` over the fine length, rounded down, and at most
/// one.
proof fn lemma_component(v: Vec3, x: Scalar)
    requires
        v.spec_largest() > 0,
        x == v.x || x == v.y || x == v.z,
    ensures
        normalized(
            x.magnitude_raw() * v.spec_stretch(),
            v.spec_fine_length(),
            abs_int(v.spec_over_length(x).raw as int),
        ),
        abs_int(v.spec_over_length(x).raw as int) <= SCALE,
        (x.magnitude_raw() * v.spec_stretch()) * (x.magnitude_raw() * v.spec_stretch()) == (x.raw
            * x.raw) * (v.spec_stretch() * v.spec_stretch()),
{
    let k = v.spec_stretch();
    let m = v.spec_fine_length();
    let a = x.magnitude_raw();
    let big = a * k;
    let n = v.raw_dot(v) * (k * k);
    v.lemma_fine_length();
    Vec3::lemma_stretch(v.spec_largest());
    assert(big >= 0) by (nonlinear_arith)
        requires
            big == a * k,
            a >= 0,
            k >= 1,
    ;
    assert(big * big == (x.raw * x.raw) * (k * k)) by (nonlinear_arith)
        requires
            big == a * k,
            a == x.raw || a == -x.raw,
    ;
    assert(v.raw_dot(v) >= x.raw * x.raw) by (nonlinear_arith)
        requires
            x == v.x || x == v.y || x == v.z,
            v.raw_dot(v) == v.x.raw * v.x.raw + v.y.raw * v.y.raw + v.z.raw * v.z.raw,
    ;
    assert(n >= big * big) by (nonlinear_arith)
        requires
            n == v.raw_dot(v) * (k * k),
            big * big == (x.raw * x.raw) * (k * k),
            v.raw_dot(v) >= x.raw * x.raw,
    ;
    if big > m {
        assert(big * big >= (m + 1) * (m + 1)) by (nonlinear_arith)
            requires
                big >= m + 1,
                m >= 0,
        ;
    }
    lemma_normalized(big, m);
    let u = (big * SCALE) / m;
    if u > SCALE {
        assert(m * u >= m * (SCALE + 1)) by (nonlinear_arith)
            requires
                u >= SCALE + 1,
                m >= 0,
        ;
        assert(big * SCALE <= m * SCALE) by (nonlinear_arith)
            requires
                big <= m,
        ;
    }
    assert(a * SCALE * k == big * SCALE) by (nonlinear_arith)
        requires
            big == a * k,
    ;
    assert(x.raw * SCALE * k == big * SCALE || x.raw * SCALE * k == -(big * SCALE))
        by (nonlinear_arith)
        requires
            big == a * k,
            a == x.raw || a == -x.raw,
    ;
    if big * SCALE == 0 {
        assert(0int / m == 0) by (nonlinear_arith)
            requires
                m > 0,
        ;
    }
    assert(abs_int(quot(x.raw * SCALE * k, m)) == u);
}

/// One component's share of the squared length of the unit vector.
proof fn lemma_share(a: int, l: int, u: int)
    requires
        a >= 0,
        l > 0,
        normalized(a, l, u),
    ensures
        (u * u) * (l * l) <= (a * a) * (SCALE * SCALE),
        ((u + 1) * (u + 1)) * (l * l) > (a * a) * (SCALE * SCALE),
{
    assert((l * u) * (l * u) <= (a * SCALE) * (a * SCALE)) by (nonlinear_arith)
        requires
            0 <= l * u <= a * SCALE,
    ;
    assert((l * u) * (l * u) == (u * u) * (l * l)) by (nonlinear_arith);
    assert((a * SCALE) * (a * SCALE) == (a * a) * (SCALE * SCALE)) by (nonlinear_arith);
    assert(l * (u + 1) == l * u + l) by (nonlinear_arith);
    assert((l * (u + 1)) * (l * (u + 1)) > (a * SCALE) * (a * SCALE)) by (nonlinear_arith)
        requires
            l * (u + 1) > a * SCALE,
            a * SCALE >= 0,
    ;
    assert((l * (u + 1)) * (l * (u + 1)) == ((u + 1) * (u + 1)) * (l * l)) by (nonlinear_arith);
}

/// The squared length of the unit vector, in raw squares, is below
/// `(SCALE + 1)^2`.
proof fn lemma_squared_above(n: int, l: int, uu: int)
    requires
        l >= STRETCHED,
        is_floor_sqrt(n, l),
        uu >= 0,
        uu * (l * l) <= n * (SCALE * SCALE),
    ensures
        uu < (SCALE + 1) * (SCALE + 1),
{
    if uu >= (SCALE + 1) * (SCALE + 1) {
        assert(uu * (l * l) >= ((SCALE + 1) * (SCALE + 1)) * (l * l)) by (nonlinear_arith)
            requires
                uu >= (SCALE + 1) * (SCALE + 1),
        ;
        assert(n * (SCALE * SCALE) < ((l + 1) * (l + 1)) * (SCALE * SCALE)) by (nonlinear_arith)
            requires
                n < (l + 1) * (l + 1),
        ;
        let a = (SCALE + 1) * l;
        let b = (l + 1) * SCALE;
        assert(a * a == ((SCALE + 1) * (SCALE + 1)) * (l * l)) by (nonlinear_arith)
            requires
                a == (SCALE + 1) * l,
        ;
        assert(b * b == ((l + 1) * (l + 1)) * (SCALE * SCALE)) by (nonlinear_arith)
            requires
                b == (l + 1) * SCALE,
        ;
        assert(a >= b) by (nonlinear_arith)
            requires
                a == (SCALE + 1) * l,
                b == (l + 1) * SCALE,
                l >= SCALE,
        ;
        assert(a * a >= b * b) by (nonlinear_arith)
            requires
                a >= b,
                b >= 0,
        ;
    }
}

/// The squared length of the unit vector, in raw squares, is at least
/// `(SCALE - 4)^2`.
proof fn lemma_squared_below(n: int, l: int, ux: int, uy: int, uz: int)
    requires
        l >= 1,
        is_floor_sqrt(n, l),
        0 <= ux <= SCALE,
        0 <= uy <= SCALE,
        0 <= uz <= SCALE,
        ((ux + 1) * (ux + 1) + (uy + 1) * (uy + 1) + (uz + 1) * (uz + 1)) * (l * l) > n * (SCALE
            * SCALE),
    ensures
        ux * ux + uy * uy + uz * uz >= (SCALE - 4) * (SCALE - 4),
{
    let t = (ux + 1) * (ux + 1) + (uy + 1) * (uy + 1) + (uz + 1) * (uz + 1);
    assert(n * (SCALE * SCALE) >= (l * l) * (SCALE * SCALE)) by (nonlinear_arith)
        requires
            l * l <= n,
    ;
    assert(t > SCALE * SCALE) by (nonlinear_arith)
        requires
            t * (l * l) > (l * l) * (SCALE * SCALE),
            l >= 1,
    ;
    assert(t == ux * ux + uy * uy + uz * uz + 2 * (ux + uy + uz) + 3) by (nonlinear_arith)
        requires
            t == (ux + 1) * (ux + 1) + (uy + 1) * (uy + 1) + (uz + 1) * (uz + 1),
    ;
}

/// The unit vector of any vector other than zero is one long, up to four
/// trillionths below and none above.
pub proof fn lemma_unit_length(v: Vec3)
    requires
        v.spec_largest() > 0,
    ensures
        SCALE - 4 <= v.spec_unit().spec_length().raw <= SCALE,
{
    let k = v.spec_stretch();
    let l = v.spec_fine_length();
    let n = v.raw_dot(v) * (k * k);
    v.lemma_fine_length();
    Vec3::lemma_stretch(v.spec_largest());
    lemma_component(v, v.x);
    lemma_component(v, v.y);
    lemma_component(v, v.z);
    let unit = v.spec_unit();
    let ux = abs_int(unit.x.raw as int);
    let uy = abs_int(unit.y.raw as int);
    let uz = abs_int(unit.z.raw as int);
    let ax = v.x.magnitude_raw() * k;
    let ay = v.y.magnitude_raw() * k;
    let az = v.z.magnitude_raw() * k;
    assert(ax >= 0 && ay >= 0 && az >= 0) by (nonlinear_arith)
        requires
            ax == v.x.magnitude_raw() * k,
            ay == v.y.magnitude_raw() * k,
            az == v.z.magnitude_raw() * k,
            k >= 1,
            v.x.magnitude_raw() >= 0,
            v.y.magnitude_raw() >= 0,
            v.z.magnitude_raw() >= 0,
    ;
    lemma_share(ax, l, ux);
    lemma_share(ay, l, uy);
    lemma_share(az, l, uz);
    assert(ax * ax + ay * ay + az * az == n) by (nonlinear_arith)
        requires
            ax * ax == (v.x.raw * v.x.raw) * (k * k),
            ay * ay == (v.y.raw * v.y.raw) * (k * k),
            az * az == (v.z.raw * v.z.raw) * (k * k),
            n == (v.x.raw * v.x.raw + v.y.raw * v.y.raw + v.z.raw * v.z.raw) * (k * k),
    ;
    let uu = ux * ux + uy * uy + uz * uz;
    assert(unit.raw_dot(unit) == uu) by (nonlinear_arith)
        requires
            unit.raw_dot(unit) == unit.x.raw * unit.x.raw + unit.y.raw * unit.y.raw + unit.z.raw
                * unit.z.raw,
            ux == unit.x.raw || ux == -unit.x.raw,
            uy == unit.y.raw || uy == -unit.y.raw,
            uz == unit.z.raw || uz == -unit.z.raw,
            uu == ux * ux + uy * uy + uz * uz,
    ;
    assert(uu >= 0) by (nonlinear_arith)
        requires
            uu == ux * ux + uy * uy + uz * uz,
    ;
    assert(uu * (l * l) <= n * (SCALE * SCALE)) by (nonlinear_arith)
        requires
            uu == ux * ux + uy * uy + uz * uz,
            n == ax * ax + ay * ay + az * az,
            (ux * ux) * (l * l) <= (ax * ax) * (SCALE * SCALE),
            (uy * uy) * (l * l) <= (ay * ay) * (SCALE * SCALE),
            (uz * uz) * (l * l) <= (az * az) * (SCALE * SCALE),
    ;
    lemma_squared_above(n, l, uu);
    assert(((ux + 1) * (ux + 1) + (uy + 1) * (uy + 1) + (uz + 1) * (uz + 1)) * (l * l) > n * (
    SCALE * SCALE)) by (nonlinear_arith)
        requires
            n == ax * ax + ay * ay + az * az,
            ((ux + 1) * (ux + 1)) * (l * l) > (ax * ax) * (SCALE * SCALE),
            ((uy + 1) * (uy + 1)) * (l * l) > (ay * ay) * (SCALE * SCALE),
            ((uz + 1) * (uz + 1)) * (l * l) > (az * az) * (SCALE * SCALE),
    ;
    lemma_squared_below(n, l, ux, uy, uz);
    lemma_floor_sqrt_exists(uu);
    let r = floor_sqrt(uu);
    if r > SCALE {
        assert(r * r >= (SCALE + 1) * (SCALE + 1)) by (nonlinear_arith)
            requires
                r >= SCALE + 1,
        ;
    }
    if r < SCALE - 4 {
        assert((r + 1) * (r + 1) <= (SCALE - 4) * (SCALE - 4)) by (nonlinear_arith)
            requires
                0 <= r,
                r + 1 <= SCALE - 4,
        ;
    }
    assert(r <= RAW_MAX);
}

/// Raw bound on the components of vectors that are mirrored without
/// clamping: fifty.
pub const MIRROR_MAX: i64 = 50_000_000_000_000;

/// No component exceeds `MIRROR_MAX` in magnitude.
pub open spec fn mirrorable(v: Vec3) -> bool {
    &&& -MIRROR_MAX <= v.x.raw <= MIRROR_MAX
    &&& -MIRROR_MAX <= v.y.raw <= MIRROR_MAX
    &&& -MIRROR_MAX <= v.z.raw <= MIRROR_MAX
}

/// The sum of the magnitudes of the raw components.
pub open spec fn taxicab(v: Vec3) -> int {
    gauge(v.x.raw as int) + gauge(v.y.raw as int) + gauge(v.z.raw as int)
}

/// How far the squared length of the mirror image of `v` about `n` can be
/// from `SCALE^2`, times `SCALE^2`: what the squared length of `v` is off,
/// `4 q^2 / SCALE^2` times what the squared length of `n` is off, where `q`
/// is the dot product, and `4 |q| + 2 |r|_1 + 3` from rounding, where `r` is
/// the mirror image.
pub open spec fn spec_mirror_allowance(v: Vec3, n: Vec3) -> int {
    (SCALE * SCALE) * gauge(v.raw_dot(v) - SCALE * SCALE) + 4 * ((v.spec_dot(n).raw * v.spec_dot(
        n,
    ).raw) * gauge(n.raw_dot(n) - SCALE * SCALE)) + 4 * ((SCALE * SCALE) * gauge(
        v.spec_dot(n).raw as int,
    )) + (SCALE * SCALE) * (2 * taxicab(v.spec_reflect(n)) + 3)
}

/// No component of a unit vector exceeds one in magnitude.
pub proof fn lemma_unit_bounded(v: Vec3)
    ensures
        -SCALE <= v.spec_unit().x.raw <= SCALE,
        -SCALE <= v.spec_unit().y.raw <= SCALE,
        -SCALE <= v.spec_unit().z.raw <= SCALE,
        mirrorable(v.spec_unit()),
{
    if v.spec_largest() > 0 {
        lemma_component(v, v.x);
        lemma_component(v, v.y);
        lemma_component(v, v.z);
    }
}

/// A mirror image is as long as what is mirrored, up to rounding: its
/// squared length differs from `SCALE^2` by no more than
/// `spec_mirror_allowance` over `SCALE^2`.
///
/// For `v` and `n` one long, as `unit` returns them, the mirror image is
/// within some twenty-five trillionths of one long.
pub proof fn lemma_reflect_length(v: Vec3, n: Vec3)
    requires
        mirrorable(v),
        mirrorable(n),
    ensures
        (SCALE * SCALE) * gauge(v.spec_reflect(n).raw_dot(v.spec_reflect(n)) - SCALE * SCALE)
            <= spec_mirror_allowance(v, n),
{
    let s = SCALE as int;
    let ss = s * s;
    let p = v.raw_dot(n);
    let q = v.spec_dot(n).raw as int;
    let r = v.spec_reflect(n);
    let bound = MIRROR_MAX as int;
    assert(-(bound * bound) <= v.x.raw * n.x.raw <= bound * bound && -(bound * bound) <= v.y.raw
        * n.y.raw <= bound * bound && -(bound * bound) <= v.z.raw * n.z.raw <= bound * bound)
        by (nonlinear_arith)
        requires
            -bound <= v.x.raw <= bound,
            -bound <= v.y.raw <= bound,
            -bound <= v.z.raw <= bound,
            -bound <= n.x.raw <= bound,
            -bound <= n.y.raw <= bound,
            -bound <= n.z.raw <= bound,
    ;
    lemma_quot_error(p, s);
    assert(q == quot(p, s));
    let e0 = p - s * q;
    assert(-s < e0 < s);
    assert(-7_500_000_000_000_001 <= q <= 7_500_000_000_000_001);
    let k = Scalar::of(2 * SCALE).times(v.spec_dot(n));
    assert((2 * s) * q == 2 * (s * q)) by (nonlinear_arith);
    assert((2 * (q * s)) / s == 2 * q) by (nonlinear_arith)
        requires
            s > 0,
    ;
    assert((-(2 * (q * s))) / s == -(2 * q)) by (nonlinear_arith)
        requires
            s > 0,
    ;
    assert(q * s == s * q) by (nonlinear_arith);
    assert(k.raw == 2 * q);
    let t = -2 * q;
    let kx = k.times(n.x).raw as int;
    let ky = k.times(n.y).raw as int;
    let kz = k.times(n.z).raw as int;
    assert(-(15_000_000_000_000_002 * bound) <= k.raw * n.x.raw <= 15_000_000_000_000_002 * bound
        && -(15_000_000_000_000_002 * bound) <= k.raw * n.y.raw <= 15_000_000_000_000_002 * bound
        && -(15_000_000_000_000_002 * bound) <= k.raw * n.z.raw <= 15_000_000_000_000_002
        * bound) by (nonlinear_arith)
        requires
            -15_000_000_000_000_002 <= k.raw <= 15_000_000_000_000_002,
            -bound <= n.x.raw <= bound,
            -bound <= n.y.raw <= bound,
            -bound <= n.z.raw <= bound,
    ;
    lemma_quot_error(k.raw * n.x.raw, s);
    lemma_quot_error(k.raw * n.y.raw, s);
    lemma_quot_error(k.raw * n.z.raw, s);
    assert(kx == quot(k.raw * n.x.raw, s));
    assert(ky == quot(k.raw * n.y.raw, s));
    assert(kz == quot(k.raw * n.z.raw, s));
    assert(r.x.raw == v.x.raw - kx && r.y.raw == v.y.raw - ky && r.z.raw == v.z.raw - kz);
    // the unrounded mirror image, scaled
    let ux = s * v.x.raw + t * n.x.raw;
    let uy = s * v.y.raw + t * n.y.raw;
    let uz = s * v.z.raw + t * n.z.raw;
    assert(t * n.x.raw == -(k.raw * n.x.raw) && t * n.y.raw == -(k.raw * n.y.raw) && t * n.z.raw
        == -(k.raw * n.z.raw)) by (nonlinear_arith)
        requires
            t == -k.raw,
    ;
    let mx = ux - s * r.x.raw;
    let my = uy - s * r.y.raw;
    let mz = uz - s * r.z.raw;
    assert(s * r.x.raw == s * v.x.raw - s * kx && s * r.y.raw == s * v.y.raw - s * ky && s
        * r.z.raw == s * v.z.raw - s * kz) by (nonlinear_arith)
        requires
            r.x.raw == v.x.raw - kx,
            r.y.raw == v.y.raw - ky,
            r.z.raw == v.z.raw - kz,
    ;
    assert(-s < mx < s && -s < my < s && -s < mz < s);
    lemma_rounded_coordinate(s, r.x.raw as int, mx);
    lemma_rounded_coordinate(s, r.y.raw as int, my);
    lemma_rounded_coordinate(s, r.z.raw as int, mz);
    lemma_coordinate_square(s, v.x.raw as int, n.x.raw as int, t);
    lemma_coordinate_square(s, v.y.raw as int, n.y.raw as int, t);
    lemma_coordinate_square(s, v.z.raw as int, n.z.raw as int, t);
    let vx = v.x.raw * v.x.raw;
    let vy = v.y.raw * v.y.raw;
    let vz = v.z.raw * v.z.raw;
    let vv = v.raw_dot(v);
    let px = v.x.raw * n.x.raw;
    let py = v.y.raw * n.y.raw;
    let pz = v.z.raw * n.z.raw;
    let nx = n.x.raw * n.x.raw;
    let ny = n.y.raw * n.y.raw;
    let nz = n.z.raw * n.z.raw;
    let nn = n.raw_dot(n);
    let tt = t * t;
    let qq = q * q;
    assert(tt == 4 * qq) by (nonlinear_arith)
        requires
            tt == t * t,
            qq == q * q,
            t == -2 * q,
    ;
    let uu = ux * ux + uy * uy + uz * uz;
    assert(ss * vv == ss * vx + ss * vy + ss * vz) by (nonlinear_arith)
        requires
            vv == vx + vy + vz,
    ;
    assert(t * p == t * px + t * py + t * pz) by (nonlinear_arith)
        requires
            p == px + py + pz,
    ;
    assert(s * (t * p) == s * (t * px) + s * (t * py) + s * (t * pz)) by (nonlinear_arith)
        requires
            t * p == t * px + t * py + t * pz,
    ;
    assert(tt * nn == tt * nx + tt * ny + tt * nz) by (nonlinear_arith)
        requires
            nn == nx + ny + nz,
    ;
    assert(uu == ss * vv + 2 * (s * (t * p)) + tt * nn);
    // the dot product, rounded
    let sq = s * q;
    assert(t * p == t * sq + t * e0) by (nonlinear_arith)
        requires
            p == sq + e0,
    ;
    assert(t * sq == -2 * (s * qq)) by (nonlinear_arith)
        requires
            t == -2 * q,
            sq == s * q,
            qq == q * q,
    ;
    let te = t * e0;
    assert(s * (t * p) == s * (t * sq) + s * te) by (nonlinear_arith)
        requires
            t * p == t * sq + te,
    ;
    assert(s * (t * sq) == -2 * (ss * qq)) by (nonlinear_arith)
        requires
            t * sq == -2 * (s * qq),
            ss == s * s,
    ;
    assert(tt * nn == 4 * (qq * nn)) by (nonlinear_arith)
        requires
            tt == 4 * qq,
    ;
    let dn = nn - ss;
    assert(qq * nn == qq * dn + qq * ss) by (nonlinear_arith)
        requires
            dn == nn - ss,
    ;
    assert(qq * ss == ss * qq) by (nonlinear_arith);
    assert(uu - ss * ss == ss * (vv - ss) + 4 * (qq * dn) + 2 * (s * te)) by (nonlinear_arith)
        requires
            uu == ss * vv + 2 * (s * (t * p)) + tt * nn,
            s * (t * p) == -2 * (ss * qq) + s * te,
            tt * nn == 4 * (qq * dn + ss * qq),
    ;
    let gq = gauge(q);
    assert(-(2 * (gq * s)) <= te <= 2 * (gq * s)) by (nonlinear_arith)
        requires
            te == t * e0,
            t == -2 * q,
            gq == q || gq == -q,
            gq >= 0,
            -s < e0 < s,
    ;
    assert(-(2 * (ss * gq)) <= s * te <= 2 * (ss * gq)) by (nonlinear_arith)
        requires
            -(2 * (gq * s)) <= te <= 2 * (gq * s),
            s >= 1,
            ss == s * s,
    ;
    assert(qq >= 0) by (nonlinear_arith)
        requires
            qq == q * q,
    ;
    assert(gauge(qq * dn) == qq * gauge(dn)) by (nonlinear_arith)
        requires
            qq >= 0,
            gauge(dn) == dn || gauge(dn) == -dn,
            gauge(dn) >= 0,
            gauge(qq * dn) == qq * dn || gauge(qq * dn) == -(qq * dn),
            gauge(qq * dn) >= 0,
    ;
    let dv = vv - ss;
    assert(ss >= 1) by (nonlinear_arith)
        requires
            ss == s * s,
            s >= 1,
    ;
    assert(gauge(ss * dv) == ss * gauge(dv)) by (nonlinear_arith)
        requires
            ss >= 1,
            gauge(dv) == dv || gauge(dv) == -dv,
            gauge(dv) >= 0,
            gauge(ss * dv) == ss * dv || gauge(ss * dv) == -(ss * dv),
            gauge(ss * dv) >= 0,
    ;
    // the mirror image, rounded
    let rx = r.x.raw * r.x.raw;
    let ry = r.y.raw * r.y.raw;
    let rz = r.z.raw * r.z.raw;
    let rr = r.raw_dot(r);
    assert(ss * rr == ss * rx + ss * ry + ss * rz) by (nonlinear_arith)
        requires
            rr == rx + ry + rz,
    ;
    let r1 = taxicab(r);
    assert(ss * (2 * r1 + 3) == ss * (2 * gauge(r.x.raw as int) + 1) + ss * (2 * gauge(
        r.y.raw as int,
    ) + 1) + ss * (2 * gauge(r.z.raw as int) + 1)) by (nonlinear_arith)
        requires
            r1 == gauge(r.x.raw as int) + gauge(r.y.raw as int) + gauge(r.z.raw as int),
    ;
    let delta = ss * rr - uu;
    assert(gauge(delta) <= ss * (2 * r1 + 3));
    let dr = rr - ss;
    assert(ss * dr == ss * rr - ss * ss) by (nonlinear_arith)
        requires
            dr == rr - ss,
    ;
    assert(ss * dr == delta + (uu - ss * ss));
    assert(gauge(ss * dr) == ss * gauge(dr)) by (nonlinear_arith)
        requires
            ss >= 1,
            gauge(dr) == dr || gauge(dr) == -dr,
            gauge(dr) >= 0,
            gauge(ss * dr) == ss * dr || gauge(ss * dr) == -(ss * dr),
            gauge(ss * dr) >= 0,
    ;
}

/// The length of the part of a refracted direction that runs along the
/// normal: the root of one less the squared length of the part across.
pub open spec fn spec_along(v: Vec3, n: Vec3, ratio: Scalar) -> Scalar {
    Scalar { raw: SCALE }.minus(
        v.spec_refract_perp(n, ratio).spec_length_squared(),
    ).magnitude().root()
}

/// How far the squared length of a refracted direction can be from
/// `SCALE^2`, times `SCALE^2`: the product of what the squared lengths of
/// the part across and of the normal are off, the rounding of the root times
/// the squared length of the normal, twice the part along times the dot
/// product of the part across with the normal, and `2 |r|_1 + 3` from the
/// last rounding.
pub open spec fn spec_bend_allowance(v: Vec3, n: Vec3, ratio: Scalar) -> int {
    let perp = v.spec_refract_perp(n, ratio);
    let along = spec_along(v, n, ratio).raw as int;
    gauge(perp.raw_dot(perp) - SCALE * SCALE) * gauge(n.raw_dot(n) - SCALE * SCALE) + (SCALE + 2
        * along) * n.raw_dot(n) + 2 * (SCALE * (along * gauge(perp.raw_dot(n)))) + (SCALE * SCALE)
        * (2 * taxicab(v.spec_refract(n, ratio)) + 3)
}

/// A refracted direction is one long up to rounding, where the part across
/// the normal is no longer than one: its squared length differs from
/// `SCALE^2` by no more than `spec_bend_allowance` over `SCALE^2`. The part
/// across is no larger than `MIRROR_MAX` in any coordinate.
pub proof fn lemma_refract_length(v: Vec3, n: Vec3, ratio: Scalar)
    requires
        mirrorable(n),
        mirrorable(v.spec_refract_perp(n, ratio)),
        v.spec_refract_perp(n, ratio).spec_length_squared().raw <= SCALE,
    ensures
        (SCALE * SCALE) * gauge(
            v.spec_refract(n, ratio).raw_dot(v.spec_refract(n, ratio)) - SCALE * SCALE,
        ) <= spec_bend_allowance(v, n, ratio),
{
    let s = SCALE as int;
    let ss = s * s;
    let perp = v.spec_refract_perp(n, ratio);
    let r = v.spec_refract(n, ratio);
    let pp = perp.raw_dot(perp);
    let nn = n.raw_dot(n);
    let pn = perp.raw_dot(n);
    let lsq = perp.spec_length_squared().raw as int;
    perp.lemma_raw_square_sign();
    n.lemma_raw_square_sign();
    lemma_quot_error(pp, s);
    assert(lsq == quot(pp, s));
    let el = pp - s * lsq;
    assert(0 <= el < s);
    assert(lsq >= 0);
    let x = s - lsq;
    let a0 = spec_along(v, n, ratio).raw as int;
    let along = spec_along(v, n, ratio).negated();
    assert(along.raw == -a0);
    let rho = x * s - a0 * a0;
    let gap = Scalar { raw: SCALE }.minus(perp.spec_length_squared()).magnitude();
    assert(gap.raw == x);
    if x > 0 {
        crate::scalar::lemma_floor_sqrt_exists(x * s);
        let f = crate::scalar::floor_sqrt(x * s);
        assert(x * s <= s * s) by (nonlinear_arith)
            requires
                0 < x <= s,
                s >= 1,
        ;
        if f > s {
            assert(f * f > s * s) by (nonlinear_arith)
                requires
                    f > s,
                    s >= 1,
            ;
        }
        assert(a0 == f);
        assert((a0 + 1) * (a0 + 1) == a0 * a0 + 2 * a0 + 1) by (nonlinear_arith);
    } else {
        assert(a0 == 0);
        assert(x * s == 0) by (nonlinear_arith)
            requires
                x == 0,
        ;
        assert(a0 * a0 == 0) by (nonlinear_arith)
            requires
                a0 == 0,
        ;
    }
    assert(0 <= a0 <= s);
    assert(0 <= rho <= 2 * a0);
    let t = -a0;
    let bound = MIRROR_MAX as int;
    assert(-(s * bound) <= along.raw * n.x.raw <= s * bound && -(s * bound) <= along.raw * n.y.raw
        <= s * bound && -(s * bound) <= along.raw * n.z.raw <= s * bound) by (nonlinear_arith)
        requires
            -s <= along.raw <= s,
            -bound <= n.x.raw <= bound,
            -bound <= n.y.raw <= bound,
            -bound <= n.z.raw <= bound,
            s >= 1,
            bound >= 1,
    ;
    lemma_quot_error(along.raw * n.x.raw, s);
    lemma_quot_error(along.raw * n.y.raw, s);
    lemma_quot_error(along.raw * n.z.raw, s);
    let gx = along.times(n.x).raw as int;
    let gy = along.times(n.y).raw as int;
    let gz = along.times(n.z).raw as int;
    assert(gx == quot(along.raw * n.x.raw, s));
    assert(gy == quot(along.raw * n.y.raw, s));
    assert(gz == quot(along.raw * n.z.raw, s));
    assert(r.x.raw == perp.x.raw + gx && r.y.raw == perp.y.raw + gy && r.z.raw == perp.z.raw
        + gz);
    let ux = s * perp.x.raw + t * n.x.raw;
    let uy = s * perp.y.raw + t * n.y.raw;
    let uz = s * perp.z.raw + t * n.z.raw;
    assert(t * n.x.raw == along.raw * n.x.raw && t * n.y.raw == along.raw * n.y.raw && t * n.z.raw
        == along.raw * n.z.raw);
    assert(s * r.x.raw == s * perp.x.raw + s * gx && s * r.y.raw == s * perp.y.raw + s * gy && s
        * r.z.raw == s * perp.z.raw + s * gz) by (nonlinear_arith)
        requires
            r.x.raw == perp.x.raw + gx,
            r.y.raw == perp.y.raw + gy,
            r.z.raw == perp.z.raw + gz,
    ;
    let mx = ux - s * r.x.raw;
    let my = uy - s * r.y.raw;
    let mz = uz - s * r.z.raw;
    assert(-s < mx < s && -s < my < s && -s < mz < s);
    lemma_rounded_coordinate(s, r.x.raw as int, mx);
    lemma_rounded_coordinate(s, r.y.raw as int, my);
    lemma_rounded_coordinate(s, r.z.raw as int, mz);
    lemma_coordinate_square(s, perp.x.raw as int, n.x.raw as int, t);
    lemma_coordinate_square(s, perp.y.raw as int, n.y.raw as int, t);
    lemma_coordinate_square(s, perp.z.raw as int, n.z.raw as int, t);
    let px = perp.x.raw * perp.x.raw;
    let py = perp.y.raw * perp.y.raw;
    let pz = perp.z.raw * perp.z.raw;
    let qx = perp.x.raw * n.x.raw;
    let qy = perp.y.raw * n.y.raw;
    let qz = perp.z.raw * n.z.raw;
    let nx = n.x.raw * n.x.raw;
    let ny = n.y.raw * n.y.raw;
    let nz = n.z.raw * n.z.raw;
    let tt = t * t;
    assert(tt == a0 * a0) by (nonlinear_arith)
        requires
            tt == t * t,
            t == -a0,
    ;
    let uu = ux * ux + uy * uy + uz * uz;
    assert(ss * pp == ss * px + ss * py + ss * pz) by (nonlinear_arith)
        requires
            pp == px + py + pz,
    ;
    assert(t * pn == t * qx + t * qy + t * qz) by (nonlinear_arith)
        requires
            pn == qx + qy + qz,
    ;
    assert(s * (t * pn) == s * (t * qx) + s * (t * qy) + s * (t * qz)) by (nonlinear_arith)
        requires
            t * pn == t * qx + t * qy + t * qz,
    ;
    assert(tt * nn == tt * nx + tt * ny + tt * nz) by (nonlinear_arith)
        requires
            nn == nx + ny + nz,
    ;
    assert(uu == ss * pp + 2 * (s * (t * pn)) + tt * nn);
    // the root, rounded
    assert(x * s == ss - s * lsq) by (nonlinear_arith)
        requires
            x == s - lsq,
            ss == s * s,
    ;
    assert(tt == ss - pp + el - rho);
    let dp = pp - ss;
    let dn = nn - ss;
    let er = el - rho;
    assert(tt * nn == (er - dp) * nn) by (nonlinear_arith)
        requires
            tt == er - dp,
    ;
    assert((er - dp) * nn == er * nn - dp * nn) by (nonlinear_arith);
    assert(dp * nn == dp * dn + dp * ss) by (nonlinear_arith)
        requires
            dn == nn - ss,
    ;
    assert(dp * ss == ss * pp - ss * ss) by (nonlinear_arith)
        requires
            dp == pp - ss,
    ;
    let tpn = t * pn;
    assert(uu - ss * ss == er * nn - dp * dn + 2 * (s * tpn));
    let gpn = gauge(pn);
    let apn = a0 * gpn;
    assert(-apn <= tpn <= apn) by (nonlinear_arith)
        requires
            tpn == t * pn,
            t == -a0,
            a0 >= 0,
            apn == a0 * gpn,
            gpn == pn || gpn == -pn,
            gpn >= 0,
    ;
    assert(-(s * apn) <= s * tpn <= s * apn) by (nonlinear_arith)
        requires
            s >= 1,
            -apn <= tpn <= apn,
    ;
    assert(-((s + 2 * a0) * nn) <= er * nn <= (s + 2 * a0) * nn) by (nonlinear_arith)
        requires
            nn >= 0,
            -(s + 2 * a0) <= er <= s + 2 * a0,
    ;
    assert(gauge(dp * dn) == gauge(dp) * gauge(dn)) by (nonlinear_arith)
        requires
            gauge(dp) == dp || gauge(dp) == -dp,
            gauge(dp) >= 0,
            gauge(dn) == dn || gauge(dn) == -dn,
            gauge(dn) >= 0,
            gauge(dp * dn) == dp * dn || gauge(dp * dn) == -(dp * dn),
            gauge(dp * dn) >= 0,
    ;
    // the direction, rounded
    let rx = r.x.raw * r.x.raw;
    let ry = r.y.raw * r.y.raw;
    let rz = r.z.raw * r.z.raw;
    let rr = r.raw_dot(r);
    assert(ss * rr == ss * rx + ss * ry + ss * rz) by (nonlinear_arith)
        requires
            rr == rx + ry + rz,
    ;
    let r1 = taxicab(r);
    assert(ss * (2 * r1 + 3) == ss * (2 * gauge(r.x.raw as int) + 1) + ss * (2 * gauge(
        r.y.raw as int,
    ) + 1) + ss * (2 * gauge(r.z.raw as int) + 1)) by (nonlinear_arith)
        requires
            r1 == gauge(r.x.raw as int) + gauge(r.y.raw as int) + gauge(r.z.raw as int),
    ;
    let delta = ss * rr - uu;
    assert(gauge(delta) <= ss * (2 * r1 + 3));
    let dr = rr - ss;
    assert(ss * dr == ss * rr - ss * ss) by (nonlinear_arith)
        requires
            dr == rr - ss,
    ;
    assert(ss * dr == delta + (uu - ss * ss));
    assert(ss >= 1) by (nonlinear_arith)
        requires
            ss == s * s,
            s >= 1,
    ;
    assert(gauge(ss * dr) == ss * gauge(dr)) by (nonlinear_arith)
        requires
            ss >= 1,
            gauge(dr) == dr || gauge(dr) == -dr,
            gauge(dr) >= 0,
            gauge(ss * dr) == ss * dr || gauge(ss * dr) == -(ss * dr),
            gauge(ss * dr) >= 0,
    ;
}

/// The part of a refracted direction that runs across the normal is
/// perpendicular to it up to rounding, where the cosine of the angle of
/// incidence is not cut to one: `SCALE^2` times their dot product is at
/// most `|ratio| (|q| |n.n - SCALE^2| + SCALE^2 + SCALE |n|_1) + SCALE^2
/// |n|_1`, where `q` is the dot product of `v` and `n`. The ratio is at most
/// three in magnitude.
pub proof fn lemma_refract_across(v: Vec3, n: Vec3, ratio: Scalar)
    requires
        mirrorable(v),
        mirrorable(n),
        -3 * SCALE <= ratio.raw <= 3 * SCALE,
        v.spec_dot(n).raw >= -SCALE,
    ensures
        (SCALE * SCALE) * gauge(v.spec_refract_perp(n, ratio).raw_dot(n)) <= gauge(
            ratio.raw as int,
        ) * (gauge(v.spec_dot(n).raw as int) * gauge(n.raw_dot(n) - SCALE * SCALE) + SCALE * SCALE
            + SCALE * taxicab(n)) + (SCALE * SCALE) * taxicab(n),
{
    let s = SCALE as int;
    let ss = s * s;
    let k = ratio.raw as int;
    let perp = v.spec_refract_perp(n, ratio);
    let p = v.raw_dot(n);
    let q = v.spec_dot(n).raw as int;
    let nn = n.raw_dot(n);
    let pn = perp.raw_dot(n);
    let bound = MIRROR_MAX as int;
    assert(-(bound * bound) <= v.x.raw * n.x.raw <= bound * bound && -(bound * bound) <= v.y.raw
        * n.y.raw <= bound * bound && -(bound * bound) <= v.z.raw * n.z.raw <= bound * bound)
        by (nonlinear_arith)
        requires
            -bound <= v.x.raw <= bound,
            -bound <= v.y.raw <= bound,
            -bound <= v.z.raw <= bound,
            -bound <= n.x.raw <= bound,
            -bound <= n.y.raw <= bound,
            -bound <= n.z.raw <= bound,
    ;
    lemma_quot_error(p, s);
    assert(q == quot(p, s));
    let e0 = p - s * q;
    assert(-s < e0 < s);
    assert(-7_500_000_000_000_001 <= q <= 7_500_000_000_000_001);
    let cos = v.spec_cos_incidence(n);
    assert(cos.raw == -q);
    let c = -q;
    assert(-(7_500_000_000_000_001 * bound) <= c * n.x.raw <= 7_500_000_000_000_001 * bound
        && -(7_500_000_000_000_001 * bound) <= c * n.y.raw <= 7_500_000_000_000_001 * bound
        && -(7_500_000_000_000_001 * bound) <= c * n.z.raw <= 7_500_000_000_000_001 * bound)
        by (nonlinear_arith)
        requires
            -7_500_000_000_000_001 <= c <= 7_500_000_000_000_001,
            -bound <= n.x.raw <= bound,
            -bound <= n.y.raw <= bound,
            -bound <= n.z.raw <= bound,
    ;
    lemma_quot_error(c * n.x.raw, s);
    lemma_quot_error(c * n.y.raw, s);
    lemma_quot_error(c * n.z.raw, s);
    let cx = cos.times(n.x).raw as int;
    let cy = cos.times(n.y).raw as int;
    let cz = cos.times(n.z).raw as int;
    assert(cx == quot(c * n.x.raw, s) && cy == quot(c * n.y.raw, s) && cz == quot(
        c * n.z.raw,
        s,
    ));
    let e1x = c * n.x.raw - s * cx;
    let e1y = c * n.y.raw - s * cy;
    let e1z = c * n.z.raw - s * cz;
    let sx = v.x.raw + cx;
    let sy = v.y.raw + cy;
    let sz = v.z.raw + cz;
    let top = 375_050_000_000_000_200int;
    assert(-top <= sx <= top && -top <= sy <= top && -top <= sz <= top);
    assert(-(3 * s * top) <= k * sx <= 3 * s * top && -(3 * s * top) <= k * sy <= 3 * s * top
        && -(3 * s * top) <= k * sz <= 3 * s * top) by (nonlinear_arith)
        requires
            -3 * s <= k <= 3 * s,
            -top <= sx <= top,
            -top <= sy <= top,
            -top <= sz <= top,
            s >= 1,
            top >= 1,
    ;
    lemma_quot_error(k * sx, s);
    lemma_quot_error(k * sy, s);
    lemma_quot_error(k * sz, s);
    assert(perp.x.raw == quot(k * sx, s) && perp.y.raw == quot(k * sy, s) && perp.z.raw == quot(
        k * sz,
        s,
    ));
    let e2x = k * sx - s * perp.x.raw;
    let e2y = k * sy - s * perp.y.raw;
    let e2z = k * sz - s * perp.z.raw;
    // SCALE^2 perp_i n_i == k (SCALE v_i n_i + c n_i^2 - e1_i n_i) - SCALE e2_i n_i
    lemma_across_share(s, k, c, v.x.raw as int, n.x.raw as int, cx, sx, perp.x.raw as int, e1x, e2x);
    lemma_across_share(s, k, c, v.y.raw as int, n.y.raw as int, cy, sy, perp.y.raw as int, e1y, e2y);
    lemma_across_share(s, k, c, v.z.raw as int, n.z.raw as int, cz, sz, perp.z.raw as int, e1z, e2z);
    let ax = s * (v.x.raw * n.x.raw) + c * (n.x.raw * n.x.raw) - e1x * n.x.raw;
    let ay = s * (v.y.raw * n.y.raw) + c * (n.y.raw * n.y.raw) - e1y * n.y.raw;
    let az = s * (v.z.raw * n.z.raw) + c * (n.z.raw * n.z.raw) - e1z * n.z.raw;
    let bx = e2x * n.x.raw;
    let by = e2y * n.y.raw;
    let bz = e2z * n.z.raw;
    let qx = perp.x.raw * n.x.raw;
    let qy = perp.y.raw * n.y.raw;
    let qz = perp.z.raw * n.z.raw;
    assert(ss * pn == ss * qx + ss * qy + ss * qz) by (nonlinear_arith)
        requires
            pn == qx + qy + qz,
    ;
    let asum = ax + ay + az;
    let bsum = bx + by + bz;
    assert(k * asum == k * ax + k * ay + k * az) by (nonlinear_arith)
        requires
            asum == ax + ay + az,
    ;
    assert(s * bsum == s * bx + s * by + s * bz) by (nonlinear_arith)
        requires
            bsum == bx + by + bz,
    ;
    assert(ss * pn == k * asum - s * bsum);
    let n1 = taxicab(n);
    let e1n = e1x * n.x.raw + e1y * n.y.raw + e1z * n.z.raw;
    assert(-(s * n1) <= e1n <= s * n1 && -(s * n1) <= bsum <= s * n1) by (nonlinear_arith)
        requires
            e1n == e1x * n.x.raw + e1y * n.y.raw + e1z * n.z.raw,
            bsum == e2x * n.x.raw + e2y * n.y.raw + e2z * n.z.raw,
            n1 == gauge(n.x.raw as int) + gauge(n.y.raw as int) + gauge(n.z.raw as int),
            gauge(n.x.raw as int) == n.x.raw || gauge(n.x.raw as int) == -n.x.raw,
            gauge(n.y.raw as int) == n.y.raw || gauge(n.y.raw as int) == -n.y.raw,
            gauge(n.z.raw as int) == n.z.raw || gauge(n.z.raw as int) == -n.z.raw,
            gauge(n.x.raw as int) >= 0,
            gauge(n.y.raw as int) >= 0,
            gauge(n.z.raw as int) >= 0,
            -s < e1x < s,
            -s < e1y < s,
            -s < e1z < s,
            -s < e2x < s,
            -s < e2y < s,
            -s < e2z < s,
    ;
    assert(s * p == s * (v.x.raw * n.x.raw) + s * (v.y.raw * n.y.raw) + s * (v.z.raw * n.z.raw))
        by (nonlinear_arith)
        requires
            p == v.x.raw * n.x.raw + v.y.raw * n.y.raw + v.z.raw * n.z.raw,
    ;
    assert(c * nn == c * (n.x.raw * n.x.raw) + c * (n.y.raw * n.y.raw) + c * (n.z.raw * n.z.raw))
        by (nonlinear_arith)
        requires
            nn == n.x.raw * n.x.raw + n.y.raw * n.y.raw + n.z.raw * n.z.raw,
    ;
    assert(asum == s * p + c * nn - e1n);
    let dn = nn - ss;
    assert(s * p == ss * q + s * e0) by (nonlinear_arith)
        requires
            p == s * q + e0,
            ss == s * s,
    ;
    assert(c * nn == -(q * dn) - ss * q) by (nonlinear_arith)
        requires
            c == -q,
            dn == nn - ss,
    ;
    let inner = -(q * dn) + s * e0 - e1n;
    assert(asum == inner);
    let gq = gauge(q);
    let gd = gauge(dn);
    assert(-(gq * gd) <= q * dn <= gq * gd) by (nonlinear_arith)
        requires
            gq == q || gq == -q,
            gq >= 0,
            gd == dn || gd == -dn,
            gd >= 0,
    ;
    assert(-ss < s * e0 < ss) by (nonlinear_arith)
        requires
            -s < e0 < s,
            ss == s * s,
            s >= 1,
    ;
    let room = gq * gd + ss + s * n1;
    assert(-room <= inner <= room);
    let gk = gauge(k);
    assert(-(gk * room) <= k * inner <= gk * room) by (nonlinear_arith)
        requires
            gk == k || gk == -k,
            gk >= 0,
            -room <= inner <= room,
    ;
    assert(-(ss * n1) <= s * bsum <= ss * n1) by (nonlinear_arith)
        requires
            -(s * n1) <= bsum <= s * n1,
            ss == s * s,
            s >= 1,
    ;
    assert(ss >= 1) by (nonlinear_arith)
        requires
            ss == s * s,
            s >= 1,
    ;
    assert(gauge(ss * pn) == ss * gauge(pn)) by (nonlinear_arith)
        requires
            ss >= 1,
            gauge(pn) == pn || gauge(pn) == -pn,
            gauge(pn) >= 0,
            gauge(ss * pn) == ss * pn || gauge(ss * pn) == -(ss * pn),
            gauge(ss * pn) >= 0,
    ;
}

/// One coordinate's share of the dot product of the part across with the
/// normal.
proof fn lemma_across_share(
    s: int,
    k: int,
    c: int,
    v: int,
    n: int,
    cn: int,
    sum: int,
    perp: int,
    e1: int,
    e2: int,
)
    requires
        e1 == c * n - s * cn,
        sum == v + cn,
        e2 == k * sum - s * perp,
    ensures
        (s * s) * (perp * n) == k * (s * (v * n) + c * (n * n) - e1 * n) - s * (e2 * n),
{
    let sp = s * perp;
    assert(sp == k * sum - e2);
    let ssum = s * sum;
    assert(ssum == s * v + c * n - e1) by (nonlinear_arith)
        requires
            ssum == s * sum,
            sum == v + cn,
            e1 == c * n - s * cn,
    ;
    assert(s * sp == k * ssum - s * e2) by (nonlinear_arith)
        requires
            sp == k * sum - e2,
            ssum == s * sum,
    ;
    let lhs = (s * s) * (perp * n);
    assert(lhs == (s * sp) * n) by (nonlinear_arith)
        requires
            lhs == (s * s) * (perp * n),
            sp == s * perp,
    ;
    assert((k * ssum - s * e2) * n == k * (ssum * n) - s * (e2 * n)) by (nonlinear_arith);
    assert(ssum * n == s * (v * n) + c * (n * n) - e1 * n) by (nonlinear_arith)
        requires
            ssum == s * v + c * n - e1,
    ;
}

/// Raw bound on the components of vectors whose cross product is formed
/// without clamping: a thousand.
pub const CROSS_MAX: i64 = 1_000_000_000_000_000;

/// No component exceeds `CROSS_MAX` in magnitude.
pub open spec fn crossable(v: Vec3) -> bool {
    &&& -CROSS_MAX <= v.x.raw <= CROSS_MAX
    &&& -CROSS_MAX <= v.y.raw <= CROSS_MAX
    &&& -CROSS_MAX <= v.z.raw <= CROSS_MAX
}

/// A cross product is perpendicular to both of its factors up to rounding:
/// its exact dot product with either, in raw squares, is at most twice the
/// sum of that factor's coordinates.
pub proof fn lemma_cross_perpendicular(a: Vec3, b: Vec3)
    requires
        crossable(a),
        crossable(b),
    ensures
        gauge(a.spec_cross(b).raw_dot(a)) <= 2 * taxicab(a),
        gauge(a.spec_cross(b).raw_dot(b)) <= 2 * taxicab(b),
{
    let s = SCALE as int;
    let c = a.spec_cross(b);
    let ax = a.x.raw as int;
    let ay = a.y.raw as int;
    let az = a.z.raw as int;
    let bx = b.x.raw as int;
    let by = b.y.raw as int;
    let bz = b.z.raw as int;
    let bound = CROSS_MAX as int;
    assert(-(bound * bound) <= ay * bz <= bound * bound && -(bound * bound) <= az * by <= bound
        * bound && -(bound * bound) <= az * bx <= bound * bound && -(bound * bound) <= ax * bz
        <= bound * bound && -(bound * bound) <= ax * by <= bound * bound && -(bound * bound) <= ay
        * bx <= bound * bound) by (nonlinear_arith)
        requires
            -bound <= ax <= bound,
            -bound <= ay <= bound,
            -bound <= az <= bound,
            -bound <= bx <= bound,
            -bound <= by <= bound,
            -bound <= bz <= bound,
    ;
    lemma_quot_error(ay * bz, s);
    lemma_quot_error(az * by, s);
    lemma_quot_error(az * bx, s);
    lemma_quot_error(ax * bz, s);
    lemma_quot_error(ax * by, s);
    lemma_quot_error(ay * bx, s);
    let cx = c.x.raw as int;
    let cy = c.y.raw as int;
    let cz = c.z.raw as int;
    assert(cx == quot(ay * bz, s) - quot(az * by, s));
    assert(cy == quot(az * bx, s) - quot(ax * bz, s));
    assert(cz == quot(ax * by, s) - quot(ay * bx, s));
    let dx = (ay * bz - az * by) - s * cx;
    let dy = (az * bx - ax * bz) - s * cy;
    let dz = (ax * by - ay * bx) - s * cz;
    assert(-2 * s < dx < 2 * s && -2 * s < dy < 2 * s && -2 * s < dz < 2 * s);
    lemma_triple_products(ax, ay, az, bx, by, bz);
    lemma_triple_products(bx, by, bz, ax, ay, az);
    lemma_perpendicular_share(s, cx, cy, cz, dx, dy, dz, ay * bz - az * by, az * bx - ax * bz, ax
        * by - ay * bx, bx, by, bz);
    lemma_perpendicular_share(s, cx, cy, cz, dx, dy, dz, ay * bz - az * by, az * bx - ax * bz, ax
        * by - ay * bx, ax, ay, az);
}

/// The exact cross product of `a` and `b` is perpendicular to `b`, and, with
/// the roles exchanged and the sign turned, to `a`.
proof fn lemma_triple_products(ax: int, ay: int, az: int, bx: int, by: int, bz: int)
    ensures
        (ay * bz - az * by) * bx + (az * bx - ax * bz) * by + (ax * by - ay * bx) * bz == 0,
        (by * az - bz * ay) * bx + (bz * ax - bx * az) * by + (bx * ay - by * ax) * bz == 0,
{
    let xy = bx * by;
    let xz = bx * bz;
    let yz = by * bz;
    assert((ay * bz) * bx == ay * xz && (az * by) * bx == az * xy && (az * bx) * by == az * xy && (
    ax * bz) * by == ax * yz && (ax * by) * bz == ax * yz && (ay * bx) * bz == ay * xz)
        by (nonlinear_arith)
        requires
            xy == bx * by,
            xz == bx * bz,
            yz == by * bz,
    ;
    assert((ay * bz - az * by) * bx == (ay * bz) * bx - (az * by) * bx) by (nonlinear_arith);
    assert((az * bx - ax * bz) * by == (az * bx) * by - (ax * bz) * by) by (nonlinear_arith);
    assert((ax * by - ay * bx) * bz == (ax * by) * bz - (ay * bx) * bz) by (nonlinear_arith);
    assert(by * az == az * by && bz * ay == ay * bz && bz * ax == ax * bz && bx * az == az * bx
        && bx * ay == ay * bx && by * ax == ax * by) by (nonlinear_arith);
    assert((az * by - ay * bz) * bx == -((ay * bz - az * by) * bx)) by (nonlinear_arith);
    assert((ax * bz - az * bx) * by == -((az * bx - ax * bz) * by)) by (nonlinear_arith);
    assert((ay * bx - ax * by) * bz == -((ax * by - ay * bx) * bz)) by (nonlinear_arith);
}

/// With `s c = e - d` in every coordinate and `e` perpendicular to `b`, the
/// dot product of `c` with `b` is at most twice the sum of the coordinates of
/// `b`, where every `d` is smaller than `2 s`.
proof fn lemma_perpendicular_share(
    s: int,
    cx: int,
    cy: int,
    cz: int,
    dx: int,
    dy: int,
    dz: int,
    ex: int,
    ey: int,
    ez: int,
    bx: int,
    by: int,
    bz: int,
)
    requires
        s >= 1,
        dx == ex - s * cx,
        dy == ey - s * cy,
        dz == ez - s * cz,
        -2 * s < dx < 2 * s,
        -2 * s < dy < 2 * s,
        -2 * s < dz < 2 * s,
        ex * bx + ey * by + ez * bz == 0,
    ensures
        gauge(cx * bx + cy * by + cz * bz) <= 2 * (gauge(bx) + gauge(by) + gauge(bz)),
{
    let dot = cx * bx + cy * by + cz * bz;
    assert((s * cx) * bx == ex * bx - dx * bx && (s * cy) * by == ey * by - dy * by && (s * cz)
        * bz == ez * bz - dz * bz) by (nonlinear_arith)
        requires
            dx == ex - s * cx,
            dy == ey - s * cy,
            dz == ez - s * cz,
    ;
    let px = cx * bx;
    let py = cy * by;
    let pz = cz * bz;
    assert(s * (px + py + pz) == s * px + s * py + s * pz) by (nonlinear_arith);
    assert(s * px == (s * cx) * bx) by (nonlinear_arith)
        requires
            px == cx * bx,
    ;
    assert(s * py == (s * cy) * by) by (nonlinear_arith)
        requires
            py == cy * by,
    ;
    assert(s * pz == (s * cz) * bz) by (nonlinear_arith)
        requires
            pz == cz * bz,
    ;
    let rest = dx * bx + dy * by + dz * bz;
    assert(s * dot == -rest);
    let b1 = gauge(bx) + gauge(by) + gauge(bz);
    let most = (2 * s) * b1;
    assert(-most <= rest <= most) by (nonlinear_arith)
        requires
            rest == dx * bx + dy * by + dz * bz,
            b1 == gauge(bx) + gauge(by) + gauge(bz),
            gauge(bx) == bx || gauge(bx) == -bx,
            gauge(by) == by || gauge(by) == -by,
            gauge(bz) == bz || gauge(bz) == -bz,
            gauge(bx) >= 0,
            gauge(by) >= 0,
            gauge(bz) >= 0,
            -2 * s < dx < 2 * s,
            -2 * s < dy < 2 * s,
            -2 * s < dz < 2 * s,
            s >= 1,
            most == (2 * s) * b1,
    ;
    assert(most == s * (2 * b1)) by (nonlinear_arith)
        requires
            most == (2 * s) * b1,
    ;
    assert(-(2 * b1) <= dot <= 2 * b1) by (nonlinear_arith)
        requires
            s >= 1,
            -(s * (2 * b1)) <= s * dot <= s * (2 * b1),
    ;
}

/// One component of the unit vector with its sign: the fine length times
/// the component differs from the stretched component times `SCALE` by less
/// than the fine length.
proof fn lemma_signed_component(v: Vec3, x: Scalar)
    requires
        v.spec_largest() > 0,
        x == v.x || x == v.y || x == v.z,
    ensures
        -v.spec_fine_length() < (v.spec_stretch() * SCALE) * x.raw - v.spec_fine_length()
            * v.spec_over_length(x).raw < v.spec_fine_length(),
{
    let k = v.spec_stretch();
    let m = v.spec_fine_length();
    let s = SCALE as int;
    let a = x.raw as int;
    let u = v.spec_over_length(x).raw as int;
    lemma_component(v, x);
    v.lemma_over_length_sign(x);
    let big = x.magnitude_raw() * k;
    let size = abs_int(u);
    assert(m * size <= big * s < m * size + m);
    if a >= 0 {
        assert(big * s == (k * s) * a) by (nonlinear_arith)
            requires
                big == a * k,
        ;
    } else {
        assert(big * s == -((k * s) * a)) by (nonlinear_arith)
            requires
                big == (-a) * k,
        ;
        assert(m * size == -(m * u)) by (nonlinear_arith)
            requires
                size == -u,
        ;
    }
}

/// With `m u = f a - e` in every coordinate, where every `e` is smaller than
/// `m`: `m` times the dot product of `u` with `w` is at most `f` times that
/// of `a` with `w`, and `m` times the sum of the coordinates of `w`.
proof fn lemma_scaled_share(
    m: int,
    f: int,
    ax: int,
    ay: int,
    az: int,
    ux: int,
    uy: int,
    uz: int,
    wx: int,
    wy: int,
    wz: int,
)
    requires
        m > 0,
        f >= 0,
        -m < f * ax - m * ux < m,
        -m < f * ay - m * uy < m,
        -m < f * az - m * uz < m,
    ensures
        m * gauge(ux * wx + uy * wy + uz * wz) <= f * gauge(ax * wx + ay * wy + az * wz) + m * (
        gauge(wx) + gauge(wy) + gauge(wz)),
{
    let ex = f * ax - m * ux;
    let ey = f * ay - m * uy;
    let ez = f * az - m * uz;
    let dot_u = ux * wx + uy * wy + uz * wz;
    let dot_a = ax * wx + ay * wy + az * wz;
    let w1 = gauge(wx) + gauge(wy) + gauge(wz);
    let px = ux * wx;
    let py = uy * wy;
    let pz = uz * wz;
    let qx = ax * wx;
    let qy = ay * wy;
    let qz = az * wz;
    assert(m * px == f * qx - ex * wx) by (nonlinear_arith)
        requires
            px == ux * wx,
            qx == ax * wx,
            ex == f * ax - m * ux,
    ;
    assert(m * py == f * qy - ey * wy) by (nonlinear_arith)
        requires
            py == uy * wy,
            qy == ay * wy,
            ey == f * ay - m * uy,
    ;
    assert(m * pz == f * qz - ez * wz) by (nonlinear_arith)
        requires
            pz == uz * wz,
            qz == az * wz,
            ez == f * az - m * uz,
    ;
    assert(m * (px + py + pz) == m * px + m * py + m * pz) by (nonlinear_arith);
    assert(f * (qx + qy + qz) == f * qx + f * qy + f * qz) by (nonlinear_arith);
    let rest = ex * wx + ey * wy + ez * wz;
    assert(m * dot_u == f * dot_a - rest);
    let most = m * w1;
    assert(-most <= rest <= most) by (nonlinear_arith)
        requires
            rest == ex * wx + ey * wy + ez * wz,
            w1 == gauge(wx) + gauge(wy) + gauge(wz),
            gauge(wx) == wx || gauge(wx) == -wx,
            gauge(wy) == wy || gauge(wy) == -wy,
            gauge(wz) == wz || gauge(wz) == -wz,
            gauge(wx) >= 0,
            gauge(wy) >= 0,
            gauge(wz) >= 0,
            -m < ex < m,
            -m < ey < m,
            -m < ez < m,
            most == m * w1,
    ;
    let far = f * gauge(dot_a);
    assert(-far <= f * dot_a <= far) by (nonlinear_arith)
        requires
            f >= 0,
            far == f * gauge(dot_a),
            gauge(dot_a) == dot_a || gauge(dot_a) == -dot_a,
            gauge(dot_a) >= 0,
    ;
    assert(m * gauge(dot_u) == m * dot_u || m * gauge(dot_u) == -(m * dot_u)) by (nonlinear_arith)
        requires
            gauge(dot_u) == dot_u || gauge(dot_u) == -dot_u,
    ;
}

/// Taking the unit vector keeps what is perpendicular nearly so: the fine
/// length of `a` times the exact dot product of its unit vector with `w` is
/// at most the stretch times `SCALE` times the exact dot product of `a` with
/// `w`, and the fine length times the sum of the coordinates of `w`.
pub proof fn lemma_unit_perpendicular(a: Vec3, w: Vec3)
    requires
        a.spec_largest() > 0,
    ensures
        a.spec_fine_length() * gauge(a.spec_unit().raw_dot(w)) <= (a.spec_stretch() * SCALE)
            * gauge(a.raw_dot(w)) + a.spec_fine_length() * taxicab(w),
{
    a.lemma_fine_length();
    Vec3::lemma_stretch(a.spec_largest());
    lemma_signed_component(a, a.x);
    lemma_signed_component(a, a.y);
    lemma_signed_component(a, a.z);
    let f = a.spec_stretch() * SCALE;
    assert(f >= 0) by (nonlinear_arith)
        requires
            f == a.spec_stretch() * SCALE,
            a.spec_stretch() >= 1,
    ;
    lemma_scaled_share(
        a.spec_fine_length(),
        f,
        a.x.raw as int,
        a.y.raw as int,
        a.z.raw as int,
        a.spec_unit().x.raw as int,
        a.spec_unit().y.raw as int,
        a.spec_unit().z.raw as int,
        w.x.raw as int,
        w.y.raw as int,
        w.z.raw as int,
    );
}

/// One coordinate of a vector scaled by `k`: `SCALE` times it differs from
/// `k` times the coordinate by less than `SCALE`.
proof fn lemma_scaled_coordinate(u: Scalar, k: Scalar)
    requires
        -CROSS_MAX <= u.raw <= CROSS_MAX,
        1 <= k.raw <= CROSS_MAX,
    ensures
        -SCALE < k.raw * u.raw - SCALE * k.times(u).raw < SCALE,
{
    let s = SCALE as int;
    let n = k.raw * u.raw;
    let bound = CROSS_MAX as int;
    lemma_quot_error(n, s);
    assert(-(bound * bound) <= n <= bound * bound) by (nonlinear_arith)
        requires
            n == k.raw * u.raw,
            -bound <= u.raw <= bound,
            1 <= k.raw <= bound,
    ;
}

/// Scaling a vector of at most a thousand in every coordinate by a positive
/// `k` of at most a thousand scales its length by `k`, up to rounding:
/// `SCALE^2` times the squared length of the result differs from `k^2` times
/// that of the vector by at most `SCALE (2 k |u|_1 + 3 SCALE)`, all in raw
/// values.
pub proof fn lemma_scaled_length(u: Vec3, k: Scalar)
    requires
        crossable(u),
        1 <= k.raw <= CROSS_MAX,
    ensures
        gauge((SCALE * SCALE) * u.scaled(k).raw_dot(u.scaled(k)) - (k.raw * k.raw) * u.raw_dot(u))
            <= 2 * (k.raw * (SCALE * taxicab(u))) + 3 * (SCALE * SCALE),
{
    let s = SCALE as int;
    let f = k.raw as int;
    let h = u.scaled(k);
    lemma_scaled_coordinate(u.x, k);
    lemma_scaled_coordinate(u.y, k);
    lemma_scaled_coordinate(u.z, k);
    let ux = u.x.raw as int;
    let uy = u.y.raw as int;
    let uz = u.z.raw as int;
    let hx = h.x.raw as int;
    let hy = h.y.raw as int;
    let hz = h.z.raw as int;
    lemma_rounded_quotient(f, ux, hx, s, f * ux - s * hx);
    lemma_rounded_quotient(f, uy, hy, s, f * uy - s * hy);
    lemma_rounded_quotient(f, uz, hz, s, f * uz - s * hz);
    let ss = s * s;
    let ff = f * f;
    assert(ss * (hx * hx + hy * hy + hz * hz) == ss * (hx * hx) + ss * (hy * hy) + ss * (hz * hz))
        by (nonlinear_arith);
    assert(ff * (ux * ux + uy * uy + uz * uz) == ff * (ux * ux) + ff * (uy * uy) + ff * (uz * uz))
        by (nonlinear_arith);
    let gx = s * gauge(ux);
    let gy = s * gauge(uy);
    let gz = s * gauge(uz);
    assert(s * taxicab(u) == gx + gy + gz) by (nonlinear_arith)
        requires
            taxicab(u) == gauge(ux) + gauge(uy) + gauge(uz),
            gx == s * gauge(ux),
            gy == s * gauge(uy),
            gz == s * gauge(uz),
    ;
    assert(f * (gx + gy + gz) == f * gx + f * gy + f * gz) by (nonlinear_arith);
}

/// The cross product of two vectors of at most one in every coordinate is
/// at most two in every coordinate.
pub proof fn lemma_cross_bounded(a: Vec3, b: Vec3)
    requires
        -SCALE <= a.x.raw <= SCALE,
        -SCALE <= a.y.raw <= SCALE,
        -SCALE <= a.z.raw <= SCALE,
        -SCALE <= b.x.raw <= SCALE,
        -SCALE <= b.y.raw <= SCALE,
        -SCALE <= b.z.raw <= SCALE,
    ensures
        -2 * SCALE <= a.spec_cross(b).x.raw <= 2 * SCALE,
        -2 * SCALE <= a.spec_cross(b).y.raw <= 2 * SCALE,
        -2 * SCALE <= a.spec_cross(b).z.raw <= 2 * SCALE,
        crossable(a.spec_cross(b)),
{
    lemma_times_bounded(a.y, b.z);
    lemma_times_bounded(a.z, b.y);
    lemma_times_bounded(a.z, b.x);
    lemma_times_bounded(a.x, b.z);
    lemma_times_bounded(a.x, b.y);
    lemma_times_bounded(a.y, b.x);
}

/// The product of two numbers of at most one is at most one.
proof fn lemma_times_bounded(a: Scalar, b: Scalar)
    requires
        -SCALE <= a.raw <= SCALE,
        -SCALE <= b.raw <= SCALE,
    ensures
        -SCALE <= a.times(b).raw <= SCALE,
{
    let s = SCALE as int;
    let n = a.raw * b.raw;
    lemma_quot_error(n, s);
    assert(-(s * s) <= n <= s * s) by (nonlinear_arith)
        requires
            n == a.raw * b.raw,
            -s <= a.raw <= s,
            -s <= b.raw <= s,
    ;
    let q = quot(n, s);
    assert(-s <= q <= s) by (nonlinear_arith)
        requires
            -s < n - s * q < s,
            -(s * s) <= n <= s * s,
            s >= 1,
    ;
}

} // verus!
