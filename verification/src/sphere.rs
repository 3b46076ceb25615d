//! The sphere, the one shape that a ray can meet.
//!
//! Where a ray meets a sphere is the root of a quadratic. Its coefficients,
//! its discriminant and the root of the discriminant are formed exactly, in
//! squares of raw units, so that neither a short direction nor a far sphere
//! loses digits; only the root and the final quotient round.

use vstd::prelude::*;
use crate::facing::{lemma_normal_share, lemma_step_share, size};
use crate::materials::Material;
use crate::nearness::{
    gauge, lemma_complete_square, lemma_coordinate_square, lemma_rounded_coordinate,
    lemma_rounded_quotient, lemma_rounded_square,
};
use crate::ray::{HitRecord, Hittable, Ray};
use crate::scalar::{
    floor_sqrt, lemma_floor_sqrt_exists, lemma_floor_sqrt_is, lemma_quot_error,
    lemma_quot_monotone, lemma_quot_negate, product, quot, saturate, sum_products, Scalar,
    RAW_MAX, SCALE,
};
use crate::vec3::{Point3, Vec3};
use crate::wide::{mul_wide, wide, wide_add, wide_div, wide_less, wide_sqrt, wide_sub};

verus! {

/// A sphere of one material.
#[derive(Clone, Copy, Debug, PartialEq, Eq, Structural)]
pub struct Sphere {
    pub center: Point3,
    /// Meant to be positive.
    pub radius: Scalar,
    pub material: Material,
}

/// Raw bound on coordinates for which sums of a few of them are formed
/// without clamping: a million.
pub const ROOM: i64 = 1_000_000_000_000_000_000;

/// No component exceeds `bound` in magnitude.
pub open spec fn within_bound(v: Vec3, bound: int) -> bool {
    &&& -bound <= v.x.raw <= bound
    &&& -bound <= v.y.raw <= bound
    &&& -bound <= v.z.raw <= bound
}

/// The sum of the magnitudes of the raw components.
pub open spec fn one_norm(v: Vec3) -> int {
    size(v.x.raw as int) + size(v.y.raw as int) + size(v.z.raw as int)
}

/// `t` lies in the interval `(t_min, t_max]` and strictly between the
/// smallest and the largest scalar, which stand for infinity.
pub open spec fn in_window(t: Scalar, t_min: Scalar, t_max: Scalar) -> bool {
    t_min.raw < t.raw <= t_max.raw && -RAW_MAX < t.raw < RAW_MAX
}

/// The difference of two scalars, exact. It may lie outside the range of
/// scalars; it serves only to form products.
pub open spec fn spec_offset(a: Scalar, b: Scalar) -> Scalar {
    Scalar { raw: (saturate(a.raw as int) - saturate(b.raw as int)) as i64 }
}

/// The difference of two scalars, exact.
fn offset(a: Scalar, b: Scalar) -> (r: Scalar)
    ensures
        r == spec_offset(a, b),
{
    let from = Scalar::from_raw(a.raw);
    let to = Scalar::from_raw(b.raw);
    Scalar { raw: from.raw - to.raw }
}

impl Sphere {
    /// The vector from the center to the ray's origin, exact: the difference
    /// of two scalars is a machine integer even where it is no scalar.
    pub open spec fn spec_oc(self, ray: Ray) -> Vec3 {
        Vec3 {
            x: spec_offset(ray.origin.x, self.center.x),
            y: spec_offset(ray.origin.y, self.center.y),
            z: spec_offset(ray.origin.z, self.center.z),
        }
    }

    /// The vector from the center to the ray's origin, exact.
    fn oc(&self, ray: &Ray) -> (r: Vec3)
        ensures
            r == self.spec_oc(*ray),
    {
        Vec3 {
            x: offset(ray.origin.x, self.center.x),
            y: offset(ray.origin.y, self.center.y),
            z: offset(ray.origin.z, self.center.z),
        }
    }

    /// The coefficient `a` of the quadratic in `t` that says where the ray
    /// meets the sphere: the squared length of the direction, exact, in raw
    /// squares.
    pub open spec fn spec_a(self, ray: Ray) -> int {
        ray.direction.raw_dot(ray.direction)
    }

    /// Half the linear coefficient: the dot product of the direction with
    /// the vector from the center to the origin, exact, in raw squares.
    pub open spec fn spec_half_b(self, ray: Ray) -> int {
        self.spec_oc(ray).raw_dot(ray.direction)
    }

    /// The constant coefficient: the squared distance of the origin from the
    /// center less the squared radius, exact, in raw squares. It is negative
    /// where the origin lies inside the sphere.
    pub open spec fn spec_c(self, ray: Ray) -> int {
        self.spec_oc(ray).raw_dot(self.spec_oc(ray)) - self.radius.raw * self.radius.raw
    }

    /// A quarter of the discriminant, `half_b^2 - a c`, exact. The ray misses
    /// the sphere where it is negative.
    pub open spec fn spec_discriminant(self, ray: Ray) -> int {
        self.spec_half_b(ray) * self.spec_half_b(ray) - self.spec_a(ray) * self.spec_c(ray)
    }

    /// The root of the discriminant, rounded down: half the chord that the
    /// ray cuts from the sphere, times the length of the direction, in raw
    /// squares.
    pub open spec fn spec_reach(self, ray: Ray) -> int {
        floor_sqrt(self.spec_discriminant(ray))
    }

    /// The smaller root, `(-half_b - sqrt(discriminant)) / a`, rounded toward
    /// zero.
    pub open spec fn spec_near_root(self, ray: Ray) -> Scalar {
        Scalar::of(
            quot((-self.spec_half_b(ray) - self.spec_reach(ray)) * SCALE, self.spec_a(ray)),
        )
    }

    /// The larger root, `(-half_b + sqrt(discriminant)) / a`, rounded toward
    /// zero.
    pub open spec fn spec_far_root(self, ray: Ray) -> Scalar {
        Scalar::of(
            quot((-self.spec_half_b(ray) + self.spec_reach(ray)) * SCALE, self.spec_a(ray)),
        )
    }

    /// The record of the meeting at parameter `root`: the point on the ray,
    /// and as outward normal the vector from the center to that point,
    /// divided by the radius.
    pub open spec fn spec_record(self, ray: Ray, root: Scalar) -> HitRecord {
        let p = ray.spec_at(root);
        HitRecord::spec_new(root, p, p.minus(self.center).over(self.radius), ray, self.material)
    }

    /// The sphere about `center` with the given radius and material.
    pub fn new(center: Point3, radius: Scalar, material: Material) -> (r: Sphere)
        ensures
            r == (Sphere { center, radius, material }),
    {
        Sphere { center, radius, material }
    }

    /// Whether the ray passes the center farther off than the radius: whether
    /// the exact discriminant is negative.
    pub fn misses(&self, ray: &Ray) -> (r: bool)
        ensures
            r == (self.spec_discriminant(*ray) < 0),
    {
        let oc = self.oc(ray);
        let half_b = sum_products(
            oc.x.raw,
            ray.direction.x.raw,
            oc.y.raw,
            ray.direction.y.raw,
            oc.z.raw,
            ray.direction.z.raw,
        );
        proof {
            ray.direction.lemma_largest_bound();
            oc.lemma_largest_bound();
        }
        let a: u128 = ray.direction.sum_of_squares(1);
        let oc_squared: u128 = oc.sum_of_squares(1);
        let radius_squared: u128 = product(self.radius.raw, self.radius.raw) as u128;
        proof {
            let hb = self.spec_half_b(*ray);
            let aa = self.spec_a(*ray);
            let c = self.spec_c(*ray);
            assert(self.radius.raw * self.radius.raw >= 0) by (nonlinear_arith);
            assert(aa == a);
            assert(c == oc_squared - radius_squared);
            assert(hb * hb >= 0) by (nonlinear_arith);
            assert(hb * hb == half_b.1 * half_b.1) by (nonlinear_arith)
                requires
                    hb == half_b.1 || hb == -half_b.1,
            ;
            if c <= 0 {
                assert(aa * c <= 0) by (nonlinear_arith)
                    requires
                        aa >= 0,
                        c <= 0,
                ;
            }
        }
        if oc_squared <= radius_squared {
            return false;
        }
        let c: u128 = oc_squared - radius_squared;
        let left = mul_wide(half_b.1, half_b.1);
        let right = mul_wide(a, c);
        wide_less(left, right)
    }

    /// The two roots of a ray that does not miss.
    fn roots(&self, ray: &Ray) -> (r: (Scalar, Scalar))
        requires
            self.spec_discriminant(*ray) >= 0,
        ensures
            r.0 == self.spec_near_root(*ray),
            r.1 == self.spec_far_root(*ray),
    {
        let oc = self.oc(ray);
        let half_b = sum_products(
            oc.x.raw,
            ray.direction.x.raw,
            oc.y.raw,
            ray.direction.y.raw,
            oc.z.raw,
            ray.direction.z.raw,
        );
        proof {
            ray.direction.lemma_largest_bound();
            oc.lemma_largest_bound();
        }
        let a: u128 = ray.direction.sum_of_squares(1);
        let oc_squared: u128 = oc.sum_of_squares(1);
        let radius_squared: u128 = product(self.radius.raw, self.radius.raw) as u128;
        let ghost hb = self.spec_half_b(*ray);
        let ghost c = self.spec_c(*ray);
        let ghost disc = self.spec_discriminant(*ray);
        proof {
            assert(self.radius.raw * self.radius.raw >= 0) by (nonlinear_arith);
            assert(self.spec_a(*ray) == a);
            assert(c == oc_squared - radius_squared);
            assert(hb * hb == half_b.1 * half_b.1) by (nonlinear_arith)
                requires
                    hb == half_b.1 || hb == -half_b.1,
            ;
            Sphere::lemma_mixed_bound(oc, ray.direction);
            assert(half_b.1 * half_b.1 <= 9 * (0x4000_0000_0000_0000_0000_0000_0000_0000int
                * 0x4000_0000_0000_0000_0000_0000_0000_0000int)) by (nonlinear_arith)
                requires
                    half_b.1 <= 3 * 0x4000_0000_0000_0000_0000_0000_0000_0000,
            ;
        }
        let square = mul_wide(half_b.1, half_b.1);
        let exact = if oc_squared > radius_squared {
            let c_size: u128 = oc_squared - radius_squared;
            let less = mul_wide(a, c_size);
            wide_sub(square, less)
        } else {
            let c_size: u128 = radius_squared - oc_squared;
            let more = mul_wide(a, c_size);
            proof {
                assert(a * c_size <= 3 * (0x4000_0000_0000_0000_0000_0000_0000_0000int
                    * 0x4000_0000_0000_0000_0000_0000_0000_0000int)) by (nonlinear_arith)
                    requires
                        a <= 3 * 0x4000_0000_0000_0000_0000_0000_0000_0000,
                        c_size <= 0x4000_0000_0000_0000_0000_0000_0000_0000,
                ;
                assert(a * (-c) == -(a * c)) by (nonlinear_arith);
            }
            wide_add(square, more)
        };
        assert(wide(exact.0, exact.1) == disc);
        let reach: u128 = wide_sqrt(exact);
        proof {
            lemma_floor_sqrt_is(disc, reach as int);
        }
        let near = if half_b.0 {
            if half_b.1 >= reach {
                Sphere::quotient(false, (0, half_b.1 - reach), a)
            } else {
                Sphere::quotient(true, (0, reach - half_b.1), a)
            }
        } else {
            Sphere::quotient(true, wide_add((0, half_b.1), (0, reach)), a)
        };
        let far = if half_b.0 {
            Sphere::quotient(false, wide_add((0, half_b.1), (0, reach)), a)
        } else if reach >= half_b.1 {
            Sphere::quotient(false, (0, reach - half_b.1), a)
        } else {
            Sphere::quotient(true, (0, half_b.1 - reach), a)
        };
        (near, far)
    }

    /// The scalar for the numerator `n`, given by sign and magnitude in raw
    /// squares, over `a`: `n SCALE / a`, rounded toward zero and clamped; zero
    /// where `a` is zero.
    fn quotient(negative: bool, n: (u128, u128), a: u128) -> (r: Scalar)
        requires
            n.0 <= 1,
        ensures
            r == Scalar::of(
                quot(
                    (if negative {
                        -wide(n.0, n.1)
                    } else {
                        wide(n.0, n.1)
                    }) * SCALE,
                    a as int,
                ),
            ),
    {
        if a == 0 {
            return Scalar::zero();
        }
        let low = mul_wide(n.1, SCALE as u128);
        assert(n.1 * SCALE <= 0xffff_ffff_ffff_ffff_ffff_ffff_ffff_ffff * SCALE);
        let scaled: (u128, u128) = if n.0 == 1 {
            (low.0 + SCALE as u128, low.1)
        } else {
            low
        };
        assert(wide(scaled.0, scaled.1) == wide(n.0, n.1) * SCALE);
        let q: u128 = wide_div(scaled, a, RAW_MAX as u128);
        proof {
            lemma_quot_negate(wide(n.0, n.1) * SCALE, a as int);
            assert((-wide(n.0, n.1)) * SCALE == -(wide(n.0, n.1) * SCALE));
        }
        if negative {
            Scalar { raw: -(q as i64) }
        } else {
            Scalar { raw: q as i64 }
        }
    }

    /// The dot product of two vectors in raw squares is at most three times
    /// two to the 126 in magnitude.
    proof fn lemma_mixed_bound(u: Vec3, v: Vec3)
        ensures
            -3 * 0x4000_0000_0000_0000_0000_0000_0000_0000 <= u.raw_dot(v) <= 3
                * 0x4000_0000_0000_0000_0000_0000_0000_0000,
    {
        Sphere::lemma_product_bound(u.x.raw as int, v.x.raw as int);
        Sphere::lemma_product_bound(u.y.raw as int, v.y.raw as int);
        Sphere::lemma_product_bound(u.z.raw as int, v.z.raw as int);
    }

    /// The product of two raw values is at most two to the 126 in magnitude.
    proof fn lemma_product_bound(a: int, b: int)
        requires
            -0x8000_0000_0000_0000 <= a <= 0x8000_0000_0000_0000,
            -0x8000_0000_0000_0000 <= b <= 0x8000_0000_0000_0000,
        ensures
            -0x4000_0000_0000_0000_0000_0000_0000_0000 <= a * b
                <= 0x4000_0000_0000_0000_0000_0000_0000_0000,
    {
        assert(-0x4000_0000_0000_0000_0000_0000_0000_0000 <= a * b
            <= 0x4000_0000_0000_0000_0000_0000_0000_0000) by (nonlinear_arith)
            requires
                -0x8000_0000_0000_0000 <= a <= 0x8000_0000_0000_0000,
                -0x8000_0000_0000_0000 <= b <= 0x8000_0000_0000_0000,
        ;
    }

    /// A ray that passes the center farther off than the radius misses,
    /// whatever the interval: that is where `half_b^2 - a c`, taken exactly,
    /// is negative.
    pub proof fn lemma_miss(self, ray: Ray, t_min: Scalar, t_max: Scalar)
        requires
            self.spec_discriminant(ray) < 0,
        ensures
            self.spec_hit(ray, t_min, t_max) is None,
    {
    }

    /// A ray from inside the sphere has roots: the exact discriminant is not
    /// negative.
    pub proof fn lemma_inside_has_roots(self, ray: Ray)
        requires
            self.spec_c(ray) <= 0,
        ensures
            self.spec_discriminant(ray) >= self.spec_half_b(ray) * self.spec_half_b(ray),
            self.spec_discriminant(ray) >= 0,
    {
        let hb = self.spec_half_b(ray);
        let a = self.spec_a(ray);
        let c = self.spec_c(ray);
        ray.direction.lemma_raw_square_sign();
        assert(hb * hb >= 0) by (nonlinear_arith);
        assert(a * c <= 0) by (nonlinear_arith)
            requires
                a >= 0,
                c <= 0,
        ;
    }

    /// A ray that starts inside the sphere leaves it at the larger root: the
    /// exact discriminant is not negative, the smaller root lies behind the
    /// origin, and so a hit in an interval that starts at zero or later is
    /// the larger root or none.
    pub proof fn lemma_inside(self, ray: Ray, t_min: Scalar, t_max: Scalar)
        requires
            self.spec_c(ray) <= 0,
            t_min.raw >= 0,
        ensures
            self.spec_discriminant(ray) >= 0,
            self.spec_reach(ray) >= size(self.spec_half_b(ray)),
            self.spec_near_root(ray).raw <= 0,
            self.spec_far_root(ray).raw >= 0,
            self.spec_hit(ray, t_min, t_max) == (if in_window(
                self.spec_far_root(ray),
                t_min,
                t_max,
            ) {
                Some(self.spec_record(ray, self.spec_far_root(ray)))
            } else {
                None
            }),
    {
        self.lemma_inside_has_roots(ray);
        let hb = self.spec_half_b(ray);
        let a = self.spec_a(ray);
        let disc = self.spec_discriminant(ray);
        let reach = self.spec_reach(ray);
        let m = size(hb);
        lemma_floor_sqrt_exists(disc);
        assert(hb * hb == m * m) by (nonlinear_arith)
            requires
                m == hb || m == -hb,
        ;
        if reach < m {
            assert((reach + 1) * (reach + 1) <= m * m) by (nonlinear_arith)
                requires
                    0 <= reach,
                    reach + 1 <= m,
            ;
        }
        ray.direction.lemma_raw_square_sign();
        Sphere::lemma_quotient_sign(-hb - reach, a);
        Sphere::lemma_quotient_sign(-hb + reach, a);
    }

    /// A numerator over a divisor that is not negative keeps its sign.
    proof fn lemma_quotient_sign(n: int, a: int)
        requires
            a >= 0,
        ensures
            n <= 0 ==> quot(n * SCALE, a) <= 0,
            n >= 0 ==> quot(n * SCALE, a) >= 0,
    {
        if n <= 0 {
            lemma_quot_monotone(n * SCALE, 0, a);
        }
        if n >= 0 {
            lemma_quot_monotone(0, n * SCALE, a);
        }
        if a > 0 {
            assert(0int / a == 0) by (nonlinear_arith)
                requires
                    a > 0,
            ;
        }
    }

    /// A ray that starts inside the sphere meets it from the back: the record
    /// says so, and its normal is the outward one turned around.
    ///
    /// This holds where rounding cannot turn the sign: the root of the
    /// discriminant must exceed, in trillionths, the squared length of the
    /// direction plus the sum of the direction's coordinates taken once and
    /// once more per unit of radius. Coordinates stay below `ROOM`, so that no
    /// sum on the way is clamped.
    pub proof fn lemma_inside_back_face(self, ray: Ray, t_min: Scalar, t_max: Scalar)
        requires
            self.radius.raw > 0,
            within_bound(ray.origin, ROOM as int),
            within_bound(self.center, ROOM as int),
            self.spec_c(ray) <= 0,
            t_min.raw >= 0,
            within_bound(ray.spec_at(self.spec_far_root(ray)), ROOM as int),
            within_bound(
                self.spec_record(ray, self.spec_far_root(ray)).p.minus(self.center).over(
                    self.radius,
                ),
                RAW_MAX - 1,
            ),
            SCALE * self.spec_reach(ray) >= self.spec_a(ray) + (SCALE + self.radius.raw)
                * one_norm(ray.direction),
        ensures
            self.spec_hit(ray, t_min, t_max) matches Some(h) ==> !h.front_face && h.normal
                == h.p.minus(self.center).over(self.radius).negated(),
    {
        self.lemma_inside(ray, t_min, t_max);
        if self.spec_hit(ray, t_min, t_max) is Some {
            let d = ray.direction;
            let oc = self.spec_oc(ray);
            let far = self.spec_far_root(ray);
            let h = self.spec_hit(ray, t_min, t_max)->0;
            assert(h == self.spec_record(ray, far));
            assert(in_window(far, t_min, t_max));
            let outward = h.p.minus(self.center).over(self.radius);
            let r = self.radius.raw as int;
            let t = far.raw as int;
            let a = self.spec_a(ray);
            let hb = self.spec_half_b(ray);
            let reach = self.spec_reach(ray);
            d.lemma_raw_square_sign();
            if a == 0 {
                assert(t == 0);
            } else {
                let top = (-hb + reach) * SCALE;
                assert(top >= 0);
                lemma_quot_error(top, a);
                assert(t == quot(top, a));
                assert(a * t >= (reach - hb) * SCALE - a);
                let sx = quot(t * d.x.raw, SCALE as int);
                let sy = quot(t * d.y.raw, SCALE as int);
                let sz = quot(t * d.z.raw, SCALE as int);
                lemma_step_share(d.x.raw as int, oc.x.raw as int, sx, t);
                lemma_step_share(d.y.raw as int, oc.y.raw as int, sy, t);
                lemma_step_share(d.z.raw as int, oc.z.raw as int, sz, t);
                let wx = oc.x.raw + sx;
                let wy = oc.y.raw + sy;
                let wz = oc.z.raw + sz;
                let w = h.p.minus(self.center);
                assert(w.x.raw == wx && w.y.raw == wy && w.z.raw == wz);
                lemma_normal_share(d.x.raw as int, wx, outward.x.raw as int, r);
                lemma_normal_share(d.y.raw as int, wy, outward.y.raw as int, r);
                lemma_normal_share(d.z.raw as int, wz, outward.z.raw as int, r);
                let g = d.raw_dot(outward);
                let gx = d.x.raw * outward.x.raw;
                let gy = d.y.raw * outward.y.raw;
                let gz = d.z.raw * outward.z.raw;
                assert(r * g == r * gx + r * gy + r * gz) by (nonlinear_arith)
                    requires
                        g == gx + gy + gz,
                ;
                let d1 = one_norm(d);
                assert(r * d1 == r * size(d.x.raw as int) + r * size(d.y.raw as int) + r * size(
                    d.z.raw as int,
                )) by (nonlinear_arith)
                    requires
                        d1 == size(d.x.raw as int) + size(d.y.raw as int) + size(d.z.raw as int),
                ;
                let ssum = SCALE * (d.x.raw * wx) + SCALE * (d.y.raw * wy) + SCALE * (d.z.raw
                    * wz);
                assert(r * g >= ssum - r * d1);
                let ax = d.x.raw * d.x.raw;
                let ay = d.y.raw * d.y.raw;
                let az = d.z.raw * d.z.raw;
                assert(t * a == t * ax + t * ay + t * az) by (nonlinear_arith)
                    requires
                        a == ax + ay + az,
                ;
                assert(d.x.raw * oc.x.raw == oc.x.raw * d.x.raw && d.y.raw * oc.y.raw == oc.y.raw
                    * d.y.raw && d.z.raw * oc.z.raw == oc.z.raw * d.z.raw) by (nonlinear_arith);
                assert(ssum >= SCALE * hb + t * a - SCALE * d1);
                assert(t * a == a * t) by (nonlinear_arith);
                assert((SCALE + r) * d1 == SCALE * d1 + r * d1) by (nonlinear_arith);
                assert(r * g >= 0);
                if g < 0 {
                    assert(r * g < 0) by (nonlinear_arith)
                        requires
                            r >= 1,
                            g <= -1,
                    ;
                }
                assert(quot(g, SCALE as int) >= 0);
            }
        }
    }

    /// How far the squared distance of a hit point from the center can be
    /// from the squared radius, in raw squares: at most
    /// `2 reach (1 / a + 1 / SCALE) + a / SCALE^2` from the rounding of the
    /// parameter, and `2 |w|_1 + 3` from the rounding of the point, where `w`
    /// is the vector from the center to the point. The bound is stated
    /// multiplied through by `a SCALE^2`.
    ///
    /// For a direction one long and a sphere of radius one that is about
    /// five and a half trillionths of the squared radius.
    pub open spec fn spec_allowance(self, ray: Ray, w: Vec3) -> int {
        2 * ((SCALE * SCALE) * self.spec_reach(ray)) + 2 * (SCALE * (self.spec_reach(ray)
            * self.spec_a(ray))) + self.spec_a(ray) * self.spec_a(ray) + self.spec_a(ray) * ((SCALE
            * SCALE) * (2 * one_norm(w) + 3))
    }

    /// A reported hit lies on the sphere up to rounding: the squared distance
    /// of its point from the center differs from the squared radius by no
    /// more than `spec_allowance`. Coordinates stay below `ROOM`, so that no
    /// sum on the way is clamped.
    pub proof fn lemma_hit_near_sphere(self, ray: Ray, t_min: Scalar, t_max: Scalar)
        requires
            within_bound(ray.origin, ROOM as int),
            within_bound(self.center, ROOM as int),
            self.spec_hit(ray, t_min, t_max) matches Some(h) && within_bound(h.p, ROOM as int),
        ensures
            self.spec_hit(ray, t_min, t_max) matches Some(h) && self.spec_a(ray) * ((SCALE * SCALE)
                * gauge(
                h.p.minus(self.center).raw_dot(h.p.minus(self.center)) - self.radius.raw
                    * self.radius.raw,
            )) <= self.spec_allowance(ray, h.p.minus(self.center)),
    {
        let h = self.spec_hit(ray, t_min, t_max)->0;
        let d = ray.direction;
        let oc = self.spec_oc(ray);
        let t = h.t.raw as int;
        let a = self.spec_a(ray);
        let hb = self.spec_half_b(ray);
        let c = self.spec_c(ray);
        let disc = self.spec_discriminant(ray);
        let reach = self.spec_reach(ray);
        let w = h.p.minus(self.center);
        let rr = self.radius.raw * self.radius.raw;
        let e = w.raw_dot(w) - rr;
        let s = SCALE as int;
        let ss = s * s;
        d.lemma_raw_square_sign();
        lemma_floor_sqrt_exists(disc);
        assert(reach >= 0);
        assert(ss * reach >= 0) by (nonlinear_arith)
            requires
                ss == s * s,
                reach >= 0,
        ;
        assert(reach * a >= 0) by (nonlinear_arith)
            requires
                reach >= 0,
                a >= 0,
        ;
        assert(a * a >= 0) by (nonlinear_arith);
        if a == 0 {
            assert(a * (ss * gauge(e)) == 0) by (nonlinear_arith)
                requires
                    a == 0,
            ;
            assert(a * (ss * (2 * one_norm(w) + 3)) == 0) by (nonlinear_arith)
                requires
                    a == 0,
            ;
        } else {
            // the parameter
            let sr = if h.t == self.spec_near_root(ray) {
                -reach
            } else {
                reach
            };
            let n = -hb + sr;
            assert(h == self.spec_record(ray, h.t));
            assert(t == quot(n * s, a));
            lemma_quot_error(n * s, a);
            let tau = n * s - a * t;
            assert(-a < tau < a);
            let x = a * t + s * hb;
            assert(n * s == s * sr - s * hb) by (nonlinear_arith)
                requires
                    n == -hb + sr,
            ;
            assert(x == s * sr - tau);
            let rho = disc - reach * reach;
            assert((reach + 1) * (reach + 1) == reach * reach + 2 * reach + 1) by (nonlinear_arith);
            assert(sr * sr == reach * reach) by (nonlinear_arith)
                requires
                    sr == reach || sr == -reach,
            ;
            lemma_rounded_square(s, sr, reach, rho, tau, a);
            lemma_complete_square(s, a, t, hb, c);
            let tt = t * t;
            let f = a * tt + 2 * (s * (t * hb)) + ss * c;
            assert(a * f == x * x - ss * disc);
            assert(gauge(a * f) <= 2 * (ss * reach) + 2 * (s * (reach * a)) + a * a);
            // the point
            let step_x = quot(t * d.x.raw, s);
            let step_y = quot(t * d.y.raw, s);
            let step_z = quot(t * d.z.raw, s);
            lemma_quot_error(t * d.x.raw, s);
            lemma_quot_error(t * d.y.raw, s);
            lemma_quot_error(t * d.z.raw, s);
            let mx = t * d.x.raw - s * step_x;
            let my = t * d.y.raw - s * step_y;
            let mz = t * d.z.raw - s * step_z;
            assert(w.x.raw == oc.x.raw + step_x && w.y.raw == oc.y.raw + step_y && w.z.raw
                == oc.z.raw + step_z);
            let vx = s * oc.x.raw + t * d.x.raw;
            let vy = s * oc.y.raw + t * d.y.raw;
            let vz = s * oc.z.raw + t * d.z.raw;
            assert(s * w.x.raw == s * oc.x.raw + s * step_x && s * w.y.raw == s * oc.y.raw + s
                * step_y && s * w.z.raw == s * oc.z.raw + s * step_z) by (nonlinear_arith)
                requires
                    w.x.raw == oc.x.raw + step_x,
                    w.y.raw == oc.y.raw + step_y,
                    w.z.raw == oc.z.raw + step_z,
            ;
            assert(vx == s * w.x.raw + mx && vy == s * w.y.raw + my && vz == s * w.z.raw + mz);
            lemma_rounded_coordinate(s, w.x.raw as int, mx);
            lemma_rounded_coordinate(s, w.y.raw as int, my);
            lemma_rounded_coordinate(s, w.z.raw as int, mz);
            lemma_coordinate_square(s, oc.x.raw as int, d.x.raw as int, t);
            lemma_coordinate_square(s, oc.y.raw as int, d.y.raw as int, t);
            lemma_coordinate_square(s, oc.z.raw as int, d.z.raw as int, t);
            let ox = oc.x.raw * oc.x.raw;
            let oy = oc.y.raw * oc.y.raw;
            let oz = oc.z.raw * oc.z.raw;
            let px = oc.x.raw * d.x.raw;
            let py = oc.y.raw * d.y.raw;
            let pz = oc.z.raw * d.z.raw;
            let dx = d.x.raw * d.x.raw;
            let dy = d.y.raw * d.y.raw;
            let dz = d.z.raw * d.z.raw;
            let vv = vx * vx + vy * vy + vz * vz;
            assert(ss * (ox + oy + oz) == ss * ox + ss * oy + ss * oz) by (nonlinear_arith);
            assert(t * (px + py + pz) == t * px + t * py + t * pz) by (nonlinear_arith);
            assert(s * (t * px + t * py + t * pz) == s * (t * px) + s * (t * py) + s * (t * pz))
                by (nonlinear_arith);
            assert(tt * (dx + dy + dz) == tt * dx + tt * dy + tt * dz) by (nonlinear_arith);
            assert(a * tt == tt * a) by (nonlinear_arith);
            assert(ss * c == ss * (ox + oy + oz) - ss * rr) by (nonlinear_arith)
                requires
                    c == ox + oy + oz - rr,
            ;
            assert(vv == f + ss * rr);
            let wx = w.x.raw * w.x.raw;
            let wy = w.y.raw * w.y.raw;
            let wz = w.z.raw * w.z.raw;
            let ww = wx + wy + wz;
            assert(ss * ww == ss * wx + ss * wy + ss * wz) by (nonlinear_arith)
                requires
                    ww == wx + wy + wz,
            ;
            let w1 = one_norm(w);
            assert(gauge(w.x.raw as int) == size(w.x.raw as int) && gauge(w.y.raw as int) == size(
                w.y.raw as int,
            ) && gauge(w.z.raw as int) == size(w.z.raw as int));
            assert(ss * (2 * w1 + 3) == ss * (2 * gauge(w.x.raw as int) + 1) + ss * (2 * gauge(
                w.y.raw as int,
            ) + 1) + ss * (2 * gauge(w.z.raw as int) + 1)) by (nonlinear_arith)
                requires
                    w1 == gauge(w.x.raw as int) + gauge(w.y.raw as int) + gauge(w.z.raw as int),
            ;
            let delta = ss * ww - vv;
            assert(gauge(delta) <= ss * (2 * w1 + 3));
            assert(ss * e == ss * ww - ss * rr) by (nonlinear_arith)
                requires
                    e == ww - rr,
            ;
            assert(ss * e == delta + f);
            let bound = ss * (2 * w1 + 3);
            assert(a * (ss * e) == a * delta + a * f) by (nonlinear_arith)
                requires
                    ss * e == delta + f,
            ;
            assert(gauge(a * delta) <= a * bound) by (nonlinear_arith)
                requires
                    a >= 1,
                    gauge(delta) <= bound,
                    gauge(delta) == delta || gauge(delta) == -delta,
                    gauge(a * delta) == a * delta || gauge(a * delta) == -(a * delta),
            ;
            let se = ss * e;
            let sg = ss * gauge(e);
            assert(sg == gauge(se)) by (nonlinear_arith)
                requires
                    se == ss * e,
                    sg == ss * gauge(e),
                    gauge(e) == e || gauge(e) == -e,
                    gauge(e) >= 0,
                    ss >= 1,
                    gauge(se) == se || gauge(se) == -se,
                    gauge(se) >= 0,
            ;
            assert(a * sg == gauge(a * se)) by (nonlinear_arith)
                requires
                    sg == gauge(se),
                    gauge(se) == se || gauge(se) == -se,
                    gauge(se) >= 0,
                    a >= 1,
                    gauge(a * se) == a * se || gauge(a * se) == -(a * se),
                    gauge(a * se) >= 0,
            ;
        }
    }

    /// The recorded normal has unit length up to rounding: its squared length
    /// times the squared radius differs from `SCALE^2` times the squared
    /// radius by what the hit point is off the sphere (`spec_allowance`) and
    /// what the division by the radius rounds away, `2 SCALE r |w|_1 + 3 r^2`.
    /// The bound is stated multiplied through by `a`.
    ///
    /// For a direction one long and a sphere of radius one the length of the
    /// normal is within a few trillionths of one.
    pub proof fn lemma_normal_unit(self, ray: Ray, t_min: Scalar, t_max: Scalar)
        requires
            self.radius.raw > 0,
            within_bound(ray.origin, ROOM as int),
            within_bound(self.center, ROOM as int),
            self.spec_hit(ray, t_min, t_max) matches Some(h) && within_bound(h.p, ROOM as int)
                && within_bound(h.p.minus(self.center).over(self.radius), RAW_MAX - 1),
        ensures
            self.spec_hit(ray, t_min, t_max) matches Some(h) && self.spec_a(ray) * gauge(
                (self.radius.raw * self.radius.raw) * h.normal.raw_dot(h.normal) - (SCALE * SCALE)
                    * (self.radius.raw * self.radius.raw),
            ) <= self.spec_allowance(ray, h.p.minus(self.center)) + self.spec_a(ray) * (2 * (
            SCALE * (self.radius.raw * one_norm(h.p.minus(self.center)))) + 3 * (self.radius.raw
                * self.radius.raw)),
    {
        self.lemma_hit_near_sphere(ray, t_min, t_max);
        let h = self.spec_hit(ray, t_min, t_max)->0;
        let w = h.p.minus(self.center);
        let out = w.over(self.radius);
        let r = self.radius.raw as int;
        let s = SCALE as int;
        let a = self.spec_a(ray);
        let rr = r * r;
        let ss = s * s;
        assert(h == self.spec_record(ray, h.t));
        assert(h.normal == out || h.normal == out.negated());
        let nn = h.normal.raw_dot(h.normal);
        let gx = out.x.raw as int;
        let gy = out.y.raw as int;
        let gz = out.z.raw as int;
        assert(nn == gx * gx + gy * gy + gz * gz) by (nonlinear_arith)
            requires
                nn == h.normal.x.raw * h.normal.x.raw + h.normal.y.raw * h.normal.y.raw
                    + h.normal.z.raw * h.normal.z.raw,
                h.normal.x.raw == gx || h.normal.x.raw == -gx,
                h.normal.y.raw == gy || h.normal.y.raw == -gy,
                h.normal.z.raw == gz || h.normal.z.raw == -gz,
        ;
        lemma_quot_error(w.x.raw * s, r);
        lemma_quot_error(w.y.raw * s, r);
        lemma_quot_error(w.z.raw * s, r);
        let ex = s * w.x.raw - r * gx;
        let ey = s * w.y.raw - r * gy;
        let ez = s * w.z.raw - r * gz;
        assert(w.x.raw * s == s * w.x.raw && w.y.raw * s == s * w.y.raw && w.z.raw * s == s
            * w.z.raw) by (nonlinear_arith);
        lemma_rounded_quotient(s, w.x.raw as int, gx, r, ex);
        lemma_rounded_quotient(s, w.y.raw as int, gy, r, ey);
        lemma_rounded_quotient(s, w.z.raw as int, gz, r, ez);
        let wx = w.x.raw * w.x.raw;
        let wy = w.y.raw * w.y.raw;
        let wz = w.z.raw * w.z.raw;
        let ww = wx + wy + wz;
        let w1 = one_norm(w);
        assert(gauge(w.x.raw as int) == size(w.x.raw as int) && gauge(w.y.raw as int) == size(
            w.y.raw as int,
        ) && gauge(w.z.raw as int) == size(w.z.raw as int));
        assert(rr * nn == rr * (gx * gx) + rr * (gy * gy) + rr * (gz * gz)) by (nonlinear_arith)
            requires
                nn == gx * gx + gy * gy + gz * gz,
        ;
        assert(ss * ww == ss * wx + ss * wy + ss * wz) by (nonlinear_arith)
            requires
                ww == wx + wy + wz,
        ;
        assert(r * w1 == r * gauge(w.x.raw as int) + r * gauge(w.y.raw as int) + r * gauge(
            w.z.raw as int,
        )) by (nonlinear_arith)
            requires
                w1 == gauge(w.x.raw as int) + gauge(w.y.raw as int) + gauge(w.z.raw as int),
        ;
        assert(s * (r * w1) == s * (r * gauge(w.x.raw as int)) + s * (r * gauge(w.y.raw as int))
            + s * (r * gauge(w.z.raw as int))) by (nonlinear_arith)
            requires
                r * w1 == r * gauge(w.x.raw as int) + r * gauge(w.y.raw as int) + r * gauge(
                    w.z.raw as int,
                ),
        ;
        let first = rr * nn - ss * ww;
        let bound = 2 * (s * (r * w1)) + 3 * rr;
        assert(gauge(first) <= bound);
        let e = ww - rr;
        assert(ss * ww - ss * rr == ss * e) by (nonlinear_arith)
            requires
                e == ww - rr,
        ;
        let total = rr * nn - ss * rr;
        assert(total == first + ss * e);
        let se = ss * e;
        assert(ss >= 1) by (nonlinear_arith)
            requires
                ss == s * s,
                s >= 1,
        ;
        assert(ss * gauge(e) == gauge(se)) by (nonlinear_arith)
            requires
                se == ss * e,
                gauge(e) == e || gauge(e) == -e,
                gauge(e) >= 0,
                ss >= 1,
                gauge(se) == se || gauge(se) == -se,
                gauge(se) >= 0,
        ;
        ray.direction.lemma_raw_square_sign();
        assert(a * gauge(total) <= a * gauge(first) + a * gauge(se)) by (nonlinear_arith)
            requires
                a >= 0,
                total == first + se,
                gauge(total) == total || gauge(total) == -total,
                gauge(first) == first || gauge(first) == -first,
                gauge(se) == se || gauge(se) == -se,
                gauge(total) >= 0,
                gauge(first) >= 0,
                gauge(se) >= 0,
        ;
        assert(a * gauge(first) <= a * bound) by (nonlinear_arith)
            requires
                a >= 0,
                gauge(first) <= bound,
        ;
    }

    /// A ray that starts at the center of a sphere meets it from inside: the
    /// record says so, and its normal is the outward one turned around.
    pub proof fn lemma_from_center(self, ray: Ray, t_min: Scalar, t_max: Scalar)
        requires
            self.center.wf(),
            ray.origin == self.center,
            self.radius.raw > 0,
            t_min.raw >= 0,
        ensures
            self.spec_hit(ray, t_min, t_max) matches Some(h) ==> !h.front_face && h.normal
                == h.p.minus(self.center).over(self.radius).negated(),
    {
        if self.spec_hit(ray, t_min, t_max) is Some {
            let h = self.spec_hit(ray, t_min, t_max)->0;
            let t = h.t;
            assert(t.raw > 0);
            let d = ray.direction;
            let outward = h.p.minus(self.center).over(self.radius);
            assert(h == self.spec_record(ray, t));
            Sphere::lemma_outward_sign(self.center.x, d.x, t, self.radius);
            Sphere::lemma_outward_sign(self.center.y, d.y, t, self.radius);
            Sphere::lemma_outward_sign(self.center.z, d.z, t, self.radius);
            assert(d.raw_dot(outward) >= 0);
        }
    }

    /// One coordinate of the step from a sphere's center along a ray that
    /// starts there, divided by the radius, has the sign of the ray's
    /// direction in that coordinate.
    proof fn lemma_outward_sign(c: Scalar, d: Scalar, t: Scalar, radius: Scalar)
        requires
            c.wf(),
            t.raw >= 0,
            radius.raw > 0,
        ensures
            d.raw * Ray::spec_along(c, d, t).minus(c).over(radius).raw >= 0,
    {
        let w = Ray::spec_along(c, d, t).minus(c);
        let o = w.over(radius);
        Sphere::lemma_quotient_sign_plain(t.raw * d.raw);
        assert((t.raw >= 0 && d.raw >= 0 ==> t.raw * d.raw >= 0) && (t.raw >= 0 && d.raw <= 0
            ==> t.raw * d.raw <= 0)) by (nonlinear_arith);
        w.lemma_over_sign(radius);
        assert(d.raw * o.raw >= 0) by (nonlinear_arith)
            requires
                (d.raw >= 0 && o.raw >= 0) || (d.raw <= 0 && o.raw <= 0),
        ;
    }

    /// A quotient by `SCALE` keeps the sign of what is divided.
    proof fn lemma_quotient_sign_plain(n: int)
        ensures
            n <= 0 ==> quot(n, SCALE as int) <= 0,
            n >= 0 ==> quot(n, SCALE as int) >= 0,
    {
    }

    /// The smaller root is not larger than the larger one.
    pub proof fn lemma_roots_ordered(self, ray: Ray)
        requires
            self.spec_discriminant(ray) >= 0,
        ensures
            self.spec_near_root(ray).raw <= self.spec_far_root(ray).raw,
    {
        let hb = self.spec_half_b(ray);
        let reach = self.spec_reach(ray);
        lemma_floor_sqrt_exists(self.spec_discriminant(ray));
        ray.direction.lemma_raw_square_sign();
        lemma_quot_monotone((-hb - reach) * SCALE, (-hb + reach) * SCALE, self.spec_a(ray));
    }
}

impl Hittable for Sphere {
    /// No hit where the exact discriminant is negative; else the smaller root
    /// where it lies in the interval; else the larger root where that one
    /// does; else no hit.
    open spec fn spec_hit(&self, ray: Ray, t_min: Scalar, t_max: Scalar) -> Option<HitRecord> {
        if self.spec_discriminant(ray) < 0 {
            None
        } else if in_window(self.spec_near_root(ray), t_min, t_max) {
            Some(self.spec_record(ray, self.spec_near_root(ray)))
        } else if in_window(self.spec_far_root(ray), t_min, t_max) {
            Some(self.spec_record(ray, self.spec_far_root(ray)))
        } else {
            None
        }
    }

    /// Holds because the smaller root is tried first and is not the larger.
    proof fn lemma_hit_window(&self, ray: Ray, t_min: Scalar, t_max: Scalar, t_cut: Scalar) {
        if self.spec_discriminant(ray) >= 0 {
            self.lemma_roots_ordered(ray);
        }
    }

    /// Solves the quadratic `a t^2 + 2 half_b t + c = 0` exactly up to the
    /// root and the quotient, and takes the nearest root in `(t_min, t_max]`.
    fn hit(&self, ray: &Ray, t_min: Scalar, t_max: Scalar) -> (r: Option<HitRecord>) {
        if self.misses(ray) {
            return None;
        }
        let both = self.roots(ray);
        let mut root = both.0;
        if root.raw <= t_min.raw || t_max.raw < root.raw || root.raw >= RAW_MAX || root.raw
            <= -RAW_MAX {
            root = both.1;
            if root.raw <= t_min.raw || t_max.raw < root.raw || root.raw >= RAW_MAX || root.raw
                <= -RAW_MAX {
                return None;
            }
        }
        let p = ray.at(root);
        let outward_normal = (p - self.center) / self.radius;
        Some(HitRecord::new(root, p, &outward_normal, ray, self.material))
    }
}

} // verus!
