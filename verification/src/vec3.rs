//! Three-component vectors over [`Scalar`]: points, directions and colors.
//!
//! No operation normalizes on its own; a caller that needs a unit vector asks
//! for one.

use core::ops::Neg;
use rand::rngs::ThreadRng;
use vstd::prelude::*;
use crate::scalar::{
    floor_sqrt, floor_sqrt_u128, lemma_floor_sqrt_is, lemma_quot_negate, quot, round_wide,
    sum_products, Scalar, RAW_MAX, SCALE,
};

verus! {

/// Raw bound under which a component counts as vanishing: a hundred-millionth.
pub const NEAR_ZERO: i64 = 10_000;

/// Two to the power 61: a vector is stretched until its largest component
/// is at least this large, before its length is taken to divide by.
pub const STRETCHED: u64 = 0x2000_0000_0000_0000;

/// How often a rejection sampler draws before it settles for the origin.
pub const MAX_DRAWS: u32 = 0xffff_ffff;

/// A vector with three fixed-point components.
#[derive(Clone, Copy, Debug, PartialEq, Eq, Structural)]
pub struct Vec3 {
    pub x: Scalar,
    pub y: Scalar,
    pub z: Scalar,
}

/// A vector read as a location.
pub type Point3 = Vec3;

impl Vec3 {
    /// Every component lies in the symmetric range.
    pub open spec fn wf(self) -> bool {
        self.x.wf() && self.y.wf() && self.z.wf()
    }

    /// The vector of zeros.
    pub open spec fn origin() -> Vec3 {
        Vec3 { x: Scalar { raw: 0 }, y: Scalar { raw: 0 }, z: Scalar { raw: 0 } }
    }

    /// The component-wise sum.
    pub open spec fn plus(self, rhs: Vec3) -> Vec3 {
        Vec3 { x: self.x.plus(rhs.x), y: self.y.plus(rhs.y), z: self.z.plus(rhs.z) }
    }

    /// The component-wise difference.
    pub open spec fn minus(self, rhs: Vec3) -> Vec3 {
        Vec3 { x: self.x.minus(rhs.x), y: self.y.minus(rhs.y), z: self.z.minus(rhs.z) }
    }

    /// The opposite vector.
    pub open spec fn negated(self) -> Vec3 {
        Vec3 { x: self.x.negated(), y: self.y.negated(), z: self.z.negated() }
    }

    /// The vector stretched by the factor `s`.
    pub open spec fn scaled(self, s: Scalar) -> Vec3 {
        Vec3 { x: s.times(self.x), y: s.times(self.y), z: s.times(self.z) }
    }

    /// The component-wise product.
    pub open spec fn times(self, rhs: Vec3) -> Vec3 {
        Vec3 { x: self.x.times(rhs.x), y: self.y.times(rhs.y), z: self.z.times(rhs.z) }
    }

    /// The vector with every component divided by `s`.
    pub open spec fn over(self, s: Scalar) -> Vec3 {
        Vec3 { x: self.x.over(s), y: self.y.over(s), z: self.z.over(s) }
    }

    /// The sum of the products of the raw components: the dot product in
    /// squares of raw units, exact.
    pub open spec fn raw_dot(self, rhs: Vec3) -> int {
        self.x.raw * rhs.x.raw + self.y.raw * rhs.y.raw + self.z.raw * rhs.z.raw
    }

    /// The dot product: the exact sum of products, rounded once.
    pub open spec fn spec_dot(self, rhs: Vec3) -> Scalar {
        Scalar::of(quot(self.raw_dot(rhs), SCALE as int))
    }

    /// The cross product.
    pub open spec fn spec_cross(self, rhs: Vec3) -> Vec3 {
        Vec3 {
            x: self.y.times(rhs.z).minus(self.z.times(rhs.y)),
            y: self.z.times(rhs.x).minus(self.x.times(rhs.z)),
            z: self.x.times(rhs.y).minus(self.y.times(rhs.x)),
        }
    }

    /// The dot product of the vector with itself.
    pub open spec fn spec_length_squared(self) -> Scalar {
        self.spec_dot(self)
    }

    /// The length: the square root of the exact sum of squares, rounded down
    /// once. It is zero for the zero vector only.
    pub open spec fn spec_length(self) -> Scalar {
        Scalar::of(floor_sqrt(self.raw_dot(self)))
    }

    /// The largest magnitude among the raw components.
    pub open spec fn spec_largest(self) -> int {
        let x = self.x.magnitude_raw();
        let y = self.y.magnitude_raw();
        let z = self.z.magnitude_raw();
        if x >= y && x >= z {
            x
        } else if y >= z {
            y
        } else {
            z
        }
    }

    /// The power of two by which a vector with largest component `m` is
    /// stretched: the smallest that brings `m` to `STRETCHED` or more.
    pub open spec fn stretch(m: int) -> int
        decreases 2 * STRETCHED - m,
    {
        if m <= 0 || m >= STRETCHED {
            1
        } else {
            2 * Vec3::stretch(2 * m)
        }
    }

    /// The factor by which this vector is stretched.
    pub open spec fn spec_stretch(self) -> int {
        Vec3::stretch(self.spec_largest())
    }

    /// The length of the stretched vector, rounded down: the length in
    /// units of a raw unit over `spec_stretch`.
    pub open spec fn spec_fine_length(self) -> int {
        floor_sqrt(self.raw_dot(self) * (self.spec_stretch() * self.spec_stretch()))
    }

    /// `s` divided by the length of this vector, rounded toward zero and
    /// clamped; zero for the zero vector. The length is taken to the
    /// precision of `spec_fine_length`, so that the quotient is as good for a
    /// short vector as for a long one.
    pub open spec fn spec_over_length(self, s: Scalar) -> Scalar {
        if self.spec_largest() == 0 {
            Scalar { raw: 0 }
        } else {
            Scalar::of(quot(s.raw * SCALE * self.spec_stretch(), self.spec_fine_length()))
        }
    }

    /// The vector divided by its length; the zero vector for the zero vector.
    pub open spec fn spec_unit(self) -> Vec3 {
        Vec3 {
            x: self.spec_over_length(self.x),
            y: self.spec_over_length(self.y),
            z: self.spec_over_length(self.z),
        }
    }

    /// Every component is smaller in magnitude than a hundred-millionth.
    pub open spec fn spec_near_zero(self) -> bool {
        &&& self.x.magnitude().raw < NEAR_ZERO
        &&& self.y.magnitude().raw < NEAR_ZERO
        &&& self.z.magnitude().raw < NEAR_ZERO
    }

    /// The mirror image about the plane with normal `n`: `v - 2 (v . n) n`.
    pub open spec fn spec_reflect(self, n: Vec3) -> Vec3 {
        self.minus(n.scaled(Scalar::of(2 * SCALE).times(self.spec_dot(n))))
    }

    /// The cosine of the angle of incidence that `spec_refract` works with:
    /// the smaller of `-(v . n)` and one.
    pub open spec fn spec_cos_incidence(self, n: Vec3) -> Scalar {
        self.spec_dot(n).negated().lesser(Scalar { raw: SCALE })
    }

    /// The part of the refracted direction that lies in the surface.
    pub open spec fn spec_refract_perp(self, n: Vec3, ratio: Scalar) -> Vec3 {
        self.plus(n.scaled(self.spec_cos_incidence(n))).scaled(ratio)
    }

    /// The refracted direction for the ratio `ratio` of refractive indices.
    pub open spec fn spec_refract(self, n: Vec3, ratio: Scalar) -> Vec3 {
        let perp = self.spec_refract_perp(n, ratio);
        let along = Scalar { raw: SCALE }.minus(
            perp.spec_length_squared(),
        ).magnitude().root().negated();
        perp.plus(n.scaled(along))
    }

    /// Every component lies in `[lo, hi)`.
    pub open spec fn within(self, lo: Scalar, hi: Scalar) -> bool {
        &&& lo.raw <= self.x.raw < hi.raw
        &&& lo.raw <= self.y.raw < hi.raw
        &&& lo.raw <= self.z.raw < hi.raw
    }

    /// A point that `gen_in_unit_sphere` can return: components in `[0, 1)` and
    /// a squared length below one.
    pub open spec fn in_unit_sphere(self) -> bool {
        &&& self.within(Scalar { raw: 0 }, Scalar { raw: SCALE })
        &&& self.spec_inside_unit_ball()
    }

    /// A point that `gen_in_unit_disk` can return: `x` and `y` in `[-1, 1)`,
    /// `z` zero, and a squared length below one.
    pub open spec fn in_unit_disk(self) -> bool {
        &&& -SCALE <= self.x.raw < SCALE
        &&& -SCALE <= self.y.raw < SCALE
        &&& self.z.raw == 0
        &&& self.spec_inside_unit_ball()
    }

    /// The dot product does not depend on the order of its operands.
    pub proof fn lemma_dot_commutes(self, rhs: Vec3)
        ensures
            self.spec_dot(rhs) == rhs.spec_dot(self),
    {
        assert(self.raw_dot(rhs) == rhs.raw_dot(self)) by (nonlinear_arith)
            requires
                self.raw_dot(rhs) == self.x.raw * rhs.x.raw + self.y.raw * rhs.y.raw + self.z.raw
                    * rhs.z.raw,
                rhs.raw_dot(self) == rhs.x.raw * self.x.raw + rhs.y.raw * self.y.raw + rhs.z.raw
                    * self.z.raw,
        ;
    }

    /// Swapping the operands of a cross product negates it.
    pub proof fn lemma_cross_anticommutes(self, rhs: Vec3)
        ensures
            self.spec_cross(rhs) == rhs.spec_cross(self).negated(),
    {
        self.y.lemma_times_commutes(rhs.z);
        self.z.lemma_times_commutes(rhs.y);
        self.z.lemma_times_commutes(rhs.x);
        self.x.lemma_times_commutes(rhs.z);
        self.x.lemma_times_commutes(rhs.y);
        self.y.lemma_times_commutes(rhs.x);
        self.y.times(rhs.z).lemma_minus_swapped(self.z.times(rhs.y));
        self.z.times(rhs.x).lemma_minus_swapped(self.x.times(rhs.z));
        self.x.times(rhs.y).lemma_minus_swapped(self.y.times(rhs.x));
    }

    /// A vector and its opposite add up to the zero vector.
    pub proof fn lemma_plus_negated(self)
        requires
            self.wf(),
        ensures
            self.plus(self.negated()) == Vec3::origin(),
    {
        self.x.lemma_plus_negated();
        self.y.lemma_plus_negated();
        self.z.lemma_plus_negated();
    }

    /// The dot product with the opposite vector is the negated dot product.
    pub proof fn lemma_dot_negated(self, rhs: Vec3)
        requires
            rhs.wf(),
        ensures
            self.spec_dot(rhs.negated()) == self.spec_dot(rhs).negated(),
    {
        let n = rhs.negated();
        assert(self.raw_dot(n) == -self.raw_dot(rhs)) by (nonlinear_arith)
            requires
                n.x.raw == -rhs.x.raw,
                n.y.raw == -rhs.y.raw,
                n.z.raw == -rhs.z.raw,
                self.raw_dot(n) == self.x.raw * n.x.raw + self.y.raw * n.y.raw + self.z.raw
                    * n.z.raw,
                self.raw_dot(rhs) == self.x.raw * rhs.x.raw + self.y.raw * rhs.y.raw + self.z.raw
                    * rhs.z.raw,
        ;
        lemma_quot_negate(self.raw_dot(rhs), SCALE as int);
    }

    /// The exact sum of squares is not negative, and zero for the zero
    /// vector only.
    pub proof fn lemma_raw_square_sign(self)
        ensures
            self.raw_dot(self) >= 0,
            self.raw_dot(self) == 0 <==> self.spec_largest() == 0,
            self.raw_dot(self) >= self.spec_largest() * self.spec_largest(),
    {
        let x = self.x.raw as int;
        let y = self.y.raw as int;
        let z = self.z.raw as int;
        let m = self.spec_largest();
        assert(x * x >= 0 && y * y >= 0 && z * z >= 0 && (x != 0 ==> x * x > 0) && (y != 0 ==> y
            * y > 0) && (z != 0 ==> z * z > 0) && (m == x || m == -x ==> m * m == x * x) && (m == y
            || m == -y ==> m * m == y * y) && (m == z || m == -z ==> m * m == z * z))
            by (nonlinear_arith);
    }

    /// No raw component is larger in magnitude than two to the 63, and so
    /// the exact sum of squares is below two to the 128.
    pub proof fn lemma_largest_bound(self)
        ensures
            0 <= self.spec_largest() <= 0x8000_0000_0000_0000,
            0 <= self.raw_dot(self) <= 3 * 0x4000_0000_0000_0000_0000_0000_0000_0000,
    {
        let x = self.x.raw as int;
        let y = self.y.raw as int;
        let z = self.z.raw as int;
        assert(0 <= x * x <= 0x4000_0000_0000_0000_0000_0000_0000_0000 && 0 <= y * y
            <= 0x4000_0000_0000_0000_0000_0000_0000_0000 && 0 <= z * z
            <= 0x4000_0000_0000_0000_0000_0000_0000_0000) by (nonlinear_arith)
            requires
                -0x8000_0000_0000_0000 <= x <= 0x8000_0000_0000_0000,
                -0x8000_0000_0000_0000 <= y <= 0x8000_0000_0000_0000,
                -0x8000_0000_0000_0000 <= z <= 0x8000_0000_0000_0000,
        ;
    }

    /// The squared length of a vector is not negative.
    pub proof fn lemma_length_squared_sign(self)
        ensures
            self.spec_length_squared().raw >= 0,
    {
        self.lemma_raw_square_sign();
    }

    /// A vector that is perpendicular to the normal is its own mirror image.
    pub proof fn lemma_reflect_perpendicular(self, n: Vec3)
        requires
            self.wf(),
            self.spec_dot(n).raw == 0,
        ensures
            self.spec_reflect(n) == self,
    {
        assert(self.spec_dot(n) == (Scalar { raw: 0 }));
        Scalar::of(2 * SCALE).lemma_times_zero();
        n.x.lemma_times_zero();
        n.y.lemma_times_zero();
        n.z.lemma_times_zero();
    }

    /// The vector with the given components.
    pub fn new(x: Scalar, y: Scalar, z: Scalar) -> (r: Vec3)
        ensures
            r == (Vec3 { x, y, z }),
    {
        Vec3 { x, y, z }
    }

    /// The vector of zeros.
    pub fn zero() -> (r: Vec3)
        ensures
            r == Vec3::origin(),
    {
        Vec3 { x: Scalar::zero(), y: Scalar::zero(), z: Scalar::zero() }
    }

    /// A vector whose components are drawn from `[lo, hi)`, one after another.
    pub fn gen_range(rng: &mut ThreadRng, lo: Scalar, hi: Scalar) -> (r: Vec3)
        requires
            lo.raw < hi.raw,
        ensures
            r.within(lo, hi),
    {
        let x = Scalar::gen_range(rng, lo, hi);
        let y = Scalar::gen_range(rng, lo, hi);
        let z = Scalar::gen_range(rng, lo, hi);
        Vec3 { x, y, z }
    }

    /// A point of the unit ball with components in `[0, 1)`, by rejection:
    /// draws until the squared length is below one. After `MAX_DRAWS`
    /// rejections in a row it returns the origin.
    pub fn gen_in_unit_sphere(rng: &mut ThreadRng) -> (r: Vec3)
        ensures
            r.in_unit_sphere(),
    {
        let mut left: u32 = MAX_DRAWS;
        while left > 0
            decreases left,
        {
            let p = Vec3::gen_range(rng, Scalar::zero(), Scalar::one());
            if p.inside_unit_ball() {
                return p;
            }
            left -= 1;
        }
        Vec3::zero()
    }

    /// A point of the unit disk in the plane `z = 0`, by rejection: draws `x`
    /// and `y` from `[-1, 1)` until the squared length is below one. After
    /// `MAX_DRAWS` rejections in a row it returns the origin.
    pub fn gen_in_unit_disk(rng: &mut ThreadRng) -> (r: Vec3)
        ensures
            r.in_unit_disk(),
    {
        let mut left: u32 = MAX_DRAWS;
        while left > 0
            decreases left,
        {
            let x = Scalar::gen_range(rng, Scalar { raw: -SCALE }, Scalar { raw: SCALE });
            let y = Scalar::gen_range(rng, Scalar { raw: -SCALE }, Scalar { raw: SCALE });
            let p = Vec3::new(x, y, Scalar::zero());
            if p.inside_unit_ball() {
                return p;
            }
            left -= 1;
        }
        Vec3::zero()
    }

    /// The squared length is below one: what a rejection sampler asks of a
    /// candidate before it hands it out.
    pub open spec fn spec_inside_unit_ball(self) -> bool {
        self.spec_length_squared().raw < SCALE
    }

    /// Whether a rejection sampler keeps this candidate: whether its squared
    /// length is below one.
    pub fn inside_unit_ball(&self) -> (r: bool)
        ensures
            r == self.spec_inside_unit_ball(),
    {
        self.length_squared().raw < SCALE
    }

    /// The dot product of the vector with itself.
    pub fn length_squared(&self) -> (r: Scalar)
        ensures
            r == self.spec_length_squared(),
    {
        self.dot(self)
    }

    /// The length: the square root of the exact sum of squares, rounded down.
    pub fn length(&self) -> (r: Scalar)
        ensures
            r == self.spec_length(),
            r.raw == 0 <==> self.spec_largest() == 0,
    {
        proof {
            self.lemma_largest_bound();
        }
        let n: u128 = self.sum_of_squares(1);
        let root: u128 = floor_sqrt_u128(n);
        proof {
            self.lemma_raw_square_sign();
            assert(n == self.raw_dot(*self));
            lemma_floor_sqrt_is(n as int, root as int);
            crate::scalar::lemma_floor_sqrt_zero(n as int);
        }
        if root > RAW_MAX as u128 {
            Scalar { raw: RAW_MAX }
        } else {
            Scalar { raw: root as i64 }
        }
    }

    /// The largest magnitude among the raw components.
    pub fn largest(&self) -> (r: u64)
        ensures
            r == self.spec_largest(),
            r <= 0x8000_0000_0000_0000,
    {
        let x = self.x.raw_magnitude();
        let y = self.y.raw_magnitude();
        let z = self.z.raw_magnitude();
        if x >= y && x >= z {
            x
        } else if y >= z {
            y
        } else {
            z
        }
    }

    /// The factor by which this vector is stretched: a power of two that
    /// brings its largest component to `STRETCHED` or more; one for the zero
    /// vector.
    pub fn stretch_factor(&self) -> (r: u64)
        ensures
            r == self.spec_stretch(),
            r >= 1,
            self.spec_largest() > 0 ==> STRETCHED <= self.spec_largest() * r
                <= 0x8000_0000_0000_0000,
            self.spec_largest() == 0 ==> r == 1,
    {
        let m = self.largest();
        let mut grown: u64 = m;
        let mut factor: u64 = 1;
        while 0 < grown && grown < STRETCHED
            invariant
                grown == m * factor,
                factor >= 1,
                grown <= 0x8000_0000_0000_0000,
                m > 0 ==> grown > 0,
                Vec3::stretch(m as int) == factor * Vec3::stretch(grown as int),
            decreases 2 * STRETCHED - grown,
        {
            assert(m * (2 * factor) == 2 * (m * factor)) by (nonlinear_arith);
            assert((2 * factor) * Vec3::stretch(2 * grown) == factor * (2 * Vec3::stretch(
                2 * grown,
            ))) by (nonlinear_arith);
            assert(factor <= grown) by (nonlinear_arith)
                requires
                    grown == m * factor,
                    m >= 1,
                    factor >= 1,
            ;
            grown = grown * 2;
            factor = factor * 2;
        }
        assert(factor * 1 == factor) by (nonlinear_arith);
        factor
    }

    /// The sum of the squares of the raw components times `factor`, exact.
    pub(crate) fn sum_of_squares(&self, factor: u64) -> (r: u128)
        requires
            factor >= 1,
            self.spec_largest() * factor <= 0x8000_0000_0000_0000,
        ensures
            r == self.raw_dot(*self) * (factor * factor),
    {
        let f = factor as u128;
        let ghost m = self.spec_largest();
        proof {
            assert(self.x.magnitude_raw() * factor <= m * factor) by (nonlinear_arith)
                requires
                    0 <= self.x.magnitude_raw() <= m,
                    factor >= 1,
            ;
            assert(self.y.magnitude_raw() * factor <= m * factor) by (nonlinear_arith)
                requires
                    0 <= self.y.magnitude_raw() <= m,
                    factor >= 1,
            ;
            assert(self.z.magnitude_raw() * factor <= m * factor) by (nonlinear_arith)
                requires
                    0 <= self.z.magnitude_raw() <= m,
                    factor >= 1,
            ;
        }
        let x: u128 = self.x.raw_magnitude() as u128 * f;
        let y: u128 = self.y.raw_magnitude() as u128 * f;
        let z: u128 = self.z.raw_magnitude() as u128 * f;
        proof {
            lemma_square_bound(x as int);
            lemma_square_bound(y as int);
            lemma_square_bound(z as int);
            let a = self.x.raw as int;
            let b = self.y.raw as int;
            let c = self.z.raw as int;
            let g = factor as int;
            assert(x * x == (a * a) * (g * g)) by (nonlinear_arith)
                requires
                    x == a * g || x == -a * g,
            ;
            assert(y * y == (b * b) * (g * g)) by (nonlinear_arith)
                requires
                    y == b * g || y == -b * g,
            ;
            assert(z * z == (c * c) * (g * g)) by (nonlinear_arith)
                requires
                    z == c * g || z == -c * g,
            ;
            assert((a * a + b * b + c * c) * (g * g) == (a * a) * (g * g) + (b * b) * (g * g) + (c
                * c) * (g * g)) by (nonlinear_arith);
        }
        x * x + y * y + z * z
    }

    /// `s` divided by the length of this vector; zero for the zero vector.
    pub fn over_length(&self, s: Scalar) -> (r: Scalar)
        ensures
            r == self.spec_over_length(s),
            r.wf(),
    {
        if self.largest() == 0 {
            return Scalar::zero();
        }
        let factor = self.stretch_factor();
        let n: u128 = self.sum_of_squares(factor);
        let fine: u128 = floor_sqrt_u128(n);
        proof {
            lemma_floor_sqrt_is(n as int, fine as int);
            self.lemma_fine_length();
        }
        let top: u128 = (s.raw_magnitude() as u128) * (SCALE as u128);
        let f = factor as u128;
        let negative = s.raw < 0;
        proof {
            lemma_quot_negate(s.magnitude_raw() * SCALE * factor, fine as int);
            assert((-s.magnitude_raw()) * SCALE * factor == -(s.magnitude_raw() * SCALE * factor))
                by (nonlinear_arith);
        }
        if top > 0x7fff_ffff_ffff_ffff_ffff_ffff_ffff_ffffu128 / f {
            proof {
                lemma_beyond_range(top as int, f as int, fine as int);
            }
            if negative {
                Scalar { raw: -RAW_MAX }
            } else {
                Scalar { raw: RAW_MAX }
            }
        } else {
            assert(top * f <= 0x7fff_ffff_ffff_ffff_ffff_ffff_ffff_ffff) by (nonlinear_arith)
                requires
                    top <= 0x7fff_ffff_ffff_ffff_ffff_ffff_ffff_ffffu128 / f,
                    f >= 1,
            ;
            let q: u128 = (top * f) / fine;
            if q > RAW_MAX as u128 {
                if negative {
                    Scalar { raw: -RAW_MAX }
                } else {
                    Scalar { raw: RAW_MAX }
                }
            } else if negative {
                Scalar { raw: -(q as i64) }
            } else {
                Scalar { raw: q as i64 }
            }
        }
    }

    /// Dividing by the length keeps the sign of what is divided.
    pub proof fn lemma_over_length_sign(self, s: Scalar)
        ensures
            s.raw >= 0 ==> self.spec_over_length(s).raw >= 0,
            s.raw <= 0 ==> self.spec_over_length(s).raw <= 0,
    {
        if s.raw <= 0 {
            self.lemma_over_length_monotone(s, Scalar { raw: 0 });
        }
        if s.raw >= 0 {
            self.lemma_over_length_monotone(Scalar { raw: 0 }, s);
        }
        if self.spec_largest() > 0 {
            self.lemma_fine_length();
            assert(0 * SCALE * self.spec_stretch() == 0) by (nonlinear_arith);
            assert(0int / self.spec_fine_length() == 0) by (nonlinear_arith)
                requires
                    self.spec_fine_length() > 0,
            ;
        }
    }

    /// Dividing by the length keeps the order of what is divided.
    pub proof fn lemma_over_length_monotone(self, s: Scalar, t: Scalar)
        requires
            s.raw <= t.raw,
        ensures
            self.spec_over_length(s).raw <= self.spec_over_length(t).raw,
    {
        if self.spec_largest() > 0 {
            let k = self.spec_stretch();
            self.lemma_fine_length();
            Vec3::lemma_stretch(self.spec_largest());
            assert(s.raw * SCALE * k <= t.raw * SCALE * k) by (nonlinear_arith)
                requires
                    s.raw <= t.raw,
                    k >= 1,
            ;
            crate::scalar::lemma_quot_monotone(
                s.raw * SCALE * k,
                t.raw * SCALE * k,
                self.spec_fine_length(),
            );
        }
    }

    /// The length of a stretched vector other than zero is at least
    /// `STRETCHED`.
    pub proof fn lemma_fine_length(self)
        requires
            self.spec_largest() > 0,
        ensures
            self.spec_fine_length() >= STRETCHED,
            crate::scalar::is_floor_sqrt(
                self.raw_dot(self) * (self.spec_stretch() * self.spec_stretch()),
                self.spec_fine_length(),
            ),
    {
        let m = self.spec_largest();
        let k = self.spec_stretch();
        let n = self.raw_dot(self) * (k * k);
        Vec3::lemma_stretch(m);
        self.lemma_raw_square_sign();
        assert(n >= (m * k) * (m * k)) by (nonlinear_arith)
            requires
                n == self.raw_dot(self) * (k * k),
                self.raw_dot(self) >= m * m,
                k >= 1,
        ;
        assert((m * k) * (m * k) >= STRETCHED * STRETCHED) by (nonlinear_arith)
            requires
                m * k >= STRETCHED,
        ;
        crate::scalar::lemma_floor_sqrt_exists(n);
        let f = self.spec_fine_length();
        if f < STRETCHED {
            assert((f + 1) * (f + 1) <= STRETCHED * STRETCHED) by (nonlinear_arith)
                requires
                    0 <= f,
                    f + 1 <= STRETCHED,
            ;
        }
    }

    /// The stretch of a largest component `m` brings it to `STRETCHED` or
    /// more, and not past two to the 63.
    pub proof fn lemma_stretch(m: int)
        requires
            0 < m <= 0x8000_0000_0000_0000,
        ensures
            Vec3::stretch(m) >= 1,
            STRETCHED <= m * Vec3::stretch(m) <= 0x8000_0000_0000_0000,
        decreases 2 * STRETCHED - m,
    {
        if m < STRETCHED {
            Vec3::lemma_stretch(2 * m);
            assert(m * (2 * Vec3::stretch(2 * m)) == (2 * m) * Vec3::stretch(2 * m))
                by (nonlinear_arith);
        } else {
            assert(m * 1 == m);
        }
    }

    /// The vector divided by its length; the zero vector for the zero vector.
    /// Any other vector, however short or long, gives a vector that is one
    /// long up to four trillionths.
    pub fn unit(self) -> (r: Vec3)
        ensures
            r == self.spec_unit(),
            self.spec_length().raw == 0 ==> r == Vec3::origin(),
            self.spec_length().raw > 0 ==> SCALE - 4 <= r.spec_length().raw <= SCALE,
    {
        proof {
            self.lemma_raw_square_sign();
            if self.spec_largest() > 0 {
                crate::precision::lemma_unit_length(self);
            }
            crate::scalar::lemma_floor_sqrt_zero(self.raw_dot(self));
        }
        Vec3 {
            x: self.over_length(self.x),
            y: self.over_length(self.y),
            z: self.over_length(self.z),
        }
    }

    /// The dot product: the exact sum of products, rounded once.
    pub fn dot(&self, other: &Vec3) -> (r: Scalar)
        ensures
            r == self.spec_dot(*other),
            r.wf(),
    {
        let sum = sum_products(
            self.x.raw,
            other.x.raw,
            self.y.raw,
            other.y.raw,
            self.z.raw,
            other.z.raw,
        );
        round_wide(sum.0, sum.1)
    }

    /// The cross product.
    pub fn cross(&self, other: &Vec3) -> (r: Vec3)
        ensures
            r == self.spec_cross(*other),
    {
        Vec3 {
            x: self.y * other.z - self.z * other.y,
            y: self.z * other.x - self.x * other.z,
            z: self.x * other.y - self.y * other.x,
        }
    }

    /// Whether every component is smaller in magnitude than a
    /// hundred-millionth.
    pub fn near_zero(&self) -> (r: bool)
        ensures
            r == self.spec_near_zero(),
    {
        self.x.abs().raw < NEAR_ZERO && self.y.abs().raw < NEAR_ZERO && self.z.abs().raw
            < NEAR_ZERO
    }

    /// The mirror image about the plane with normal `n`.
    pub fn reflect(&self, n: &Vec3) -> (r: Vec3)
        ensures
            r == self.spec_reflect(*n),
    {
        let twice = Scalar::from_int(2) * self.dot(n);
        *self - twice * *n
    }

    /// The direction of a unit vector after it passes a surface with unit
    /// normal `n`, by Snell's law; `etai_over_etat` is the ratio of the
    /// refractive indices before and behind the surface.
    pub fn refract(&self, n: &Vec3, etai_over_etat: Scalar) -> (r: Vec3)
        ensures
            r == self.spec_refract(*n, etai_over_etat),
    {
        let cos_theta = self.dot(n).neg().min(Scalar::one());
        let r_out_perp = etai_over_etat * (*self + cos_theta * *n);
        let along = (Scalar::one() - r_out_perp.length_squared()).abs().sqrt().neg();
        let r_out_parallel = along * *n;
        r_out_perp + r_out_parallel
    }

    /// Adds `rhs` in place.
    pub fn add_assign(&mut self, rhs: Vec3)
        ensures
            *final(self) == old(self).plus(rhs),
    {
        *self = *self + rhs;
    }

    /// Stretches by `t` in place.
    pub fn mul_assign(&mut self, t: Scalar)
        ensures
            *final(self) == old(self).scaled(t),
    {
        *self = t * *self;
    }

    /// Stretches by the reciprocal of `t` in place.
    pub fn div_assign(&mut self, t: Scalar)
        ensures
            *final(self) == old(self).scaled(Scalar { raw: SCALE }.over(t)),
    {
        let inverse = Scalar::one() / t;
        self.mul_assign(inverse);
    }
}

/// The square of a number up to two to the 63 is at most two to the 126.
proof fn lemma_square_bound(x: int)
    requires
        0 <= x <= 0x8000_0000_0000_0000,
    ensures
        0 <= x * x <= 0x4000_0000_0000_0000_0000_0000_0000_0000,
{
    assert(0 <= x * x <= 0x4000_0000_0000_0000_0000_0000_0000_0000) by (nonlinear_arith)
        requires
            0 <= x <= 0x8000_0000_0000_0000,
    ;
}

/// A numerator past two to the 127 over a length below two to the 64 is out
/// of the scalar range.
proof fn lemma_beyond_range(top: int, f: int, fine: int)
    requires
        top >= 0,
        f >= 1,
        top > 0x7fff_ffff_ffff_ffff_ffff_ffff_ffff_ffffint / f,
        0 < fine < 0x1_0000_0000_0000_0000,
    ensures
        quot(top * f, fine) > RAW_MAX,
{
    let big = 0x7fff_ffff_ffff_ffff_ffff_ffff_ffff_ffffint;
    assert(top * f > big) by (nonlinear_arith)
        requires
            top >= big / f + 1,
            f >= 1,
            big >= 0,
    ;
    let n = top * f;
    assert(n / fine >= 0x8000_0000_0000_0000) by (nonlinear_arith)
        requires
            n >= 0x8000_0000_0000_0000_0000_0000_0000_0000,
            0 < fine < 0x1_0000_0000_0000_0000,
    ;
}

impl core::ops::Neg for Vec3 {
    type Output = Vec3;

    fn neg(self) -> (r: Vec3)
        ensures
            r == self.negated(),
            r.wf(),
    {
        Vec3 { x: self.x.neg(), y: self.y.neg(), z: self.z.neg() }
    }
}

impl vstd::std_specs::ops::NegSpecImpl for Vec3 {
    open spec fn obeys_neg_spec() -> bool {
        true
    }

    open spec fn neg_req(self) -> bool {
        true
    }

    open spec fn neg_spec(self) -> Vec3 {
        self.negated()
    }
}

impl core::ops::Add for Vec3 {
    type Output = Vec3;

    fn add(self, rhs: Vec3) -> (r: Vec3)
        ensures
            r == self.plus(rhs),
            r.wf(),
    {
        Vec3 { x: self.x + rhs.x, y: self.y + rhs.y, z: self.z + rhs.z }
    }
}

impl vstd::std_specs::ops::AddSpecImpl for Vec3 {
    open spec fn obeys_add_spec() -> bool {
        true
    }

    open spec fn add_req(self, rhs: Vec3) -> bool {
        true
    }

    open spec fn add_spec(self, rhs: Vec3) -> Vec3 {
        self.plus(rhs)
    }
}

impl core::ops::Sub for Vec3 {
    type Output = Vec3;

    fn sub(self, rhs: Vec3) -> (r: Vec3)
        ensures
            r == self.minus(rhs),
            r.wf(),
    {
        Vec3 { x: self.x - rhs.x, y: self.y - rhs.y, z: self.z - rhs.z }
    }
}

impl vstd::std_specs::ops::SubSpecImpl for Vec3 {
    open spec fn obeys_sub_spec() -> bool {
        true
    }

    open spec fn sub_req(self, rhs: Vec3) -> bool {
        true
    }

    open spec fn sub_spec(self, rhs: Vec3) -> Vec3 {
        self.minus(rhs)
    }
}

impl core::ops::Mul<Vec3> for Scalar {
    type Output = Vec3;

    fn mul(self, rhs: Vec3) -> (r: Vec3)
        ensures
            r == rhs.scaled(self),
            r.wf(),
    {
        Vec3 { x: self * rhs.x, y: self * rhs.y, z: self * rhs.z }
    }
}

impl vstd::std_specs::ops::MulSpecImpl<Vec3> for Scalar {
    open spec fn obeys_mul_spec() -> bool {
        true
    }

    open spec fn mul_req(self, rhs: Vec3) -> bool {
        true
    }

    open spec fn mul_spec(self, rhs: Vec3) -> Vec3 {
        rhs.scaled(self)
    }
}

impl core::ops::Mul for Vec3 {
    type Output = Vec3;

    fn mul(self, rhs: Vec3) -> (r: Vec3)
        ensures
            r == self.times(rhs),
            r.wf(),
    {
        Vec3 { x: self.x * rhs.x, y: self.y * rhs.y, z: self.z * rhs.z }
    }
}

impl vstd::std_specs::ops::MulSpecImpl for Vec3 {
    open spec fn obeys_mul_spec() -> bool {
        true
    }

    open spec fn mul_req(self, rhs: Vec3) -> bool {
        true
    }

    open spec fn mul_spec(self, rhs: Vec3) -> Vec3 {
        self.times(rhs)
    }
}

impl core::ops::Div<Scalar> for Vec3 {
    type Output = Vec3;

    fn div(self, rhs: Scalar) -> (r: Vec3)
        ensures
            r == self.over(rhs),
            r.wf(),
    {
        Vec3 { x: self.x / rhs, y: self.y / rhs, z: self.z / rhs }
    }
}

impl vstd::std_specs::ops::DivSpecImpl<Scalar> for Vec3 {
    open spec fn obeys_div_spec() -> bool {
        true
    }

    open spec fn div_req(self, rhs: Scalar) -> bool {
        true
    }

    open spec fn div_spec(self, rhs: Scalar) -> Vec3 {
        self.over(rhs)
    }
}

} // verus!
