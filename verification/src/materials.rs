//! The three surfaces: matte, metallic and glass.
//!
//! Each material has a function that draws what it needs and a function that
//! takes the draw as an argument; the second one says exactly where the ray
//! goes.

use core::ops::Neg;
use rand::rngs::ThreadRng;
use vstd::prelude::*;
use crate::color::{clamp, spec_clamp, Color};
use crate::nearness::gauge;
use crate::precision::{
    lemma_reflect_length, lemma_refract_length, lemma_unit_bounded, mirrorable,
    spec_bend_allowance, spec_mirror_allowance,
};
use crate::ray::{HitRecord, Ray, ScatterRecord};
use crate::scalar::{Scalar, SCALE};
use crate::vec3::Vec3;

verus! {

/// A matte surface: it sends light on in a random direction about the normal.
#[derive(Clone, Copy, Debug, PartialEq, Eq, Structural)]
pub struct Lambertian {
    pub albedo: Color,
}

/// A mirror, blurred by `fuzz`.
#[derive(Clone, Copy, Debug, PartialEq, Eq, Structural)]
pub struct Metal {
    pub albedo: Color,
    /// Between zero, a perfect mirror, and one.
    pub fuzz: Scalar,
}

/// Clear glass, or any other medium that bends light.
#[derive(Clone, Copy, Debug, PartialEq, Eq, Structural)]
pub struct Dielectric {
    pub index_of_refraction: Scalar,
}

/// Any of the materials.
#[derive(Clone, Copy, Debug, PartialEq, Eq, Structural)]
pub enum Material {
    Lambertian(Lambertian),
    Metal(Metal),
    Dielectric(Dielectric),
}

impl Lambertian {
    /// Where the ray goes for the sample `p` of the unit ball: along the
    /// normal plus `p`, or along the normal alone where that sum vanishes.
    pub open spec fn spec_scatter_with(self, hit: HitRecord, p: Vec3) -> ScatterRecord {
        let sum = hit.normal.plus(p);
        ScatterRecord {
            scattered: Ray {
                origin: hit.p,
                direction: if sum.spec_near_zero() {
                    hit.normal
                } else {
                    sum
                },
            },
            attenuation: self.albedo,
        }
    }

    /// `out` is what `scatter` returns for some sample of the unit ball. A
    /// matte surface absorbs no ray.
    pub open spec fn scatters_to(self, r_in: Ray, hit: HitRecord, out: Option<ScatterRecord>) -> bool {
        exists|p: Vec3| #[trigger]
            p.in_unit_sphere() && out == Some(self.spec_scatter_with(hit, p))
    }

    /// A matte surface of the given color.
    pub fn new(albedo: Color) -> (r: Lambertian)
        ensures
            r.albedo == albedo,
    {
        Lambertian { albedo }
    }

    /// Scatters about the normal with the sample `p` in place of a draw. The
    /// new direction vanishes only where the normal itself does.
    pub fn scatter_with(&self, hit: &HitRecord, p: Vec3) -> (r: ScatterRecord)
        ensures
            r == self.spec_scatter_with(*hit, p),
            !hit.normal.spec_near_zero() ==> !r.scattered.direction.spec_near_zero(),
    {
        let mut scatter_direction = hit.normal + p;
        if scatter_direction.near_zero() {
            scatter_direction = hit.normal;
        }
        ScatterRecord::new(Ray::new(hit.p, scatter_direction), self.albedo)
    }

    /// Scatters about the normal with a random sample of the unit ball.
    pub fn scatter(&self, r_in: &Ray, hit: &HitRecord, rng: &mut ThreadRng) -> (r: Option<
        ScatterRecord,
    >)
        ensures
            self.scatters_to(*r_in, *hit, r),
            r is Some,
    {
        let p = Vec3::gen_in_unit_sphere(rng);
        assert(p.in_unit_sphere());
        Some(self.scatter_with(hit, p))
    }
}

impl Metal {
    /// The direction in which the ray would leave for the sample `p` of the
    /// unit ball: the mirror image of its unit direction, pushed by `fuzz * p`.
    pub open spec fn spec_bounce(self, r_in: Ray, hit: HitRecord, p: Vec3) -> Vec3 {
        r_in.direction.spec_unit().spec_reflect(hit.normal).plus(p.scaled(self.fuzz))
    }

    /// Where the ray goes for the sample `p` of the unit ball: along
    /// `spec_bounce` where that leaves the surface, and nowhere otherwise.
    pub open spec fn spec_scatter_with(self, r_in: Ray, hit: HitRecord, p: Vec3) -> Option<
        ScatterRecord,
    > {
        let direction = self.spec_bounce(r_in, hit, p);
        if direction.spec_dot(hit.normal).raw > 0 {
            Some(
                ScatterRecord {
                    scattered: Ray { origin: hit.p, direction },
                    attenuation: self.albedo,
                },
            )
        } else {
            None
        }
    }

    /// `out` is what `scatter` returns for some sample of the unit ball.
    pub open spec fn scatters_to(self, r_in: Ray, hit: HitRecord, out: Option<ScatterRecord>) -> bool {
        exists|p: Vec3| #[trigger] p.in_unit_sphere() && out == self.spec_scatter_with(r_in, hit, p)
    }

    /// A perfect mirror does not depend on the sample: the ray leaves along
    /// the mirror image of its unit direction, and is absorbed where that
    /// image does not leave the surface.
    pub proof fn lemma_perfect_mirror(self, r_in: Ray, hit: HitRecord, p: Vec3)
        requires
            self.fuzz.raw == 0,
        ensures
            self.spec_bounce(r_in, hit, p) == r_in.direction.spec_unit().spec_reflect(hit.normal),
            r_in.direction.spec_unit().spec_reflect(hit.normal).spec_dot(hit.normal).raw <= 0
                ==> self.spec_scatter_with(r_in, hit, p) is None,
    {
        p.x.lemma_times_zero();
        p.y.lemma_times_zero();
        p.z.lemma_times_zero();
    }

    /// The direction in which a perfect mirror sends a ray is one long up to
    /// rounding: it is the mirror image of the unit direction, whose length
    /// `lemma_reflect_length` bounds.
    pub proof fn lemma_mirror_length(self, r_in: Ray, hit: HitRecord, p: Vec3)
        requires
            self.fuzz.raw == 0,
            mirrorable(hit.normal),
        ensures
            (SCALE * SCALE) * gauge(
                self.spec_bounce(r_in, hit, p).raw_dot(self.spec_bounce(r_in, hit, p)) - SCALE
                    * SCALE,
            ) <= spec_mirror_allowance(r_in.direction.spec_unit(), hit.normal),
    {
        self.lemma_perfect_mirror(r_in, hit, p);
        lemma_unit_bounded(r_in.direction);
        lemma_reflect_length(r_in.direction.spec_unit(), hit.normal);
    }

    /// A metal of the given color; `fuzz` is clamped into `[0, 1]`.
    pub fn new(albedo: Color, fuzz: Scalar) -> (r: Metal)
        ensures
            r.albedo == albedo,
            r.fuzz == spec_clamp(fuzz, Scalar { raw: 0 }, Scalar { raw: SCALE }),
            0 <= r.fuzz.raw <= SCALE,
    {
        Metal { albedo, fuzz: clamp(fuzz, Scalar::zero(), Scalar::one()) }
    }

    /// Reflects with the sample `p` in place of a draw.
    pub fn scatter_with(&self, r_in: &Ray, hit: &HitRecord, p: Vec3) -> (r: Option<ScatterRecord>)
        ensures
            r == self.spec_scatter_with(*r_in, *hit, p),
            r is Some <==> self.spec_bounce(*r_in, *hit, p).spec_dot(hit.normal).raw > 0,
    {
        let reflected = r_in.direction.unit().reflect(&hit.normal);
        let scattered = Ray::new(hit.p, reflected + self.fuzz * p);
        if scattered.direction.dot(&hit.normal).raw > 0 {
            Some(ScatterRecord::new(scattered, self.albedo))
        } else {
            None
        }
    }

    /// Reflects with a random sample of the unit ball.
    pub fn scatter(&self, r_in: &Ray, hit: &HitRecord, rng: &mut ThreadRng) -> (r: Option<
        ScatterRecord,
    >)
        ensures
            self.scatters_to(*r_in, *hit, r),
    {
        let p = Vec3::gen_in_unit_sphere(rng);
        assert(p.in_unit_sphere());
        self.scatter_with(r_in, hit, p)
    }
}

impl Dielectric {
    /// The share of light that a surface reflects head-on:
    /// `((1 - ref_idx) / (1 + ref_idx))^2`.
    pub open spec fn spec_r0(ref_idx: Scalar) -> Scalar {
        let one = Scalar { raw: SCALE };
        let r = one.minus(ref_idx).over(one.plus(ref_idx));
        r.times(r)
    }

    /// Schlick's estimate of the share of light that a surface reflects:
    /// `r0 + (1 - r0) (1 - cosine)^5`.
    pub open spec fn spec_reflectance(cosine: Scalar, ref_idx: Scalar) -> Scalar {
        let one = Scalar { raw: SCALE };
        let r0 = Dielectric::spec_r0(ref_idx);
        r0.plus(one.minus(r0).times(one.minus(cosine).power(5)))
    }

    /// The ratio of refractive indices that the ray meets: the reciprocal of
    /// the index on the way in, the index itself on the way out.
    pub open spec fn spec_ratio(self, hit: HitRecord) -> Scalar {
        if hit.front_face {
            Scalar { raw: SCALE }.over(self.index_of_refraction)
        } else {
            self.index_of_refraction
        }
    }

    /// No refracted ray exists: the sine of the angle of incidence times the
    /// ratio exceeds one.
    pub open spec fn spec_cannot_refract(self, r_in: Ray, hit: HitRecord) -> bool {
        let one = Scalar { raw: SCALE };
        let cos_theta = r_in.direction.spec_unit().spec_cos_incidence(hit.normal);
        let sin_theta = one.minus(cos_theta.times(cos_theta)).root();
        self.spec_ratio(hit).times(sin_theta).raw > SCALE
    }

    /// The ray reflects: it cannot refract, or the reflectance exceeds `draw`.
    pub open spec fn spec_reflects(self, r_in: Ray, hit: HitRecord, draw: Scalar) -> bool {
        let cos_theta = r_in.direction.spec_unit().spec_cos_incidence(hit.normal);
        self.spec_cannot_refract(r_in, hit) || Dielectric::spec_reflectance(
            cos_theta,
            self.spec_ratio(hit),
        ).raw > draw.raw
    }

    /// Where the ray goes for the draw `draw` from `[0, 1)`: mirrored or bent,
    /// and never dimmed.
    pub open spec fn spec_scatter_with(self, r_in: Ray, hit: HitRecord, draw: Scalar) -> ScatterRecord {
        let unit_direction = r_in.direction.spec_unit();
        ScatterRecord {
            scattered: Ray {
                origin: hit.p,
                direction: if self.spec_reflects(r_in, hit, draw) {
                    unit_direction.spec_reflect(hit.normal)
                } else {
                    unit_direction.spec_refract(hit.normal, self.spec_ratio(hit))
                },
            },
            attenuation: Color::spec_white(),
        }
    }

    /// `out` is what `scatter` returns for some draw from `[0, 1)`. Glass
    /// absorbs no ray.
    pub open spec fn scatters_to(self, r_in: Ray, hit: HitRecord, out: Option<ScatterRecord>) -> bool {
        exists|draw: Scalar| #[trigger]
            draw.unit_interval() && out == Some(self.spec_scatter_with(r_in, hit, draw))
    }

    /// A ray that meets the surface head-on, with cosine one, is reflected
    /// with the share `spec_r0`.
    pub proof fn lemma_reflectance_head_on(ref_idx: Scalar)
        ensures
            Dielectric::spec_reflectance(Scalar::of(SCALE as int), ref_idx) == Dielectric::spec_r0(
                ref_idx,
            ),
    {
        let one = Scalar { raw: SCALE };
        let zero = Scalar { raw: 0 };
        let r0 = Dielectric::spec_r0(ref_idx);
        assert(one.minus(one) == zero);
        reveal_with_fuel(Scalar::power, 6);
        one.lemma_times_zero();
        zero.lemma_times_zero();
        assert(zero.power(5) == zero);
        one.minus(r0).lemma_times_zero();
    }

    /// The direction in which glass mirrors a ray is one long up to rounding.
    pub proof fn lemma_mirrored_length(self, r_in: Ray, hit: HitRecord, draw: Scalar)
        requires
            self.spec_reflects(r_in, hit, draw),
            mirrorable(hit.normal),
        ensures
            (SCALE * SCALE) * gauge(
                self.spec_scatter_with(r_in, hit, draw).scattered.direction.raw_dot(
                    self.spec_scatter_with(r_in, hit, draw).scattered.direction,
                ) - SCALE * SCALE,
            ) <= spec_mirror_allowance(r_in.direction.spec_unit(), hit.normal),
    {
        lemma_unit_bounded(r_in.direction);
        lemma_reflect_length(r_in.direction.spec_unit(), hit.normal);
    }

    /// The direction in which glass bends a ray is one long up to rounding,
    /// where the part across the normal is no longer than one.
    pub proof fn lemma_bent_length(self, r_in: Ray, hit: HitRecord, draw: Scalar)
        requires
            !self.spec_reflects(r_in, hit, draw),
            mirrorable(hit.normal),
            mirrorable(
                r_in.direction.spec_unit().spec_refract_perp(hit.normal, self.spec_ratio(hit)),
            ),
            r_in.direction.spec_unit().spec_refract_perp(
                hit.normal,
                self.spec_ratio(hit),
            ).spec_length_squared().raw <= SCALE,
        ensures
            (SCALE * SCALE) * gauge(
                self.spec_scatter_with(r_in, hit, draw).scattered.direction.raw_dot(
                    self.spec_scatter_with(r_in, hit, draw).scattered.direction,
                ) - SCALE * SCALE,
            ) <= spec_bend_allowance(
                r_in.direction.spec_unit(),
                hit.normal,
                self.spec_ratio(hit),
            ),
    {
        lemma_refract_length(r_in.direction.spec_unit(), hit.normal, self.spec_ratio(hit));
    }

    /// A medium with the given index of refraction.
    pub fn new(index_of_refraction: Scalar) -> (r: Dielectric)
        ensures
            r.index_of_refraction == index_of_refraction,
    {
        Dielectric { index_of_refraction }
    }

    /// Schlick's estimate of the share of light that is reflected.
    pub fn reflectance(&self, cosine: Scalar, ref_idx: Scalar) -> (r: Scalar)
        ensures
            r == Dielectric::spec_reflectance(cosine, ref_idx),
    {
        let r = (Scalar::one() - ref_idx) / (Scalar::one() + ref_idx);
        let r0 = r * r;
        r0 + (Scalar::one() - r0) * (Scalar::one() - cosine).powi(5)
    }

    /// Whether the ray meets the surface too flatly to pass it.
    pub fn cannot_refract(&self, r_in: &Ray, hit: &HitRecord) -> (r: bool)
        ensures
            r == self.spec_cannot_refract(*r_in, *hit),
    {
        let cos_theta = r_in.direction.unit().dot(&hit.normal).neg().min(Scalar::one());
        let sin_theta = (Scalar::one() - cos_theta * cos_theta).sqrt();
        (self.ratio(hit) * sin_theta).raw > SCALE
    }

    /// Whether the ray reflects for the draw `draw`: always where it cannot
    /// refract, and else where the reflectance exceeds the draw.
    pub fn reflects(&self, r_in: &Ray, hit: &HitRecord, draw: Scalar) -> (r: bool)
        ensures
            r == self.spec_reflects(*r_in, *hit, draw),
    {
        if self.cannot_refract(r_in, hit) {
            return true;
        }
        let cos_theta = r_in.direction.unit().dot(&hit.normal).neg().min(Scalar::one());
        self.reflectance(cos_theta, self.ratio(hit)).raw > draw.raw
    }

    /// Mirrors or bends the ray with `draw` in place of a draw from `[0, 1)`.
    pub fn scatter_with(&self, r_in: &Ray, hit: &HitRecord, draw: Scalar) -> (r: ScatterRecord)
        ensures
            r == self.spec_scatter_with(*r_in, *hit, draw),
    {
        let unit_direction = r_in.direction.unit();
        let direction = if self.reflects(r_in, hit, draw) {
            unit_direction.reflect(&hit.normal)
        } else {
            unit_direction.refract(&hit.normal, self.ratio(hit))
        };
        ScatterRecord::new(Ray::new(hit.p, direction), Color::white())
    }

    /// Mirrors or bends the ray. A ray that cannot refract is mirrored
    /// without a draw; for any other, a draw from `[0, 1)` decides.
    pub fn scatter(&self, r_in: &Ray, hit: &HitRecord, rng: &mut ThreadRng) -> (r: Option<
        ScatterRecord,
    >)
        ensures
            self.scatters_to(*r_in, *hit, r),
            r is Some,
    {
        let draw = if self.cannot_refract(r_in, hit) {
            Scalar::zero()
        } else {
            Scalar::gen_range(rng, Scalar::zero(), Scalar::one())
        };
        assert(draw.unit_interval());
        Some(self.scatter_with(r_in, hit, draw))
    }

    fn ratio(&self, hit: &HitRecord) -> (r: Scalar)
        ensures
            r == self.spec_ratio(*hit),
    {
        if hit.front_face {
            Scalar::one() / self.index_of_refraction
        } else {
            self.index_of_refraction
        }
    }
}

/// What one scattering may draw: a point of the unit ball, which the matte
/// and the metallic surface use, and a number from `[0, 1)`, which glass uses.
#[derive(Clone, Copy, Debug, PartialEq, Eq, Structural)]
pub struct Sample {
    pub ball: Vec3,
    pub draw: Scalar,
}

impl Sample {
    /// Both parts are what the samplers can return.
    pub open spec fn valid(self) -> bool {
        self.ball.in_unit_sphere() && self.draw.unit_interval()
    }

    /// The sample with the given parts.
    pub fn new(ball: Vec3, draw: Scalar) -> (r: Sample)
        ensures
            r == (Sample { ball, draw }),
    {
        Sample { ball, draw }
    }
}

impl Material {
    /// Where the ray goes for the sample `sample`.
    pub open spec fn spec_scatter_with(self, r_in: Ray, hit: HitRecord, sample: Sample) -> Option<
        ScatterRecord,
    > {
        match self {
            Material::Lambertian(m) => Some(m.spec_scatter_with(hit, sample.ball)),
            Material::Metal(m) => m.spec_scatter_with(r_in, hit, sample.ball),
            Material::Dielectric(m) => Some(m.spec_scatter_with(r_in, hit, sample.draw)),
        }
    }

    /// What a valid sample gives is something that `scatter` can return.
    pub proof fn lemma_scatter_with_possible(self, r_in: Ray, hit: HitRecord, sample: Sample)
        requires
            sample.valid(),
        ensures
            self.scatters_to(r_in, hit, self.spec_scatter_with(r_in, hit, sample)),
    {
        assert(sample.ball.in_unit_sphere());
        assert(sample.draw.unit_interval());
    }

    /// Sends the ray on, or absorbs it, with `sample` in place of the draws.
    pub fn scatter_with(&self, r_in: &Ray, hit: &HitRecord, sample: &Sample) -> (r: Option<
        ScatterRecord,
    >)
        ensures
            r == self.spec_scatter_with(*r_in, *hit, *sample),
    {
        match self {
            Material::Lambertian(m) => Some(m.scatter_with(hit, sample.ball)),
            Material::Metal(m) => m.scatter_with(r_in, hit, sample.ball),
            Material::Dielectric(m) => Some(m.scatter_with(r_in, hit, sample.draw)),
        }
    }

    /// `out` is what `scatter` can return for this ray and hit.
    pub open spec fn scatters_to(self, r_in: Ray, hit: HitRecord, out: Option<ScatterRecord>) -> bool {
        match self {
            Material::Lambertian(m) => m.scatters_to(r_in, hit, out),
            Material::Metal(m) => m.scatters_to(r_in, hit, out),
            Material::Dielectric(m) => m.scatters_to(r_in, hit, out),
        }
    }

    /// Sends the ray on, or absorbs it (`None`).
    pub fn scatter(&self, r_in: &Ray, hit: &HitRecord, rng: &mut ThreadRng) -> (r: Option<
        ScatterRecord,
    >)
        ensures
            self.scatters_to(*r_in, *hit, r),
    {
        match self {
            Material::Lambertian(m) => m.scatter(r_in, hit, rng),
            Material::Metal(m) => m.scatter(r_in, hit, rng),
            Material::Dielectric(m) => m.scatter(r_in, hit, rng),
        }
    }
}

} // verus!
