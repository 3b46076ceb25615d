//! Rays, what a ray can hit, and the light that arrives along a ray.

use core::ops::Neg;
use rand::rngs::ThreadRng;
use vstd::prelude::*;
use crate::color::Color;
use crate::materials::{Material, Sample};
use crate::scalar::{clamp_wide, product, quot, Scalar, RAW_MAX, SCALE};
use crate::vec3::{Point3, Vec3};

verus! {

/// Raw lower end of the interval in which a traced ray looks for surfaces: a
/// thousandth, so that a scattered ray does not meet the surface it left.
pub const TRACE_MIN: i64 = 1_000_000_000;

/// A half-line: the points `origin + t * direction`.
#[derive(Clone, Copy, Debug, PartialEq, Eq, Structural)]
pub struct Ray {
    pub origin: Point3,
    pub direction: Vec3,
}

/// What an intersection test found.
#[derive(Clone, Copy, Debug, PartialEq, Eq, Structural)]
pub struct HitRecord {
    /// Where the ray met the surface.
    pub p: Point3,
    /// The surface normal, turned against the ray.
    pub normal: Vec3,
    /// The ray parameter of the meeting point.
    pub t: Scalar,
    /// Whether the ray came from the side the outward normal points to.
    pub front_face: bool,
    /// The material of the surface.
    pub material: Material,
}

/// What a material made of a ray: the ray that leaves and the share of light
/// that it carries in each channel.
#[derive(Clone, Copy, Debug, PartialEq, Eq, Structural)]
pub struct ScatterRecord {
    pub scattered: Ray,
    pub attenuation: Color,
}

/// Anything a ray can hit.
pub trait Hittable {
    /// The nearest meeting point of `ray` with `self` whose parameter lies in
    /// `(t_min, t_max]`, if there is one.
    spec fn spec_hit(&self, ray: Ray, t_min: Scalar, t_max: Scalar) -> Option<HitRecord>;

    /// A hit lies in the interval asked for, and asking for less of the ray
    /// finds the same hit or, where that hit lies beyond the cut, none.
    proof fn lemma_hit_window(&self, ray: Ray, t_min: Scalar, t_max: Scalar, t_cut: Scalar)
        requires
            t_cut.raw <= t_max.raw,
        ensures
            self.spec_hit(ray, t_min, t_max) matches Some(h) ==> t_min.raw < h.t.raw <= t_max.raw,
            self.spec_hit(ray, t_min, t_cut) == (match self.spec_hit(ray, t_min, t_max) {
                Some(h) => if h.t.raw <= t_cut.raw {
                    Some(h)
                } else {
                    None
                },
                None => None,
            }),
    ;

    /// Where `ray` meets `self` within `(t_min, t_max]`, if it does.
    fn hit(&self, ray: &Ray, t_min: Scalar, t_max: Scalar) -> (r: Option<HitRecord>)
        ensures
            r == self.spec_hit(*ray, t_min, t_max),
    ;
}

impl Ray {
    /// One coordinate of the point at parameter `t`: the origin plus the
    /// step `t d`, which is rounded toward zero but not clamped before it is
    /// added.
    pub open spec fn spec_along(o: Scalar, d: Scalar, t: Scalar) -> Scalar {
        Scalar::of(o.raw + quot(t.raw * d.raw, SCALE as int))
    }

    /// The point at parameter `t`.
    pub open spec fn spec_at(self, t: Scalar) -> Point3 {
        Vec3 {
            x: Ray::spec_along(self.origin.x, self.direction.x, t),
            y: Ray::spec_along(self.origin.y, self.direction.y, t),
            z: Ray::spec_along(self.origin.z, self.direction.z, t),
        }
    }

    /// The sky behind everything: white at the bottom, blue at the top, mixed
    /// by the height of the ray's unit direction.
    pub open spec fn spec_background(self) -> Color {
        let t = Scalar { raw: 500_000_000_000 }.times(
            self.direction.spec_unit().y.plus(Scalar { raw: SCALE }),
        );
        Color::spec_white().scaled(Scalar { raw: SCALE }.minus(t)).plus(
            Color::spec_sky().scaled(t),
        )
    }

    /// `c` is a color that `color` can return for this ray, scene and depth.
    ///
    /// With no bounce left the color is black. A ray that meets nothing shows
    /// the background. A ray that meets a surface takes any outcome of that
    /// material's scattering: absorbed, it is black; sent on, it is the
    /// attenuation times a color of the new ray with one bounce less.
    pub open spec fn spec_color<H: Hittable>(self, scene: &H, depth: nat, c: Color) -> bool
        decreases depth,
    {
        if depth == 0 {
            c == Color::spec_black()
        } else {
            match scene.spec_hit(self, Scalar { raw: TRACE_MIN }, Scalar { raw: RAW_MAX }) {
                None => c == self.spec_background(),
                Some(hit) => {
                    ||| hit.material.scatters_to(self, hit, None) && c == Color::spec_black()
                    ||| exists|s: ScatterRecord, inner: Color|
                        #![trigger hit.material.scatters_to(self, hit, Some(s)), s.attenuation.times(inner)]
                        {
                            &&& hit.material.scatters_to(self, hit, Some(s))
                            &&& s.scattered.spec_color(scene, (depth - 1) as nat, inner)
                            &&& c == s.attenuation.times(inner)
                        }
                },
            }
        }
    }

    /// The ray from `origin` along `direction`, which need not be a unit vector.
    pub fn new(origin: Point3, direction: Vec3) -> (r: Ray)
        ensures
            r == (Ray { origin, direction }),
    {
        Ray { origin, direction }
    }

    pub fn origin(&self) -> (r: Point3)
        ensures
            r == self.origin,
    {
        self.origin
    }

    pub fn direction(&self) -> (r: Vec3)
        ensures
            r == self.direction,
    {
        self.direction
    }

    /// The point at parameter `t`: `origin + t * direction`.
    pub fn at(&self, t: Scalar) -> (r: Point3)
        ensures
            r == self.spec_at(t),
    {
        Vec3 {
            x: Ray::along(self.origin.x, self.direction.x, t),
            y: Ray::along(self.origin.y, self.direction.y, t),
            z: Ray::along(self.origin.z, self.direction.z, t),
        }
    }

    /// One coordinate of the point at parameter `t`.
    fn along(o: Scalar, d: Scalar, t: Scalar) -> (r: Scalar)
        ensures
            r == Ray::spec_along(o, d, t),
    {
        let step: i128 = product(t.raw, d.raw) / (SCALE as i128);
        clamp_wide(o.raw as i128 + step)
    }

    /// The color of the sky in the ray's direction.
    pub fn background(&self) -> (r: Color)
        ensures
            r == self.spec_background(),
    {
        let t = Scalar::from_raw(500_000_000_000) * (self.direction.unit().y + Scalar::one());
        (Scalar::one() - t) * Color::white() + t * Color::sky()
    }

    /// The light that arrives along the ray, followed through at most `depth`
    /// bounces.
    pub fn color<H: Hittable>(&self, scene: &H, rng: &mut ThreadRng, depth: u32) -> (c: Color)
        ensures
            self.spec_color(scene, depth as nat, c),
            depth == 0 ==> c == Color::spec_black(),
            depth > 0 && scene.spec_hit(*self, Scalar { raw: TRACE_MIN }, Scalar { raw: RAW_MAX })
                is None ==> c == self.spec_background(),
        decreases depth,
    {
        if depth == 0 {
            return Color::black();
        }
        match scene.hit(self, Scalar::from_raw(TRACE_MIN), Scalar::infinity()) {
            Some(hit) => match hit.material.scatter(self, &hit, rng) {
                Some(s) => {
                    let inner = s.scattered.color(scene, rng, depth - 1);
                    proof {
                        self.lemma_color_sent_on(scene, depth as nat, hit, s, inner);
                    }
                    s.attenuation * inner
                },
                None => {
                    proof {
                        self.lemma_color_absorbed(scene, depth as nat, hit);
                    }
                    Color::black()
                },
            },
            None => self.background(),
        }
    }

    /// The color of the ray where the scatterings use `samples`, one after
    /// another, in place of draws: a function of the ray, the scene, the
    /// depth and the samples alone. A scattering for which no sample is left
    /// absorbs the ray.
    pub open spec fn spec_color_with<H: Hittable>(
        self,
        scene: &H,
        samples: Seq<Sample>,
        depth: nat,
    ) -> Color
        decreases depth,
    {
        if depth == 0 {
            Color::spec_black()
        } else {
            match scene.spec_hit(self, Scalar { raw: TRACE_MIN }, Scalar { raw: RAW_MAX }) {
                None => self.spec_background(),
                Some(hit) => if samples.len() == 0 {
                    Color::spec_black()
                } else {
                    match hit.material.spec_scatter_with(self, hit, samples[0]) {
                        None => Color::spec_black(),
                        Some(s) => s.attenuation.times(
                            s.scattered.spec_color_with(
                                scene,
                                samples.skip(1),
                                (depth - 1) as nat,
                            ),
                        ),
                    }
                },
            }
        }
    }

    /// With a valid sample for every bounce, the color that the samples give
    /// is a color that `color` can return.
    pub proof fn lemma_color_with_possible<H: Hittable>(
        self,
        scene: &H,
        samples: Seq<Sample>,
        depth: nat,
    )
        requires
            samples.len() >= depth,
            forall|i: int| 0 <= i < samples.len() ==> (#[trigger] samples[i]).valid(),
        ensures
            self.spec_color(scene, depth, self.spec_color_with(scene, samples, depth)),
        decreases depth,
    {
        if depth > 0 {
            match scene.spec_hit(self, Scalar { raw: TRACE_MIN }, Scalar { raw: RAW_MAX }) {
                None => {},
                Some(hit) => {
                    let first = samples[0];
                    assert(first.valid());
                    hit.material.lemma_scatter_with_possible(self, hit, first);
                    match hit.material.spec_scatter_with(self, hit, first) {
                        None => {
                            self.lemma_color_absorbed(scene, depth, hit);
                        },
                        Some(s) => {
                            let rest = samples.skip(1);
                            assert forall|i: int| 0 <= i < rest.len() implies (
                            #[trigger] rest[i]).valid() by {
                                assert(rest[i] == samples[i + 1]);
                            }
                            s.scattered.lemma_color_with_possible(scene, rest, (depth - 1) as nat);
                            self.lemma_color_sent_on(
                                scene,
                                depth,
                                hit,
                                s,
                                s.scattered.spec_color_with(scene, rest, (depth - 1) as nat),
                            );
                        },
                    }
                },
            }
        }
    }

    /// The light that arrives along the ray where the scatterings use
    /// `samples`, from the first on, in place of draws.
    pub fn color_with<H: Hittable>(&self, scene: &H, samples: &Vec<Sample>, depth: u32) -> (c:
        Color)
        ensures
            c == self.spec_color_with(scene, samples@, depth as nat),
    {
        assert(samples@.skip(0) =~= samples@);
        self.color_from(scene, samples, 0, depth)
    }

    /// The light that arrives along the ray where the scatterings use the
    /// samples from index `from` on.
    fn color_from<H: Hittable>(
        &self,
        scene: &H,
        samples: &Vec<Sample>,
        from: usize,
        depth: u32,
    ) -> (c: Color)
        requires
            from <= samples@.len(),
        ensures
            c == self.spec_color_with(scene, samples@.skip(from as int), depth as nat),
        decreases depth,
    {
        if depth == 0 {
            return Color::black();
        }
        match scene.hit(self, Scalar::from_raw(TRACE_MIN), Scalar::infinity()) {
            Some(hit) => {
                if from >= samples.len() {
                    return Color::black();
                }
                proof {
                    assert(samples@.skip(from as int)[0] == samples@[from as int]);
                    assert(samples@.skip(from as int).skip(1) =~= samples@.skip(from as int + 1));
                }
                match hit.material.scatter_with(self, &hit, &samples[from]) {
                    Some(s) => s.attenuation * s.scattered.color_from(
                        scene,
                        samples,
                        from + 1,
                        depth - 1,
                    ),
                    None => Color::black(),
                }
            },
            None => self.background(),
        }
    }

    /// A ray that a surface sends on has the attenuation times any color of
    /// the new ray.
    pub proof fn lemma_color_sent_on<H: Hittable>(
        self,
        scene: &H,
        depth: nat,
        hit: HitRecord,
        s: ScatterRecord,
        inner: Color,
    )
        requires
            depth > 0,
            scene.spec_hit(self, Scalar { raw: TRACE_MIN }, Scalar { raw: RAW_MAX }) == Some(hit),
            hit.material.scatters_to(self, hit, Some(s)),
            s.scattered.spec_color(scene, (depth - 1) as nat, inner),
        ensures
            self.spec_color(scene, depth, s.attenuation.times(inner)),
    {
    }

    /// A ray that a surface absorbs is black.
    pub proof fn lemma_color_absorbed<H: Hittable>(self, scene: &H, depth: nat, hit: HitRecord)
        requires
            depth > 0,
            scene.spec_hit(self, Scalar { raw: TRACE_MIN }, Scalar { raw: RAW_MAX }) == Some(hit),
            hit.material.scatters_to(self, hit, None),
        ensures
            self.spec_color(scene, depth, Color::spec_black()),
    {
    }
}

impl HitRecord {
    /// The record for a meeting point with outward normal `outward_normal`:
    /// the ray comes from the front where it runs against that normal, and
    /// the recorded normal is the one that faces the ray.
    pub open spec fn spec_new(
        t: Scalar,
        p: Point3,
        outward_normal: Vec3,
        r: Ray,
        material: Material,
    ) -> HitRecord {
        let front_face = r.direction.spec_dot(outward_normal).raw < 0;
        HitRecord {
            p,
            normal: if front_face {
                outward_normal
            } else {
                outward_normal.negated()
            },
            t,
            front_face,
            material,
        }
    }

    /// The recorded normal never points along the ray.
    pub proof fn lemma_normal_faces_ray(
        t: Scalar,
        p: Point3,
        outward_normal: Vec3,
        r: Ray,
        material: Material,
    )
        requires
            outward_normal.wf(),
        ensures
            r.direction.spec_dot(
                HitRecord::spec_new(t, p, outward_normal, r, material).normal,
            ).raw <= 0,
    {
        r.direction.lemma_dot_negated(outward_normal);
    }

    /// The record of a meeting at parameter `t` and point `p`, where the
    /// surface has the outward normal `outward_normal`.
    pub fn new(
        t: Scalar,
        p: Point3,
        outward_normal: &Vec3,
        r: &Ray,
        material: Material,
    ) -> (h: HitRecord)
        ensures
            h == HitRecord::spec_new(t, p, *outward_normal, *r, material),
    {
        let front_face = r.direction.dot(outward_normal).raw < 0;
        let normal = if front_face {
            *outward_normal
        } else {
            outward_normal.neg()
        };
        HitRecord { p, normal, t, front_face, material }
    }

    pub fn t(&self) -> (r: Scalar)
        ensures
            r == self.t,
    {
        self.t
    }

    pub fn normal(&self) -> (r: Vec3)
        ensures
            r == self.normal,
    {
        self.normal
    }

    pub fn position(&self) -> (r: Point3)
        ensures
            r == self.p,
    {
        self.p
    }

    pub fn front_face(&self) -> (r: bool)
        ensures
            r == self.front_face,
    {
        self.front_face
    }
}

impl ScatterRecord {
    /// The outcome of a scattering: the new ray and what it keeps of the light.
    pub fn new(scattered: Ray, attenuation: Color) -> (r: ScatterRecord)
        ensures
            r == (ScatterRecord { scattered, attenuation }),
    {
        ScatterRecord { scattered, attenuation }
    }
}

} // verus!
