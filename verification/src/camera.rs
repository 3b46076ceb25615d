//! The camera: a thin lens in front of a viewport.

use rand::rngs::ThreadRng;
use vstd::prelude::*;
use crate::nearness::gauge;
use crate::precision::{
    crossable, lemma_cross_bounded, lemma_cross_perpendicular, lemma_scaled_length,
    lemma_unit_bounded, lemma_unit_length, lemma_unit_perpendicular, taxicab, CROSS_MAX,
};
use crate::ray::Ray;
use crate::scalar::{Scalar, SCALE};
use crate::vec3::{Point3, Vec3};

verus! {

/// Where the eye is, and the viewport it looks through.
#[derive(Clone, Copy, Debug, PartialEq, Eq, Structural)]
pub struct Camera {
    pub origin: Point3,
    /// The viewport's lower edge, from left to right.
    pub horizontal: Vec3,
    /// The viewport's left edge, from bottom to top.
    pub vertical: Vec3,
    pub lower_left_corner: Point3,
    pub lens_radius: Scalar,
    /// To the right of the eye.
    pub u: Vec3,
    /// Upward.
    pub v: Vec3,
    /// Backward, from the target to the eye.
    pub w: Vec3,
}

impl Camera {
    /// The camera at `lookfrom` that looks at `lookat` with `vup` upward.
    ///
    /// The viewport is `2 half_height` high and `aspect_ratio` times as wide,
    /// both scaled by `focus_dist`, and stands `focus_dist` in front of the
    /// eye, centered. The basis is `w = unit(lookfrom - lookat)`,
    /// `u = unit(vup x w)`, `v = w x u`, and the lens radius is half the
    /// aperture.
    pub open spec fn spec_new(
        lookfrom: Point3,
        lookat: Point3,
        vup: Vec3,
        half_height: Scalar,
        aspect_ratio: Scalar,
        aperture: Scalar,
        focus_dist: Scalar,
    ) -> Camera {
        let two = Scalar::of(2 * SCALE);
        let viewport_height = two.times(half_height);
        let viewport_width = aspect_ratio.times(viewport_height);
        let w = lookfrom.minus(lookat).spec_unit();
        let u = vup.spec_cross(w).spec_unit();
        let v = w.spec_cross(u);
        let horizontal = u.scaled(focus_dist.times(viewport_width));
        let vertical = v.scaled(focus_dist.times(viewport_height));
        Camera {
            origin: lookfrom,
            horizontal,
            vertical,
            lower_left_corner: lookfrom.minus(horizontal.over(two)).minus(vertical.over(two)).minus(
                w.scaled(focus_dist),
            ),
            lens_radius: aperture.over(two),
            u,
            v,
            w,
        }
    }

    /// The ray through the viewport point `(s, t)` that starts at the point
    /// `disk` of the unit lens: the eye is moved by
    /// `lens_radius (disk.x u + disk.y v)`, and the ray aims at
    /// `lower_left_corner + s horizontal + t vertical`.
    pub open spec fn spec_ray_through(self, s: Scalar, t: Scalar, disk: Vec3) -> Ray {
        let rd = disk.scaled(self.lens_radius);
        let offset = self.u.scaled(rd.x).plus(self.v.scaled(rd.y));
        Ray {
            origin: self.origin.plus(offset),
            direction: self.lower_left_corner.plus(self.horizontal.scaled(s)).plus(
                self.vertical.scaled(t),
            ).minus(self.origin).minus(offset),
        }
    }

    /// The basis of every camera is orthonormal up to rounding. `w` and `u`
    /// are one long, at most four trillionths short, wherever the vector
    /// each is the unit of is not zero; and the exact dot product of `v` with
    /// `w` and with `u`, in raw squares, is at most twice the sum of the
    /// other's coordinates, which is at most six trillionths.
    pub proof fn lemma_basis(
        lookfrom: Point3,
        lookat: Point3,
        vup: Vec3,
        half_height: Scalar,
        aspect_ratio: Scalar,
        aperture: Scalar,
        focus_dist: Scalar,
    )
        ensures
            ({
                let cam = Camera::spec_new(
                    lookfrom,
                    lookat,
                    vup,
                    half_height,
                    aspect_ratio,
                    aperture,
                    focus_dist,
                );
                &&& cam.w == lookfrom.minus(lookat).spec_unit()
                &&& cam.u == vup.spec_cross(cam.w).spec_unit()
                &&& lookfrom.minus(lookat).spec_largest() > 0 ==> SCALE - 4
                    <= cam.w.spec_length().raw <= SCALE
                &&& vup.spec_cross(cam.w).spec_largest() > 0 ==> SCALE - 4
                    <= cam.u.spec_length().raw <= SCALE
                &&& gauge(cam.v.raw_dot(cam.w)) <= 2 * taxicab(cam.w) <= 6 * SCALE
                &&& gauge(cam.v.raw_dot(cam.u)) <= 2 * taxicab(cam.u) <= 6 * SCALE
            }),
    {
        let toward = lookfrom.minus(lookat);
        let w = toward.spec_unit();
        let aside = vup.spec_cross(w);
        let u = aside.spec_unit();
        lemma_unit_bounded(toward);
        lemma_unit_bounded(aside);
        if toward.spec_largest() > 0 {
            lemma_unit_length(toward);
        }
        if aside.spec_largest() > 0 {
            lemma_unit_length(aside);
        }
        lemma_cross_perpendicular(w, u);
    }

    /// `u` is perpendicular to `w` up to rounding, where `vup` is at most a
    /// thousand in every coordinate and not along the line of sight: with `a`
    /// for `vup x w`, the fine length of `a` times the exact dot product of
    /// `u` with `w` is at most the sum of the coordinates of `w` times the
    /// fine length and twice the stretch times `SCALE`.
    pub proof fn lemma_basis_right(
        lookfrom: Point3,
        lookat: Point3,
        vup: Vec3,
        half_height: Scalar,
        aspect_ratio: Scalar,
        aperture: Scalar,
        focus_dist: Scalar,
    )
        requires
            crossable(vup),
            vup.spec_cross(lookfrom.minus(lookat).spec_unit()).spec_largest() > 0,
        ensures
            ({
                let cam = Camera::spec_new(
                    lookfrom,
                    lookat,
                    vup,
                    half_height,
                    aspect_ratio,
                    aperture,
                    focus_dist,
                );
                let a = vup.spec_cross(cam.w);
                a.spec_fine_length() * gauge(cam.u.raw_dot(cam.w)) <= (2 * (a.spec_stretch()
                    * SCALE) + a.spec_fine_length()) * taxicab(cam.w)
            }),
    {
        let toward = lookfrom.minus(lookat);
        let w = toward.spec_unit();
        let a = vup.spec_cross(w);
        let u = a.spec_unit();
        lemma_unit_bounded(toward);
        lemma_cross_perpendicular(vup, w);
        lemma_unit_perpendicular(a, w);
        a.lemma_fine_length();
        Vec3::lemma_stretch(a.spec_largest());
        let f = a.spec_stretch() * SCALE;
        let m = a.spec_fine_length();
        let off = gauge(a.raw_dot(w));
        let w1 = taxicab(w);
        assert(f * off <= f * (2 * w1)) by (nonlinear_arith)
            requires
                f == a.spec_stretch() * SCALE,
                a.spec_stretch() >= 1,
                off <= 2 * w1,
        ;
        assert((2 * f + m) * w1 == f * (2 * w1) + m * w1) by (nonlinear_arith);
    }

    /// The edges of the viewport are as long as they are meant to be, up to
    /// rounding, where both sizes are positive and at most a thousand:
    /// `horizontal` is `u` scaled by `focus_dist` times the width and
    /// `vertical` is `v` scaled by `focus_dist` times the height, and
    /// `SCALE^2` times the squared length of each differs from the squared
    /// size times the squared length of its basis vector by at most
    /// `SCALE (2 size |basis|_1 + 3 SCALE)`, all in raw values.
    pub proof fn lemma_viewport(
        lookfrom: Point3,
        lookat: Point3,
        vup: Vec3,
        half_height: Scalar,
        aspect_ratio: Scalar,
        aperture: Scalar,
        focus_dist: Scalar,
    )
        requires
            1 <= focus_dist.times(Scalar::of(2 * SCALE).times(half_height)).raw <= CROSS_MAX,
            1 <= focus_dist.times(
                aspect_ratio.times(Scalar::of(2 * SCALE).times(half_height)),
            ).raw <= CROSS_MAX,
        ensures
            ({
                let cam = Camera::spec_new(
                    lookfrom,
                    lookat,
                    vup,
                    half_height,
                    aspect_ratio,
                    aperture,
                    focus_dist,
                );
                let height = focus_dist.times(Scalar::of(2 * SCALE).times(half_height));
                let width = focus_dist.times(
                    aspect_ratio.times(Scalar::of(2 * SCALE).times(half_height)),
                );
                &&& cam.horizontal == cam.u.scaled(width)
                &&& cam.vertical == cam.v.scaled(height)
                &&& gauge(
                    (SCALE * SCALE) * cam.horizontal.raw_dot(cam.horizontal) - (width.raw
                        * width.raw) * cam.u.raw_dot(cam.u),
                ) <= 2 * (width.raw * (SCALE * taxicab(cam.u))) + 3 * (SCALE * SCALE)
                &&& gauge(
                    (SCALE * SCALE) * cam.vertical.raw_dot(cam.vertical) - (height.raw
                        * height.raw) * cam.v.raw_dot(cam.v),
                ) <= 2 * (height.raw * (SCALE * taxicab(cam.v))) + 3 * (SCALE * SCALE)
            }),
    {
        let toward = lookfrom.minus(lookat);
        let w = toward.spec_unit();
        let aside = vup.spec_cross(w);
        let u = aside.spec_unit();
        let height = focus_dist.times(Scalar::of(2 * SCALE).times(half_height));
        let width = focus_dist.times(aspect_ratio.times(Scalar::of(2 * SCALE).times(half_height)));
        lemma_unit_bounded(toward);
        lemma_unit_bounded(aside);
        lemma_cross_bounded(w, u);
        lemma_scaled_length(u, width);
        lemma_scaled_length(w.spec_cross(u), height);
    }

    /// `half_height` is the tangent of half the vertical field of view.
    pub fn new(
        lookfrom: Point3,
        lookat: Point3,
        vup: Vec3,
        half_height: Scalar,
        aspect_ratio: Scalar,
        aperture: Scalar,
        focus_dist: Scalar,
    ) -> (r: Camera)
        ensures
            r == Camera::spec_new(
                lookfrom,
                lookat,
                vup,
                half_height,
                aspect_ratio,
                aperture,
                focus_dist,
            ),
    {
        let two = Scalar::from_int(2);
        let viewport_height = two * half_height;
        let viewport_width = aspect_ratio * viewport_height;

        let w = (lookfrom - lookat).unit();
        let u = vup.cross(&w).unit();
        let v = w.cross(&u);

        let origin = lookfrom;
        let horizontal = (focus_dist * viewport_width) * u;
        let vertical = (focus_dist * viewport_height) * v;
        let lower_left_corner = origin - horizontal / two - vertical / two - focus_dist * w;
        let lens_radius = aperture / two;

        Camera { origin, horizontal, vertical, lower_left_corner, lens_radius, u, v, w }
    }

    /// The ray through the viewport point `(s, t)` from the point `disk` of
    /// the unit lens.
    pub fn ray_through(&self, s: Scalar, t: Scalar, disk: Vec3) -> (r: Ray)
        ensures
            r == self.spec_ray_through(s, t, disk),
    {
        let rd = self.lens_radius * disk;
        let offset = rd.x * self.u + rd.y * self.v;
        Ray::new(
            self.origin + offset,
            self.lower_left_corner + s * self.horizontal + t * self.vertical - self.origin
                - offset,
        )
    }

    /// A ray through the viewport point `(s, t)` from a random point of the
    /// lens.
    pub fn ray_to(&self, s: Scalar, t: Scalar, rng: &mut ThreadRng) -> (r: Ray)
        ensures
            exists|disk: Vec3| #[trigger]
                disk.in_unit_disk() && r == self.spec_ray_through(s, t, disk),
    {
        let disk = Vec3::gen_in_unit_disk(rng);
        assert(disk.in_unit_disk());
        self.ray_through(s, t, disk)
    }
}

} // verus!
