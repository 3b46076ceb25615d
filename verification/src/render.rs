//! From rays to pixels: jittered samples and their average.

use rand::rngs::ThreadRng;
use vstd::prelude::*;
use crate::camera::Camera;
use crate::color::Color;
use crate::materials::Sample;
use crate::ray::Hittable;
use crate::scalar::{clamp_wide, lemma_quot_machine, quot, Scalar, SCALE};
use crate::vec3::Vec3;

verus! {

/// Where on the viewport a sample lies along one axis: the pixel's index plus
/// the jitter, over the number of pixels less one, formed exactly and rounded
/// once; zero for an image of one pixel.
pub open spec fn spec_coordinate(index: u32, jitter: Scalar, count: u32) -> Scalar {
    Scalar::of(quot((index * SCALE + jitter.raw) * SCALE, (count - 1) * SCALE))
}

/// `c` is a color that one sample of the pixel `(i, j)` can have: a color of
/// the camera's ray through the pixel, moved by some jitter from `[0, 1)`
/// each way, from some point of the lens.
pub open spec fn spec_sample<H: Hittable>(
    camera: Camera,
    scene: &H,
    i: u32,
    j: u32,
    width: u32,
    height: u32,
    depth: nat,
    c: Color,
) -> bool {
    exists|du: Scalar, dv: Scalar, disk: Vec3|
        #![trigger camera.spec_ray_through(spec_coordinate(i, du, width), spec_coordinate(j, dv, height), disk)]
        {
            &&& du.unit_interval()
            &&& dv.unit_interval()
            &&& disk.in_unit_disk()
            &&& camera.spec_ray_through(
                spec_coordinate(i, du, width),
                spec_coordinate(j, dv, height),
                disk,
            ).spec_color(scene, depth, c)
        }
}

/// The sum of `colors`, added up from the left.
pub open spec fn spec_sum(colors: Seq<Color>) -> Color
    decreases colors.len(),
{
    if colors.len() == 0 {
        Color::spec_black()
    } else {
        spec_sum(colors.drop_last()).plus(colors.last())
    }
}

/// `c` is a color that the pixel `(i, j)` can have: the sum of `samples`
/// sample colors, times the reciprocal of `samples`.
pub open spec fn spec_pixel<H: Hittable>(
    camera: Camera,
    scene: &H,
    i: u32,
    j: u32,
    width: u32,
    height: u32,
    samples: u32,
    depth: nat,
    c: Color,
) -> bool {
    exists|colors: Seq<Color>|
        #![trigger spec_sum(colors)]
        {
            &&& colors.len() == samples
            &&& forall|k: int|
                0 <= k < colors.len() ==> spec_sample(
                    camera,
                    scene,
                    i,
                    j,
                    width,
                    height,
                    depth,
                    #[trigger] colors[k],
                )
            &&& c == spec_sum(colors).scaled(
                Scalar { raw: SCALE }.over(Scalar::of(samples * SCALE)),
            )
        }
}

/// What one sample of a pixel draws: the jitter each way, the point of the
/// lens, and a sample for every scattering.
#[derive(Debug, PartialEq, Eq)]
pub struct PixelSample {
    pub du: Scalar,
    pub dv: Scalar,
    pub disk: Vec3,
    pub bounces: Vec<Sample>,
}

impl PixelSample {
    /// Every part is what the samplers can return, and there is a sample for
    /// each of `depth` scatterings.
    pub open spec fn valid(self, depth: nat) -> bool {
        &&& self.du.unit_interval()
        &&& self.dv.unit_interval()
        &&& self.disk.in_unit_disk()
        &&& self.bounces@.len() >= depth
        &&& forall|i: int| 0 <= i < self.bounces@.len() ==> (#[trigger] self.bounces@[i]).valid()
    }

    /// The sample with the given parts.
    pub fn new(du: Scalar, dv: Scalar, disk: Vec3, bounces: Vec<Sample>) -> (r: PixelSample)
        ensures
            r.du == du,
            r.dv == dv,
            r.disk == disk,
            r.bounces@ == bounces@,
    {
        PixelSample { du, dv, disk, bounces }
    }
}

/// The color of one sample of the pixel `(i, j)` where `sample` stands in
/// place of every draw.
pub open spec fn spec_sample_with<H: Hittable>(
    camera: Camera,
    scene: &H,
    i: u32,
    j: u32,
    width: u32,
    height: u32,
    sample: PixelSample,
    depth: nat,
) -> Color {
    camera.spec_ray_through(
        spec_coordinate(i, sample.du, width),
        spec_coordinate(j, sample.dv, height),
        sample.disk,
    ).spec_color_with(scene, sample.bounces@, depth)
}

/// The colors of the first `n` of `samples`, one after another.
pub open spec fn spec_colors_with<H: Hittable>(
    camera: Camera,
    scene: &H,
    i: u32,
    j: u32,
    width: u32,
    height: u32,
    samples: Seq<PixelSample>,
    depth: nat,
    n: nat,
) -> Seq<Color> {
    Seq::new(
        n,
        |k: int| spec_sample_with(camera, scene, i, j, width, height, samples[k], depth),
    )
}

/// The color of the pixel `(i, j)` where `samples` stand in place of every
/// draw: the sum of the sample colors times the reciprocal of their number.
pub open spec fn spec_pixel_with<H: Hittable>(
    camera: Camera,
    scene: &H,
    i: u32,
    j: u32,
    width: u32,
    height: u32,
    samples: Seq<PixelSample>,
    depth: nat,
) -> Color {
    spec_sum(
        spec_colors_with(camera, scene, i, j, width, height, samples, depth, samples.len()),
    ).scaled(Scalar { raw: SCALE }.over(Scalar::of(samples.len() * SCALE)))
}

/// What valid samples give is a color that `pixel_color` can return for as
/// many samples.
pub proof fn lemma_pixel_with_possible<H: Hittable>(
    camera: Camera,
    scene: &H,
    i: u32,
    j: u32,
    width: u32,
    height: u32,
    samples: Seq<PixelSample>,
    depth: nat,
)
    requires
        samples.len() <= 0xffff_ffff,
        forall|k: int| 0 <= k < samples.len() ==> (#[trigger] samples[k]).valid(depth),
    ensures
        spec_pixel(
            camera,
            scene,
            i,
            j,
            width,
            height,
            samples.len() as u32,
            depth,
            spec_pixel_with(camera, scene, i, j, width, height, samples, depth),
        ),
{
    let colors = spec_colors_with(camera, scene, i, j, width, height, samples, depth, samples.len());
    assert forall|k: int| 0 <= k < colors.len() implies spec_sample(
        camera,
        scene,
        i,
        j,
        width,
        height,
        depth,
        #[trigger] colors[k],
    ) by {
        let s = samples[k];
        assert(s.valid(depth));
        let ray = camera.spec_ray_through(
            spec_coordinate(i, s.du, width),
            spec_coordinate(j, s.dv, height),
            s.disk,
        );
        ray.lemma_color_with_possible(scene, s.bounces@, depth);
    }
    assert(spec_sum(colors) == spec_sum(colors));
}

/// One sample of the pixel `(i, j)` with `sample` in place of every draw.
pub fn sample_color_with<H: Hittable>(
    camera: &Camera,
    scene: &H,
    i: u32,
    j: u32,
    width: u32,
    height: u32,
    sample: &PixelSample,
    max_depth: u32,
) -> (c: Color)
    ensures
        c == spec_sample_with(*camera, scene, i, j, width, height, *sample, max_depth as nat),
{
    let u = coordinate(i, sample.du, width);
    let v = coordinate(j, sample.dv, height);
    camera.ray_through(u, v, sample.disk).color_with(scene, &sample.bounces, max_depth)
}

/// The color of the pixel `(i, j)` with `samples` in place of every draw:
/// the average of their colors. Without a sample the pixel is black.
pub fn pixel_color_with<H: Hittable>(
    camera: &Camera,
    scene: &H,
    i: u32,
    j: u32,
    width: u32,
    height: u32,
    samples: &Vec<PixelSample>,
    max_depth: u32,
) -> (c: Color)
    ensures
        c == spec_pixel_with(*camera, scene, i, j, width, height, samples@, max_depth as nat),
{
    let mut sum = Color::black();
    let mut n: usize = 0;
    while n < samples.len()
        invariant
            n <= samples@.len(),
            sum == spec_sum(
                spec_colors_with(
                    *camera,
                    scene,
                    i,
                    j,
                    width,
                    height,
                    samples@,
                    max_depth as nat,
                    n as nat,
                ),
            ),
        decreases samples@.len() - n,
    {
        let c = sample_color_with(camera, scene, i, j, width, height, &samples[n], max_depth);
        proof {
            let before = spec_colors_with(
                *camera,
                scene,
                i,
                j,
                width,
                height,
                samples@,
                max_depth as nat,
                n as nat,
            );
            let after = spec_colors_with(
                *camera,
                scene,
                i,
                j,
                width,
                height,
                samples@,
                max_depth as nat,
                (n + 1) as nat,
            );
            assert(after.drop_last() =~= before);
            assert(after.last() == c);
        }
        sum.add_assign(c);
        n += 1;
    }
    let length: u64 = samples.len() as u64;
    let count: i64 = if length > 0x7fff_ffff_ffff_ffff {
        0x7fff_ffff_ffff_ffff
    } else {
        length as i64
    };
    sum.mul_assign(Scalar::one() / Scalar::from_int(count));
    sum
}

/// Where on the viewport a sample lies along one axis.
pub fn coordinate(index: u32, jitter: Scalar, count: u32) -> (r: Scalar)
    ensures
        r == spec_coordinate(index, jitter, count),
{
    let top: i128 = ((index as i128) * (SCALE as i128) + jitter.raw as i128) * (SCALE as i128);
    let bottom: i128 = ((count as i128) - 1) * (SCALE as i128);
    if bottom == 0 {
        return Scalar::zero();
    }
    proof {
        lemma_quot_machine(top as int, bottom as int);
    }
    clamp_wide(top / bottom)
}

/// One sample of the pixel `(i, j)` of an image of `width` by `height`
/// pixels: the light along a ray through a random point of the pixel.
pub fn sample_color<H: Hittable>(
    camera: &Camera,
    scene: &H,
    rng: &mut ThreadRng,
    i: u32,
    j: u32,
    width: u32,
    height: u32,
    max_depth: u32,
) -> (c: Color)
    ensures
        spec_sample(*camera, scene, i, j, width, height, max_depth as nat, c),
{
    let du = Scalar::gen_range(rng, Scalar::zero(), Scalar::one());
    let u = coordinate(i, du, width);
    let dv = Scalar::gen_range(rng, Scalar::zero(), Scalar::one());
    let v = coordinate(j, dv, height);
    let ray = camera.ray_to(u, v, rng);
    let c = ray.color(scene, rng, max_depth);
    proof {
        let disk = choose|disk: Vec3| #[trigger]
            disk.in_unit_disk() && ray == camera.spec_ray_through(u, v, disk);
        assert(camera.spec_ray_through(
            spec_coordinate(i, du, width),
            spec_coordinate(j, dv, height),
            disk,
        ).spec_color(scene, max_depth as nat, c));
    }
    c
}

/// The color of the pixel `(i, j)`: the average of `samples` samples.
/// Without a sample the pixel is black.
pub fn pixel_color<H: Hittable>(
    camera: &Camera,
    scene: &H,
    rng: &mut ThreadRng,
    i: u32,
    j: u32,
    width: u32,
    height: u32,
    samples: u32,
    max_depth: u32,
) -> (c: Color)
    ensures
        spec_pixel(*camera, scene, i, j, width, height, samples, max_depth as nat, c),
{
    let mut sum = Color::black();
    let ghost mut colors: Seq<Color> = Seq::empty();
    let mut n: u32 = 0;
    while n < samples
        invariant
            n <= samples,
            colors.len() == n,
            sum == spec_sum(colors),
            forall|k: int|
                0 <= k < colors.len() ==> spec_sample(
                    *camera,
                    scene,
                    i,
                    j,
                    width,
                    height,
                    max_depth as nat,
                    #[trigger] colors[k],
                ),
        decreases samples - n,
    {
        let c = sample_color(camera, scene, rng, i, j, width, height, max_depth);
        proof {
            let before = colors;
            colors = colors.push(c);
            assert(colors.drop_last() =~= before);
        }
        sum.add_assign(c);
        n += 1;
    }
    sum.mul_assign(Scalar::one() / Scalar::from_int(samples as i64));
    sum
}

} // verus!
