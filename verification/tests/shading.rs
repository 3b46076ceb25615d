use pathtracer::camera::Camera;
use pathtracer::color::{channel, clamp, Color, CHANNEL_MAX};
use pathtracer::materials::{Dielectric, Lambertian, Material, Metal, Sample};
use pathtracer::ray::{Ray, TRACE_MIN};
use pathtracer::render::coordinate;
use pathtracer::scalar::Scalar;
use pathtracer::scene::Scene;
use pathtracer::sphere::Sphere;
use pathtracer::vec3::Vec3;
use rand::thread_rng;

fn f(x: f64) -> Scalar {
    Scalar::from_raw((x * 1e12).round() as i64)
}

fn xyz(x: f64, y: f64, z: f64) -> Vec3 {
    Vec3::new(f(x), f(y), f(z))
}

fn black() -> Color {
    Color::black()
}

fn busy_scene() -> Scene<Sphere> {
    let mut scene = Scene::new();
    let ground = Material::Lambertian(Lambertian::new(xyz(0.8, 0.8, 0.0)));
    let center = Material::Lambertian(Lambertian::new(xyz(0.1, 0.2, 0.5)));
    let left = Material::Dielectric(Dielectric::new(f(1.5)));
    let right = Material::Metal(Metal::new(xyz(0.8, 0.6, 0.2), f(0.0)));
    scene.add(Sphere::new(xyz(0.0, -100.5, -1.0), f(100.0), ground));
    scene.add(Sphere::new(xyz(0.0, 0.0, -1.0), f(0.5), center));
    scene.add(Sphere::new(xyz(-1.0, 0.0, -1.0), f(0.5), left));
    scene.add(Sphere::new(xyz(1.0, 0.0, -1.0), f(0.5), right));
    scene
}

#[test]
fn clamp_holds_a_value_between_the_bounds() {
    assert_eq!(clamp(f(0.5), f(0.0), f(0.999)), f(0.5));
    assert_eq!(clamp(f(-0.5), f(0.0), f(0.999)), f(0.0));
    assert_eq!(clamp(f(1.5), f(0.0), f(0.999)), f(0.999));
    assert_eq!(clamp(f(0.0), f(0.0), f(0.999)), f(0.0));
    assert_eq!(clamp(f(0.999), f(0.0), f(0.999)), f(0.999));
    assert_eq!(clamp(f(1.0), f(2.0), f(1.0)), f(2.0));
}

#[test]
fn channels_are_gamma_corrected_and_cut_to_eight_bits() {
    assert_eq!(CHANNEL_MAX, 999_000_000_000);
    assert_eq!(channel(f(0.25)), 128);
    assert_eq!(channel(f(0.5)), 181);
    assert_eq!(channel(f(1.0)), 255);
    assert_eq!(channel(f(4.0)), 255);
    assert_eq!(channel(Scalar::infinity()), 255);
    assert_eq!(channel(f(0.0)), 0);
    assert_eq!(channel(f(-1.0)), 0);
}

#[test]
fn rgb_takes_each_channel() {
    assert_eq!(xyz(0.3, 0.6, 0.9).rgb(), (140, 198, 242));
    assert_eq!(Color::sky().rgb(), (181, 214, 255));
    assert_eq!(Color::white().rgb(), (255, 255, 255));
    assert_eq!(black().rgb(), (0, 0, 0));
}

#[test]
fn named_colors() {
    assert_eq!(Color::white(), xyz(1.0, 1.0, 1.0));
    assert_eq!(Color::sky(), xyz(0.5, 0.7, 1.0));
    assert_eq!(TRACE_MIN, 1_000_000_000);
}

#[test]
fn depth_zero_is_black_whatever_the_scene() {
    let mut rng = thread_rng();
    let empty: Scene<Sphere> = Scene::new();
    let busy = busy_scene();
    for ray in [
        Ray::new(xyz(0.0, 0.0, 0.0), xyz(0.0, 0.0, -1.0)),
        Ray::new(xyz(0.0, 0.0, 0.0), xyz(0.0, 1.0, 0.0)),
        Ray::new(xyz(3.0, -2.0, 7.0), xyz(-1.0, 0.3, -2.0)),
        Ray::new(xyz(0.0, 0.0, 0.0), xyz(0.0, 0.0, 0.0)),
    ] {
        assert_eq!(ray.color(&empty, &mut rng, 0), black());
        assert_eq!(ray.color(&busy, &mut rng, 0), black());
        assert_eq!(ray.color(&Sphere::new(xyz(0.0, 0.0, -1.0), f(0.5), Material::Dielectric(Dielectric::new(f(1.5)))), &mut rng, 0), black());
    }
}

#[test]
fn straight_up_is_sky_blue_and_straight_down_is_white() {
    let mut rng = thread_rng();
    let empty: Scene<Sphere> = Scene::new();
    let up = Ray::new(xyz(0.0, 0.0, 0.0), xyz(0.0, 1.0, 0.0));
    let down = Ray::new(xyz(0.0, 0.0, 0.0), xyz(0.0, -1.0, 0.0));
    assert_eq!(up.background(), xyz(0.5, 0.7, 1.0));
    assert_eq!(down.background(), xyz(1.0, 1.0, 1.0));
    for depth in [1, 2, 50] {
        assert_eq!(up.color(&empty, &mut rng, depth), xyz(0.5, 0.7, 1.0));
        assert_eq!(down.color(&empty, &mut rng, depth), xyz(1.0, 1.0, 1.0));
    }
}

#[test]
fn background_blends_by_height() {
    let level = Ray::new(xyz(0.0, 0.0, 0.0), xyz(0.0, 0.0, -1.0));
    assert_eq!(level.background(), xyz(0.75, 0.85, 1.0));
    let rising = Ray::new(xyz(0.0, 0.0, 0.0), xyz(1.0, 1.0, 0.0));
    assert_eq!(
        rising.background(),
        Vec3::new(Scalar::from_raw(573_223_304_703), Scalar::from_raw(743_933_982_822), f(1.0))
    );
    let falling = Ray::new(xyz(0.0, 0.0, 0.0), xyz(3.0, -4.0, 0.0));
    assert_eq!(falling.background(), xyz(0.95, 0.97, 1.0));
    let nowhere = Ray::new(xyz(0.0, 0.0, 0.0), xyz(0.0, 0.0, 0.0));
    assert_eq!(nowhere.background(), xyz(0.75, 0.85, 1.0));
}

#[test]
fn a_ray_that_misses_sees_the_background() {
    let mut rng = thread_rng();
    let scene = busy_scene();
    let ray = Ray::new(xyz(0.0, 0.0, 0.0), xyz(0.0, 1.0, 0.0));
    assert_eq!(ray.color(&scene, &mut rng, 50), xyz(0.5, 0.7, 1.0));
}

#[test]
fn with_one_bounce_left_every_surface_is_black() {
    let mut rng = thread_rng();
    let scene = busy_scene();
    for direction in [xyz(0.0, 0.0, -1.0), xyz(-1.0, 0.0, -1.0), xyz(1.0, 0.0, -1.0), xyz(0.0, -1.0, 0.0)] {
        let ray = Ray::new(xyz(0.0, 0.0, 0.0), direction);
        assert_eq!(ray.color(&scene, &mut rng, 1), black());
    }
}

#[test]
fn one_matte_bounce_tints_the_sky() {
    let mut rng = thread_rng();
    let albedo = xyz(0.1, 0.2, 0.5);
    let ball = Sphere::new(xyz(0.0, 0.0, -1.0), f(0.5), Material::Lambertian(Lambertian::new(albedo)));
    let ray = Ray::new(xyz(0.0, 0.0, 0.0), xyz(0.0, 0.0, -1.0));
    for _ in 0..200 {
        let c = ray.color(&ball, &mut rng, 2);
        assert!(c == black() || (f(0.05) <= c.x && c.x <= albedo.x));
        assert!(c == black() || (f(0.14) <= c.y && c.y <= albedo.y));
        assert!(c == black() || c.z == albedo.z);
    }
}

#[test]
fn a_mirror_shows_the_sky_behind_the_eye() {
    let mut rng = thread_rng();
    let albedo = xyz(0.8, 0.6, 0.2);
    let ball = Sphere::new(xyz(0.0, 0.0, -1.0), f(0.5), Material::Metal(Metal::new(albedo, f(0.0))));
    let ray = Ray::new(xyz(0.0, 0.0, 0.0), xyz(0.0, 0.0, -1.0));
    let back = Ray::new(xyz(0.0, 0.0, -0.5), xyz(0.0, 0.0, 1.0));
    assert_eq!(ray.color(&ball, &mut rng, 2), albedo * back.background());
    assert_eq!(ray.color(&ball, &mut rng, 2), xyz(0.6, 0.51, 0.2));
    assert_eq!(ray.color(&ball, &mut rng, 50), xyz(0.6, 0.51, 0.2));
}

#[test]
fn an_absorbed_ray_is_black() {
    let mut rng = thread_rng();
    let ball = Sphere::new(xyz(0.0, 0.0, -1.0), f(1.0), Material::Metal(Metal::new(xyz(0.8, 0.6, 0.2), f(0.0))));
    let grazing = Ray::new(xyz(0.0, 1.0, 0.0), xyz(0.0, 0.0, -1.0));
    assert_eq!(grazing.color(&ball, &mut rng, 50), black());
}

#[test]
fn two_by_two_render_is_reproducible() {
    let mut rng = thread_rng();
    let camera = Camera::new(
        xyz(0.0, 0.0, 0.0),
        xyz(0.0, 0.0, -1.0),
        xyz(0.0, 1.0, 0.0),
        f(1.0),
        f(2.0),
        f(0.0),
        f(1.0),
    );
    let mut scene = Scene::new();
    scene.add(Sphere::new(
        xyz(0.0, 0.0, -1.0),
        f(0.5),
        Material::Lambertian(Lambertian::new(xyz(0.1, 0.2, 0.5))),
    ));
    let width = 2;
    let height = 2;
    let max_depth = 1;
    let jitter = f(0.5);
    let mut image = Vec::new();
    for j in (0..height).rev() {
        for i in 0..width {
            let u = coordinate(i, jitter, width);
            let v = coordinate(j, jitter, height);
            let ray = camera.ray_to(u, v, &mut rng);
            let mut pixel = Color::black();
            pixel.add_assign(ray.color(&scene, &mut rng, max_depth));
            pixel.mul_assign(Scalar::one() / Scalar::from_int(1));
            image.push(pixel.rgb());
        }
    }
    assert_eq!(image, vec![(185, 216, 255), (204, 226, 255), (0, 0, 0), (221, 236, 255)]);
}

#[test]
fn the_background_does_not_depend_on_the_length_of_the_direction() {
    let mut rng = thread_rng();
    let empty: Scene<Sphere> = Scene::new();
    let origin = xyz(0.0, 0.0, 0.0);
    let slow_up = Ray::new(origin, Vec3::new(f(0.0), Scalar::from_raw(1000), f(0.0)));
    assert_eq!(slow_up.background(), xyz(0.5, 0.7, 1.0));
    assert_eq!(slow_up.color(&empty, &mut rng, 3), xyz(0.5, 0.7, 1.0));
    let slowest_down = Ray::new(origin, Vec3::new(f(0.0), Scalar::from_raw(-1), f(0.0)));
    assert_eq!(slowest_down.background(), xyz(1.0, 1.0, 1.0));
    for k in [0.000001, 0.01, 1.0, 250.0] {
        let scaled = Ray::new(origin, xyz(3.0 * k, -4.0 * k, 0.0));
        assert_eq!(scaled.background(), xyz(0.95, 0.97, 1.0));
    }
}

fn fixed_samples() -> Vec<Sample> {
    vec![
        Sample::new(xyz(0.25, 0.5, 0.125), f(0.5)),
        Sample::new(xyz(0.1, 0.7, 0.2), f(0.01)),
        Sample::new(xyz(0.3, 0.3, 0.3), f(0.9)),
        Sample::new(xyz(0.0, 0.9, 0.1), f(0.2)),
    ]
}

fn rawc(x: i64, y: i64, z: i64) -> Color {
    Color::new(Scalar::from_raw(x), Scalar::from_raw(y), Scalar::from_raw(z))
}

#[test]
fn the_same_samples_give_the_same_color() {
    let scene = busy_scene();
    let samples = fixed_samples();
    let origin = xyz(0.0, 0.0, 0.0);
    let matte = Ray::new(origin, xyz(0.0, 0.0, -1.0));
    assert_eq!(matte.color_with(&scene, &samples, 0), black());
    assert_eq!(matte.color_with(&scene, &samples, 1), black());
    let seen = rawc(65_049_628_097, 158_059_553_717, 500_000_000_000);
    assert_eq!(matte.color_with(&scene, &samples, 2), seen);
    assert_eq!(matte.color_with(&scene, &samples, 2), seen);
    assert_eq!(matte.color_with(&scene, &samples, 5), seen);
    assert_eq!(matte.color_with(&scene, &samples[..1].to_vec(), 5), seen);

    let glass = Ray::new(origin, xyz(-1.0, 0.0, -1.0));
    assert_eq!(glass.color_with(&scene, &samples, 3), black());
    assert_eq!(glass.color_with(&scene, &samples, 5), xyz(0.75, 0.85, 1.0));
    assert_eq!(glass.color_with(&scene, &samples[..1].to_vec(), 5), black());

    let mirror = Ray::new(origin, xyz(1.0, 0.0, -1.0));
    assert_eq!(mirror.color_with(&scene, &samples, 2), xyz(0.6, 0.51, 0.2));

    let ground = Ray::new(origin, xyz(0.0, -1.0, -0.2));
    assert_eq!(
        ground.color_with(&scene, &samples, 3),
        rawc(403_482_785_952, 562_089_671_571, 0)
    );
    let slanted = Ray::new(origin, xyz(0.2, -0.1, -1.0));
    assert_eq!(
        slanted.color_with(&scene, &samples, 5),
        rawc(67_076_075_464, 160_491_290_557, 500_000_000_000)
    );
}

#[test]
fn without_samples_every_surface_absorbs() {
    let scene = busy_scene();
    let none: Vec<Sample> = Vec::new();
    let hits = Ray::new(xyz(0.0, 0.0, 0.0), xyz(0.0, 0.0, -1.0));
    assert_eq!(hits.color_with(&scene, &none, 50), black());
    let misses = Ray::new(xyz(0.0, 0.0, 0.0), xyz(0.0, 1.0, 0.0));
    assert_eq!(misses.color_with(&scene, &none, 50), xyz(0.5, 0.7, 1.0));
}

#[test]
fn material_scatter_with_uses_the_part_of_the_sample_it_needs() {
    let ray = Ray::new(xyz(0.0, 0.0, 5.0), xyz(0.0, 0.0, -1.0));
    let scene = busy_scene();
    let sample = Sample::new(xyz(0.25, 0.5, 0.125), f(0.01));
    let far = Sphere::new(xyz(0.0, 0.0, 0.0), f(1.0), Material::Dielectric(Dielectric::new(f(1.5))));
    let hit = pathtracer::ray::Hittable::hit(&far, &ray, f(0.001), Scalar::infinity()).unwrap();
    let glass = Material::Dielectric(Dielectric::new(f(1.5)));
    assert_eq!(
        glass.scatter_with(&ray, &hit, &sample),
        Some(Dielectric::new(f(1.5)).scatter_with(&ray, &hit, f(0.01)))
    );
    let matte = Material::Lambertian(Lambertian::new(xyz(0.1, 0.2, 0.5)));
    assert_eq!(
        matte.scatter_with(&ray, &hit, &sample),
        Some(Lambertian::new(xyz(0.1, 0.2, 0.5)).scatter_with(&hit, xyz(0.25, 0.5, 0.125)))
    );
    let metal = Metal::new(xyz(0.8, 0.6, 0.2), f(0.3));
    assert_eq!(
        Material::Metal(metal).scatter_with(&ray, &hit, &sample),
        metal.scatter_with(&ray, &hit, xyz(0.25, 0.5, 0.125))
    );
    assert!(scene.objects.len() == 4);
}
