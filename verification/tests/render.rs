use pathtracer::camera::Camera;
use pathtracer::color::Color;
use pathtracer::materials::{Lambertian, Material, Sample};
use pathtracer::render::{
    coordinate, pixel_color, pixel_color_with, sample_color, sample_color_with, PixelSample,
};
use pathtracer::scalar::Scalar;
use pathtracer::scene::Scene;
use pathtracer::sphere::Sphere;
use pathtracer::vec3::Vec3;
use rand::thread_rng;

fn d(x: f64) -> Scalar {
    Scalar::from_raw((x * 1e12).round() as i64)
}

fn tri(x: f64, y: f64, z: f64) -> Vec3 {
    Vec3::new(d(x), d(y), d(z))
}

fn eye() -> Camera {
    Camera::new(
        tri(0.0, 0.0, 0.0),
        tri(0.0, 0.0, -1.0),
        tri(0.0, 1.0, 0.0),
        d(1.0),
        d(2.0),
        d(0.0),
        d(1.0),
    )
}

fn ball() -> Sphere {
    Sphere::new(
        tri(0.0, 0.0, -1.0),
        d(0.5),
        Material::Lambertian(Lambertian::new(tri(0.1, 0.2, 0.5))),
    )
}

#[test]
fn coordinates_divide_by_one_less_than_the_count() {
    assert_eq!(coordinate(0, d(0.0), 600), d(0.0));
    assert_eq!(coordinate(599, d(0.0), 600), d(1.0));
    assert_eq!(coordinate(3, d(0.5), 8), d(0.5));
    assert_eq!(coordinate(1, d(0.5), 2), d(1.5));
    assert_eq!(coordinate(100, d(0.25), 338).raw(), 297_477_744_807);
}

#[test]
fn a_single_pixel_image_has_coordinate_zero() {
    assert_eq!(coordinate(0, d(0.5), 1), d(0.0));
    assert_eq!(coordinate(0, d(0.5), 0), d(-0.5));
}

#[test]
fn samples_without_bounces_are_black() {
    let mut rng = thread_rng();
    let scene: Scene<Sphere> = Scene::new();
    for _ in 0..20 {
        assert_eq!(sample_color(&eye(), &scene, &mut rng, 3, 4, 10, 10, 0), Color::black());
    }
    assert_eq!(pixel_color(&eye(), &scene, &mut rng, 3, 4, 10, 10, 7, 0), Color::black());
}

#[test]
fn a_pixel_without_samples_is_black() {
    let mut rng = thread_rng();
    let scene: Scene<Sphere> = Scene::new();
    assert_eq!(pixel_color(&eye(), &scene, &mut rng, 3, 4, 10, 10, 0, 50), Color::black());
}

#[test]
fn a_pixel_on_the_ball_is_black_with_one_bounce() {
    let mut rng = thread_rng();
    let mut scene = Scene::new();
    scene.add(ball());
    for _ in 0..20 {
        assert_eq!(pixel_color(&eye(), &scene, &mut rng, 50, 50, 101, 101, 4, 1), Color::black());
    }
}

#[test]
fn a_pixel_of_sky_lies_between_white_and_blue() {
    let mut rng = thread_rng();
    let scene: Scene<Sphere> = Scene::new();
    let mut seen = Vec::new();
    for _ in 0..50 {
        let c = pixel_color(&eye(), &scene, &mut rng, 0, 7, 8, 8, 5, 50);
        assert!(d(0.5) <= c.x && c.x <= d(0.75));
        assert!(d(0.7) <= c.y && c.y <= d(0.85));
        assert!(d(0.999999) <= c.z && c.z <= d(1.0));
        seen.push(c);
    }
    assert!(seen.iter().any(|c| *c != seen[0]));
}

#[test]
fn one_sample_is_a_color_of_a_ray_through_the_pixel() {
    let mut rng = thread_rng();
    let scene: Scene<Sphere> = Scene::new();
    let camera = eye();
    for _ in 0..50 {
        let c = sample_color(&camera, &scene, &mut rng, 2, 1, 4, 4, 3);
        let low = camera.ray_through(coordinate(2, d(0.0), 4), coordinate(1, d(0.0), 4), Vec3::zero());
        let high = camera.ray_through(coordinate(2, d(0.0), 4), coordinate(2, d(0.0), 4), Vec3::zero());
        assert!(high.background().x <= c.x && c.x <= low.background().x);
    }
}

fn centered(bounce: Vec3, draw: f64) -> PixelSample {
    PixelSample::new(d(0.5), d(0.5), Vec3::zero(), vec![Sample::new(bounce, d(draw))])
}

fn rgb_of(x: i64, y: i64, z: i64) -> Vec3 {
    Vec3::new(Scalar::from_raw(x), Scalar::from_raw(y), Scalar::from_raw(z))
}

#[test]
fn two_by_two_fixture_on_given_samples() {
    let mut scene = Scene::new();
    scene.add(ball());
    let camera = eye();
    for (depth, expected) in [
        (1, [(185, 216, 255), (204, 226, 255), (0, 0, 0), (221, 236, 255)]),
        (2, [(185, 216, 255), (204, 226, 255), (65, 101, 181), (221, 236, 255)]),
    ] {
        let mut image = Vec::new();
        for j in (0..2).rev() {
            for i in 0..2 {
                let samples = vec![centered(tri(0.25, 0.5, 0.125), 0.5)];
                let pixel = pixel_color_with(&camera, &scene, i, j, 2, 2, &samples, depth);
                let again = pixel_color_with(&camera, &scene, i, j, 2, 2, &samples, depth);
                assert_eq!(pixel, again);
                image.push(pixel.rgb());
            }
        }
        assert_eq!(image, expected.to_vec());
    }
}

#[test]
fn a_pixel_is_the_average_of_its_samples() {
    let mut scene = Scene::new();
    scene.add(ball());
    let camera = eye();
    let samples = vec![
        centered(tri(0.25, 0.5, 0.125), 0.5),
        PixelSample::new(d(0.25), d(0.75), Vec3::zero(), vec![Sample::new(tri(0.1, 0.1, 0.7), d(0.3))]),
        PixelSample::new(d(0.9), d(0.1), Vec3::zero(), vec![Sample::new(tri(0.25, 0.5, 0.125), d(0.5))]),
    ];
    let each: Vec<Vec3> = samples
        .iter()
        .map(|s| sample_color_with(&camera, &scene, 0, 0, 2, 2, s, 2))
        .collect();
    assert_eq!(
        each,
        vec![
            rgb_of(65_049_628_097, 158_059_553_717, 500_000_000_000),
            rgb_of(666_666_666_667, 800_000_000_000, 1_000_000_000_000),
            rgb_of(847_590_007_295, 908_554_004_377, 1_000_000_000_000),
        ]
    );
    let pixel = pixel_color_with(&camera, &scene, 0, 0, 2, 2, &samples, 2);
    assert_eq!(pixel, rgb_of(526_435_434_019, 622_204_519_364, 833_333_333_332));
    assert_eq!(pixel.rgb(), (185, 201, 233));
    let none: Vec<PixelSample> = Vec::new();
    assert_eq!(pixel_color_with(&camera, &scene, 0, 0, 2, 2, &none, 2), Color::black());
}

#[test]
fn coordinates_of_a_huge_image_are_formed_exactly() {
    assert_eq!(coordinate(10_000_000, d(0.0), 20_000_001), d(0.5));
    assert_eq!(coordinate(4_000_000_000, d(0.5), 4_000_000_001).raw(), 1_000_000_000_125);
    assert_eq!(coordinate(u32::MAX, d(0.0), u32::MAX), Scalar::from_raw(1_000_000_000_232));
}
