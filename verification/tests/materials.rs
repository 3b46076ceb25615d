use pathtracer::color::Color;
use pathtracer::materials::{Dielectric, Lambertian, Material, Metal};
use pathtracer::ray::{HitRecord, Ray, ScatterRecord};
use pathtracer::scalar::Scalar;
use pathtracer::vec3::Vec3;
use rand::thread_rng;

fn n(x: f64) -> Scalar {
    Scalar::from_raw((x * 1e12).round() as i64)
}

fn v3(x: f64, y: f64, z: f64) -> Vec3 {
    Vec3::new(n(x), n(y), n(z))
}

fn r3(x: i64, y: i64, z: i64) -> Vec3 {
    Vec3::new(Scalar::from_raw(x), Scalar::from_raw(y), Scalar::from_raw(z))
}

fn albedo() -> Color {
    Color::new(n(0.8), n(0.6), n(0.2))
}

fn placeholder() -> Material {
    Material::Lambertian(Lambertian::new(albedo()))
}

/// A hit at `(0, 0, 1)` on top of the unit sphere, met by `ray`.
fn hit_on_top(ray: &Ray) -> HitRecord {
    HitRecord::new(n(4.0), v3(0.0, 0.0, 1.0), &v3(0.0, 0.0, 1.0), ray, placeholder())
}

fn straight_down() -> Ray {
    Ray::new(v3(0.0, 0.0, 5.0), v3(0.0, 0.0, -1.0))
}

#[test]
fn constructors_keep_their_arguments() {
    assert_eq!(Lambertian::new(albedo()).albedo, albedo());
    assert_eq!(Dielectric::new(n(1.5)).index_of_refraction, n(1.5));
    let m = Metal::new(albedo(), n(0.3));
    assert_eq!(m.albedo, albedo());
    assert_eq!(m.fuzz, n(0.3));
    let s = ScatterRecord::new(straight_down(), albedo());
    assert_eq!(s.scattered, straight_down());
    assert_eq!(s.attenuation, albedo());
}

#[test]
fn metal_fuzz_is_held_between_zero_and_one() {
    assert_eq!(Metal::new(albedo(), n(1.5)).fuzz, n(1.0));
    assert_eq!(Metal::new(albedo(), n(1.0)).fuzz, n(1.0));
    assert_eq!(Metal::new(albedo(), n(0.0)).fuzz, n(0.0));
    assert_eq!(Metal::new(albedo(), n(-0.5)).fuzz, n(0.0));
    assert_eq!(Metal::new(albedo(), Scalar::infinity()).fuzz, n(1.0));
}

#[test]
fn lambertian_scatters_along_normal_plus_sample() {
    let ray = straight_down();
    let hit = hit_on_top(&ray);
    let m = Lambertian::new(Color::new(n(0.1), n(0.2), n(0.5)));
    let s = m.scatter_with(&hit, v3(0.25, 0.5, 0.125));
    assert_eq!(s.scattered, Ray::new(v3(0.0, 0.0, 1.0), v3(0.25, 0.5, 1.125)));
    assert_eq!(s.attenuation, Color::new(n(0.1), n(0.2), n(0.5)));
    let s = m.scatter_with(&hit, Vec3::zero());
    assert_eq!(s.scattered.direction(), v3(0.0, 0.0, 1.0));
}

#[test]
fn lambertian_falls_back_to_the_normal_when_the_sum_vanishes() {
    let ray = straight_down();
    let mut hit = hit_on_top(&ray);
    hit.normal = r3(0, 0, 5);
    let m = Lambertian::new(albedo());
    let s = m.scatter_with(&hit, r3(3, 4, 0));
    assert_eq!(s.scattered.direction(), r3(0, 0, 5));
    let s = m.scatter_with(&hit, r3(3, 10_000, 0));
    assert_eq!(s.scattered.direction(), r3(3, 10_000, 5));
    let s = m.scatter_with(&hit, r3(3, 9_999, 0));
    assert_eq!(s.scattered.direction(), r3(0, 0, 5));
}

#[test]
fn lambertian_always_scatters() {
    let mut rng = thread_rng();
    let ray = straight_down();
    let hit = hit_on_top(&ray);
    let m = Lambertian::new(albedo());
    for _ in 0..200 {
        let s = m.scatter(&ray, &hit, &mut rng).unwrap();
        assert_eq!(s.attenuation, albedo());
        assert_eq!(s.scattered.origin(), hit.position());
        let offset = s.scattered.direction() - hit.normal();
        assert!(offset.length_squared() < Scalar::one());
        assert_eq!(s, m.scatter_with(&hit, offset));
    }
}

#[test]
fn perfect_mirror_reflects_straight_back() {
    let ray = straight_down();
    let hit = hit_on_top(&ray);
    let m = Metal::new(albedo(), n(0.0));
    let s = m.scatter_with(&ray, &hit, v3(0.5, 0.5, 0.5)).unwrap();
    assert_eq!(s.scattered, Ray::new(v3(0.0, 0.0, 1.0), v3(0.0, 0.0, 1.0)));
    assert_eq!(s.attenuation, albedo());
}

#[test]
fn perfect_mirror_reflects_a_slanted_ray() {
    let ray = Ray::new(v3(0.0, 0.0, 0.0), v3(1.0, 0.0, -1.0));
    let hit = hit_on_top(&ray);
    let m = Metal::new(albedo(), n(0.0));
    let s = m.scatter_with(&ray, &hit, v3(0.1, 0.1, 0.1)).unwrap();
    assert_eq!(s.scattered.direction(), r3(707_106_781_186, 0, 707_106_781_186));
    let mut rng = thread_rng();
    for _ in 0..50 {
        assert_eq!(Material::Metal(m).scatter(&ray, &hit, &mut rng), Some(s));
    }
}

#[test]
fn fuzz_pushes_the_reflection_by_the_sample() {
    let ray = straight_down();
    let hit = hit_on_top(&ray);
    let m = Metal::new(albedo(), n(0.3));
    let s = m.scatter_with(&ray, &hit, v3(0.5, 0.25, 0.5)).unwrap();
    assert_eq!(s.scattered.direction(), v3(0.15, 0.075, 1.15));

    let slanted = Ray::new(v3(0.0, 0.0, 0.0), v3(1.0, 0.0, -1.0));
    let rough = Metal::new(albedo(), n(1.0));
    let s = rough.scatter_with(&slanted, &hit_on_top(&slanted), v3(0.25, 0.5, 0.125)).unwrap();
    assert_eq!(s.scattered.direction(), r3(957_106_781_186, 500_000_000_000, 832_106_781_186));
}

#[test]
fn mirror_absorbs_a_ray_that_would_leave_along_the_surface() {
    let ray = Ray::new(v3(0.0, 0.0, 0.0), v3(1.0, 0.0, 0.0));
    let hit = HitRecord::new(n(1.0), v3(1.0, 0.0, 0.0), &v3(0.0, 0.0, 1.0), &ray, placeholder());
    assert_eq!(ray.direction().unit().reflect(&hit.normal()).dot(&hit.normal()), Scalar::zero());
    let m = Metal::new(albedo(), n(0.0));
    assert_eq!(m.scatter_with(&ray, &hit, v3(0.5, 0.5, 0.5)), None);
    let mut rng = thread_rng();
    assert_eq!(m.scatter(&ray, &hit, &mut rng), None);
    assert_eq!(Material::Metal(m).scatter(&ray, &hit, &mut rng), None);
}

#[test]
fn mirror_absorbs_a_ray_that_would_leave_into_the_surface() {
    let ray = Ray::new(v3(0.0, 0.0, 0.0), v3(0.0, 0.0, 1.0));
    let mut hit = hit_on_top(&straight_down());
    hit.normal = v3(0.0, 0.0, 1.0);
    let m = Metal::new(albedo(), n(0.0));
    assert!(ray.direction().unit().reflect(&hit.normal()).dot(&hit.normal()) < Scalar::zero());
    assert_eq!(m.scatter_with(&ray, &hit, v3(0.9, 0.1, 0.1)), None);
    let mut rng = thread_rng();
    assert_eq!(m.scatter(&ray, &hit, &mut rng), None);
}

#[test]
fn reflectance_follows_schlick() {
    let glass = Dielectric::new(n(1.5));
    let into = Scalar::one() / n(1.5);
    assert_eq!(into.raw(), 666_666_666_666);
    assert_eq!(glass.reflectance(n(1.0), into), n(0.04));
    assert_eq!(glass.reflectance(n(1.0), n(1.5)), n(0.04));
    assert_eq!(glass.reflectance(n(0.0), n(1.5)), n(1.0));
    assert_eq!(glass.reflectance(n(0.5), into), n(0.07));
    assert_eq!(glass.reflectance(Scalar::from_raw(707_106_781_186), into).raw(), 42_069_273_123);
}

#[test]
fn glass_reflects_when_the_draw_is_below_the_reflectance() {
    let ray = straight_down();
    let hit = hit_on_top(&ray);
    let glass = Dielectric::new(n(1.5));
    assert!(glass.reflects(&ray, &hit, Scalar::from_raw(39_999_999_999)));
    assert!(!glass.reflects(&ray, &hit, Scalar::from_raw(40_000_000_000)));
    let up = glass.scatter_with(&ray, &hit, n(0.01));
    assert_eq!(up.scattered, Ray::new(v3(0.0, 0.0, 1.0), v3(0.0, 0.0, 1.0)));
    assert_eq!(up.attenuation, Color::new(n(1.0), n(1.0), n(1.0)));
    let down = glass.scatter_with(&ray, &hit, n(0.5));
    assert_eq!(down.scattered, Ray::new(v3(0.0, 0.0, 1.0), v3(0.0, 0.0, -1.0)));
    assert_eq!(down.attenuation, Color::new(n(1.0), n(1.0), n(1.0)));
}

#[test]
fn glass_bends_a_slanted_ray_on_the_way_in() {
    let ray = Ray::new(v3(0.0, 0.0, 5.0), v3(1.0, 0.0, -1.0));
    let hit = hit_on_top(&ray);
    assert!(hit.front_face());
    let glass = Dielectric::new(n(1.5));
    let bent = glass.scatter_with(&ray, &hit, n(0.5));
    assert_eq!(bent.scattered.direction(), r3(471_404_520_790, 0, -881_917_103_688));
    let mirrored = glass.scatter_with(&ray, &hit, n(0.0));
    assert_eq!(mirrored.scattered.direction(), r3(707_106_781_186, 0, 707_106_781_186));
}

#[test]
fn glass_reflects_totally_from_inside_at_a_flat_angle() {
    let ray = Ray::new(v3(0.0, 0.0, 0.0), v3(1.0, 0.0, 0.5));
    let hit = HitRecord::new(n(1.0), v3(0.0, 0.0, 1.0), &v3(0.0, 0.0, 1.0), &ray, placeholder());
    assert!(!hit.front_face());
    assert_eq!(hit.normal(), v3(0.0, 0.0, -1.0));
    let glass = Dielectric::new(n(1.5));
    let almost_one = Scalar::from_raw(999_999_999_999);
    assert!(glass.cannot_refract(&ray, &hit));
    assert!(glass.reflects(&ray, &hit, almost_one));
    let s = glass.scatter_with(&ray, &hit, almost_one);
    assert_eq!(s.scattered.direction(), r3(894_427_190_999, 0, -447_213_595_499));
    let mut rng = thread_rng();
    for _ in 0..100 {
        assert_eq!(glass.scatter(&ray, &hit, &mut rng), Some(s));
    }
}

#[test]
fn glass_lets_a_steep_ray_out() {
    let ray = Ray::new(v3(0.0, 0.0, 0.0), v3(0.1, 0.0, 1.0));
    let hit = HitRecord::new(n(1.0), v3(0.0, 0.0, 1.0), &v3(0.0, 0.0, 1.0), &ray, placeholder());
    assert!(!hit.front_face());
    let glass = Dielectric::new(n(1.5));
    assert!(!glass.cannot_refract(&ray, &hit));
    assert!(!glass.reflects(&ray, &hit, Scalar::from_raw(999_999_999_999)));
    assert!(glass.reflects(&ray, &hit, Scalar::zero()));
    let s = glass.scatter_with(&ray, &hit, Scalar::from_raw(999_999_999_999));
    assert_eq!(s.scattered.direction(), r3(149_255_578_530, 0, 988_798_651_029));
}

#[test]
fn glass_at_normal_incidence_mostly_refracts() {
    let mut rng = thread_rng();
    let ray = straight_down();
    let hit = hit_on_top(&ray);
    let glass = Material::Dielectric(Dielectric::new(n(1.5)));
    let mut reflected = 0;
    let mut refracted = 0;
    for _ in 0..10_000 {
        let s = glass.scatter(&ray, &hit, &mut rng).unwrap();
        assert_eq!(s.attenuation, Color::new(n(1.0), n(1.0), n(1.0)));
        assert_eq!(s.scattered.origin(), hit.position());
        if s.scattered.direction() == v3(0.0, 0.0, 1.0) {
            reflected += 1;
        } else {
            assert_eq!(s.scattered.direction(), v3(0.0, 0.0, -1.0));
            refracted += 1;
        }
    }
    assert_eq!(reflected + refracted, 10_000);
    assert!(250 <= reflected && reflected <= 600, "reflected {}", reflected);
    assert!(refracted >= 15 * reflected && refracted <= 40 * reflected);
}

#[test]
fn material_scatter_goes_to_its_variant() {
    let mut rng = thread_rng();
    let ray = straight_down();
    let hit = hit_on_top(&ray);
    let matte = Material::Lambertian(Lambertian::new(albedo()));
    let s = matte.scatter(&ray, &hit, &mut rng).unwrap();
    assert_eq!(s.attenuation, albedo());
    let mirror = Material::Metal(Metal::new(albedo(), n(0.0)));
    let s = mirror.scatter(&ray, &hit, &mut rng).unwrap();
    assert_eq!(s.scattered.direction(), v3(0.0, 0.0, 1.0));
}

#[test]
fn glass_sends_a_slow_ray_on_in_a_direction_one_long() {
    let ray = Ray::new(v3(0.0, 0.0, 0.0), r3(0, 1000, 0));
    let mut hit = hit_on_top(&straight_down());
    hit.normal = v3(0.0, -1.0, 0.0);
    hit.front_face = false;
    let glass = Dielectric::new(n(1.5));
    for draw in [n(0.0), n(0.5), Scalar::from_raw(999_999_999_999)] {
        let s = glass.scatter_with(&ray, &hit, draw);
        let off = s.scattered.direction().length().raw() - 1_000_000_000_000;
        assert!(-4 <= off && off <= 4, "off by {}", off);
    }
    let s = glass.scatter_with(&ray, &hit, n(0.5));
    assert_eq!(s.scattered.direction(), v3(0.0, 1.0, 0.0));
}

#[test]
fn glass_and_mirror_directions_are_one_long() {
    let glass = Dielectric::new(n(1.5));
    let mirror = Metal::new(albedo(), n(0.0));
    let normal = v3(0.0, 0.0, 1.0);
    for direction in [
        v3(0.0, 0.0, -1.0),
        v3(1.0, 0.0, -1.0),
        v3(0.3, -0.2, -0.9),
        v3(-250.0, 1.0, -7.0),
        v3(0.00001, 0.00002, -0.00003),
        v3(5.0, 5.0, -0.5),
    ] {
        let ray = Ray::new(v3(0.0, 0.0, 5.0), direction);
        let hit = HitRecord::new(n(4.0), v3(0.0, 0.0, 1.0), &normal, &ray, placeholder());
        for draw in [n(0.0), n(0.3), Scalar::from_raw(999_999_999_999)] {
            let s = glass.scatter_with(&ray, &hit, draw);
            let off = s.scattered.direction().length().raw() - 1_000_000_000_000;
            assert!(-25 <= off && off <= 25, "glass off by {}", off);
        }
        let s = mirror.scatter_with(&ray, &hit, v3(0.5, 0.5, 0.5)).unwrap();
        let off = s.scattered.direction().length().raw() - 1_000_000_000_000;
        assert!(-25 <= off && off <= 25, "mirror off by {}", off);
    }
}
