use pathtracer::camera::Camera;
use pathtracer::ray::Ray;
use pathtracer::scalar::Scalar;
use pathtracer::vec3::Vec3;
use rand::thread_rng;

fn k(x: f64) -> Scalar {
    Scalar::from_raw((x * 1e12).round() as i64)
}

fn p(x: f64, y: f64, z: f64) -> Vec3 {
    Vec3::new(k(x), k(y), k(z))
}

fn rawv(x: i64, y: i64, z: i64) -> Vec3 {
    Vec3::new(Scalar::from_raw(x), Scalar::from_raw(y), Scalar::from_raw(z))
}

/// A pinhole at the origin that looks down the negative z axis through a
/// viewport of four by two at distance one.
fn pinhole() -> Camera {
    Camera::new(
        p(0.0, 0.0, 0.0),
        p(0.0, 0.0, -1.0),
        p(0.0, 1.0, 0.0),
        k(1.0),
        k(2.0),
        k(0.0),
        k(1.0),
    )
}

/// A camera off to the side with a wide lens, focused on its target.
fn with_lens() -> Camera {
    Camera::new(
        p(3.0, 3.0, 2.0),
        p(0.0, 0.0, -1.0),
        p(0.0, 1.0, 0.0),
        k(0.176326981),
        Scalar::from_ratio(16, 9),
        k(2.0),
        k(5.196152422),
    )
}

#[test]
fn pinhole_camera_geometry() {
    let c = pinhole();
    assert_eq!(c.origin, p(0.0, 0.0, 0.0));
    assert_eq!(c.horizontal, p(4.0, 0.0, 0.0));
    assert_eq!(c.vertical, p(0.0, 2.0, 0.0));
    assert_eq!(c.lower_left_corner, p(-2.0, -1.0, -1.0));
    assert_eq!(c.lens_radius, k(0.0));
    assert_eq!(c.u, p(1.0, 0.0, 0.0));
    assert_eq!(c.v, p(0.0, 1.0, 0.0));
    assert_eq!(c.w, p(0.0, 0.0, 1.0));
}

#[test]
fn camera_with_lens_geometry() {
    let c = with_lens();
    assert_eq!(c.origin, p(3.0, 3.0, 2.0));
    assert_eq!(c.w, rawv(577_350_269_189, 577_350_269_189, 577_350_269_189));
    assert_eq!(c.u, rawv(707_106_781_186, 0, -707_106_781_186));
    assert_eq!(c.v, rawv(-408_248_290_463, 816_496_580_926, -408_248_290_463));
    assert_eq!(c.horizontal, rawv(2_303_526_033_470, 0, -2_303_526_033_470));
    assert_eq!(c.vertical, rawv(-748_092_023_724, 1_496_184_047_448, -748_092_023_724));
    assert_eq!(c.lower_left_corner, rawv(-777_717_004_461, -748_092_023_312, 525_809_029_009));
    assert_eq!(c.lens_radius, k(1.0));
}

#[test]
fn pinhole_rays_start_at_the_eye() {
    let c = pinhole();
    let middle = c.ray_through(k(0.5), k(0.5), p(0.5, -0.25, 0.0));
    assert_eq!(middle, Ray::new(p(0.0, 0.0, 0.0), p(0.0, 0.0, -1.0)));
    assert_eq!(c.ray_through(k(0.0), k(0.0), Vec3::zero()).direction(), p(-2.0, -1.0, -1.0));
    assert_eq!(c.ray_through(k(1.0), k(1.0), Vec3::zero()).direction(), p(2.0, 1.0, -1.0));
}

#[test]
fn pinhole_ray_to_does_not_depend_on_the_draw() {
    let mut rng = thread_rng();
    let c = pinhole();
    for _ in 0..100 {
        assert_eq!(c.ray_to(k(0.25), k(0.75), &mut rng), Ray::new(p(0.0, 0.0, 0.0), p(-1.0, 0.5, -1.0)));
    }
}

#[test]
fn lens_moves_the_origin_and_keeps_the_target() {
    let c = with_lens();
    let centered = c.ray_through(k(0.5), k(0.5), Vec3::zero());
    assert_eq!(centered.origin(), p(3.0, 3.0, 2.0));
    assert_eq!(centered.direction(), rawv(-2_999_999_999_588, -2_999_999_999_588, -2_999_999_999_588));

    let moved = c.ray_through(k(0.25), k(0.75), p(0.5, -0.25, 0.0));
    assert_eq!(moved.origin(), rawv(3_455_615_463_208, 2_795_875_854_769, 1_748_508_682_022));
    assert_eq!(moved.direction(), rawv(-4_218_519_977_095, -2_421_829_842_495, -2_359_650_179_173));
    let still = c.ray_through(k(0.25), k(0.75), Vec3::zero());
    assert_eq!(moved.origin() + moved.direction(), still.origin() + still.direction());
}

#[test]
fn ray_to_starts_on_the_lens() {
    let mut rng = thread_rng();
    let c = with_lens();
    let aim = c.ray_through(k(0.5), k(0.5), Vec3::zero());
    let target = aim.origin() + aim.direction();
    let mut moved = false;
    for _ in 0..200 {
        let r = c.ray_to(k(0.5), k(0.5), &mut rng);
        let offset = r.origin() - c.origin;
        assert!(offset.length() <= c.lens_radius + Scalar::from_raw(10));
        assert!(offset.dot(&c.w).abs() <= Scalar::from_raw(10));
        let miss = r.origin() + r.direction() - target;
        assert!(miss.x.abs() <= Scalar::from_raw(2));
        assert!(miss.y.abs() <= Scalar::from_raw(2));
        assert!(miss.z.abs() <= Scalar::from_raw(2));
        moved = moved || r.origin() != c.origin;
    }
    assert!(moved);
}

fn raw_dot(a: Vec3, b: Vec3) -> i128 {
    a.x.raw() as i128 * b.x.raw() as i128
        + a.y.raw() as i128 * b.y.raw() as i128
        + a.z.raw() as i128 * b.z.raw() as i128
}

fn taxicab(a: Vec3) -> i128 {
    (a.x.raw() as i128).abs() + (a.y.raw() as i128).abs() + (a.z.raw() as i128).abs()
}

#[test]
fn basis_of_a_tilted_camera_is_orthonormal_up_to_rounding() {
    let c = with_lens();
    let one: i64 = 1_000_000_000_000;
    for axis in [c.u, c.w] {
        let length = axis.length().raw();
        assert!(one - 4 <= length && length <= one);
    }
    let length = c.v.length().raw();
    assert!(one - 8 <= length && length <= one + 8);
    assert!(raw_dot(c.v, c.w).abs() <= 2 * taxicab(c.w));
    assert!(raw_dot(c.v, c.u).abs() <= 2 * taxicab(c.u));
    assert!(raw_dot(c.u, c.w).abs() <= 4 * taxicab(c.w));
}

#[test]
fn viewport_edges_have_the_stated_lengths() {
    let c = with_lens();
    let one: i128 = 1_000_000_000_000;
    let height = k(5.196152422) * (Scalar::from_int(2) * k(0.176326981));
    let width = k(5.196152422) * (Scalar::from_ratio(16, 9) * (Scalar::from_int(2) * k(0.176326981)));
    assert_eq!(c.horizontal, width * c.u);
    assert_eq!(c.vertical, height * c.v);
    for (edge, axis, size) in [(c.horizontal, c.u, width), (c.vertical, c.v, height)] {
        let size = size.raw() as i128;
        for (e, a) in [(edge.x, axis.x), (edge.y, axis.y), (edge.z, axis.z)] {
            let off = size * a.raw() as i128 - one * e.raw() as i128;
            assert!(off.abs() < one);
        }
        let length = edge.length().raw() as i128;
        assert!((length - size).abs() <= 16);
    }
}
