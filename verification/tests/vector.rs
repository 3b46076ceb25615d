use pathtracer::scalar::Scalar;
use pathtracer::vec3::{Point3, Vec3, NEAR_ZERO};
use rand::thread_rng;

fn num(x: f64) -> Scalar {
    Scalar::from_raw((x * 1e12).round() as i64)
}

fn vec(x: f64, y: f64, z: f64) -> Vec3 {
    Vec3::new(num(x), num(y), num(z))
}

fn raw(x: i64, y: i64, z: i64) -> Vec3 {
    Vec3::new(Scalar::from_raw(x), Scalar::from_raw(y), Scalar::from_raw(z))
}

#[test]
fn new_keeps_the_components() {
    let a = Vec3::new(num(1.0), num(2.0), num(3.0));
    assert_eq!(a.x, num(1.0));
    assert_eq!(a.y, num(2.0));
    assert_eq!(a.z, num(3.0));
    let p: Point3 = a;
    assert_eq!(p, a);
    assert_eq!(Vec3::zero(), raw(0, 0, 0));
}

#[test]
fn dot_is_symmetric() {
    let a = vec(1.5, -2.25, 3.0);
    let b = vec(-0.5, 4.0, 0.125);
    assert_eq!(a.dot(&b), b.dot(&a));
    assert_eq!(a.dot(&b).raw(), -9_375_000_000_000);
}

#[test]
fn cross_is_antisymmetric() {
    let a = vec(1.0, 2.0, 3.0);
    let b = vec(-4.0, 0.5, 6.0);
    assert_eq!(a.cross(&b), -b.cross(&a));
    assert_eq!(a.cross(&b), vec(10.5, -18.0, 8.5));
}

#[test]
fn a_vector_and_its_opposite_cancel() {
    let a = vec(1.5, -2.25, 3.0);
    assert_eq!(a + (-a), Vec3::zero());
    let far = Vec3::new(Scalar::infinity(), -Scalar::infinity(), num(1e-9));
    assert_eq!(far + (-far), Vec3::zero());
}

#[test]
fn component_wise_arithmetic() {
    let a = vec(1.5, -2.25, 3.0);
    let b = vec(-0.5, 4.0, 0.125);
    assert_eq!(a + b, vec(1.0, 1.75, 3.125));
    assert_eq!(a - b, vec(2.0, -6.25, 2.875));
    assert_eq!(-a, vec(-1.5, 2.25, -3.0));
    assert_eq!(num(2.5) * a, vec(3.75, -5.625, 7.5));
    assert_eq!(a * b, vec(-0.75, -9.0, 0.375));
    assert_eq!(a / num(4.0), vec(0.375, -0.5625, 0.75));
}

#[test]
fn assigning_forms_match_the_operators() {
    let a = vec(1.5, -2.25, 3.0);
    let b = vec(-0.5, 4.0, 0.125);
    let mut c = a;
    c.add_assign(b);
    assert_eq!(c, a + b);
    let mut d = a;
    d.mul_assign(num(2.5));
    assert_eq!(d, num(2.5) * a);
    let mut e = a;
    e.div_assign(num(4.0));
    assert_eq!(e, vec(0.375, -0.5625, 0.75));
}

#[test]
fn div_assign_multiplies_by_the_rounded_reciprocal() {
    let mut a = vec(1.5, -2.25, 3.0);
    a.div_assign(num(3.0));
    assert_eq!(a, raw(499_999_999_999, -749_999_999_999, 999_999_999_999));
    assert_eq!(vec(1.5, -2.25, 3.0) / num(3.0), raw(500_000_000_000, -750_000_000_000, 1_000_000_000_000));
}

#[test]
fn lengths() {
    let a = vec(1.5, -2.25, 3.0);
    assert_eq!(a.length_squared().raw(), 16_312_500_000_000);
    assert_eq!(a.length().raw(), 4_038_873_605_350);
    assert_eq!(vec(3.0, 4.0, 0.0).length(), num(5.0));
    assert_eq!(Vec3::zero().length(), Scalar::zero());
}

#[test]
fn unit_vectors_have_length_one_within_four_trillionths() {
    for a in [
        vec(1.5, -2.25, 3.0),
        vec(1.0, 2.0, 3.0),
        vec(-700.0, 0.001, 12.0),
        vec(0.0, 0.0, -1.0),
        vec(30000.0, -30000.0, 30000.0),
        vec(0.6, 0.8, 0.0),
        vec(0.000031623, 0.0, 0.0),
        raw(1, 0, 0),
        raw(1, 1, 0),
        raw(1, 2, 2),
        raw(-3, 4, 0),
        raw(i64::MAX, -i64::MAX, 5),
        raw(i64::MIN, i64::MIN, i64::MIN),
    ] {
        assert!(a.length() > Scalar::zero());
        let off = a.unit().length().raw() - 1_000_000_000_000;
        assert!(-4 <= off && off <= 0, "off by {}", off);
    }
    assert_eq!(vec(3.0, 4.0, 0.0).unit(), vec(0.6, 0.8, 0.0));
    assert_eq!(
        vec(1.5, -2.25, 3.0).unit(),
        raw(371_390_676_354, -557_086_014_531, 742_781_352_708)
    );
    assert_eq!(vec(1.5, -2.25, 3.0).unit().length().raw(), 999_999_999_999);
}

#[test]
fn short_vectors_keep_their_direction() {
    assert_eq!(vec(0.000031623, 0.0, 0.0).unit(), vec(1.0, 0.0, 0.0));
    assert_eq!(raw(1, 0, 0).unit(), vec(1.0, 0.0, 0.0));
    assert_eq!(raw(0, -1000, 0).unit(), vec(0.0, -1.0, 0.0));
    assert_eq!(raw(1, 1, 0).unit(), raw(707_106_781_186, 707_106_781_186, 0));
    assert_eq!(raw(3, -4, 0).unit(), vec(0.6, -0.8, 0.0));
    assert_eq!(raw(1, 2, 2).unit(), raw(333_333_333_333, 666_666_666_666, 666_666_666_666));
    assert_eq!(raw(3, -4, 0).length().raw(), 5);
    assert_eq!(raw(1, 1, 0).length().raw(), 1);
    assert_eq!(raw(3, -4, 0).length_squared().raw(), 0);
}

#[test]
fn long_vectors_keep_their_direction() {
    assert_eq!(
        raw(i64::MAX, -i64::MAX, 5).unit(),
        raw(707_106_781_186, -707_106_781_186, 0)
    );
    assert_eq!(
        vec(30000.0, -30000.0, 30000.0).unit(),
        raw(577_350_269_189, -577_350_269_189, 577_350_269_189)
    );
    assert_eq!(vec(30000.0, -30000.0, 30000.0).length().raw(), 51_961_524_227_066_318);
    assert_eq!(vec(30000.0, -30000.0, 30000.0).length_squared(), Scalar::infinity());
}

#[test]
fn unit_of_the_zero_vector_is_zero() {
    assert_eq!(Vec3::zero().unit(), Vec3::zero());
    assert_eq!(Vec3::zero().length(), Scalar::zero());
    assert_eq!(Vec3::zero().over_length(vec(1.0, 2.0, 3.0).x), Scalar::zero());
}

#[test]
fn over_length_divides_by_the_length() {
    let d = vec(0.0, 0.0, -0.00001);
    assert_eq!(d.over_length(num(4.0)), num(400000.0));
    assert_eq!(d.over_length(num(-4.0)), num(-400000.0));
    assert_eq!(vec(3.0, 4.0, 0.0).over_length(num(10.0)), num(2.0));
    assert_eq!(raw(1, 0, 0).over_length(num(1.0)), Scalar::infinity());
    assert_eq!(raw(1, 0, 0).over_length(num(-1.0)), -Scalar::infinity());
    assert_eq!(raw(1, 0, 0).over_length(Scalar::from_raw(5)), Scalar::from_raw(5_000_000_000_000));
    assert_eq!(raw(0, 2, 0).stretch_factor(), 1 << 60);
    assert_eq!(raw(0, 2, 0).largest(), 2);
    assert_eq!(Vec3::zero().stretch_factor(), 1);
    assert_eq!(raw(i64::MAX, 0, 0).stretch_factor(), 1);
}

#[test]
fn near_zero_looks_at_every_component() {
    assert_eq!(NEAR_ZERO, 10_000);
    assert!(raw(9_999, -9_999, 9_999).near_zero());
    assert!(Vec3::zero().near_zero());
    assert!(!raw(10_000, 0, 0).near_zero());
    assert!(!raw(0, -10_000, 0).near_zero());
    assert!(!raw(0, 0, 10_000).near_zero());
}

#[test]
fn reflection_mirrors_about_the_normal() {
    let n = vec(0.0, 1.0, 0.0);
    assert_eq!(vec(1.0, -1.0, 0.0).reflect(&n), vec(1.0, 1.0, 0.0));
    assert_eq!(vec(0.6, -0.8, 0.0).reflect(&n), vec(0.6, 0.8, 0.0));
}

#[test]
fn reflection_keeps_a_perpendicular_vector() {
    let n = vec(0.0, 1.0, 0.0);
    let along = vec(1.0, 0.0, 0.0);
    assert_eq!(along.dot(&n), Scalar::zero());
    assert_eq!(along.reflect(&n), along);
    let slanted = vec(0.6, 0.0, -0.8);
    assert_eq!(slanted.reflect(&n), slanted);
}

#[test]
fn refraction_bends_toward_the_normal() {
    let n = vec(0.0, 1.0, 0.0);
    let into_glass = Scalar::one() / num(1.5);
    assert_eq!(vec(0.6, -0.8, 0.0).refract(&n, into_glass), raw(399_999_999_999, -916_515_138_991, 0));
}

#[test]
fn refraction_follows_snell_to_twelve_places() {
    let n = vec(0.0, 1.0, 0.0);
    let r = vec(0.6, -0.8, 0.0).refract(&n, num(0.5));
    assert_eq!(r, raw(300_000_000_000, -953_939_201_416, 0));
    let y = r.y.raw() as f64 / 1e12;
    assert!((y + 0.9539392014169456).abs() <= 1e-12);
    let off = r.length().raw() - 1_000_000_000_000;
    assert!(-4 <= off && off <= 4);
}

#[test]
fn refraction_at_normal_incidence_goes_straight() {
    let n = vec(0.0, 1.0, 0.0);
    assert_eq!(vec(0.0, -1.0, 0.0).refract(&n, num(1.5)), vec(0.0, -1.0, 0.0));
}

#[test]
fn gen_range_fills_each_component_from_the_range() {
    let mut rng = thread_rng();
    let lo = num(-2.0);
    let hi = num(3.0);
    let first = Vec3::gen_range(&mut rng, lo, hi);
    let mut varied = false;
    for _ in 0..1000 {
        let p = Vec3::gen_range(&mut rng, lo, hi);
        for c in [p.x, p.y, p.z] {
            assert!(lo <= c && c < hi);
        }
        varied = varied || p != first;
    }
    assert!(varied);
}

#[test]
fn unit_sphere_samples_lie_in_the_ball() {
    let mut rng = thread_rng();
    for _ in 0..1000 {
        let p = Vec3::gen_in_unit_sphere(&mut rng);
        assert!(p.length_squared() < Scalar::one());
        for c in [p.x, p.y, p.z] {
            assert!(Scalar::zero() <= c && c < Scalar::one());
        }
    }
}

#[test]
fn unit_disk_samples_lie_in_the_disk() {
    let mut rng = thread_rng();
    let mut left = false;
    let mut below = false;
    for _ in 0..1000 {
        let p = Vec3::gen_in_unit_disk(&mut rng);
        assert!(p.length_squared() < Scalar::one());
        assert_eq!(p.z, Scalar::zero());
        assert!(-Scalar::one() <= p.x && p.x < Scalar::one());
        assert!(-Scalar::one() <= p.y && p.y < Scalar::one());
        left = left || p.x < Scalar::zero();
        below = below || p.y < Scalar::zero();
    }
    assert!(left && below);
}

#[test]
fn a_candidate_is_kept_when_its_squared_length_is_below_one() {
    assert!(Vec3::zero().inside_unit_ball());
    assert!(vec(-0.5, -0.5, -0.5).inside_unit_ball());
    assert!(raw(600_000_000_000, 799_999_999_999, 0).inside_unit_ball());
    assert!(raw(999_999_999_999, 0, 0).inside_unit_ball());
    assert!(raw(999_999_999_999, 1_414_213, 0).inside_unit_ball());
    assert!(!raw(999_999_999_999, 1_414_214, 0).inside_unit_ball());
    assert!(!vec(0.6, 0.8, 0.0).inside_unit_ball());
    assert!(!vec(1.0, 0.0, 0.0).inside_unit_ball());
    assert!(!vec(0.0, -1.0, 0.0).inside_unit_ball());
    assert!(!vec(30000.0, 30000.0, 30000.0).inside_unit_ball());
}

#[test]
fn mirror_images_of_unit_vectors_are_one_long() {
    let normals = [vec(0.0, 1.0, 0.0), vec(3.0, -4.0, 12.0).unit(), vec(-1.0, 1.0, 1.0).unit()];
    let incoming = [
        vec(0.6, -0.8, 0.0),
        vec(1.0, 2.0, 3.0).unit(),
        vec(-7.0, 0.001, 0.5).unit(),
        vec(0.0, 0.0, -1.0),
        raw(1, -1, 1).unit(),
    ];
    for n in normals {
        for v in incoming {
            let off = v.reflect(&n).length().raw() - 1_000_000_000_000;
            assert!(-25 <= off && off <= 25, "off by {}", off);
        }
    }
}
