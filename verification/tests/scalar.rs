use pathtracer::scalar::{Scalar, RAW_MAX, SCALE};
use rand::thread_rng;

fn fx(x: f64) -> Scalar {
    Scalar::from_raw((x * 1e12).round() as i64)
}

#[test]
fn one_is_a_trillion_raw_units() {
    assert_eq!(SCALE, 1_000_000_000_000);
    assert_eq!(Scalar::one().raw(), SCALE);
    assert_eq!(Scalar::zero().raw(), 0);
    assert_eq!(Scalar::infinity().raw(), RAW_MAX);
    assert_eq!(RAW_MAX, (1 << 62) - 1);
}

#[test]
fn from_raw_keeps_the_range_symmetric() {
    assert_eq!(Scalar::from_raw(i64::MIN).raw(), -RAW_MAX);
    assert_eq!(Scalar::from_raw(-RAW_MAX).raw(), -RAW_MAX);
    assert_eq!(Scalar::from_raw(42).raw(), 42);
}

#[test]
fn from_int_scales_and_saturates() {
    assert_eq!(Scalar::from_int(9).raw(), 9_000_000_000_000);
    assert_eq!(Scalar::from_int(-9).raw(), -9_000_000_000_000);
    assert_eq!(Scalar::from_int(10_000_000_000).raw(), RAW_MAX);
    assert_eq!(Scalar::from_int(-10_000_000_000).raw(), -RAW_MAX);
}

#[test]
fn from_ratio_rounds_toward_zero() {
    assert_eq!(Scalar::from_ratio(1, 1000).raw(), 1_000_000_000);
    assert_eq!(Scalar::from_ratio(2, 3).raw(), 666_666_666_666);
    assert_eq!(Scalar::from_ratio(-2, 3).raw(), -666_666_666_666);
    assert_eq!(Scalar::from_ratio(2, -3).raw(), -666_666_666_666);
    assert_eq!(Scalar::from_ratio(5, 0).raw(), 0);
    assert_eq!(Scalar::from_ratio(i64::MAX, 1).raw(), RAW_MAX);
}

#[test]
fn trunc_drops_the_fraction() {
    assert_eq!(Scalar::from_raw(-2_500_000_000_000).trunc(), -2);
    assert_eq!(Scalar::from_raw(2_999_999_999_999).trunc(), 2);
    assert_eq!(Scalar::from_raw(-999_999_999_999).trunc(), 0);
}

#[test]
fn sums_saturate() {
    assert_eq!((fx(1.5) + fx(2.25)).raw(), 3_750_000_000_000);
    assert_eq!((fx(1.5) - fx(2.25)).raw(), -750_000_000_000);
    assert_eq!((Scalar::infinity() + Scalar::from_raw(1)).raw(), RAW_MAX);
    assert_eq!((-Scalar::infinity() - Scalar::one()).raw(), -RAW_MAX);
    assert_eq!((Scalar::infinity() - (-Scalar::one())).raw(), RAW_MAX);
    assert_eq!((Scalar::infinity() - Scalar::infinity()).raw(), 0);
}

#[test]
fn negation_is_exact_in_range() {
    assert_eq!((-fx(2.5)).raw(), -2_500_000_000_000);
    assert_eq!((-Scalar::infinity()).raw(), -RAW_MAX);
    assert_eq!((-(-Scalar::infinity())).raw(), RAW_MAX);
    assert_eq!((-Scalar { raw: i64::MIN }).raw(), RAW_MAX);
}

#[test]
fn products_round_toward_zero_and_saturate() {
    assert_eq!((fx(1.5) * fx(-2.25)).raw(), -3_375_000_000_000);
    assert_eq!((Scalar::from_raw(3) * fx(0.5)).raw(), 1);
    assert_eq!((Scalar::from_raw(-3) * fx(0.5)).raw(), -1);
    assert_eq!((Scalar::from_raw(1) * Scalar::from_raw(1)).raw(), 0);
    assert_eq!((Scalar::infinity() * fx(2.0)).raw(), RAW_MAX);
    assert_eq!(((-Scalar::infinity()) * fx(2.0)).raw(), -RAW_MAX);
    assert_eq!((Scalar::infinity() * (-Scalar::infinity())).raw(), -RAW_MAX);
}

#[test]
fn quotients_round_toward_zero_and_saturate() {
    assert_eq!((Scalar::one() / fx(3.0)).raw(), 333_333_333_333);
    assert_eq!(((-Scalar::one()) / fx(3.0)).raw(), -333_333_333_333);
    assert_eq!((Scalar::one() / fx(-3.0)).raw(), -333_333_333_333);
    assert_eq!((Scalar::infinity() / fx(0.5)).raw(), RAW_MAX);
    assert_eq!(((-Scalar::infinity()) / fx(0.5)).raw(), -RAW_MAX);
    assert_eq!((Scalar::one() / Scalar::from_raw(1_000_000)).raw(), 1_000_000_000_000_000_000);
    assert_eq!((Scalar::one() / Scalar::from_raw(1)).raw(), RAW_MAX);
    assert_eq!((fx(10.0) / Scalar::from_raw(1)).raw(), RAW_MAX);
}

#[test]
fn division_by_zero_is_zero() {
    assert_eq!((fx(7.0) / Scalar::zero()).raw(), 0);
    assert_eq!((fx(-7.0) / Scalar::zero()).raw(), 0);
    assert_eq!((Scalar::zero() / Scalar::zero()).raw(), 0);
}

#[test]
fn square_roots_round_down() {
    assert_eq!(fx(2.0).sqrt().raw(), 1_414_213_562_373);
    assert_eq!(fx(4.0).sqrt().raw(), 2_000_000_000_000);
    assert_eq!(fx(0.25).sqrt().raw(), 500_000_000_000);
    assert_eq!(Scalar::from_raw(1).sqrt().raw(), 1_000_000);
    assert_eq!(Scalar::from_raw(10).sqrt().raw(), 3_162_277);
    assert_eq!(Scalar::infinity().sqrt().raw(), 2_147_483_647_999_999);
}

#[test]
fn square_root_of_nothing_positive_is_zero() {
    assert_eq!(Scalar::zero().sqrt().raw(), 0);
    assert_eq!(fx(-1.0).sqrt().raw(), 0);
    assert_eq!((-Scalar::infinity()).sqrt().raw(), 0);
}

#[test]
fn powers_multiply_from_the_left() {
    assert_eq!(fx(0.5).powi(5).raw(), 31_250_000_000);
    assert_eq!(fx(2.0).powi(10).raw(), 1_024_000_000_000_000);
    assert_eq!(fx(3.0).powi(0).raw(), SCALE);
    assert_eq!(fx(-2.0).powi(3).raw(), -8_000_000_000_000);
    assert_eq!(fx(100000.0).powi(3).raw(), RAW_MAX);
}

#[test]
fn abs_and_min() {
    assert_eq!(fx(-2.5).abs().raw(), 2_500_000_000_000);
    assert_eq!(fx(2.5).abs().raw(), 2_500_000_000_000);
    assert_eq!(Scalar { raw: i64::MIN }.abs().raw(), RAW_MAX);
    assert_eq!(fx(1.0).min(fx(2.0)), fx(1.0));
    assert_eq!(fx(3.0).min(fx(2.0)), fx(2.0));
    assert_eq!(fx(2.0).min(fx(2.0)), fx(2.0));
}

#[test]
fn scalars_order_by_value() {
    assert!(fx(-1.0) < fx(0.5));
    assert!(fx(0.5) < Scalar::infinity());
    assert!(fx(0.5) == Scalar::from_ratio(1, 2));
}

#[test]
fn product_commutes_on_examples() {
    let a = fx(123.456789);
    let b = fx(-0.000987654);
    assert_eq!(a * b, b * a);
}

#[test]
fn a_scalar_and_its_negation_cancel() {
    for raw in [0, 1, -1, 999_999_999, RAW_MAX, -RAW_MAX] {
        let a = Scalar::from_raw(raw);
        assert_eq!(a + (-a), Scalar::zero());
    }
}

#[test]
fn draws_stay_in_range_and_vary() {
    let mut rng = thread_rng();
    let lo = fx(5.0);
    let hi = fx(6.0);
    let first = Scalar::gen_range(&mut rng, lo, hi);
    let mut varied = false;
    for _ in 0..1000 {
        let d = Scalar::gen_range(&mut rng, lo, hi);
        assert!(lo.raw() <= d.raw() && d.raw() < hi.raw());
        if d != first {
            varied = true;
        }
    }
    assert!(varied);
}

#[test]
fn a_range_of_one_step_has_one_draw() {
    let mut rng = thread_rng();
    let d = Scalar::gen_range(&mut rng, Scalar::from_raw(-7), Scalar::from_raw(-6));
    assert_eq!(d.raw(), -7);
}

#[test]
fn values_beyond_the_range_are_clamped_from_both_sides() {
    assert_eq!(Scalar::from_raw(i64::MAX).raw(), RAW_MAX);
    assert_eq!(Scalar::from_raw(RAW_MAX + 1).raw(), RAW_MAX);
    assert_eq!(Scalar::from_raw(-RAW_MAX - 1).raw(), -RAW_MAX);
    assert_eq!((-Scalar { raw: i64::MAX }).raw(), -RAW_MAX);
    assert_eq!((Scalar { raw: i64::MAX } + Scalar::zero()).raw(), RAW_MAX);
    assert_eq!((Scalar::infinity() + Scalar::infinity()).raw(), RAW_MAX);
    assert_eq!((Scalar::infinity() - (-Scalar::infinity())).raw(), RAW_MAX);
}
