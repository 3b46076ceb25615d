use pathtracer::scalar::{floor_sqrt_u128, product, round_wide, sum_products, Scalar, RAW_MAX};
use pathtracer::wide::{mul_wide, wide_less, wide_sqrt, HALF};

#[test]
fn wide_products_are_exact() {
    assert_eq!(HALF, 1u128 << 64);
    assert_eq!(mul_wide(0, u128::MAX), (0, 0));
    assert_eq!(mul_wide(1, u128::MAX), (0, u128::MAX));
    assert_eq!(mul_wide(7, 6), (0, 42));
    assert_eq!(mul_wide(1 << 64, 1 << 64), (1, 0));
    assert_eq!(mul_wide(1 << 127, 2), (1, 0));
    assert_eq!(mul_wide(u128::MAX, u128::MAX), (u128::MAX - 1, 1));
    assert_eq!(mul_wide(u128::MAX, 2), (1, u128::MAX - 1));
    assert_eq!(
        mul_wide(0x1234_5678_9abc_def0_0fed_cba9_8765_4321, 0xfedc_ba98_7654_3210_0123_4567_89ab_cdef),
        (0x121f_a00a_d77d_7422_335d_eb75_95e5_ff7a, 0x985f_06f6_9446_7394_2223_6d88_fe56_18cf)
    );
}

#[test]
fn wide_numbers_compare_by_the_high_half_first() {
    assert!(wide_less((0, 5), (0, 6)));
    assert!(!wide_less((0, 6), (0, 6)));
    assert!(wide_less((0, u128::MAX), (1, 0)));
    assert!(!wide_less((2, 0), (1, u128::MAX)));
}

#[test]
fn sums_of_products_keep_every_digit() {
    assert_eq!(sum_products(1, 2, 3, 4, 5, 6), (false, 44));
    assert_eq!(sum_products(1, -2, 3, -4, 5, 6), (false, 16));
    assert_eq!(sum_products(1, -2, 3, -4, 5, -6), (true, 44));
    assert_eq!(sum_products(7, 1, -7, 1, 0, 0).1, 0);
    let big = i64::MAX;
    assert_eq!(sum_products(big, big, big, big, big, big), (false, 3 * (big as u128) * (big as u128)));
    assert_eq!(
        sum_products(i64::MIN, i64::MIN, i64::MIN, i64::MIN, i64::MIN, i64::MIN),
        (false, 3 << 126)
    );
    assert_eq!(product(i64::MIN, i64::MAX), -((1i128 << 63) * (i64::MAX as i128)));
    assert_eq!(product(-3, 4), -12);
}

#[test]
fn wide_counts_round_once_toward_zero() {
    assert_eq!(round_wide(false, 2_999_999_999_999), Scalar::from_raw(2));
    assert_eq!(round_wide(true, 2_999_999_999_999), Scalar::from_raw(-2));
    assert_eq!(round_wide(true, 999_999_999_999), Scalar::zero());
    assert_eq!(round_wide(false, u128::MAX), Scalar::infinity());
    assert_eq!(round_wide(true, u128::MAX), -Scalar::infinity());
    assert_eq!(round_wide(false, (RAW_MAX as u128) * 1_000_000_000_000), Scalar::infinity());
}

#[test]
fn integer_square_roots_round_down() {
    assert_eq!(floor_sqrt_u128(0), 0);
    assert_eq!(floor_sqrt_u128(1), 1);
    assert_eq!(floor_sqrt_u128(3), 1);
    assert_eq!(floor_sqrt_u128(4), 2);
    assert_eq!(floor_sqrt_u128(99), 9);
    assert_eq!(floor_sqrt_u128(u128::MAX), u64::MAX as u128);
    assert_eq!(floor_sqrt_u128((1 << 126) - 1), (1 << 63) - 1);
}

#[test]
fn wide_square_roots_round_down() {
    assert_eq!(wide_sqrt((0, 0)), 0);
    assert_eq!(wide_sqrt((0, 1)), 1);
    assert_eq!(wide_sqrt((0, 99)), 9);
    assert_eq!(wide_sqrt((1, 0)), 1 << 64);
    assert_eq!(wide_sqrt((0, u128::MAX)), (1 << 64) - 1);
    assert_eq!(wide_sqrt((u128::MAX, u128::MAX)), u128::MAX);
    assert_eq!(wide_sqrt(mul_wide(123_456_789_012_345_678_901_234_567_890, 123_456_789_012_345_678_901_234_567_890)), 123_456_789_012_345_678_901_234_567_890);
    assert_eq!(mul_wide(1 << 100, 1 << 100), (1 << 72, 0));
    assert_eq!(wide_sqrt((1 << 72, 0)), 1 << 100);
    assert_eq!(wide_sqrt(((1 << 72) - 1, u128::MAX)), (1 << 100) - 1);
}
