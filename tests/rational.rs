use std::hash::Hasher;
use twox_hash::XxHash64;
use wide_arith::multiply_by_rational;
use wide_arith::multiply_by_rational_with_rounding as mulrat;
use wide_arith::Rounding::{Down, Nearest, Up};

const MAX: u128 = u128::MAX;

#[test]
fn rational_multiply_basic_rounding_works() {
    assert_eq!(mulrat(1, 1, 1, Up), Some(1));
    assert_eq!(mulrat(3, 1, 3, Up), Some(1));
    assert_eq!(mulrat(1, 2, 3, Down), Some(0));
    assert_eq!(mulrat(1, 1, 3, Up), Some(1));
    assert_eq!(mulrat(1, 2, 3, Nearest), Some(1));
    assert_eq!(mulrat(1, 1, 3, Nearest), Some(0));
}

#[test]
fn rational_multiply_big_number_works() {
    assert_eq!(mulrat(MAX, MAX - 1, MAX, Down), Some(MAX - 1));
    assert_eq!(mulrat(MAX, 1, MAX, Down), Some(1));
    assert_eq!(mulrat(MAX, MAX - 1, MAX, Up), Some(MAX - 1));
    assert_eq!(mulrat(MAX, 1, MAX, Up), Some(1));
    assert_eq!(mulrat(1, MAX - 1, MAX, Down), Some(0));
    assert_eq!(mulrat(1, 1, MAX, Up), Some(1));
    assert_eq!(mulrat(1, MAX / 2, MAX, Nearest), Some(0));
    assert_eq!(mulrat(1, MAX / 2 + 1, MAX, Nearest), Some(1));
}

/// Sixteen bytes of xxHash64 (seeds 0 and 1) of the little-endian seed, read
/// as a little-endian integer.
fn random_u128(seed: u32) -> u128 {
    let bytes = seed.to_le_bytes();
    let mut h0 = XxHash64::with_seed(0);
    h0.write(&bytes);
    let mut h1 = XxHash64::with_seed(1);
    h1.write(&bytes);
    (h0.finish() as u128) | ((h1.finish() as u128) << 64)
}

#[test]
fn op_checked_rounded_div_works() {
    for i in 0..100_000u32 {
        let a = random_u128(i);
        let b = random_u128((i + 1) << 30);
        let c = random_u128((i + 1) << 31);
        let x = mulrat(a, b, c, Nearest);
        let y = multiply_by_rational(a, b, c).ok();
        assert_eq!(x.is_some(), y.is_some());
        let x = x.unwrap_or(0);
        let y = y.unwrap_or(0);
        let d = x.max(y) - x.min(y);
        assert_eq!(d, 0);
    }
}

#[test]
fn rounding_overflow_is_none() {
    // The quotient itself does not fit.
    assert_eq!(mulrat(MAX, MAX, 1, Down), None);
    assert_eq!(mulrat(MAX, 2, 1, Nearest), None);
    // The quotient fits, but adding one for rounding does not.
    assert_eq!(mulrat(MAX, 3, 3, Up), Some(MAX));
    // (2^43 - 1) * (2^86 + 2^43 + 1) = 2 * MAX + 1.
    let (a, b) = ((1u128 << 43) - 1, (1u128 << 86) + (1 << 43) + 1);
    assert_eq!(mulrat(a, b, 2, Down), Some(MAX));
    assert_eq!(mulrat(a, b, 2, Up), None);
    assert_eq!(mulrat(a, b, 2, Nearest), None);
    assert_eq!(mulrat(MAX, MAX, MAX - 1, Down), None);
}

#[test]
fn rounding_bracket_on_values() {
    let (a, b, c) = (1_000_003u128, 999_983u128, 7u128);
    let down = mulrat(a, b, c, Down).unwrap();
    let up = mulrat(a, b, c, Up).unwrap();
    assert!(down * c <= a * b);
    assert!(a * b <= up * c);
    assert_eq!(up, down + 1);
    // Exact division: all three agree.
    assert_eq!(mulrat(6, 7, 3, Down), Some(14));
    assert_eq!(mulrat(6, 7, 3, Up), Some(14));
    assert_eq!(mulrat(6, 7, 3, Nearest), Some(14));
}

#[test]
fn nearest_matches_down_or_up() {
    // 10 / 4: remainder 2 is half of 4, so it rounds up.
    assert_eq!(mulrat(5, 2, 4, Nearest), mulrat(5, 2, 4, Up));
    assert_eq!(mulrat(5, 2, 4, Nearest), Some(3));
    // 9 / 4: remainder 1 is under half.
    assert_eq!(mulrat(9, 1, 4, Nearest), mulrat(9, 1, 4, Down));
    assert_eq!(mulrat(9, 1, 4, Nearest), Some(2));
    // 11 / 4: remainder 3.
    assert_eq!(mulrat(11, 1, 4, Nearest), Some(3));
    // 8 / 5: remainder 3 is at least half of 5 rounded up.
    assert_eq!(mulrat(8, 1, 5, Nearest), Some(2));
    // 7 / 5: remainder 2.
    assert_eq!(mulrat(7, 1, 5, Nearest), Some(1));
}

#[test]
fn best_effort_floor_when_product_fits() {
    assert_eq!(multiply_by_rational(10, 3, 4), Ok(7));
    assert_eq!(multiply_by_rational(1, 2, 3), Ok(0));
    assert_eq!(multiply_by_rational(0, MAX, 3), Ok(0));
    assert_eq!(multiply_by_rational(MAX, 0, 3), Ok(0));
    assert_eq!(multiply_by_rational(1 << 64, (1 << 64) - 1, 10), Ok(((1u128 << 64) * ((1 << 64) - 1)) / 10));
}

#[test]
fn best_effort_zero_divisor_counts_as_one() {
    assert_eq!(multiply_by_rational(5, 7, 0), Ok(35));
    assert_eq!(multiply_by_rational(5, 7, 1), Ok(35));
}

#[test]
fn best_effort_divides_a_factor_first() {
    assert_eq!(multiply_by_rational(MAX, MAX, MAX), Ok(MAX));
    assert_eq!(multiply_by_rational(2, MAX, MAX), Ok(2));
}

#[test]
fn best_effort_wide_path_rounds_to_nearest() {
    // 2 * MAX overflows 128 bits; remainder 6 of 7 rounds up.
    assert_eq!(multiply_by_rational(MAX, 2, 7), Ok(97223533405982418132392744980505203273));
    assert_eq!(mulrat(MAX, 2, 7, Nearest), Some(97223533405982418132392744980505203273));
    assert_eq!(mulrat(MAX, 2, 7, Down), Some(97223533405982418132392744980505203272));
}

#[test]
fn best_effort_overflow_is_err() {
    assert!(multiply_by_rational(MAX, MAX, 1).is_err());
    assert!(multiply_by_rational(MAX, 3, 2).is_err());
    assert_eq!(mulrat(MAX, 3, 2, Nearest), None);
}

#[test]
fn best_effort_and_nearest_differ_in_narrow_path() {
    // Within 128 bits `multiply_by_rational` rounds down; rounding to nearest takes 2/3 up.
    assert_eq!(multiply_by_rational(1, 2, 3), Ok(0));
    assert_eq!(mulrat(1, 2, 3, Nearest), Some(1));
}
