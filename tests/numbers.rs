use wide_arith::{checked_mul, checked_neg, gcd, saturating_add, split, sqrt, to_big_uint, Double128};

const MAX: u128 = u128::MAX;

fn euclid(a: u128, b: u128) -> u128 {
    if b == 0 {
        a
    } else {
        euclid(b, a % b)
    }
}

#[test]
fn gcd_values() {
    assert_eq!(gcd(12, 18), 6);
    assert_eq!(gcd(18, 12), 6);
    assert_eq!(gcd(0, 5), 5);
    assert_eq!(gcd(5, 0), 5);
    assert_eq!(gcd(0, 0), 0);
    assert_eq!(gcd(7, 7), 7);
    assert_eq!(gcd(17, 5), 1);
    assert_eq!(gcd(1 << 127, 3 << 64), 1 << 64);
    assert_eq!(gcd(MAX, MAX - 1), 1);
}

#[test]
fn gcd_matches_euclid() {
    let values = [1u128, 2, 3, 6, 9, 48, 180, 1 << 40, 3 * 5 * 7 * 11 * 13, 1_000_000_007, MAX, MAX / 3];
    for &a in values.iter() {
        for &b in values.iter() {
            let g = gcd(a, b);
            assert_eq!(g, euclid(a, b));
            assert_eq!(a % g, 0);
            assert_eq!(b % g, 0);
        }
    }
}

#[test]
fn sqrt_values() {
    assert_eq!(sqrt(0), 0);
    assert_eq!(sqrt(1), 1);
    assert_eq!(sqrt(3), 1);
    assert_eq!(sqrt(4), 2);
    assert_eq!(sqrt(15), 3);
    assert_eq!(sqrt(16), 4);
    assert_eq!(sqrt(MAX), u64::MAX as u128);
    assert_eq!(sqrt(1 << 126), 1 << 63);
}

#[test]
fn sqrt_brackets() {
    let values = [2u128, 5, 99, 100, 101, 12345678987654321, 1 << 100, (1 << 127) + 1, MAX - 1, MAX];
    for &n in values.iter() {
        let r = sqrt(n);
        assert!(r * r <= n);
        let s = r + 1;
        assert!(s.checked_mul(s).map_or(true, |sq| n < sq));
    }
}

#[test]
fn product_of_extremes() {
    let p = Double128::product_of(MAX, MAX);
    assert_eq!(p.high, MAX - 1);
    assert_eq!(p.low, 1);
    let q = Double128::product_of(1 << 64, 1 << 64);
    assert_eq!((q.high, q.low), (1, 0));
    let s = Double128::product_of(123, 456);
    assert_eq!(s.try_into_u128(), Ok(56088));
}

#[test]
fn division_of_wide_values() {
    let p = Double128::product_of(MAX, MAX - 1);
    let (q, r) = p.div(MAX);
    assert_eq!(q.try_into_u128(), Ok(MAX - 1));
    assert_eq!(r, 0);
    let (q, r) = Double128::product_of(MAX, 2).div(7);
    assert_eq!(q.try_into_u128(), Ok(97223533405982418132392744980505203272));
    assert_eq!(r, 6);
    let (q, r) = p.div(1);
    assert_eq!((q.high, q.low), (p.high, p.low));
    assert_eq!(r, 0);
    assert_eq!(Double128::product_of(MAX, MAX).try_into_u128(), Err(()));
}

#[test]
fn addition_carries_and_wraps() {
    let a = Double128::from_low(MAX);
    let b = Double128::from_low(1);
    let s = a.add(b);
    assert_eq!((s.high, s.low), (1, 0));
    let top = Double128 { high: MAX, low: MAX };
    let w = top.add(b);
    assert!(w.is_zero());
}

#[test]
fn constructors() {
    assert!(Double128::zero().is_zero());
    assert!(!Double128::from_low(1).is_zero());
    let s = Double128::left_shift_64(MAX);
    assert_eq!((s.high, s.low), (u64::MAX as u128, MAX << 64));
    let l = Double128 { high: 9, low: 4 }.low_part();
    assert_eq!((l.high, l.low), (0, 4));
}

#[test]
fn checked_operations() {
    assert_eq!(checked_mul(1 << 64, 1 << 63), Some(1 << 127));
    assert_eq!(checked_mul(1 << 64, 1 << 64), None);
    assert_eq!(checked_neg(0), Some(0));
    assert_eq!(checked_neg(1), None);
    assert_eq!(saturating_add(MAX, 1), MAX);
    assert_eq!(saturating_add(2, 3), 5);
}

#[test]
fn limbs() {
    assert_eq!(split((7 << 64) | 9), (7, 9));
    assert_eq!(to_big_uint(0), vec![0, 0, 0, 0]);
    assert_eq!(to_big_uint(1), vec![1]);
    assert_eq!(to_big_uint(1 << 64), vec![1, 0, 0]);
    assert_eq!(to_big_uint((5 << 32) | 6), vec![5, 6]);
    assert_eq!(to_big_uint(MAX), vec![u32::MAX; 4]);
}
