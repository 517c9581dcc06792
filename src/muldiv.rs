//! `a * b / c` on 128-bit integers without losing precision in the product.
use crate::double128::{base, Double128};
use crate::rounding::{rounds_up, Rounding};
use vstd::arithmetic::div_mod::{lemma_div_multiples_vanish, lemma_fundamental_div_mod};
use vstd::prelude::*;

verus! {

/// The largest 128-bit value.
pub open spec fn max128() -> int {
    u128::MAX as int
}

/// `a * b / c` rounded as `rounding` says, as an unbounded integer.
pub open spec fn rounded_quotient(a: int, b: int, c: int, rounding: Rounding) -> int {
    a * b / c + if rounds_up(rounding, (a * b) % c, c) {
        1int
    } else {
        0int
    }
}

/// The divisor that `multiply_by_rational` works with: `c`, but at least one.
pub open spec fn clamped(c: int) -> int {
    if c < 1 {
        1
    } else {
        c
    }
}

/// Whether `multiply_by_rational` computes in 128 bits: the product, after `c`
/// has been divided out of a factor that it divides, fits.
pub open spec fn best_effort_direct(a: int, b: int, c: int) -> bool {
    let d = clamped(c);
    let p = if a % d == 0 || b % d == 0 {
        a * b / d
    } else {
        a * b
    };
    p <= max128()
}

/// Whether `multiply_by_rational` adds one to the quotient: only where it has
/// to go beyond 128 bits, and then where the remainder exceeds half of the
/// divisor rounded down.
pub open spec fn best_effort_rounds_up(a: int, b: int, c: int) -> bool {
    let d = clamped(c);
    !best_effort_direct(a, b, c) && (a * b) % d > d / 2
}

/// What `multiply_by_rational` computes, as an unbounded integer.
pub open spec fn best_effort_quotient(a: int, b: int, c: int) -> int {
    a * b / clamped(c) + if best_effort_rounds_up(a, b, c) {
        1int
    } else {
        0int
    }
}

/// `a * b / c`, rounded as `r` says; `None` where the rounded result does not
/// fit in 128 bits.
pub fn multiply_by_rational_with_rounding(
    a: u128,
    b: u128,
    c: u128,
    r: Rounding,
) -> (res: Option<u128>)
    requires
        c != 0,
    ensures
        res == if rounded_quotient(a as int, b as int, c as int, r) <= max128() {
            Some(rounded_quotient(a as int, b as int, c as int, r) as u128)
        } else {
            None::<u128>
        },
{
    let (result, remainder) = Double128::product_of(a, b).div(c);
    let result: u128 = match result.try_into_u128() {
        Ok(v) => v,
        Err(_) => {
            proof {
                lemma_rounded_at_least_quotient(a as int, b as int, c as int, r);
            }
            return None;
        },
    };
    let up = match r {
        Rounding::Up => remainder > 0,
        Rounding::Nearest => remainder >= c / 2 + c % 2,
        Rounding::Down => false,
    };
    if up {
        match result.checked_add(1) {
            Some(v) => Some(v),
            None => None,
        }
    } else {
        Some(result)
    }
}

/// Rounding never moves a quotient down.
proof fn lemma_rounded_at_least_quotient(a: int, b: int, c: int, r: Rounding)
    ensures
        rounded_quotient(a, b, c, r) >= a * b / c,
{
}

/// `a * b / c` for a `c` of at least one (a zero `c` counts as one).
///
/// Where the product fits in 128 bits, after `c` has been divided out of a
/// factor that it divides, the quotient is rounded down. Otherwise it is
/// computed in 256 bits and rounded to nearest, with a remainder of exactly
/// half of an even divisor rounded down. `Err` where the result does not fit.
pub fn multiply_by_rational(a: u128, b: u128, c: u128) -> (res: Result<u128, &'static str>)
    ensures
        match res {
            Ok(v) => best_effort_quotient(a as int, b as int, c as int) <= max128() && v
                == best_effort_quotient(a as int, b as int, c as int),
            Err(_) => best_effort_quotient(a as int, b as int, c as int) > max128(),
        },
{
    let ghost (a0, b0, c0) = (a as int, b as int, c as int);
    let ghost d = clamped(c0);
    if a == 0 || b == 0 {
        proof {
            assert(a0 * b0 == 0) by (nonlinear_arith)
                requires
                    a0 == 0 || b0 == 0,
            ;
        }
        return Ok(0);
    }
    let mut a = a;
    let mut b = b;
    let mut c = if c < 1 {
        1
    } else {
        c
    };
    // The larger factor goes first: dividing it by `c` is the likelier to succeed.
    if b > a {
        std::mem::swap(&mut a, &mut b);
    }
    proof {
        assert(a * b == a0 * b0) by (nonlinear_arith)
            requires
                (a == a0 && b == b0) || (a == b0 && b == a0),
        ;
    }
    let ghost divided = a % c == 0 || b % c == 0;
    assert(c == d);
    if a % c == 0 {
        proof {
            lemma_exact_division(a as int, b as int, c as int);
        }
        a = a / c;
        c = 1;
        assert(a * b == a0 * b0 / d);
    } else if b % c == 0 {
        proof {
            lemma_exact_division(b as int, a as int, c as int);
            assert(b * a == a * b) by (nonlinear_arith);
            assert((b / c) * a == a * (b / c)) by (nonlinear_arith);
        }
        b = b / c;
        c = 1;
        assert(a * b == a0 * b0 / d);
    }
    // Now `a * b / c` is `a0 * b0 / d`, and `c` is one where it was divided out.
    proof {
        if divided {
            assert(a * b == a0 * b0 / d);
            assert(c == 1);
            lemma_fundamental_div_mod(a0 * b0, d);
        } else {
            assert(a * b == a0 * b0);
            assert(c == d);
        }
    }
    match a.checked_mul(b) {
        Some(x) => {
            proof {
                if divided {
                    assert(x / c == x);
                }
            }
            Ok(x / c)
        },
        None => {
            let (q, r) = Double128::product_of(a, b).div(c);
            proof {
                if divided {
                    assert((a * b) % 1 == 0);
                    assert((a0 * b0) % d == 0);
                }
            }
            let q = if r > c / 2 {
                proof {
                    crate::double128::lemma_value_bound(q);
                    assert(q@ <= a * b) by (nonlinear_arith)
                        requires
                            q@ == (a * b) / (c as int),
                            c >= 1,
                            a * b >= 0,
                    ;
                    assert(a * b < base() * base() - 1) by (nonlinear_arith)
                        requires
                            a < base(),
                            b < base(),
                            base() > 2,
                    ;
                }
                q.add(Double128::from_low(1))
            } else {
                q
            };
            match q.try_into_u128() {
                Ok(v) => Ok(v),
                Err(_) => Err("result cannot fit in u128"),
            }
        },
    }
}

/// Rounding down never gives more than the exact ratio `a * b / c`, and
/// rounding up never less: `down * c <= a * b <= up * c`.
pub proof fn lemma_down_up_bracket(a: u128, b: u128, c: u128)
    requires
        c >= 1,
    ensures
        rounded_quotient(a as int, b as int, c as int, Rounding::Down) * c <= a * b,
        a * b <= rounded_quotient(a as int, b as int, c as int, Rounding::Up) * c,
{
    let p = a * b;
    lemma_fundamental_div_mod(p, c as int);
    let (q, r) = (p / (c as int), p % (c as int));
    assert(q * c <= p) by (nonlinear_arith)
        requires
            p == c * q + r,
            r >= 0,
    ;
    if r > 0 {
        assert(p <= (q + 1) * c) by (nonlinear_arith)
            requires
                p == c * q + r,
                r < c,
        ;
    } else {
        assert(p <= q * c) by (nonlinear_arith)
            requires
                p == c * q + r,
                r == 0,
        ;
    }
}

/// Rounding to nearest agrees with rounding down where the remainder is less
/// than half of the divisor, and with rounding up otherwise.
pub proof fn lemma_nearest_is_down_or_up(a: u128, b: u128, c: u128)
    requires
        c >= 1,
    ensures
        2 * ((a * b) % (c as int)) < c ==> rounded_quotient(a as int, b as int, c as int, Rounding::Nearest)
            == rounded_quotient(a as int, b as int, c as int, Rounding::Down),
        2 * ((a * b) % (c as int)) >= c ==> rounded_quotient(
            a as int,
            b as int,
            c as int,
            Rounding::Nearest,
        ) == rounded_quotient(a as int, b as int, c as int, Rounding::Up),
{
}

/// Where `a * b` fits in 128 bits, `multiply_by_rational` is the quotient
/// rounded down.
pub proof fn lemma_best_effort_floor_when_product_fits(a: u128, b: u128, c: u128)
    requires
        c >= 1,
        a * b <= max128(),
    ensures
        best_effort_quotient(a as int, b as int, c as int) == (a * b) / (c as int),
{
    let p = a * b;
    lemma_fundamental_div_mod(p, c as int);
    assert(p / (c as int) <= p) by (nonlinear_arith)
        requires
            p == c * (p / (c as int)) + p % (c as int),
            p % (c as int) >= 0,
            c >= 1,
            p >= 0,
    ;
}

/// `multiply_by_rational` and rounding to nearest give the same value, so that
/// both succeed or both fail, wherever their tie-breaks agree: where the
/// former stays in 128 bits the remainder is under half of `c`, and where it
/// does not the remainder is not exactly half of `c`.
pub proof fn lemma_best_effort_agrees_with_nearest(a: u128, b: u128, c: u128)
    requires
        c >= 1,
        best_effort_direct(a as int, b as int, c as int) ==> 2 * ((a * b) % (c as int)) < c,
        !best_effort_direct(a as int, b as int, c as int) ==> 2 * ((a * b) % (c as int)) != c,
    ensures
        best_effort_quotient(a as int, b as int, c as int) == rounded_quotient(
            a as int,
            b as int,
            c as int,
            Rounding::Nearest,
        ),
{
}

/// Where `c` divides `a`, dividing `a` first gives the same quotient.
proof fn lemma_exact_division(a: int, b: int, c: int)
    requires
        c > 0,
        a % c == 0,
    ensures
        (a / c) * b == (a * b) / c,
        (a * b) % c == 0,
{
    lemma_fundamental_div_mod(a, c);
    let k = a / c;
    assert(a * b == c * (k * b)) by (nonlinear_arith)
        requires
            a == c * k,
    ;
    lemma_div_multiples_vanish(k * b, c);
    vstd::arithmetic::div_mod::lemma_mod_multiples_basic(k * b, c);
    assert(c * (k * b) == (k * b) * c) by (nonlinear_arith);
}

} // verus!
