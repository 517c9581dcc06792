//! Binary greatest common divisor.
use vstd::prelude::*;

verus! {

/// `d` divides `x`: some integer `k` has `d * k == x`.
pub open spec fn divides(d: int, x: int) -> bool {
    exists|k: int| #[trigger] (d * k) == x
}

/// Multiplying both sides by two keeps divisibility.
proof fn lemma_divides_double(d: int, x: int)
    requires
        divides(d, x),
    ensures
        divides(d, 2 * x),
        divides(2 * d, 2 * x),
{
    let k = choose|k: int| #[trigger] (d * k) == x;
    assert(d * (2 * k) == 2 * x) by (nonlinear_arith)
        requires
            d * k == x,
    ;
    assert((2 * d) * k == 2 * x) by (nonlinear_arith)
        requires
            d * k == x,
    ;
}

/// A divisor of an odd number is odd.
proof fn lemma_divisor_of_odd(d: int, x: int)
    requires
        divides(d, x),
        x % 2 == 1,
    ensures
        d % 2 == 1,
{
    let k = choose|k: int| #[trigger] (d * k) == x;
    if d % 2 == 0 {
        let m = (d / 2) * k;
        assert(d * k == 2 * m) by (nonlinear_arith)
            requires
                d == 2 * (d / 2),
                m == (d / 2) * k,
        ;
        assert((2 * m) % 2 == 0);
    }
}

/// An odd divisor of `2 * m` divides `m`.
proof fn lemma_odd_divisor_of_double(d: int, m: int)
    requires
        divides(d, 2 * m),
        d % 2 == 1,
    ensures
        divides(d, m),
{
    let k = choose|k: int| #[trigger] (d * k) == 2 * m;
    if k % 2 != 0 {
        let (h, j) = (d / 2, k / 2);
        let m = 2 * h * j + h + j;
        assert(d * k == 2 * m + 1) by (nonlinear_arith)
            requires
                d == 2 * h + 1,
                k == 2 * j + 1,
                m == 2 * h * j + h + j,
        ;
        assert((2 * m + 1) % 2 == 1);
    }
    let j = k / 2;
    assert(d * j == m) by (nonlinear_arith)
        requires
            d * k == 2 * m,
            k == 2 * j + k % 2,
            k % 2 == 0,
    ;
}

/// An even divisor `2 * e` of `2 * m` gives `e` dividing `m`.
proof fn lemma_halve_both(e: int, m: int)
    requires
        divides(2 * e, 2 * m),
    ensures
        divides(e, m),
{
    let k = choose|k: int| #[trigger] ((2 * e) * k) == 2 * m;
    assert(e * k == m) by (nonlinear_arith)
        requires
            (2 * e) * k == 2 * m,
    ;
}

/// A common divisor of `x` and `y` divides their difference, and one of `x`
/// and `y - x` divides `y`.
proof fn lemma_divides_difference(d: int, x: int, y: int)
    ensures
        divides(d, x) && divides(d, y) ==> divides(d, y - x),
        divides(d, x) && divides(d, y - x) ==> divides(d, y),
{
    if divides(d, x) && divides(d, y) {
        let k = choose|k: int| #[trigger] (d * k) == x;
        let j = choose|j: int| #[trigger] (d * j) == y;
        assert(d * (j - k) == y - x) by (nonlinear_arith)
            requires
                d * k == x,
                d * j == y,
        ;
    }
    if divides(d, x) && divides(d, y - x) {
        let k = choose|k: int| #[trigger] (d * k) == x;
        let j = choose|j: int| #[trigger] (d * j) == y - x;
        assert(d * (j + k) == y) by (nonlinear_arith)
            requires
                d * k == x,
                d * j == y - x,
        ;
    }
}

/// A nonnegative divisor of a positive number is positive and at most that number.
proof fn lemma_divisor_at_most(d: int, x: int)
    requires
        divides(d, x),
        d >= 0,
        x > 0,
    ensures
        0 < d <= x,
{
    let k = choose|k: int| #[trigger] (d * k) == x;
    if d == 0 {
        assert(d * k == 0) by (nonlinear_arith)
            requires
                d == 0,
        ;
    }
    assert(d <= x) by (nonlinear_arith)
        requires
            d * k == x,
            d > 0,
            x > 0,
    ;
}

/// `g` is the greatest common divisor of `a` and `b`: it divides both, and
/// every positive common divisor divides it.
pub open spec fn is_gcd(g: int, a: int, b: int) -> bool {
    &&& divides(g, a)
    &&& divides(g, b)
    &&& forall|d: int| 0 < d && #[trigger] divides(d, a) && divides(d, b) ==> divides(d, g)
}

/// Facts on bits of a value that the binary algorithm reads.
proof fn lemma_bits(x: u128)
    ensures
        (x & 1 == 0) == (x % 2 == 0),
        (x & 1 == 1) == (x % 2 == 1),
        x >> 1 == x / 2,
{
    assert((x & 1 == 0) == (x % 2 == 0)) by (bit_vector);
    assert((x & 1 == 1) == (x % 2 == 1)) by (bit_vector);
    assert(x >> 1 == x / 2) by (bit_vector);
}

/// The greatest common divisor of `a` and `b` (zero for two zeros), by the
/// binary algorithm: equal values, then a zero, then the parities decide.
pub fn gcd(a: u128, b: u128) -> (r: u128)
    ensures
        is_gcd(r as int, a as int, b as int),
        a != 0 || b != 0 ==> forall|d: int|
            d > r ==> !(#[trigger] divides(d, a as int) && divides(d, b as int)),
    decreases a + b,
{
    proof {
        lemma_bits(a);
        lemma_bits(b);
    }
    let r = if a == b {
        proof {
            assert(b * 1 == b);
        }
        b
    } else if a == 0 || b == 0 {
        let x = if a == 0 {
            b
        } else {
            a
        };
        proof {
            assert(x * 1 == x);
            assert(x * 0 == 0);
        }
        x
    } else if a & 1 == 0 && b & 1 == 1 {
        let g = gcd(a >> 1, b);
        proof {
            lemma_gcd_even_odd(g as int, a as int, b as int);
        }
        g
    } else if a & 1 == 1 && b & 1 == 0 {
        let g = gcd(b >> 1, a);
        proof {
            lemma_gcd_even_odd(g as int, b as int, a as int);
            lemma_gcd_symmetric(g as int, b as int, a as int);
        }
        g
    } else if a & 1 == 0 && b & 1 == 0 {
        let g = gcd(a >> 1, b >> 1);
        proof {
            lemma_divisor_at_most(g as int, (a / 2) as int);
            assert(g << 1 == 2 * g) by (bit_vector)
                requires
                    g <= 0x7fff_ffff_ffff_ffff_ffff_ffff_ffff_ffffu128,
            ;
            lemma_gcd_even_even(g as int, a as int, b as int);
        }
        g << 1
    } else {
        let (x, y) = if a < b {
            (a, b)
        } else {
            (b, a)
        };
        proof {
            lemma_bits((y - x) as u128);
        }
        let g = gcd((y - x) >> 1, x);
        proof {
            lemma_gcd_odd_odd(g as int, x as int, y as int);
            if x != a {
                lemma_gcd_symmetric(g as int, x as int, y as int);
            }
        }
        g
    };
    proof {
        if a != 0 || b != 0 {
            assert forall|d: int| d > r implies !(#[trigger] divides(d, a as int) && divides(
                d,
                b as int,
            )) by {
                if divides(d, a as int) && divides(d, b as int) {
                    assert(divides(d, r as int));
                    if r == 0 {
                        let k = choose|k: int| #[trigger] (r * k) == a as int;
                        let j = choose|j: int| #[trigger] (r * j) == b as int;
                        assert(r * k == 0);
                        assert(r * j == 0);
                    }
                    lemma_divisor_at_most(d, r as int);
                }
            }
        }
    }
    r
}

/// Swapping the arguments keeps the greatest common divisor.
proof fn lemma_gcd_symmetric(g: int, a: int, b: int)
    requires
        is_gcd(g, a, b),
    ensures
        is_gcd(g, b, a),
{
}

/// With `a` even and `b` odd, the gcd of `a / 2` and `b` is that of `a` and `b`.
proof fn lemma_gcd_even_odd(g: int, a: int, b: int)
    requires
        a % 2 == 0,
        b % 2 == 1,
        is_gcd(g, a / 2, b),
    ensures
        is_gcd(g, a, b),
{
    assert(a == 2 * (a / 2));
    lemma_divides_double(g, a / 2);
    assert forall|d: int| 0 < d && #[trigger] divides(d, a) && divides(d, b) implies divides(d, g) by {
        lemma_divisor_of_odd(d, b);
        lemma_odd_divisor_of_double(d, a / 2);
    }
}

/// With `a` and `b` even, the gcd of `a` and `b` is twice that of their halves.
proof fn lemma_gcd_even_even(g: int, a: int, b: int)
    requires
        a % 2 == 0,
        b % 2 == 0,
        is_gcd(g, a / 2, b / 2),
    ensures
        is_gcd(2 * g, a, b),
{
    assert(a == 2 * (a / 2));
    assert(b == 2 * (b / 2));
    lemma_divides_double(g, a / 2);
    lemma_divides_double(g, b / 2);
    assert forall|d: int| 0 < d && #[trigger] divides(d, a) && divides(d, b) implies divides(
        d,
        2 * g,
    ) by {
        if d % 2 == 1 {
            lemma_odd_divisor_of_double(d, a / 2);
            lemma_odd_divisor_of_double(d, b / 2);
            lemma_divides_double(d, g);
        } else {
            let e = d / 2;
            assert(d == 2 * e);
            lemma_halve_both(e, a / 2);
            lemma_halve_both(e, b / 2);
            assert(divides(e, g));
            lemma_divides_double(e, g);
        }
    }
}

/// With `x < y` both odd, the gcd of `(y - x) / 2` and `x` is that of `x` and `y`.
proof fn lemma_gcd_odd_odd(g: int, x: int, y: int)
    requires
        x % 2 == 1,
        y % 2 == 1,
        x < y,
        is_gcd(g, (y - x) / 2, x),
    ensures
        is_gcd(g, x, y),
{
    assert(y - x == 2 * ((y - x) / 2));
    lemma_divides_double(g, (y - x) / 2);
    lemma_divides_difference(g, x, y);
    assert forall|d: int| 0 < d && #[trigger] divides(d, x) && divides(d, y) implies divides(d, g) by {
        lemma_divisor_of_odd(d, x);
        lemma_divides_difference(d, x, y);
        lemma_odd_divisor_of_double(d, (y - x) / 2);
    }
}

} // verus!
