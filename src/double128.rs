//! A 256-bit unsigned integer made of two 128-bit limbs, with just enough
//! arithmetic to compute `a * b / c` exactly for 128-bit `a`, `b` and `c`.
use vstd::arithmetic::div_mod::{lemma_fundamental_div_mod, lemma_fundamental_div_mod_converse};
use vstd::arithmetic::mul::{lemma_mul_is_distributive_add, lemma_mul_is_distributive_add_other_way};
use vstd::prelude::*;

verus! {

/// 2^64.
pub open spec fn half_base() -> int {
    0x1_0000_0000_0000_0000
}

/// 2^128, the weight of the high limb.
pub open spec fn base() -> int {
    0xffff_ffff_ffff_ffff_ffff_ffff_ffff_ffffint + 1
}

/// 2^256, one past the largest value a `Double128` can hold.
pub open spec fn modulus() -> int {
    base() * base()
}

/// The least significant 64 bits of `a`.
fn low_64(a: u128) -> (r: u128)
    ensures
        r == a as int % half_base(),
{
    let r = a & 0xffff_ffff_ffff_ffffu128;
    assert(r == a % 0x1_0000_0000_0000_0000) by (bit_vector)
        requires
            r == a & 0xffff_ffff_ffff_ffffu128,
    ;
    r
}

/// The most significant 64 bits of `a`.
fn high_64(a: u128) -> (r: u128)
    ensures
        r == a as int / half_base(),
{
    let r = a >> 64u32;
    assert(r == a / 0x1_0000_0000_0000_0000) by (bit_vector)
        requires
            r == a >> 64u32,
    ;
    r
}

/// The two's complement of `a`: `2^128 - a` for a nonzero `a`.
fn neg128(a: u128) -> (r: u128)
    requires
        a != 0,
    ensures
        r == base() - a,
{
    let r = (!a).wrapping_add(1);
    assert(!a + a == 0xffff_ffff_ffff_ffff_ffff_ffff_ffff_ffff) by (bit_vector);
    r
}

/// `2^128 / a`, for a divisor of at least 2.
fn div128(a: u128) -> (r: u128)
    requires
        a >= 2,
    ensures
        r == base() / (a as int),
{
    let n = neg128(a);
    let q = n / a;
    proof {
        lemma_fundamental_div_mod(n as int, a as int);
        assert(q * a <= n) by (nonlinear_arith)
            requires
                n == a * q + n % a,
                n % a >= 0,
        ;
        assert(q < 0xffff_ffff_ffff_ffff_ffff_ffff_ffff_ffff) by (nonlinear_arith)
            requires
                q * a <= n,
                a >= 2,
                n < 0xffff_ffff_ffff_ffff_ffff_ffff_ffff_ffff,
        ;
        assert(base() == (q + 1) * a + n % a) by (nonlinear_arith)
            requires
                n == a * q + n % a,
                n + a == base(),
        ;
        lemma_fundamental_div_mod_converse(base(), a as int, q + 1, (n % a) as int);
    }
    q.wrapping_add(1)
}

/// `2^128 % a`, for a nonzero divisor.
fn mod128(a: u128) -> (r: u128)
    requires
        a != 0,
    ensures
        r == base() % (a as int),
        r < a,
{
    let n = neg128(a);
    let r = n % a;
    proof {
        lemma_fundamental_div_mod(n as int, a as int);
        assert(base() == (n / a + 1) * a + r) by (nonlinear_arith)
            requires
                n == a * (n / a) + r,
                n + a == base(),
        ;
        lemma_fundamental_div_mod_converse(base(), a as int, n / a + 1, r as int);
    }
    r
}

/// A 256-bit unsigned integer: `high * 2^128 + low`.
///
/// Every pair of limbs is a valid value, so the type carries no invariant.
#[derive(Clone, Copy, PartialEq, Eq, Debug, Structural)]
pub struct Double128 {
    pub high: u128,
    pub low: u128,
}

impl View for Double128 {
    type V = nat;

    /// The number this pair of limbs stands for.
    open spec fn view(&self) -> nat {
        (self.high as int * base() + self.low as int) as nat
    }
}

/// A pair of limbs is a value below 2^256.
pub proof fn lemma_value_bound(x: Double128)
    ensures
        x@ < modulus(),
{
    assert((x.high as nat) * base() + (x.low as nat) < base() * base()) by (nonlinear_arith)
        requires
            x.high < base(),
            x.low < base(),
    ;
}

impl Double128 {
    /// The value as a 128-bit integer, or `Err(())` where it needs more bits.
    pub fn try_into_u128(self) -> (r: Result<u128, ()>)
        ensures
            match r {
                Ok(v) => self@ < base() && v == self@,
                Err(_) => self@ >= base(),
            },
    {
        match self.high {
            0 => Ok(self.low),
            _ => Err(()),
        }
    }

    /// The value zero.
    pub fn zero() -> (r: Self)
        ensures
            r@ == 0,
            r.high == 0,
            r.low == 0,
    {
        Self { high: 0, low: 0 }
    }

    /// Whether the value is zero.
    pub fn is_zero(&self) -> (r: bool)
        ensures
            r == (self@ == 0),
    {
        proof {
            assert(self.high > 0 ==> self.high * base() > 0) by (nonlinear_arith);
        }
        self.high == 0 && self.low == 0
    }

    /// `scaled_value * 2^64`: the upper 64 bits of `scaled_value` land in the
    /// lower half of `high`, its lower 64 bits in the upper half of `low`.
    pub fn left_shift_64(scaled_value: u128) -> (r: Self)
        ensures
            r@ == scaled_value as int * half_base(),
    {
        let high = scaled_value >> 64u32;
        let low = scaled_value << 64u32;
        proof {
            let v = scaled_value as int;
            assert(high == scaled_value / 0x1_0000_0000_0000_0000) by (bit_vector)
                requires
                    high == scaled_value >> 64u32,
            ;
            assert(low == (scaled_value % 0x1_0000_0000_0000_0000) * 0x1_0000_0000_0000_0000)
                by (bit_vector)
                requires
                    low == scaled_value << 64u32,
            ;
            lemma_fundamental_div_mod(v, half_base());
            assert(high * base() + low == v * half_base()) by (nonlinear_arith)
                requires
                    high == v / half_base(),
                    low == (v % half_base()) * half_base(),
                    v == half_base() * (v / half_base()) + v % half_base(),
                    base() == half_base() * half_base(),
            ;
        }
        Self { high, low }
    }

    /// The value `low`, with a zero high limb.
    pub fn from_low(low: u128) -> (r: Self)
        ensures
            r@ == low,
            r.high == 0,
            r.low == low,
    {
        Self { high: 0, low }
    }

    /// The same value with the high limb cleared.
    pub fn low_part(self) -> (r: Self)
        ensures
            r@ == self.low,
            r.high == 0,
            r.low == self.low,
    {
        Self { high: 0, ..self }
    }

    /// The exact 256-bit product `a * b`, from four 64-by-64-bit products.
    pub fn product_of(a: u128, b: u128) -> (r: Self)
        ensures
            r@ == a as int * b as int,
    {
        let (a_low, a_high) = (low_64(a), high_64(a));
        let (b_low, b_high) = (low_64(b), high_64(b));
        proof {
            lemma_fundamental_div_mod(a as int, half_base());
            lemma_fundamental_div_mod(b as int, half_base());
            lemma_half_product(a_low, b_low);
            lemma_half_product(a_low, b_high);
            lemma_half_product(a_high, b_low);
            lemma_half_product(a_high, b_high);
        }
        // a * b = l * 2^128 + (o + i) * 2^64 + f
        let (f, o, i, l) = (a_low * b_low, a_low * b_high, a_high * b_low, a_high * b_high);
        let fl = Self { high: l, low: f };
        let i = Self::left_shift_64(i);
        let o = Self::left_shift_64(o);
        proof {
            let (al, ah, bl, bh) = (a_low as int, a_high as int, b_low as int, b_high as int);
            let h = half_base();
            lemma_expand(ah, al, bh, bl, h);
            assert((a as int) * (b as int) < modulus()) by (nonlinear_arith)
                requires
                    a < base(),
                    b < base(),
            ;
        }
        let s = fl.add(i);
        s.add(o)
    }

    /// `self + b` modulo 2^256: the low limbs are added with a carry into the
    /// high limbs, whose sum wraps.
    pub fn add(self, b: Self) -> (r: Self)
        ensures
            r@ == (self@ + b@) as int % modulus(),
            self@ + b@ < modulus() ==> r@ == self@ + b@,
    {
        let (low, carry) = match self.low.checked_add(b.low) {
            Some(s) => (s, 0u128),
            None => (self.low.wrapping_add(b.low), 1u128),
        };
        let high = self.high.wrapping_add(b.high).wrapping_add(carry);
        proof {
            let sum = self@ + b@ as int;
            let big = self.high as int + b.high as int + carry as int;
            assert(low + carry * base() == self.low + b.low);
            assert(sum == big * base() + low) by (nonlinear_arith)
                requires
                    sum == self.high * base() + self.low + b.high * base() + b.low,
                    low + carry * base() == self.low + b.low,
                    big == self.high + b.high + carry,
            ;
            lemma_value_bound(self);
            lemma_value_bound(b);
            if big >= base() {
                assert(high == big - base());
                assert(sum == 1 * modulus() + (high * base() + low)) by (nonlinear_arith)
                    requires
                        sum == big * base() + low,
                        high == big - base(),
                        modulus() == base() * base(),
                ;
            } else {
                assert(high == big);
                assert(sum == 0 * modulus() + (high * base() + low));
            }
            let r = Double128 { high, low };
            lemma_value_bound(r);
            lemma_fundamental_div_mod_converse(sum, modulus(), if big >= base() { 1 } else { 0 }, r@ as int);
        }
        Double128 { high, low }
    }

    /// Quotient and remainder of the division by `rhs`.
    ///
    /// While the high limb is nonzero it is folded into the low one, using
    /// `2^128 = rhs * (2^128 / rhs) + 2^128 % rhs`; every fold makes the value
    /// strictly smaller.
    pub fn div(self, rhs: u128) -> (r: (Self, u128))
        requires
            rhs != 0,
        ensures
            r.0@ == self@ as int / (rhs as int),
            r.1 == self@ as int % (rhs as int),
    {
        if rhs == 1 {
            return (self, 0);
        }
        let (q, r) = (div128(rhs), mod128(rhs));
        proof {
            lemma_fundamental_div_mod(base(), rhs as int);
            lemma_value_bound(self);
        }
        let mut a = self;
        let mut x = Self::zero();
        while a.high != 0
            invariant
                2 <= rhs,
                q == base() / (rhs as int),
                r == base() % (rhs as int),
                base() == rhs * q + r,
                r < rhs,
                x@ * rhs + a@ == self@,
                self@ < modulus(),
            decreases a@,
        {
            let t = Self::product_of(a.high, q);
            proof {
                assert((x@ + t@) * rhs <= self@) by (nonlinear_arith)
                    requires
                        t@ == a.high * q,
                        x@ * rhs + a@ == self@,
                        a@ == a.high * base() + a.low,
                        base() == rhs * q + r,
                        a.low >= 0,
                        r >= 0,
                ;
                assert(x@ + t@ <= self@) by (nonlinear_arith)
                    requires
                        (x@ + t@) * rhs <= self@,
                        rhs >= 2,
                ;
            }
            let ghost x0 = x@;
            x = x.add(t);
            let u = Self::product_of(a.high, r);
            let next = u.add(a.low_part());
            proof {
                assert(u@ + a.low < a@) by (nonlinear_arith)
                    requires
                        u@ == a.high * r,
                        a@ == a.high * base() + a.low,
                        r < base(),
                        a.high > 0,
                ;
                assert(x@ * rhs + next@ == self@) by (nonlinear_arith)
                    requires
                        x@ == x0 + t@,
                        x0 * rhs + a@ == self@,
                        next@ == u@ + a.low,
                        u@ == a.high * r,
                        t@ == a.high * q,
                        a@ == a.high * base() + a.low,
                        base() == rhs * q + r,
                ;
            }
            a = next;
        }
        let last = Self::from_low(a.low / rhs);
        let rem = a.low % rhs;
        proof {
            lemma_fundamental_div_mod(a.low as int, rhs as int);
            assert((x@ + last@) * rhs + rem == self@) by (nonlinear_arith)
                requires
                    x@ * rhs + a.low == self@,
                    last@ == a.low / rhs,
                    rem == a.low % rhs,
                    a.low == rhs * (a.low / rhs) + a.low % rhs,
            ;
            assert(x@ + last@ <= self@) by (nonlinear_arith)
                requires
                    (x@ + last@) * rhs + rem == self@,
                    rhs >= 2,
                    rem >= 0,
            ;
            lemma_fundamental_div_mod_converse(self@ as int, rhs as int, x@ + last@ as int, rem as int);
        }
        (x.add(last), rem)
    }
}

/// Product of two two-digit numbers in base `h`.
proof fn lemma_expand(x1: int, x0: int, y1: int, y0: int, h: int)
    ensures
        (h * x1 + x0) * (h * y1 + y0) == x1 * y1 * (h * h) + x0 * y1 * h + x1 * y0 * h + x0 * y0,
{
    let (a, b) = (h * x1, h * y1);
    lemma_mul_is_distributive_add_other_way(b + y0, a, x0);
    lemma_mul_is_distributive_add(a, b, y0);
    lemma_mul_is_distributive_add(x0, b, y0);
    assert(a * b == x1 * y1 * (h * h)) by (nonlinear_arith)
        requires
            a == h * x1,
            b == h * y1,
    ;
    assert(a * y0 == x1 * y0 * h) by (nonlinear_arith)
        requires
            a == h * x1,
    ;
    assert(x0 * b == x0 * y1 * h) by (nonlinear_arith)
        requires
            b == h * y1,
    ;
}

/// The product of two values below 2^64 fits in 128 bits.
proof fn lemma_half_product(x: u128, y: u128)
    requires
        x < half_base(),
        y < half_base(),
    ensures
        x * y < base(),
{
    assert(x * y < half_base() * half_base()) by (nonlinear_arith)
        requires
            x < half_base(),
            y < half_base(),
    ;
}

} // verus!
