//! Integer square root, one binary digit at a time.
use vstd::prelude::*;

verus! {

/// `4^k`.
pub open spec fn pow4(k: nat) -> nat
    decreases k,
{
    if k == 0 {
        1
    } else {
        4 * pow4((k - 1) as nat)
    }
}

/// Powers of four grow with the exponent.
proof fn lemma_pow4_monotonic(i: nat, j: nat)
    requires
        i <= j,
    ensures
        pow4(i) <= pow4(j),
    decreases j - i,
{
    if i < j {
        lemma_pow4_monotonic(i, (j - 1) as nat);
    }
}

/// Powers of four are positive.
proof fn lemma_pow4_positive(k: nat)
    ensures
        pow4(k) >= 1,
    decreases k,
{
    if k > 0 {
        lemma_pow4_positive((k - 1) as nat);
    }
}

/// The values of `4^62` and `4^63`.
proof fn lemma_pow4_62()
    ensures
        pow4(62) == 0x1000_0000_0000_0000_0000_0000_0000_0000,
        pow4(63) == 0x4000_0000_0000_0000_0000_0000_0000_0000,
{
    reveal_with_fuel(pow4, 64);
}

/// The floor of the square root of `n`: the `r` with `r * r <= n < (r + 1) * (r + 1)`.
pub fn sqrt(n: u128) -> (r: u128)
    ensures
        r * r <= n,
        n < (r + 1) * (r + 1),
{
    if n == 0 {
        return 0;
    }
    // The largest power of four that is at most `n`.
    let mut bit: u128 = 1;
    let ghost mut k: int = 0;
    while bit <= n / 4
        invariant
            0 <= k,
            bit == pow4(k as nat),
            1 <= bit <= n,
        decreases n - bit,
    {
        bit = bit * 4;
        proof {
            k = k + 1;
        }
    }
    let ghost n0 = n as int;
    let mut n = n;
    let mut result: u128 = 0;
    let ghost mut y: int = 0;
    proof {
        assert(n0 < 4 * bit);
        assert(pow4((k + 1) as nat) == 4 * pow4(k as nat));
        assert((y + 1) * (y + 1) * pow4((k + 1) as nat) == pow4((k + 1) as nat)) by (nonlinear_arith)
            requires
                y == 0,
        ;
    }
    while bit != 0
        invariant
            -1 <= k,
            k >= 0 ==> bit == pow4(k as nat),
            k == -1 ==> bit == 0,
            y >= 0,
            result == y * pow4((k + 1) as nat),
            n == n0 - y * y * pow4((k + 1) as nat),
            y * y * pow4((k + 1) as nat) <= n0,
            n0 < (y + 1) * (y + 1) * pow4((k + 1) as nat),
            n0 <= u128::MAX,
        decreases k + 1,
    {
        let ghost p = pow4(k as nat) as int;
        proof {
            assert(k >= 0);
            assert(pow4((k + 1) as nat) == 4 * p);
            lemma_no_overflow(y, p, k, n0);
            lemma_pow4_positive(k as nat);
            assert(result >> 1u32 == result / 2) by (bit_vector);
            assert(result / 2 == 2 * y * p) by (nonlinear_arith)
                requires
                    result == y * (4 * p),
            ;
            assert(bit >> 2u32 == bit / 4) by (bit_vector);
            if k > 0 {
                assert(pow4(k as nat) == 4 * pow4((k - 1) as nat));
            } else {
                assert(bit == 1);
            }
        }
        if n >= result + bit {
            proof {
                assert(n0 >= (2 * y + 1) * (2 * y + 1) * p) by (nonlinear_arith)
                    requires
                        n == n0 - y * y * (4 * p),
                        n >= y * (4 * p) + p,
                ;
                assert(n - (result + bit) == n0 - (2 * y + 1) * (2 * y + 1) * p) by (nonlinear_arith)
                    requires
                        n == n0 - y * y * (4 * p),
                        result == y * (4 * p),
                        bit == p,
                ;
                assert(n0 < (2 * y + 2) * (2 * y + 2) * p) by (nonlinear_arith)
                    requires
                        n0 < (y + 1) * (y + 1) * (4 * p),
                ;
            }
            n = n - (result + bit);
            result = (result >> 1u32) + bit;
            proof {
                assert(result == (2 * y + 1) * p) by (nonlinear_arith)
                    requires
                        result == 2 * y * p + p,
                ;
                y = 2 * y + 1;
            }
        } else {
            proof {
                assert(n0 < (2 * y + 1) * (2 * y + 1) * p) by (nonlinear_arith)
                    requires
                        n == n0 - y * y * (4 * p),
                        n < y * (4 * p) + p,
                ;
                assert(y * y * (4 * p) == (2 * y) * (2 * y) * p) by (nonlinear_arith);
            }
            result = result >> 1u32;
            proof {
                y = 2 * y;
            }
        }
        bit = bit >> 2u32;
        proof {
            k = k - 1;
        }
    }
    proof {
        if k >= 0 {
            lemma_pow4_positive(k as nat);
        }
        assert(k == -1);
        assert((k + 1) as nat == 0);
        assert(pow4(0) == 1);
        assert(result == y * pow4(0));
        assert(result == y) by (nonlinear_arith)
            requires
                result == y * pow4(0),
                pow4(0) == 1,
        ;
        assert(y * y * 1 == y * y);
        assert((y + 1) * (y + 1) * 1 == (y + 1) * (y + 1));
    }
    result
}

/// While a digit below `4^k` is tried, `4 * y * 4^k + 4^k` fits in 128 bits.
proof fn lemma_no_overflow(y: int, p: int, k: int, n0: int)
    requires
        0 <= k,
        y >= 0,
        p == pow4(k as nat),
        p <= u128::MAX,
        y * y * (4 * p) <= n0,
        n0 <= u128::MAX,
    ensures
        y * (4 * p) + p <= u128::MAX,
{
    lemma_pow4_62();
    if y > 0 {
        assert(4 * p <= n0) by (nonlinear_arith)
            requires
                y * y * (4 * p) <= n0,
                y >= 1,
                p >= 0,
        ;
        assert(pow4((k + 1) as nat) == 4 * p);
        if k > 62 {
            lemma_pow4_monotonic(64, (k + 1) as nat);
            assert(pow4(64) == 4 * pow4(63));
        }
        lemma_pow4_monotonic(k as nat, 62);
        if y == 1 {
        } else {
            assert(y * (4 * p) + p <= y * y * (4 * p)) by (nonlinear_arith)
                requires
                    y >= 2,
                    p >= 0,
            ;
        }
    }
}

} // verus!
