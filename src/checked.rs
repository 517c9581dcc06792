//! Checked and saturating operations on 128-bit integers.
use vstd::prelude::*;

verus! {

/// `a * b`, or `None` where the product does not fit in 128 bits.
pub fn checked_mul(a: u128, b: u128) -> (r: Option<u128>)
    ensures
        r == if a * b <= u128::MAX {
            Some((a * b) as u128)
        } else {
            None::<u128>
        },
{
    a.checked_mul(b)
}

/// `-a`, which an unsigned integer has only for zero.
pub fn checked_neg(a: u128) -> (r: Option<u128>)
    ensures
        r == if a == 0 {
            Some(0u128)
        } else {
            None::<u128>
        },
{
    if a == 0 {
        Some(0)
    } else {
        None
    }
}

/// `a + b`, or the largest 128-bit value where the sum does not fit.
pub fn saturating_add(a: u128, b: u128) -> (r: u128)
    ensures
        r == if a + b <= u128::MAX {
            (a + b) as u128
        } else {
            u128::MAX
        },
{
    a.saturating_add(b)
}

} // verus!
