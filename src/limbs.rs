//! Splitting 128-bit values into narrower limbs.
use vstd::prelude::*;

verus! {

/// The number that `s` writes in base 2^32, most significant limb first.
pub open spec fn limbs_value(s: Seq<u32>) -> int
    decreases s.len(),
{
    if s.len() == 0 {
        0
    } else {
        limbs_value(s.drop_last()) * 0x1_0000_0000 + s.last() as int
    }
}

/// Splits a 128-bit value into its high and low 64-bit halves, in that order.
pub fn split(a: u128) -> (r: (u64, u64))
    ensures
        r.0 as int * 0x1_0000_0000_0000_0000 + r.1 as int == a as int,
{
    let al = #[verifier::truncate] (a as u64);
    let ah = #[verifier::truncate] ((a >> 64u32) as u64);
    proof {
        assert(al == a % 0x1_0000_0000_0000_0000) by (bit_vector)
            requires
                al == a as u64,
        ;
        assert(ah == a / 0x1_0000_0000_0000_0000) by (bit_vector)
            requires
                ah == (a >> 64u32) as u64,
        ;
    }
    (ah, al)
}

/// Splits a 64-bit value into its high and low 32-bit halves, in that order.
fn split_u64(a: u64) -> (r: (u32, u32))
    ensures
        r.0 as int * 0x1_0000_0000 + r.1 as int == a as int,
{
    let al = #[verifier::truncate] (a as u32);
    let ah = #[verifier::truncate] ((a >> 32u32) as u32);
    proof {
        assert(al == a % 0x1_0000_0000) by (bit_vector)
            requires
                al == a as u32,
        ;
        assert(ah == a / 0x1_0000_0000) by (bit_vector)
            requires
                ah == (a >> 32u32) as u32,
        ;
    }
    (ah, al)
}

/// The 32-bit limbs of `x`, most significant first, without leading zero
/// limbs; zero keeps all four of its limbs.
pub fn to_big_uint(x: u128) -> (r: Vec<u32>)
    ensures
        limbs_value(r@) == x,
        1 <= r@.len() <= 4,
        r@[0] != 0 || r@.len() == 4,
        x == 0 ==> r@ == seq![0u32, 0u32, 0u32, 0u32],
{
    let (xh, xl) = split(x);
    let (xhh, xhl) = split_u64(xh);
    let (xlh, xll) = split_u64(xl);
    let r = if xhh != 0 {
        vec![xhh, xhl, xlh, xll]
    } else if xhl != 0 {
        vec![xhl, xlh, xll]
    } else if xlh != 0 {
        vec![xlh, xll]
    } else if xll != 0 {
        vec![xll]
    } else {
        vec![0, 0, 0, 0]
    };
    proof {
        reveal_with_fuel(limbs_value, 5);
        let s = r@;
        if s.len() >= 1 {
            assert(s.drop_last().len() == s.len() - 1);
        }
        assert(s.len() == 4 ==> s.drop_last().drop_last().drop_last() =~= seq![s[0]]);
        assert(s.len() == 4 ==> s.drop_last().drop_last() =~= seq![s[0], s[1]]);
        assert(s.len() == 4 ==> s.drop_last() =~= seq![s[0], s[1], s[2]]);
        assert(s.len() == 3 ==> s.drop_last().drop_last() =~= seq![s[0]]);
        assert(s.len() == 3 ==> s.drop_last() =~= seq![s[0], s[1]]);
        assert(s.len() == 2 ==> s.drop_last() =~= seq![s[0]]);
        assert(seq![s[0]].drop_last() =~= Seq::<u32>::empty());
        assert(seq![s[0], s[1]].drop_last() =~= seq![s[0]]);
        assert(seq![s[0], s[1], s[2]].drop_last() =~= seq![s[0], s[1]]);
    }
    r
}

} // verus!
