//! Exact multiply-then-divide of 128-bit unsigned integers, with the
//! intermediate product held in 256 bits, together with an integer square
//! root and a binary greatest common divisor.
pub mod checked;
pub mod double128;
pub mod gcd;
pub mod limbs;
pub mod muldiv;
pub mod rounding;
pub mod sqrt;

pub use checked::{checked_mul, checked_neg, saturating_add};
pub use double128::Double128;
pub use gcd::gcd;
pub use limbs::{split, to_big_uint};
pub use muldiv::{multiply_by_rational, multiply_by_rational_with_rounding};
pub use rounding::Rounding;
pub use sqrt::sqrt;
