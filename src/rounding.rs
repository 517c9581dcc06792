//! How the remainder of a division is rounded.
use vstd::prelude::*;

verus! {

/// The rounding policy of a division.
#[derive(Clone, Copy, PartialEq, Eq, Debug, Structural)]
pub enum Rounding {
    /// Round toward positive infinity: up unless the remainder is zero.
    Up,
    /// Round toward zero (floor).
    Down,
    /// Round to the nearest value, halfway cases up.
    Nearest,
}

/// Whether the quotient is moved up by one, given the remainder `rem` of a
/// division by `c`.
pub open spec fn rounds_up(rounding: Rounding, rem: int, c: int) -> bool {
    match rounding {
        Rounding::Up => rem > 0,
        Rounding::Nearest => rem >= c / 2 + c % 2,
        Rounding::Down => false,
    }
}

} // verus!
