//! Fractions of machine integers, for cost factors and temperatures.

use vstd::prelude::*;

verus! {

/// The fraction `num / den`.
#[derive(Debug, Clone, Copy, PartialEq, Eq, Structural)]
pub struct Ratio {
    /// The numerator.
    pub num: u32,
    /// The denominator.
    pub den: u32,
}

impl Ratio {
    /// The fraction `num / den`.
    pub fn new(num: u32, den: u32) -> (r: Ratio)
        requires
            den > 0,
        ensures
            r.num == num,
            r.den == den,
    {
        Ratio { num, den }
    }

    /// The whole number `n`.
    pub fn whole(n: u32) -> (r: Ratio)
        ensures
            r.num == n,
            r.den == 1,
    {
        Ratio { num: n, den: 1 }
    }
}

} // verus!
