//! Scale factors as exact fractions.

use vstd::prelude::*;
use crate::ratio::Ratio;

verus! {

/// A magnification factor, `num / den`.
///
/// A scale is valid when both parts are nonzero, so that it stands for a
/// positive number. A scale with a zero part can be built; the planner
/// rejects it.
#[derive(Clone, Copy, Debug, PartialEq, Eq, Structural)]
pub struct Scale {
    pub num: u32,
    pub den: u32,
}

impl View for Scale {
    type V = Ratio;

    open spec fn view(&self) -> Ratio {
        Ratio { num: self.num as nat, den: self.den as nat }
    }
}

impl Scale {
    /// The scale `num / den`.
    pub fn new(num: u32, den: u32) -> (r: Scale)
        ensures
            r.num == num,
            r.den == den,
    {
        Scale { num, den }
    }

    /// The whole-number scale `factor`.
    pub fn whole(factor: u32) -> (r: Scale)
        ensures
            r.num == factor,
            r.den == 1,
    {
        Scale { num: factor, den: 1 }
    }

    /// Whether the scale stands for a positive number.
    pub open spec fn valid(self) -> bool {
        self@.positive()
    }

    /// Whether the scale stands for a positive number.
    pub fn is_valid(&self) -> (r: bool)
        ensures
            r == self.valid(),
    {
        self.num > 0 && self.den > 0
    }

    /// Whether the scale is exactly one.
    pub fn is_one(&self) -> (r: bool)
        ensures
            r == self@.same(Ratio::one()),
    {
        proof {
            let (n, d) = (self.num as nat, self.den as nat);
            assert(n * 1 == n && 1 * d == d) by (nonlinear_arith);
        }
        self.num == self.den
    }
}

} // verus!
