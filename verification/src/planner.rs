//! The scale planner: how many model passes a target scale takes.
//!
//! With `x` the real number for which `base^x` is the target, the strategies
//! ask for `x` rounded to the nearest whole number (a half going away from
//! zero), rounded up, or rounded down, and never less than zero. The planner
//! finds these numbers by comparing exact powers; no logarithm is taken.
//! Where the base shrinks the image, `x` is counted on the inverses of base
//! and target, which gives the same number.

use vstd::prelude::*;
use crate::laws::lemma_pass_count_unique;
use crate::natural::Natural;
use crate::pipeline::ScaleStrategy;
use crate::ratio::{
    lemma_exponent_bounded, lemma_power_odd, lemma_power_of_product, lemma_power_positive, power,
    Ratio,
};
use crate::scale::Scale;

verus! {

/// Why no number of passes can be planned.
#[derive(Clone, Copy, Debug, PartialEq, Eq, Structural)]
pub enum PlanError {
    /// The base or the target scale is not a positive number.
    InvalidScale,
    /// The base scale is one and the strategy counts powers of it: every
    /// power of one is one, so no count is nearer to the target than another.
    DegenerateBase,
}

/// The base and the target on which powers are counted: themselves where the
/// base enlarges, their inverses where it shrinks.
pub open spec fn enlarging(base: Ratio, target: Ratio) -> (Ratio, Ratio) {
    if base.den <= base.num {
        (base, target)
    } else {
        (base.inverse(), target.inverse())
    }
}

/// `n` is the least count with `b^n >= t`.
pub open spec fn is_ceil_power(b: Ratio, t: Ratio, n: nat) -> bool {
    &&& t.le(b.raised(n))
    &&& n > 0 ==> b.raised((n - 1) as nat).lt(t)
}

/// `n` is the greatest count with `b^n <= t`, or zero where `t` is below one.
pub open spec fn is_floor_power(b: Ratio, t: Ratio, n: nat) -> bool {
    &&& t.lt(b.raised(n + 1))
    &&& n > 0 ==> b.raised(n).le(t)
}

/// `b^n` is the power nearest to `t` on the logarithmic scale: `t` lies from
/// `b^(n - 1/2)` up to, but not at, `b^(n + 1/2)`. Stated on squares.
pub open spec fn is_nearest_power(b: Ratio, t: Ratio, n: nat) -> bool {
    &&& t.squared().lt(b.raised(2 * n + 1))
    &&& n > 0 ==> b.raised((2 * n - 1) as nat).le(t.squared())
}

/// Whether the strategy cannot count passes of this base.
pub open spec fn degenerate(base: Ratio, strategy: ScaleStrategy) -> bool {
    base.same(Ratio::one()) && !(strategy is SinglePass)
}

/// Whether `n` is the number of passes that the strategy asks for.
pub open spec fn is_pass_count(base: Ratio, target: Ratio, strategy: ScaleStrategy, n: nat) -> bool {
    let (b, t) = enlarging(base, target);
    match strategy {
        ScaleStrategy::SinglePass => n == 1,
        ScaleStrategy::NearestPower => is_nearest_power(b, t, n),
        ScaleStrategy::CeilPower => is_ceil_power(b, t, n),
        ScaleStrategy::FloorPower => is_floor_power(b, t, n),
    }
}

/// The number of passes that the strategy asks for.
///
/// It is meant where the scales are positive and the base is not degenerate
/// for the strategy; there one count and no other meets `is_pass_count`.
pub open spec fn planned_passes(base: Ratio, target: Ratio, strategy: ScaleStrategy) -> nat {
    choose|n: nat| is_pass_count(base, target, strategy, n)
}

/// What is left for the final resize after `n` passes: the target scale
/// over the scale that the passes achieve.
pub open spec fn residual_ratio(base: Ratio, target: Ratio, n: nat) -> Ratio {
    target.over(base.raised(n))
}

/// Whether `l * p^m` has reached `r * q^m`, or passed it where `strict`.
spec fn ahead(l: nat, r: nat, p: nat, q: nat, strict: bool, m: nat) -> bool {
    if strict {
        l * power(p, m) > r * power(q, m)
    } else {
        l * power(p, m) >= r * power(q, m)
    }
}

/// The first exponent at which `left * p^m` is ahead of `right * q^m`.
fn first_ahead(left: Natural, right: Natural, p: u64, q: u64, strict: bool) -> (n: u64)
    requires
        forall|m: nat| !#[trigger] ahead(left@, right@, p as nat, q as nat, strict, m) ==> m < u64::MAX,
    ensures
        ahead(left@, right@, p as nat, q as nat, strict, n as nat),
        n > 0 ==> !ahead(left@, right@, p as nat, q as nat, strict, (n - 1) as nat),
{
    let ghost l0 = left@;
    let ghost r0 = right@;
    let mut l = left;
    let mut r = right;
    let mut n: u64 = 0;
    proof {
        assert(l0 * 1 == l0 && r0 * 1 == r0) by (nonlinear_arith);
    }
    loop
        invariant
            l0 == left@,
            r0 == right@,
            l@ == l0 * power(p as nat, n as nat),
            r@ == r0 * power(q as nat, n as nat),
            n > 0 ==> !ahead(l0, r0, p as nat, q as nat, strict, (n - 1) as nat),
            forall|m: nat| !#[trigger] ahead(l0, r0, p as nat, q as nat, strict, m) ==> m < u64::MAX,
        decreases u64::MAX - n,
    {
        let done = if strict { r.lt(&l) } else { r.le(&l) };
        if done {
            return n;
        }
        assert(!ahead(l0, r0, p as nat, q as nat, strict, n as nat));
        proof {
            let x = power(p as nat, n as nat);
            let y = power(q as nat, n as nat);
            assert((l0 * x) * p == l0 * (p * x)) by (nonlinear_arith);
            assert((r0 * y) * q == r0 * (q * y)) by (nonlinear_arith);
        }
        l = l.scaled(p);
        r = r.scaled(q);
        n += 1;
    }
}

/// The least count of passes that reaches the target, for a base above one.
fn ceil_power(bn: u32, bd: u32, tn: u32, td: u32) -> (n: u64)
    requires
        1 <= bd < bn,
        tn >= 1,
        td >= 1,
    ensures
        is_ceil_power(
            Ratio { num: bn as nat, den: bd as nat },
            Ratio { num: tn as nat, den: td as nat },
            n as nat,
        ),
{
    let left = Natural::from_u64(td as u64);
    let right = Natural::from_u64(tn as u64);
    proof {
        assert forall|m: nat| !#[trigger] ahead(td as nat, tn as nat, bn as nat, bd as nat, false, m)
            implies m < u64::MAX by {
            lemma_exponent_bounded(bn as nat, bd as nat, td as nat, tn as nat, m);
            assert(tn * bd < u64::MAX) by (nonlinear_arith)
                requires
                    tn <= 0xffff_ffff,
                    bd <= 0xffff_ffff,
            ;
        }
    }
    let n = first_ahead(left, right, bn as u64, bd as u64, false);
    proof {
        let x = power(bn as nat, n as nat);
        let y = power(bd as nat, n as nat);
        assert(tn * y <= x * td) by (nonlinear_arith)
            requires
                td * x >= tn * y,
        ;
        if n > 0 {
            let x1 = power(bn as nat, (n - 1) as nat);
            let y1 = power(bd as nat, (n - 1) as nat);
            assert(x1 * td < tn * y1) by (nonlinear_arith)
                requires
                    !(td * x1 >= tn * y1),
            ;
        }
    }
    n
}

/// The greatest count of passes that stays within the target, for a base
/// above one; zero where the target is below one.
fn floor_power(bn: u32, bd: u32, tn: u32, td: u32) -> (n: u64)
    requires
        1 <= bd < bn,
        tn >= 1,
        td >= 1,
    ensures
        is_floor_power(
            Ratio { num: bn as nat, den: bd as nat },
            Ratio { num: tn as nat, den: td as nat },
            n as nat,
        ),
{
    proof {
        assert(power(bn as nat, 1) == bn && power(bd as nat, 1) == bd) by {
            reveal_with_fuel(power, 2);
            assert(bn * 1 == bn && bd * 1 == bd) by (nonlinear_arith);
        }
    }
    if tn < td {
        assert(tn * bd < bn * td) by (nonlinear_arith)
            requires
                tn < td,
                1 <= bd < bn,
        ;
        return 0;
    }
    assert(td * bn <= u64::MAX && tn * bd <= u64::MAX) by (nonlinear_arith)
        requires
            td <= 0xffff_ffff,
            bn <= 0xffff_ffff,
            tn <= 0xffff_ffff,
            bd <= 0xffff_ffff,
    ;
    let left = Natural::from_u64(td as u64 * bn as u64);
    let right = Natural::from_u64(tn as u64 * bd as u64);
    proof {
        assert forall|m: nat| !#[trigger] ahead(left@, right@, bn as nat, bd as nat, true, m)
            implies m < u64::MAX by {
            let x = power(bn as nat, m);
            let y = power(bd as nat, m);
            assert(td * (bn * x) <= tn * (bd * y)) by (nonlinear_arith)
                requires
                    !((td * bn) * x > (tn * bd) * y),
            ;
            lemma_exponent_bounded(bn as nat, bd as nat, td as nat, tn as nat, m + 1);
            assert(tn * bd < u64::MAX) by (nonlinear_arith)
                requires
                    tn <= 0xffff_ffff,
                    bd <= 0xffff_ffff,
            ;
        }
    }
    let n = first_ahead(left, right, bn as u64, bd as u64, true);
    proof {
        let x = power(bn as nat, n as nat);
        let y = power(bd as nat, n as nat);
        assert(tn * (bd * y) < (bn * x) * td) by (nonlinear_arith)
            requires
                (td * bn) * x > (tn * bd) * y,
        ;
        if n > 0 {
            let x1 = power(bn as nat, (n - 1) as nat);
            let y1 = power(bd as nat, (n - 1) as nat);
            assert((bn * x1) * td <= tn * (bd * y1)) by (nonlinear_arith)
                requires
                    !((td * bn) * x1 > (tn * bd) * y1),
            ;
        }
    }
    n
}

/// The count of passes whose scale is nearest to the target, for a base
/// above one.
fn nearest_power(bn: u32, bd: u32, tn: u32, td: u32) -> (n: u64)
    requires
        1 <= bd < bn,
        tn >= 1,
        td >= 1,
    ensures
        is_nearest_power(
            Ratio { num: bn as nat, den: bd as nat },
            Ratio { num: tn as nat, den: td as nat },
            n as nat,
        ),
{
    assert(td * td <= u64::MAX && tn * tn <= u64::MAX && bn * bn <= u64::MAX && bd * bd <= u64::MAX
        && 1 <= bd * bd < bn * bn) by (nonlinear_arith)
        requires
            td <= 0xffff_ffff,
            bn <= 0xffff_ffff,
            tn <= 0xffff_ffff,
            bd <= 0xffff_ffff,
            1 <= bd < bn,
    ;
    let left = Natural::from_u64(td as u64 * td as u64).scaled(bn as u64);
    let right = Natural::from_u64(tn as u64 * tn as u64).scaled(bd as u64);
    let p: u64 = bn as u64 * bn as u64;
    let q: u64 = bd as u64 * bd as u64;
    proof {
        assert forall|m: nat| !#[trigger] ahead(left@, right@, p as nat, q as nat, true, m)
            implies m < u64::MAX by {
            lemma_power_of_product(bn as nat, bn as nat, m);
            lemma_power_of_product(bd as nat, bd as nat, m);
            lemma_power_positive(bn as nat, m);
            lemma_power_positive(bd as nat, m);
            let x = power(bn as nat, m);
            let y = power(bd as nat, m);
            assert(td * x <= tn * y) by (nonlinear_arith)
                requires
                    !(((td * td) * bn) * (x * x) > ((tn * tn) * bd) * (y * y)),
                    1 <= bd < bn,
                    td >= 1,
                    x >= 1,
                    y >= 1,
            ;
            lemma_exponent_bounded(bn as nat, bd as nat, td as nat, tn as nat, m);
            assert(tn * bd < u64::MAX) by (nonlinear_arith)
                requires
                    tn <= 0xffff_ffff,
                    bd <= 0xffff_ffff,
            ;
        }
    }
    let n = first_ahead(left, right, p, q, true);
    proof {
        lemma_power_odd(bn as nat, n as nat);
        lemma_power_odd(bd as nat, n as nat);
        let x = power(p as nat, n as nat);
        let y = power(q as nat, n as nat);
        assert((tn * tn) * (bd * y) < (bn * x) * (td * td)) by (nonlinear_arith)
            requires
                ((td * td) * bn) * x > ((tn * tn) * bd) * y,
        ;
        if n > 0 {
            let k = (n - 1) as nat;
            lemma_power_odd(bn as nat, k);
            lemma_power_odd(bd as nat, k);
            assert(2 * k + 1 == 2 * n - 1);
            let x1 = power(p as nat, k);
            let y1 = power(q as nat, k);
            assert((bn * x1) * (td * td) <= (tn * tn) * (bd * y1)) by (nonlinear_arith)
                requires
                    !(((td * td) * bn) * x1 > ((tn * tn) * bd) * y1),
            ;
        }
    }
    n
}

/// The number of model passes that the strategy asks for.
///
/// A scale that is not positive is rejected. So is a base of one under a
/// strategy that counts its powers: `SinglePass` alone accepts it.
pub fn pass_count(base: Scale, target: Scale, strategy: ScaleStrategy) -> (r: Result<u64, PlanError>)
    ensures
        r is Ok <==> base.valid() && target.valid() && !degenerate(base@, strategy),
        r == Err::<u64, PlanError>(PlanError::InvalidScale) <==> !(base.valid() && target.valid()),
        r == Err::<u64, PlanError>(PlanError::DegenerateBase) <==> base.valid() && target.valid()
            && degenerate(base@, strategy),
        r matches Ok(n) ==> is_pass_count(base@, target@, strategy, n as nat) && n
            == planned_passes(base@, target@, strategy),
{
    if !base.is_valid() || !target.is_valid() {
        return Err(PlanError::InvalidScale);
    }
    let one = base.is_one();
    let n = if let ScaleStrategy::SinglePass = strategy {
        1
    } else {
        if one {
            return Err(PlanError::DegenerateBase);
        }
        let enlarges = base.num > base.den;
        let (bn, bd, tn, td) = if enlarges {
            (base.num, base.den, target.num, target.den)
        } else {
            (base.den, base.num, target.den, target.num)
        };
        match strategy {
            ScaleStrategy::NearestPower => nearest_power(bn, bd, tn, td),
            ScaleStrategy::CeilPower => ceil_power(bn, bd, tn, td),
            _ => floor_power(bn, bd, tn, td),
        }
    };
    proof {
        assert(is_pass_count(base@, target@, strategy, n as nat));
        lemma_pass_count_unique(
            base@,
            target@,
            strategy,
            n as nat,
            planned_passes(base@, target@, strategy),
        );
    }
    Ok(n)
}

/// `b` to the power `n`.
fn raise(b: u32, n: u64) -> (r: Natural)
    ensures
        r@ == power(b as nat, n as nat),
{
    let mut r = Natural::from_u64(1);
    let mut i: u64 = 0;
    while i < n
        invariant
            i <= n,
            r@ == power(b as nat, i as nat),
        decreases n - i,
    {
        proof {
            let x = power(b as nat, i as nat);
            assert(x * b == b * x) by (nonlinear_arith);
        }
        r = r.scaled(b as u64);
        i += 1;
    }
    r
}

/// What a plan is: the number of passes, the scale that they achieve and
/// what is left for the final resize.
pub struct PlanView {
    pub passes: nat,
    pub achieved: Ratio,
    pub residual: Ratio,
}

/// The plan of one run. Both of its scales are positive.
pub struct Plan {
    passes: u64,
    achieved_num: Natural,
    achieved_den: Natural,
    residual_num: Natural,
    residual_den: Natural,
}

impl View for Plan {
    type V = PlanView;

    closed spec fn view(&self) -> PlanView {
        PlanView {
            passes: self.passes as nat,
            achieved: Ratio { num: self.achieved_num@, den: self.achieved_den@ },
            residual: Ratio { num: self.residual_num@, den: self.residual_den@ },
        }
    }
}

impl Plan {
    #[verifier::type_invariant]
    spec fn well_formed(self) -> bool {
        self@.achieved.positive() && self@.residual.positive()
    }

    /// The number of model passes.
    pub fn passes(&self) -> (r: u64)
        ensures
            r == self@.passes,
    {
        self.passes
    }

    /// The scale after the passes, as numerator and denominator.
    pub fn achieved(&self) -> (r: (&Natural, &Natural))
        ensures
            r.0@ == self@.achieved.num,
            r.1@ == self@.achieved.den,
            self@.achieved.positive(),
    {
        proof {
            use_type_invariant(self);
        }
        (&self.achieved_num, &self.achieved_den)
    }

    /// The ratio left for the final resize, as numerator and denominator.
    pub fn residual(&self) -> (r: (&Natural, &Natural))
        ensures
            r.0@ == self@.residual.num,
            r.1@ == self@.residual.den,
            self@.residual.positive(),
    {
        proof {
            use_type_invariant(self);
        }
        (&self.residual_num, &self.residual_den)
    }
}

/// The plan of a run from `base` to `target`: the passes that the strategy
/// asks for, the scale `base^passes` that they achieve, and the target over
/// that scale.
pub fn plan(base: Scale, target: Scale, strategy: ScaleStrategy) -> (r: Result<Plan, PlanError>)
    ensures
        r is Ok <==> base.valid() && target.valid() && !degenerate(base@, strategy),
        r == Err::<Plan, PlanError>(PlanError::InvalidScale) <==> !(base.valid() && target.valid()),
        r == Err::<Plan, PlanError>(PlanError::DegenerateBase) <==> base.valid() && target.valid()
            && degenerate(base@, strategy),
        r matches Ok(p) ==> {
            &&& is_pass_count(base@, target@, strategy, p@.passes)
            &&& p@.passes == planned_passes(base@, target@, strategy)
            &&& p@.achieved == base@.raised(p@.passes)
            &&& p@.residual == residual_ratio(base@, target@, p@.passes)
        },
{
    let passes = match pass_count(base, target, strategy) {
        Ok(n) => n,
        Err(e) => {
            return Err(e);
        },
    };
    let achieved_num = raise(base.num, passes);
    let achieved_den = raise(base.den, passes);
    let residual_num = achieved_den.scaled(target.num as u64);
    let residual_den = achieved_num.scaled(target.den as u64);
    proof {
        let x = power(base.num as nat, passes as nat);
        let y = power(base.den as nat, passes as nat);
        lemma_power_positive(base.num as nat, passes as nat);
        lemma_power_positive(base.den as nat, passes as nat);
        assert(y * target.num == target.num * y && x * target.den == target.den * x && target.num
            * y > 0 && target.den * x > 0) by (nonlinear_arith)
            requires
                x > 0,
                y > 0,
                target.num > 0,
                target.den > 0,
        ;
    }
    Ok(Plan { passes, achieved_num, achieved_den, residual_num, residual_den })
}

} // verus!
