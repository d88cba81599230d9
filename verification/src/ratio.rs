//! The mathematics of scales: positive fractions, their powers and their order.
//!
//! Everything here is ghost: definitions and their lemmas. A `Ratio` is the
//! model of a scale factor; orders are stated by cross-multiplication, so
//! that no division and no logarithm is needed to say which of two powers is
//! larger.

use vstd::prelude::*;
use crate::natural::rounded_quotient;

verus! {

/// `b` multiplied by itself `e` times.
pub open spec fn power(b: nat, e: nat) -> nat
    decreases e,
{
    if e == 0 {
        1
    } else {
        b * power(b, (e - 1) as nat)
    }
}

/// A power of a positive number is positive.
pub proof fn lemma_power_positive(b: nat, e: nat)
    requires
        b > 0,
    ensures
        power(b, e) > 0,
    decreases e,
{
    if e > 0 {
        lemma_power_positive(b, (e - 1) as nat);
        let rest = power(b, (e - 1) as nat);
        assert(b * rest > 0) by (nonlinear_arith)
            requires
                b > 0,
                rest > 0,
        ;
    }
}

/// Exponents add where powers of one base are multiplied.
pub proof fn lemma_power_adds(b: nat, e1: nat, e2: nat)
    ensures
        power(b, e1 + e2) == power(b, e1) * power(b, e2),
    decreases e1,
{
    let y = power(b, e2);
    if e1 == 0 {
        assert(1 * y == y) by (nonlinear_arith);
    } else {
        lemma_power_adds(b, (e1 - 1) as nat, e2);
        let x = power(b, (e1 - 1) as nat);
        assert((e1 + e2 - 1) as nat == (e1 - 1) as nat + e2);
        assert(b * (x * y) == (b * x) * y) by (nonlinear_arith);
    }
}

/// The power of a product is the product of the powers.
pub proof fn lemma_power_of_product(a: nat, b: nat, e: nat)
    ensures
        power(a * b, e) == power(a, e) * power(b, e),
    decreases e,
{
    if e == 0 {
        assert(1 * 1 == 1nat) by (nonlinear_arith);
    } else {
        lemma_power_of_product(a, b, (e - 1) as nat);
        let x = power(a, (e - 1) as nat);
        let y = power(b, (e - 1) as nat);
        assert((a * b) * (x * y) == (a * x) * (b * y)) by (nonlinear_arith);
    }
}

/// The odd power `2e + 1` of `b`, written over the power `e` of its square.
pub proof fn lemma_power_odd(b: nat, e: nat)
    ensures
        power(b, 2 * e + 1) == b * power(b * b, e),
{
    lemma_power_of_product(b, b, e);
    lemma_power_adds(b, e, e);
    assert(2 * e == e + e);
}

/// A larger base gains on a smaller one with every step: for `q < p`,
/// `p^e >= q^e + e * q^(e-1)`.
pub proof fn lemma_power_gains(p: nat, q: nat, e: nat)
    requires
        q < p,
        e >= 1,
    ensures
        power(p, e) >= power(q, e) + e * power(q, (e - 1) as nat),
    decreases e,
{
    if e == 1 {
        assert(power(p, 1) == p * power(p, 0));
        assert(power(q, 1) == q * power(q, 0));
        assert(p * 1 == p && q * 1 == q && 1 * 1 == 1nat) by (nonlinear_arith);
    } else {
        lemma_power_gains(p, q, (e - 1) as nat);
        let big = power(p, (e - 1) as nat);
        let small = power(q, (e - 1) as nat);
        let smaller = power(q, (e - 2) as nat);
        assert(small == q * smaller);
        assert(p * big >= q * small + e * small) by (nonlinear_arith)
            requires
                big >= small + (e - 1) * smaller,
                small == q * smaller,
                p >= q + 1,
                e >= 2,
        ;
    }
}

/// While a power of the larger base, weighted by `l`, has not passed the
/// same power of the smaller one, weighted by `r`, the exponent is small.
pub proof fn lemma_exponent_bounded(p: nat, q: nat, l: nat, r: nat, e: nat)
    requires
        1 <= q < p,
        l >= 1,
        l * power(p, e) <= r * power(q, e),
    ensures
        e * l < r * q,
        e < r * q,
{
    lemma_power_positive(p, e);
    lemma_power_positive(q, e);
    let big = power(p, e);
    let small = power(q, e);
    if e == 0 {
        assert(e * l < r * q) by (nonlinear_arith)
            requires
                e == 0,
                l * big <= r * small,
                big == 1,
                small == 1,
                l >= 1,
                q >= 1,
        ;
    } else {
        lemma_power_gains(p, q, e);
        let smaller = power(q, (e - 1) as nat);
        lemma_power_positive(q, (e - 1) as nat);
        assert(l * (q * smaller + e * smaller) <= r * (q * smaller)) by (nonlinear_arith)
            requires
                l * big <= r * small,
                big >= small + e * smaller,
                small == q * smaller,
        ;
        assert((l * q + l * e) * smaller <= (r * q) * smaller) by (nonlinear_arith)
            requires
                l * (q * smaller + e * smaller) <= r * (q * smaller),
        ;
        assert(l * q + l * e <= r * q) by (nonlinear_arith)
            requires
                (l * q + l * e) * smaller <= (r * q) * smaller,
                smaller > 0,
        ;
        assert(e * l < r * q) by (nonlinear_arith)
            requires
                l * q + l * e <= r * q,
                l >= 1,
                q >= 1,
        ;
    }
    assert(e <= e * l) by (nonlinear_arith)
        requires
            l >= 1,
    ;
}

/// A positive fraction: the model of a scale factor.
pub struct Ratio {
    pub num: nat,
    pub den: nat,
}

impl Ratio {
    /// The fraction one.
    pub open spec fn one() -> Ratio {
        Ratio { num: 1, den: 1 }
    }

    /// Whether the fraction is a positive number.
    pub open spec fn positive(self) -> bool {
        self.num > 0 && self.den > 0
    }

    /// Whether the two fractions are the same number.
    pub open spec fn same(self, other: Ratio) -> bool {
        self.num * other.den == other.num * self.den
    }

    /// Whether the fraction is at most `other`.
    pub open spec fn le(self, other: Ratio) -> bool {
        self.num * other.den <= other.num * self.den
    }

    /// Whether the fraction is below `other`.
    pub open spec fn lt(self, other: Ratio) -> bool {
        self.num * other.den < other.num * self.den
    }

    /// The fraction to the power `e`.
    pub open spec fn raised(self, e: nat) -> Ratio {
        Ratio { num: power(self.num, e), den: power(self.den, e) }
    }

    /// The fraction times itself.
    pub open spec fn squared(self) -> Ratio {
        Ratio { num: self.num * self.num, den: self.den * self.den }
    }

    /// One divided by the fraction.
    pub open spec fn inverse(self) -> Ratio {
        Ratio { num: self.den, den: self.num }
    }

    /// The fraction divided by `other`.
    pub open spec fn over(self, other: Ratio) -> Ratio {
        Ratio { num: self.num * other.den, den: self.den * other.num }
    }

    /// `count` times the fraction, rounded to the nearest whole number, a
    /// half going upward.
    pub open spec fn rounded_of(self, count: nat) -> nat {
        rounded_quotient(count * self.num, self.den)
    }
}

/// A power of a positive fraction is positive.
pub proof fn lemma_raised_positive(b: Ratio, e: nat)
    requires
        b.positive(),
    ensures
        b.raised(e).positive(),
{
    lemma_power_positive(b.num, e);
    lemma_power_positive(b.den, e);
}

/// The order of fractions is transitive, strictly so where one step is strict.
pub proof fn lemma_order_chain(a: Ratio, b: Ratio, c: Ratio)
    requires
        a.positive(),
        b.positive(),
        c.positive(),
    ensures
        a.le(b) && b.le(c) ==> a.le(c),
        a.lt(b) && b.le(c) ==> a.lt(c),
        a.le(b) && b.lt(c) ==> a.lt(c),
{
    let (an, ad) = (a.num as int, a.den as int);
    let (bn, bd) = (b.num as int, b.den as int);
    let (cn, cd) = (c.num as int, c.den as int);
    assert((an * bd) * cd == (an * cd) * bd) by (nonlinear_arith);
    assert((bn * ad) * cd == (bn * cd) * ad) by (nonlinear_arith);
    assert((cn * bd) * ad == (cn * ad) * bd) by (nonlinear_arith);
    if a.le(b) && b.le(c) {
        assert((an * bd) * cd <= (bn * ad) * cd) by (nonlinear_arith)
            requires
                an * bd <= bn * ad,
                cd > 0,
        ;
        assert((bn * cd) * ad <= (cn * bd) * ad) by (nonlinear_arith)
            requires
                bn * cd <= cn * bd,
                ad > 0,
        ;
        assert(an * cd <= cn * ad) by (nonlinear_arith)
            requires
                (an * cd) * bd <= (cn * ad) * bd,
                bd > 0,
        ;
    }
    if a.lt(b) && b.le(c) {
        assert((an * bd) * cd < (bn * ad) * cd) by (nonlinear_arith)
            requires
                an * bd < bn * ad,
                cd > 0,
        ;
        assert((bn * cd) * ad <= (cn * bd) * ad) by (nonlinear_arith)
            requires
                bn * cd <= cn * bd,
                ad > 0,
        ;
        assert(an * cd < cn * ad) by (nonlinear_arith)
            requires
                (an * cd) * bd < (cn * ad) * bd,
                bd > 0,
        ;
    }
    if a.le(b) && b.lt(c) {
        assert((an * bd) * cd <= (bn * ad) * cd) by (nonlinear_arith)
            requires
                an * bd <= bn * ad,
                cd > 0,
        ;
        assert((bn * cd) * ad < (cn * bd) * ad) by (nonlinear_arith)
            requires
                bn * cd < cn * bd,
                ad > 0,
        ;
        assert(an * cd < cn * ad) by (nonlinear_arith)
            requires
                (an * cd) * bd < (cn * ad) * bd,
                bd > 0,
        ;
    }
}

/// The powers of a fraction above one grow with the exponent.
pub proof fn lemma_raised_grows(b: Ratio, m: nat, n: nat)
    requires
        b.positive(),
        Ratio::one().lt(b),
        m <= n,
    ensures
        b.raised(m).le(b.raised(n)),
        m < n ==> b.raised(m).lt(b.raised(n)),
    decreases n - m,
{
    lemma_raised_positive(b, m);
    lemma_raised_positive(b, n);
    assert(b.den < b.num) by (nonlinear_arith)
        requires
            1 * b.den < b.num * 1,
    ;
    if m < n {
        let k = (n - 1) as nat;
        lemma_raised_grows(b, m, k);
        lemma_raised_positive(b, k);
        let x = power(b.num, k);
        let y = power(b.den, k);
        assert(x * (b.den * y) < (b.num * x) * y) by (nonlinear_arith)
            requires
                b.den < b.num,
                x > 0,
                y > 0,
        ;
        assert(b.raised(k).lt(b.raised(n)));
        lemma_order_chain(b.raised(m), b.raised(k), b.raised(n));
    }
}

} // verus!
