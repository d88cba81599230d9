//! Natural numbers of any size.
//!
//! Powers of a scale outgrow every machine integer after a few passes, and the
//! planner compares them exactly. A `Natural` is a little-endian vector of
//! 32-bit limbs without a zero limb at the top; its view is the number itself.

use vstd::prelude::*;

verus! {

/// One more than the largest limb.
pub const RADIX: u64 = 4294967296;

/// `RADIX` to the `n`: the weight of the limb at index `n`.
pub open spec fn weight(n: nat) -> nat
    decreases n,
{
    if n == 0 {
        1
    } else {
        4294967296 * weight((n - 1) as nat)
    }
}

/// The number that a little-endian sequence of limbs stands for.
pub open spec fn limbs_value(limbs: Seq<u32>) -> nat
    decreases limbs.len(),
{
    if limbs.len() == 0 {
        0
    } else {
        limbs_value(limbs.drop_last()) + limbs.last() as nat * weight((limbs.len() - 1) as nat)
    }
}

/// Every weight is at least one.
pub proof fn lemma_weight_positive(n: nat)
    ensures
        weight(n) >= 1,
    decreases n,
{
    if n > 0 {
        lemma_weight_positive((n - 1) as nat);
    }
}

/// A higher limb weighs at least as much as a lower one.
pub proof fn lemma_weight_monotone(a: nat, b: nat)
    requires
        a <= b,
    ensures
        weight(a) <= weight(b),
    decreases b,
{
    if a < b {
        lemma_weight_monotone(a, (b - 1) as nat);
        lemma_weight_positive((b - 1) as nat);
    }
}

/// Appending a limb adds it at the weight of its index.
pub proof fn lemma_value_push(limbs: Seq<u32>, top: u32)
    ensures
        limbs_value(limbs.push(top)) == limbs_value(limbs) + top as nat * weight(limbs.len()),
{
    assert(limbs.push(top).drop_last() =~= limbs);
}

/// A sequence of `n` limbs stands for a number below `RADIX` to the `n`.
pub proof fn lemma_value_below_weight(limbs: Seq<u32>)
    ensures
        limbs_value(limbs) < weight(limbs.len()),
    decreases limbs.len(),
{
    if limbs.len() > 0 {
        lemma_value_below_weight(limbs.drop_last());
        let w = weight((limbs.len() - 1) as nat);
        let top = limbs.last() as nat;
        assert(top * w <= 4294967295 * w) by (nonlinear_arith)
            requires
                top <= 4294967295,
        ;
    }
}

/// With a nonzero top limb the number reaches the weight of that limb.
pub proof fn lemma_value_reaches_weight(limbs: Seq<u32>)
    requires
        limbs.len() > 0,
        limbs.last() != 0,
    ensures
        limbs_value(limbs) >= weight((limbs.len() - 1) as nat),
{
    let w = weight((limbs.len() - 1) as nat);
    let top = limbs.last() as nat;
    assert(top * w >= w) by (nonlinear_arith)
        requires
            top >= 1,
    ;
}

/// Two sequences of one length that agree above index `i` are ordered by
/// their limbs at `i`.
pub proof fn lemma_first_difference(a: Seq<u32>, b: Seq<u32>, i: int)
    requires
        a.len() == b.len(),
        0 <= i < a.len(),
        forall|j: int| i < j < a.len() ==> a[j] == b[j],
        a[i] < b[i],
    ensures
        limbs_value(a) < limbs_value(b),
    decreases a.len(),
{
    let w = weight((a.len() - 1) as nat);
    if i == a.len() - 1 {
        lemma_value_below_weight(a.drop_last());
        let x = a[i] as nat;
        let y = b[i] as nat;
        assert(x * w + w <= y * w) by (nonlinear_arith)
            requires
                x + 1 <= y,
        ;
    } else {
        lemma_first_difference(a.drop_last(), b.drop_last(), i);
    }
}

/// What at most two limbs stand for, and the weight of the third.
pub proof fn lemma_value_short(limbs: Seq<u32>)
    ensures
        limbs.len() == 0 ==> limbs_value(limbs) == 0,
        limbs.len() == 1 ==> limbs_value(limbs) == limbs[0],
        limbs.len() == 2 ==> limbs_value(limbs) == limbs[0] + limbs[1] * 4294967296,
        weight(2) == 4294967296 * 4294967296,
{
    reveal_with_fuel(weight, 3);
    let none = Seq::<u32>::empty();
    assert(limbs_value(none) == 0);
    assert(weight(0) == 1 && weight(1) == 4294967296);
    if limbs.len() >= 1 {
        let low = limbs[0] as nat;
        lemma_value_push(none, limbs[0]);
        assert(low * weight(0) == low) by (nonlinear_arith)
            requires
                weight(0) == 1,
        ;
        if limbs.len() == 1 {
            assert(limbs =~= none.push(limbs[0]));
        } else if limbs.len() == 2 {
            let high = limbs[1] as nat;
            lemma_value_push(none.push(limbs[0]), limbs[1]);
            assert(high * weight(1) == high * 4294967296) by (nonlinear_arith)
                requires
                    weight(1) == 4294967296,
            ;
            assert(limbs =~= none.push(limbs[0]).push(limbs[1]));
        }
    }
}

/// `num / den` rounded to the nearest whole number, a half going upward.
pub open spec fn rounded_quotient(num: nat, den: nat) -> nat
    recommends
        den > 0,
{
    (2 * num + den) / (2 * den)
}

/// A whole number `q` is at most the rounded quotient exactly when
/// `q - 1/2` is at most the quotient itself.
pub proof fn lemma_rounded_quotient_reaches(num: nat, den: nat, q: int)
    requires
        den > 0,
    ensures
        q <= rounded_quotient(num, den) <==> (2 * q - 1) * den <= 2 * num,
{
    let x = (2 * num + den) as int;
    let y = (2 * den) as int;
    let whole = x / y;
    let rest = x % y;
    vstd::arithmetic::div_mod::lemma_fundamental_div_mod(x, y);
    vstd::arithmetic::div_mod::lemma_mod_bound(x, y);
    assert(q <= whole <==> (2 * q - 1) * den <= 2 * num) by (nonlinear_arith)
        requires
            x == y * whole + rest,
            0 <= rest < y,
            x == 2 * num + den,
            y == 2 * den,
            den > 0,
    ;
}

/// A natural number without an upper bound.
pub struct Natural {
    limbs: Vec<u32>,
}

impl View for Natural {
    type V = nat;

    closed spec fn view(&self) -> nat {
        limbs_value(self.limbs@)
    }
}

impl Natural {
    #[verifier::type_invariant]
    spec fn canonical(self) -> bool {
        self.limbs@.len() > 0 ==> self.limbs@.last() != 0
    }

    /// The number `x`.
    pub fn from_u64(x: u64) -> (r: Natural)
        ensures
            r@ == x,
    {
        let mut limbs: Vec<u32> = Vec::new();
        let low: u32 = (x % RADIX) as u32;
        let high: u32 = (x / RADIX) as u32;
        if high != 0 {
            limbs.push(low);
            limbs.push(high);
        } else if low != 0 {
            limbs.push(low);
        }
        proof {
            lemma_value_short(limbs@);
        }
        Natural { limbs }
    }

    /// The number as a `u64`, where it fits.
    pub fn to_u64(&self) -> (r: Option<u64>)
        ensures
            r == (if self@ <= u64::MAX { Some(self@ as u64) } else { None::<u64> }),
    {
        proof {
            use_type_invariant(self);
            lemma_value_short(self.limbs@);
        }
        let n = self.limbs.len();
        if n == 0 {
            Some(0)
        } else if n == 1 {
            Some(self.limbs[0] as u64)
        } else if n == 2 {
            Some(self.limbs[0] as u64 + self.limbs[1] as u64 * RADIX)
        } else {
            proof {
                lemma_value_reaches_weight(self.limbs@);
                lemma_weight_monotone(2, (n - 1) as nat);
            }
            None
        }
    }

    /// The product of the number and `m`.
    pub fn scaled(&self, m: u64) -> (r: Natural)
        ensures
            r@ == self@ * m,
    {
        proof {
            use_type_invariant(self);
        }
        let n = self.limbs.len();
        let mut out: Vec<u32> = Vec::new();
        if m == 0 {
            assert(self@ * 0 == 0) by (nonlinear_arith);
            return Natural { limbs: out };
        }
        let mut carry: u128 = 0;
        let mut i: usize = 0;
        proof {
            assert(self.limbs@.take(0) =~= Seq::<u32>::empty());
            assert(0 * m == 0) by (nonlinear_arith);
        }
        while i < n
            invariant
                n == self.limbs.len(),
                i <= n,
                out.len() == i,
                m > 0,
                carry < m,
                limbs_value(out@) + carry * weight(i as nat) == limbs_value(self.limbs@.take(i as int))
                    * m,
                i > 0 && carry == 0 && self.limbs[i - 1] != 0 ==> out[i - 1] != 0,
            decreases n - i,
        {
            let limb: u32 = self.limbs[i];
            assert(limb as u128 * m as u128 + carry < 0x1_0000_0000 * m as u128) by (nonlinear_arith)
                requires
                    limb <= 0xffff_ffff,
                    carry < m,
            ;
            let product: u128 = limb as u128 * m as u128 + carry;
            let low: u32 = (product % 4294967296) as u32;
            let high: u128 = product / 4294967296;
            proof {
                let w = weight(i as nat);
                let before = limbs_value(out@);
                let part = limbs_value(self.limbs@.take(i as int));
                lemma_value_push(out@, low);
                lemma_value_push(self.limbs@.take(i as int), limb);
                assert(self.limbs@.take(i as int + 1) =~= self.limbs@.take(i as int).push(limb));
                assert(weight((i + 1) as nat) == 4294967296 * w);
                assert(before + low as nat * w + high * (4294967296 * w) == (part + limb as nat * w)
                    * m) by (nonlinear_arith)
                    requires
                        before + carry * w == part * m,
                        low as nat + 4294967296 * high == limb as nat * m + carry,
                ;
                assert(limb != 0 && high == 0 ==> low != 0) by (nonlinear_arith)
                    requires
                        low as nat + 4294967296 * high == limb as nat * m + carry,
                        m > 0,
                ;
            }
            out.push(low);
            carry = high;
            i += 1;
        }
        assert(self.limbs@.take(n as int) =~= self.limbs@);
        while carry != 0
            invariant
                limbs_value(out@) + carry * weight(out.len() as nat) == self@ * m,
                carry == 0 && out.len() > 0 && (out.len() > n || self.limbs[n - 1] != 0)
                    ==> out[out.len() - 1] != 0,
                out.len() >= n,
                n == self.limbs.len(),
            decreases carry,
        {
            let low: u32 = (carry % 4294967296) as u32;
            let high: u128 = carry / 4294967296;
            proof {
                let w = weight(out.len() as nat);
                let before = limbs_value(out@);
                lemma_value_push(out@, low);
                assert(weight((out.len() + 1) as nat) == 4294967296 * w);
                assert(before + low as nat * w + high * (4294967296 * w) == before + carry * w)
                    by (nonlinear_arith)
                    requires
                        low as nat + 4294967296 * high == carry,
                ;
            }
            out.push(low);
            carry = high;
        }
        assert(0 * weight(out.len() as nat) == 0) by (nonlinear_arith);
        Natural { limbs: out }
    }

    /// Whether the number is smaller than `other`.
    pub fn lt(&self, other: &Natural) -> (r: bool)
        ensures
            r == (self@ < other@),
    {
        proof {
            use_type_invariant(self);
            use_type_invariant(other);
        }
        let n = self.limbs.len();
        let k = other.limbs.len();
        if n != k {
            proof {
                lemma_value_below_weight(self.limbs@);
                lemma_value_below_weight(other.limbs@);
                if n < k {
                    lemma_value_reaches_weight(other.limbs@);
                    lemma_weight_monotone(n as nat, (k - 1) as nat);
                } else {
                    lemma_value_reaches_weight(self.limbs@);
                    lemma_weight_monotone(k as nat, (n - 1) as nat);
                }
            }
            return n < k;
        }
        let mut i: usize = n;
        while i > 0
            invariant
                i <= n,
                n == self.limbs.len(),
                n == other.limbs.len(),
                forall|j: int| i <= j < n ==> self.limbs[j] == other.limbs[j],
            decreases i,
        {
            i -= 1;
            let a: u32 = self.limbs[i];
            let b: u32 = other.limbs[i];
            if a < b {
                proof {
                    lemma_first_difference(self.limbs@, other.limbs@, i as int);
                }
                return true;
            }
            if b < a {
                proof {
                    lemma_first_difference(other.limbs@, self.limbs@, i as int);
                }
                return false;
            }
        }
        assert(self.limbs@ =~= other.limbs@);
        false
    }

    /// Whether the number is zero.
    pub fn is_zero(&self) -> (r: bool)
        ensures
            r == (self@ == 0),
    {
        proof {
            use_type_invariant(self);
            if self.limbs@.len() > 0 {
                lemma_value_reaches_weight(self.limbs@);
                lemma_weight_positive((self.limbs@.len() - 1) as nat);
            }
        }
        self.limbs.len() == 0
    }

    /// `self / den` rounded to the nearest whole number, a half going
    /// upward, where `den` is not zero and the result is at most `limit`.
    pub fn rounded_div(&self, den: &Natural, limit: u32) -> (r: Option<u32>)
        ensures
            r == (if den@ > 0 && rounded_quotient(self@, den@) <= limit {
                Some(rounded_quotient(self@, den@) as u32)
            } else {
                None::<u32>
            }),
    {
        if den.is_zero() {
            return None;
        }
        let doubled = self.scaled(2);
        let mut low: u64 = 0;
        let mut high: u64 = limit as u64 + 1;
        let past = den.scaled(2 * high - 1);
        proof {
            lemma_rounded_quotient_reaches(self@, den@, high as int);
            lemma_rounded_quotient_reaches(self@, den@, 0);
        }
        if past.le(&doubled) {
            return None;
        }
        while high - low > 1
            invariant
                den@ > 0,
                doubled@ == self@ * 2,
                low < high <= limit + 1,
                low <= rounded_quotient(self@, den@) < high,
            decreases high - low,
        {
            let middle: u64 = low + (high - low) / 2;
            let reach = den.scaled(2 * middle - 1);
            proof {
                lemma_rounded_quotient_reaches(self@, den@, middle as int);
            }
            if reach.le(&doubled) {
                low = middle;
            } else {
                high = middle;
            }
        }
        Some(low as u32)
    }

    /// Whether the number equals `other`.
    pub fn same(&self, other: &Natural) -> (r: bool)
        ensures
            r == (self@ == other@),
    {
        !self.lt(other) && !other.lt(self)
    }

    /// Whether the number is at most `other`.
    pub fn le(&self, other: &Natural) -> (r: bool)
        ensures
            r == (self@ <= other@),
    {
        !other.lt(self)
    }
}

} // verus!
