//! What holds of every plan and of every run.

use vstd::prelude::*;
use crate::image::Image;
use crate::models::SuperResolution;
use crate::pipeline::{
    concluded, resize_decision, run_outcome, PipelineError, Resize, ScaleStrategy, Upscaled,
};
use crate::planner::{
    enlarging, is_ceil_power, is_floor_power, is_nearest_power, is_pass_count, residual_ratio,
};
use crate::ratio::{
    lemma_order_chain, lemma_power_adds, lemma_power_positive, lemma_raised_grows,
    lemma_raised_positive, power, Ratio,
};

verus! {

/// Whether the power `n` of `b` is at least as near to `t` as the power `m`
/// is, on the logarithmic scale, and nearer where `m` is the larger count.
///
/// The distance of `b^n` from `t` is `|log t - n log b|`. For `n < m` the
/// power `n` is the nearer one exactly when `t` lies below the geometric
/// mean of the two powers, which is to say `t^2 < b^(n + m)`.
pub open spec fn no_farther(b: Ratio, t: Ratio, n: nat, m: nat) -> bool {
    if n < m {
        t.squared().lt(b.raised(n + m))
    } else if m < n {
        b.raised(n + m).le(t.squared())
    } else {
        true
    }
}

proof fn lemma_above_one(base: Ratio)
    requires
        base.positive(),
        Ratio::one().lt(base),
    ensures
        base.den < base.num,
{
    assert(base.den < base.num) by (nonlinear_arith)
        requires
            1 * base.den < base.num * 1,
    ;
}

proof fn lemma_squared_positive(t: Ratio)
    requires
        t.positive(),
    ensures
        t.squared().positive(),
{
    assert(t.num * t.num > 0 && t.den * t.den > 0) by (nonlinear_arith)
        requires
            t.num > 0,
            t.den > 0,
    ;
}

/// `SinglePass` always plans one pass.
pub proof fn lemma_single_pass_is_one(base: Ratio, target: Ratio, n: nat)
    requires
        is_pass_count(base, target, ScaleStrategy::SinglePass, n),
    ensures
        n == 1,
{
}

/// For a base above one, `CeilPower` plans the least number of passes whose
/// scale reaches the target.
pub proof fn lemma_ceil_power_is_least(base: Ratio, target: Ratio, n: nat)
    requires
        base.positive(),
        target.positive(),
        Ratio::one().lt(base),
        is_pass_count(base, target, ScaleStrategy::CeilPower, n),
    ensures
        target.le(base.raised(n)),
        forall|m: nat| target.le(#[trigger] base.raised(m)) ==> n <= m,
{
    lemma_above_one(base);
    assert forall|m: nat| target.le(#[trigger] base.raised(m)) implies n <= m by {
        if m < n {
            let k = (n - 1) as nat;
            lemma_raised_grows(base, m, k);
            lemma_raised_positive(base, m);
            lemma_raised_positive(base, k);
            lemma_order_chain(target, base.raised(m), base.raised(k));
            lemma_order_chain(base.raised(k), target, base.raised(k));
        }
    }
}

/// For a base above one, `FloorPower` plans the greatest number of passes
/// whose scale stays within the target, and none where the target is below
/// one.
pub proof fn lemma_floor_power_is_greatest(base: Ratio, target: Ratio, n: nat)
    requires
        base.positive(),
        target.positive(),
        Ratio::one().lt(base),
        is_pass_count(base, target, ScaleStrategy::FloorPower, n),
    ensures
        Ratio::one().le(target) ==> base.raised(n).le(target),
        target.lt(Ratio::one()) ==> n == 0,
        forall|m: nat| (#[trigger] base.raised(m)).le(target) ==> m <= n,
{
    lemma_above_one(base);
    lemma_raised_positive(base, n + 1);
    assert(base.raised(0) == Ratio::one());
    assert forall|m: nat| (#[trigger] base.raised(m)).le(target) implies m <= n by {
        if n < m {
            lemma_raised_grows(base, n + 1, m);
            lemma_raised_positive(base, m);
            lemma_order_chain(base.raised(n + 1), base.raised(m), target);
            lemma_order_chain(target, base.raised(n + 1), target);
        }
    }
    if target.lt(Ratio::one()) && n > 0 {
        lemma_raised_grows(base, 0, n);
        lemma_raised_positive(base, n);
        lemma_order_chain(Ratio::one(), base.raised(n), target);
        lemma_order_chain(target, Ratio::one(), target);
    }
}

/// For a base above one, `NearestPower` plans the number of passes whose
/// scale is nearest to the target on the logarithmic scale; of two counts
/// that are equally near it plans the larger.
pub proof fn lemma_nearest_power_is_nearest(base: Ratio, target: Ratio, n: nat)
    requires
        base.positive(),
        target.positive(),
        Ratio::one().lt(base),
        is_pass_count(base, target, ScaleStrategy::NearestPower, n),
    ensures
        forall|m: nat| #[trigger] no_farther(base, target, n, m),
{
    lemma_above_one(base);
    lemma_squared_positive(target);
    let square = target.squared();
    assert forall|m: nat| #[trigger] no_farther(base, target, n, m) by {
        lemma_raised_positive(base, n + m);
        if n < m {
            lemma_raised_grows(base, 2 * n + 1, n + m);
            lemma_raised_positive(base, 2 * n + 1);
            lemma_order_chain(square, base.raised(2 * n + 1), base.raised(n + m));
        } else if m < n {
            let k = (2 * n - 1) as nat;
            lemma_raised_grows(base, n + m, k);
            lemma_raised_positive(base, k);
            lemma_order_chain(base.raised(n + m), base.raised(k), square);
        }
    }
}

/// On a base above one, each counting strategy admits one count only.
proof fn lemma_count_unique_above_one(b: Ratio, t: Ratio, n1: nat, n2: nat)
    requires
        b.positive(),
        t.positive(),
        b.den < b.num,
        n1 < n2,
    ensures
        !(is_ceil_power(b, t, n1) && is_ceil_power(b, t, n2)),
        !(is_floor_power(b, t, n1) && is_floor_power(b, t, n2)),
        !(is_nearest_power(b, t, n1) && is_nearest_power(b, t, n2)),
{
    assert(Ratio::one().lt(b)) by (nonlinear_arith)
        requires
            b.den < b.num,
    {
        assert(1 * b.den < b.num * 1);
    }
    lemma_squared_positive(t);
    let k = (n2 - 1) as nat;
    lemma_raised_positive(b, n1);
    lemma_raised_positive(b, k);
    lemma_raised_positive(b, n2);
    lemma_raised_positive(b, n1 + 1);
    lemma_raised_positive(b, 2 * n1 + 1);
    lemma_raised_positive(b, (2 * n2 - 1) as nat);
    if is_ceil_power(b, t, n1) && is_ceil_power(b, t, n2) {
        lemma_raised_grows(b, n1, k);
        lemma_order_chain(t, b.raised(n1), b.raised(k));
        lemma_order_chain(b.raised(k), t, b.raised(k));
    }
    if is_floor_power(b, t, n1) && is_floor_power(b, t, n2) {
        lemma_raised_grows(b, n1 + 1, n2);
        lemma_order_chain(b.raised(n1 + 1), b.raised(n2), t);
        lemma_order_chain(t, b.raised(n1 + 1), t);
    }
    if is_nearest_power(b, t, n1) && is_nearest_power(b, t, n2) {
        let s = t.squared();
        lemma_raised_grows(b, 2 * n1 + 1, (2 * n2 - 1) as nat);
        lemma_order_chain(b.raised(2 * n1 + 1), b.raised((2 * n2 - 1) as nat), s);
        lemma_order_chain(s, b.raised(2 * n1 + 1), s);
    }
}

/// A strategy plans one number of passes only: two counts that both meet
/// what the strategy asks for are the same count.
pub proof fn lemma_pass_count_unique(base: Ratio, target: Ratio, strategy: ScaleStrategy, n1: nat, n2: nat)
    requires
        base.positive(),
        target.positive(),
        !base.same(Ratio::one()) || strategy is SinglePass,
        is_pass_count(base, target, strategy, n1),
        is_pass_count(base, target, strategy, n2),
    ensures
        n1 == n2,
{
    if !(strategy is SinglePass) {
        let (b, t) = enlarging(base, target);
        assert(base.num != base.den) by (nonlinear_arith)
            requires
                base.num * 1 != 1 * base.den,
        ;
        if n1 < n2 {
            lemma_count_unique_above_one(b, t, n1, n2);
        } else if n2 < n1 {
            lemma_count_unique_above_one(b, t, n2, n1);
        }
    }
}

/// A side times a ratio that is exactly one is the side itself.
pub proof fn lemma_rounded_of_one(ratio: Ratio, side: nat)
    requires
        ratio.positive(),
        ratio.same(Ratio::one()),
    ensures
        ratio.rounded_of(side) == side,
{
    let d = ratio.den;
    assert(ratio.num == d) by (nonlinear_arith)
        requires
            ratio.num * 1 == 1 * d,
    ;
    assert(2 * (side * d) + d == side * (2 * d) + d) by (nonlinear_arith);
    vstd::arithmetic::div_mod::lemma_fundamental_div_mod_converse(
        (2 * (side * d) + d) as int,
        (2 * d) as int,
        side as int,
        d as int,
    );
}

/// A side that has grown by `base^passes` and is then resized by the
/// residual ratio comes to the side times the target scale, rounded: the
/// passes cancel out.
pub proof fn lemma_residual_restores_target(base: Ratio, target: Ratio, passes: nat, side: nat, grown: nat)
    requires
        base.positive(),
        target.positive(),
        grown * power(base.den, passes) == side * power(base.num, passes),
    ensures
        residual_ratio(base, target, passes).rounded_of(grown) == target.rounded_of(side),
{
    let x = power(base.num, passes);
    let y = power(base.den, passes);
    lemma_power_positive(base.num, passes);
    lemma_power_positive(base.den, passes);
    let a = (2 * (side * target.num) + target.den) as int;
    let d = (2 * target.den) as int;
    assert(2 * (grown * (target.num * y)) + target.den * x == x * a && 2 * (target.den * x) == x * d)
        by (nonlinear_arith)
        requires
            grown * y == side * x,
            a == 2 * (side * target.num) + target.den,
            d == 2 * target.den,
    ;
    vstd::arithmetic::div_mod::lemma_div_multiples_vanish_quotient(x as int, a, d);
}

/// The size of the image at the end of a run: that of the resize where
/// there is one, else that which the passes left.
pub open spec fn final_size(resize: Option<Resize>, width: nat, height: nat) -> (nat, nat) {
    match resize {
        Some(r) => (r.width as nat, r.height as nat),
        None => (width, height),
    }
}

/// Where every pass multiplies the sides of the image by exactly the base
/// scale, a run that ends well ends at the sides of the input times the
/// target scale, each rounded to the nearest whole number, whatever the
/// number of passes was.
pub proof fn lemma_final_size_is_exact(
    base: Ratio,
    target: Ratio,
    passes: nat,
    width: nat,
    height: nat,
    grown_width: nat,
    grown_height: nat,
)
    requires
        base.positive(),
        target.positive(),
        grown_width * power(base.den, passes) == width * power(base.num, passes),
        grown_height * power(base.den, passes) == height * power(base.num, passes),
    ensures
        resize_decision(residual_ratio(base, target, passes), grown_width, grown_height) matches Ok(
            resize,
        ) ==> final_size(resize, grown_width, grown_height) == (
            target.rounded_of(width),
            target.rounded_of(height),
        ),
{
    let residual = residual_ratio(base, target, passes);
    lemma_residual_restores_target(base, target, passes, width, grown_width);
    lemma_residual_restores_target(base, target, passes, height, grown_height);
    if residual.same(Ratio::one()) {
        lemma_raised_positive(base, passes);
        assert(residual.positive()) by (nonlinear_arith)
            requires
                residual.num == target.num * base.raised(passes).den,
                residual.den == target.den * base.raised(passes).num,
                target.positive(),
                base.raised(passes).positive(),
        ;
        lemma_rounded_of_one(residual, grown_width);
        lemma_rounded_of_one(residual, grown_height);
    }
}

/// Squares of equal fractions are equal, here for a power and its double.
proof fn lemma_square_of_power(b: Ratio, t: Ratio, k: nat)
    requires
        t.same(b.raised(k)),
    ensures
        t.squared().same(b.raised(2 * k)),
{
    lemma_power_adds(b.num, k, k);
    lemma_power_adds(b.den, k, k);
    assert(2 * k == k + k);
    let x = power(b.num, k);
    let y = power(b.den, k);
    assert((t.num * t.num) * (y * y) == (x * x) * (t.den * t.den)) by (nonlinear_arith)
        requires
            t.num * y == x * t.den,
    ;
}

/// On a base above one, a target that is the power `k` of the base takes
/// `k` passes under each counting strategy.
proof fn lemma_exact_power_counts(b: Ratio, t: Ratio, k: nat)
    requires
        b.positive(),
        t.positive(),
        b.den < b.num,
        t.same(b.raised(k)),
    ensures
        is_ceil_power(b, t, k),
        is_floor_power(b, t, k),
        is_nearest_power(b, t, k),
{
    assert(Ratio::one().lt(b)) by {
        assert(1 * b.den < b.num * 1) by (nonlinear_arith)
            requires
                b.den < b.num,
        ;
    }
    let s = t.squared();
    lemma_squared_positive(t);
    lemma_square_of_power(b, t, k);
    lemma_raised_positive(b, k);
    lemma_raised_positive(b, k + 1);
    lemma_raised_positive(b, 2 * k);
    lemma_raised_positive(b, 2 * k + 1);
    lemma_raised_grows(b, k, k + 1);
    lemma_order_chain(t, b.raised(k), b.raised(k + 1));
    lemma_raised_grows(b, 2 * k, 2 * k + 1);
    lemma_order_chain(s, b.raised(2 * k), b.raised(2 * k + 1));
    if k > 0 {
        let j = (k - 1) as nat;
        lemma_raised_positive(b, j);
        lemma_raised_grows(b, j, k);
        lemma_order_chain(b.raised(j), b.raised(k), t);
        let i = (2 * k - 1) as nat;
        lemma_raised_positive(b, i);
        lemma_raised_grows(b, i, 2 * k);
        lemma_order_chain(b.raised(i), b.raised(2 * k), s);
    }
}

/// Where the target scale is exactly the power `k` of the base scale, each
/// counting strategy plans `k` passes, the residual ratio is one, and there
/// is no final resize: the image is handed back as the last pass left it.
///
/// A base of one is left out: no passes are counted on it.
pub proof fn lemma_exact_power_needs_no_resize(
    base: Ratio,
    target: Ratio,
    strategy: ScaleStrategy,
    k: nat,
    n: nat,
    width: nat,
    height: nat,
)
    requires
        base.positive(),
        target.positive(),
        !base.same(Ratio::one()),
        !(strategy is SinglePass),
        target.same(base.raised(k)),
        is_pass_count(base, target, strategy, n),
    ensures
        n == k,
        residual_ratio(base, target, n).same(Ratio::one()),
        resize_decision(residual_ratio(base, target, n), width, height) == Ok::<
            Option<Resize>,
            PipelineError,
        >(None),
{
    let (b, t) = enlarging(base, target);
    assert(base.num != base.den) by (nonlinear_arith)
        requires
            base.num * 1 != 1 * base.den,
    ;
    if base.num < base.den {
        assert(target.den * power(base.num, k) == power(base.den, k) * target.num) by (nonlinear_arith)
            requires
                target.num * power(base.den, k) == power(base.num, k) * target.den,
        ;
    }
    assert(t.same(b.raised(k)));
    lemma_exact_power_counts(b, t, k);
    lemma_pass_count_unique(base, target, strategy, n, k);
    let residual = residual_ratio(base, target, k);
    assert(residual.same(Ratio::one())) by (nonlinear_arith)
        requires
            target.num * power(base.den, k) == power(base.num, k) * target.den,
            residual.num == target.num * power(base.den, k),
            residual.den == target.den * power(base.num, k),
    ;
}

/// Whether every pass of a model of type `M` that succeeds multiplies both
/// sides of its input by exactly `base`.
pub open spec fn scales_exactly<M: SuperResolution>(base: Ratio) -> bool {
    forall|model: M, input: Image, after: M, image: Image| #[trigger]
        model.produces(input, after, Ok(image)) ==> {
            &&& image@.width * base.den == input@.width * base.num
            &&& image@.height * base.den == input@.height * base.num
        }
}

/// A run that ends well hands back the resize that was decided on the image
/// it hands back.
pub proof fn lemma_run_ends_as_decided<M: SuperResolution>(
    before: M,
    input: Image,
    residual: Ratio,
    passes: nat,
    after: M,
    end: Upscaled,
)
    requires
        run_outcome(before, input, residual, passes, after, Ok(end)),
    ensures
        resize_decision(residual, end.image@.width, end.image@.height) == Ok::<
            Option<Resize>,
            PipelineError,
        >(end.resize),
    decreases passes,
{
    if passes == 0 {
        assert(concluded(residual, input) == Ok::<Upscaled, PipelineError>(end));
    } else {
        let (mid, out) = choose|mid: M, out: Result<Image, ort::Error>| #[trigger]
            before.produces(input, mid, out) && match out {
                Ok(image) => run_outcome(mid, image, residual, (passes - 1) as nat, after, Ok(end)),
                Err(e) => after == mid && Ok::<Upscaled, PipelineError>(end) == Err::<
                    Upscaled,
                    PipelineError,
                >(PipelineError::Model(e)),
            };
        match out {
            Ok(image) => {
                lemma_run_ends_as_decided(mid, image, residual, (passes - 1) as nat, after, end);
            },
            Err(_) => {},
        }
    }
}

/// Under a model that scales exactly, the image that a run hands back has
/// the sides of the input times `base^passes`.
pub proof fn lemma_passes_multiply<M: SuperResolution>(
    base: Ratio,
    before: M,
    input: Image,
    residual: Ratio,
    passes: nat,
    after: M,
    end: Upscaled,
)
    requires
        scales_exactly::<M>(base),
        run_outcome(before, input, residual, passes, after, Ok(end)),
    ensures
        end.image@.width * power(base.den, passes) == input@.width * power(base.num, passes),
        end.image@.height * power(base.den, passes) == input@.height * power(base.num, passes),
    decreases passes,
{
    if passes == 0 {
        assert(concluded(residual, input) == Ok::<Upscaled, PipelineError>(end));
        assert(end.image@.width * 1 == input@.width * 1 && end.image@.height * 1 == input@.height * 1);
    } else {
        let (mid, out) = choose|mid: M, out: Result<Image, ort::Error>| #[trigger]
            before.produces(input, mid, out) && match out {
                Ok(image) => run_outcome(mid, image, residual, (passes - 1) as nat, after, Ok(end)),
                Err(e) => after == mid && Ok::<Upscaled, PipelineError>(end) == Err::<
                    Upscaled,
                    PipelineError,
                >(PipelineError::Model(e)),
            };
        match out {
            Ok(image) => {
                let rest = (passes - 1) as nat;
                lemma_passes_multiply(base, mid, image, residual, rest, after, end);
                let (x, y) = (power(base.num, rest), power(base.den, rest));
                let (bn, bd) = (base.num, base.den);
                let (w0, w1, w2) = (input@.width, image@.width, end.image@.width);
                let (h0, h1, h2) = (input@.height, image@.height, end.image@.height);
                assert(w2 * (bd * y) == w0 * (bn * x)) by (nonlinear_arith)
                    requires
                        w2 * y == w1 * x,
                        w1 * bd == w0 * bn,
                ;
                assert(h2 * (bd * y) == h0 * (bn * x)) by (nonlinear_arith)
                    requires
                        h2 * y == h1 * x,
                        h1 * bd == h0 * bn,
                ;
            },
            Err(_) => {},
        }
    }
}

/// Under a model that scales exactly, a run that ends well ends at the
/// sides of the input times the target scale, each rounded to the nearest
/// whole number. The number of passes, and so the strategy, makes no
/// difference to the size.
pub proof fn lemma_run_ends_at_target_size<M: SuperResolution>(
    base: Ratio,
    target: Ratio,
    before: M,
    input: Image,
    passes: nat,
    after: M,
    end: Upscaled,
)
    requires
        base.positive(),
        target.positive(),
        scales_exactly::<M>(base),
        run_outcome(before, input, residual_ratio(base, target, passes), passes, after, Ok(end)),
    ensures
        final_size(end.resize, end.image@.width, end.image@.height) == (
            target.rounded_of(input@.width),
            target.rounded_of(input@.height),
        ),
{
    let residual = residual_ratio(base, target, passes);
    lemma_run_ends_as_decided(before, input, residual, passes, after, end);
    lemma_passes_multiply(base, before, input, residual, passes, after, end);
    lemma_final_size_is_exact(
        base,
        target,
        passes,
        input@.width,
        input@.height,
        end.image@.width,
        end.image@.height,
    );
}

/// Where the target scale is exactly a power of the base scale, a run under
/// a counting strategy that ends well hands the image back as the last pass
/// left it, with no resize to do. This holds of every model.
pub proof fn lemma_exact_power_run_has_no_resize<M: SuperResolution>(
    base: Ratio,
    target: Ratio,
    strategy: ScaleStrategy,
    k: nat,
    before: M,
    input: Image,
    passes: nat,
    after: M,
    end: Upscaled,
)
    requires
        base.positive(),
        target.positive(),
        !base.same(Ratio::one()),
        !(strategy is SinglePass),
        target.same(base.raised(k)),
        is_pass_count(base, target, strategy, passes),
        run_outcome(before, input, residual_ratio(base, target, passes), passes, after, Ok(end)),
    ensures
        passes == k,
        end.resize is None,
{
    let residual = residual_ratio(base, target, passes);
    lemma_run_ends_as_decided(before, input, residual, passes, after, end);
    lemma_exact_power_needs_no_resize(
        base,
        target,
        strategy,
        k,
        passes,
        end.image@.width,
        end.image@.height,
    );
}

} // verus!
