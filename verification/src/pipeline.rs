//! The pipeline: model passes first, then one resize to the requested scale.

use vstd::prelude::*;
use crate::image::Image;
use crate::models::SuperResolution;
use crate::planner::{degenerate, plan, planned_passes, residual_ratio, Plan, PlanError};
use crate::ratio::Ratio;
use crate::scale::Scale;

verus! {

/// How many model passes run before the final resize.
#[derive(Clone, Copy, Debug, PartialEq, Eq, Structural)]
pub enum ScaleStrategy {
    /// One pass, whatever the target.
    SinglePass,
    /// The number of passes whose scale is nearest to the target, so that the
    /// final resize has the least to do.
    NearestPower,
    /// The fewest passes that reach the target; the final resize shrinks.
    CeilPower,
    /// The most passes that stay within the target; the final resize enlarges.
    FloorPower,
}

/// The kernel of the final resize.
#[derive(Clone, Copy, Debug, PartialEq, Eq, Structural)]
pub enum Interpolation {
    /// Averages over areas; for shrinking, where it keeps aliasing down.
    Area,
    /// Lanczos over 8x8 neighbourhoods; for enlarging, where it keeps edges
    /// sharp.
    Lanczos4,
}

/// The final resize: the size to reach and the kernel to reach it with.
#[derive(Clone, Copy, Debug, PartialEq, Eq, Structural)]
pub struct Resize {
    pub width: u32,
    pub height: u32,
    pub kernel: Interpolation,
}

/// Why a run did not come to an image.
#[derive(Debug)]
pub enum PipelineError {
    /// The base or the target scale is not a positive number.
    InvalidScale,
    /// The base scale is one and the strategy counts powers of it.
    DegenerateBase,
    /// The model failed on some pass; its error as it came.
    Model(ort::Error),
    /// The size to resize to has a side of zero, or a side too long for an
    /// image.
    DegenerateTarget,
}

/// The longest side that an image can have: resizers measure sides in
/// signed 32-bit numbers.
pub const MAX_DIMENSION: u32 = 2147483647;

/// Whether an image can have a side of this length.
pub open spec fn is_dimension(side: nat) -> bool {
    1 <= side <= MAX_DIMENSION
}

/// The final resize of an image of the given size: none where the residual
/// ratio is exactly one; else to each side times the ratio, rounded to the
/// nearest whole number, with the kernel that suits the direction.
pub open spec fn resize_decision(residual: Ratio, width: nat, height: nat) -> Result<
    Option<Resize>,
    PipelineError,
> {
    let w = residual.rounded_of(width);
    let h = residual.rounded_of(height);
    if residual.same(Ratio::one()) {
        Ok(None)
    } else if is_dimension(w) && is_dimension(h) {
        Ok(
            Some(
                Resize {
                    width: w as u32,
                    height: h as u32,
                    kernel: if residual.lt(Ratio::one()) {
                        Interpolation::Area
                    } else {
                        Interpolation::Lanczos4
                    },
                },
            ),
        )
    } else {
        Err(PipelineError::DegenerateTarget)
    }
}

/// Decides the final resize of an image of the given size under `plan`.
pub fn decide_resize(plan: &Plan, width: u32, height: u32) -> (r: Result<Option<Resize>, PipelineError>)
    ensures
        r == resize_decision(plan@.residual, width as nat, height as nat),
{
    let (num, den) = plan.residual();
    proof {
        let (n, d) = (num@, den@);
        assert(n * 1 == n && 1 * d == d && n * width == width * n && n * height == height * n)
            by (nonlinear_arith);
    }
    if num.same(den) {
        return Ok(None);
    }
    let w = num.scaled(width as u64).rounded_div(den, MAX_DIMENSION);
    let h = num.scaled(height as u64).rounded_div(den, MAX_DIMENSION);
    let kernel = if num.lt(den) {
        Interpolation::Area
    } else {
        Interpolation::Lanczos4
    };
    match (w, h) {
        (Some(width), Some(height)) => {
            if width > 0 && height > 0 {
                Ok(Some(Resize { width, height, kernel }))
            } else {
                Err(PipelineError::DegenerateTarget)
            }
        },
        _ => Err(PipelineError::DegenerateTarget),
    }
}

/// What a run hands back: the image as the last model pass left it, and the
/// resize that brings it to the target scale, where one is needed.
pub struct Upscaled {
    pub image: Image,
    pub resize: Option<Resize>,
}

/// How a run ends once the model passes are done and have left `image`.
pub open spec fn concluded(residual: Ratio, image: Image) -> Result<Upscaled, PipelineError> {
    match resize_decision(residual, image@.width, image@.height) {
        Ok(resize) => Ok(Upscaled { image, resize }),
        Err(e) => Err(e),
    }
}

/// Ends a run on the image that the model passes have left.
pub fn conclude(plan: &Plan, image: Image) -> (r: Result<Upscaled, PipelineError>)
    ensures
        r == concluded(plan@.residual, image),
{
    match decide_resize(plan, image.width(), image.height()) {
        Ok(resize) => Ok(Upscaled { image, resize }),
        Err(e) => Err(e),
    }
}

/// Whether `passes` passes of a model in state `before` over `input`, each
/// on the image that the one before it returned, may leave the model as
/// `after` and end the run with `result`. The first pass that fails ends
/// the run with its error; when none fails the run ends as `concluded` says.
pub open spec fn run_outcome<M: SuperResolution>(
    before: M,
    input: Image,
    residual: Ratio,
    passes: nat,
    after: M,
    result: Result<Upscaled, PipelineError>,
) -> bool
    decreases passes,
{
    if passes == 0 {
        after == before && result == concluded(residual, input)
    } else {
        exists|mid: M, out: Result<Image, ort::Error>| #[trigger]
            before.produces(input, mid, out) && match out {
                Ok(image) => run_outcome(mid, image, residual, (passes - 1) as nat, after, result),
                Err(e) => after == mid && result == Err::<Upscaled, PipelineError>(
                    PipelineError::Model(e),
                ),
            }
    }
}

/// A model with the scale of one of its passes, and the strategy that says
/// how many passes a target scale takes.
pub struct SrPipeline<M: SuperResolution> {
    model: M,
    base_scale: Scale,
    strategy: ScaleStrategy,
}

impl<M: SuperResolution> SrPipeline<M> {
    /// The model, in contracts.
    pub closed spec fn model_spec(&self) -> M {
        self.model
    }

    /// The scale of one model pass, in contracts.
    pub closed spec fn base_scale_spec(&self) -> Scale {
        self.base_scale
    }

    /// The strategy of the runs to come, in contracts.
    pub closed spec fn strategy_spec(&self) -> ScaleStrategy {
        self.strategy
    }

    /// A pipeline over `model`, one pass of which scales by `base_scale`.
    /// It starts with `NearestPower`, which leaves the final resize the
    /// least to do.
    pub fn new(model: M, base_scale: Scale) -> (r: Self)
        ensures
            r.model_spec() == model,
            r.base_scale_spec() == base_scale,
            r.strategy_spec() == ScaleStrategy::NearestPower,
    {
        SrPipeline { model, base_scale, strategy: ScaleStrategy::NearestPower }
    }

    /// The model.
    pub fn model(&self) -> (r: &M)
        ensures
            *r == self.model_spec(),
    {
        &self.model
    }

    /// The scale of one model pass.
    pub fn base_scale(&self) -> (r: Scale)
        ensures
            r == self.base_scale_spec(),
    {
        self.base_scale
    }

    /// The strategy of the runs to come.
    pub fn strategy(&self) -> (r: ScaleStrategy)
        ensures
            r == self.strategy_spec(),
    {
        self.strategy
    }

    /// Sets the strategy of the runs to come.
    pub fn set_strategy(&mut self, strategy: ScaleStrategy)
        ensures
            final(self).strategy_spec() == strategy,
            final(self).model_spec() == old(self).model_spec(),
            final(self).base_scale_spec() == old(self).base_scale_spec(),
    {
        self.strategy = strategy;
    }

    /// Brings `input` to `target_scale` as far as the model can: plans the
    /// passes, runs them one after the other, and decides the final resize
    /// on the image that the last pass left.
    ///
    /// A scale that is not positive, or a base of one under a strategy that
    /// counts its powers, is reported before the model is touched. A pass
    /// that fails ends the run with its error.
    #[verifier::loop_isolation(false)]
    pub fn run_to_scale(&mut self, input: Image, target_scale: Scale) -> (r: Result<
        Upscaled,
        PipelineError,
    >)
        ensures
            final(self).base_scale_spec() == old(self).base_scale_spec(),
            final(self).strategy_spec() == old(self).strategy_spec(),
            ({
                let base = old(self).base_scale_spec();
                let strategy = old(self).strategy_spec();
                let passes = planned_passes(base@, target_scale@, strategy);
                if !(base.valid() && target_scale.valid()) {
                    r == Err::<Upscaled, PipelineError>(PipelineError::InvalidScale)
                        && final(self).model_spec() == old(self).model_spec()
                } else if degenerate(base@, strategy) {
                    r == Err::<Upscaled, PipelineError>(PipelineError::DegenerateBase)
                        && final(self).model_spec() == old(self).model_spec()
                } else {
                    run_outcome(
                        old(self).model_spec(),
                        input,
                        residual_ratio(base@, target_scale@, passes),
                        passes,
                        final(self).model_spec(),
                        r,
                    )
                }
            }),
    {
        let planned = match plan(self.base_scale, target_scale, self.strategy) {
            Ok(p) => p,
            Err(PlanError::InvalidScale) => {
                return Err(PipelineError::InvalidScale);
            },
            Err(PlanError::DegenerateBase) => {
                return Err(PipelineError::DegenerateBase);
            },
        };
        let passes = planned.passes();
        let ghost residual = planned@.residual;
        let ghost start = self.model;
        let mut current = input;
        let mut done: u64 = 0;
        while done < passes
            invariant
                done <= passes,
                self.base_scale == old(self).base_scale,
                self.strategy == old(self).strategy,
                forall|after: M, result: Result<Upscaled, PipelineError>| #[trigger]
                    run_outcome(self.model, current, residual, (passes - done) as nat, after, result)
                        ==> run_outcome(start, input, residual, passes as nat, after, result),
            decreases passes - done,
        {
            let ghost before = self.model;
            let ghost given = current;
            let ghost remaining = (passes - done) as nat;
            match self.model.run(current) {
                Ok(next) => {
                    current = next;
                },
                Err(e) => {
                    proof {
                        assert(before.produces(given, self.model, Err(e)));
                        assert(run_outcome(
                            before,
                            given,
                            residual,
                            remaining,
                            self.model,
                            Err::<Upscaled, PipelineError>(PipelineError::Model(e)),
                        ));
                    }
                    return Err(PipelineError::Model(e));
                },
            }
            done += 1;
            proof {
                assert forall|after: M, result: Result<Upscaled, PipelineError>| #[trigger]
                    run_outcome(self.model, current, residual, (passes - done) as nat, after, result)
                    implies run_outcome(start, input, residual, passes as nat, after, result) by {
                    assert((remaining - 1) as nat == (passes - done) as nat);
                    assert(before.produces(given, self.model, Ok(current)));
                    assert(run_outcome(before, given, residual, remaining, after, result));
                }
            }
        }
        let ghost last = current;
        let r = conclude(&planned, current);
        proof {
            assert(run_outcome(self.model, last, residual, (passes - done) as nat, self.model, r));
        }
        r
    }
}

} // verus!
