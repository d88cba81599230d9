//! What the pipeline asks of a super-resolution model.

use vstd::prelude::*;
use crate::image::Image;

verus! {

/// The error of the inference engine, carried through as it came.
#[verifier::external_type_specification]
#[verifier::external_body]
pub struct ExOrtError(ort::Error);

/// A model that enlarges an image by its own fixed factor.
///
/// The pipeline assumes nothing of a model but what `produces` says, and by
/// default that is nothing: a call may give any image or fail, and may change
/// the model's state in any way. A verified model says more by stating its
/// own `produces`.
pub trait SuperResolution: Sized {
    /// Whether a call on `input` may leave the model as `after` and return
    /// `result`.
    open spec fn produces(&self, input: Image, after: Self, result: Result<Image, ort::Error>) -> bool {
        true
    }

    /// One pass of the model over `input`.
    fn run(&mut self, input: Image) -> (result: Result<Image, ort::Error>)
        ensures
            old(self).produces(input, *final(self), result),
    ;
}

} // verus!
