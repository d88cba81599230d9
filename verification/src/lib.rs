//! Upscaling to any scale with a model of a fixed scale.
//!
//! A super-resolution model enlarges by its own factor, say four. To reach
//! another factor the pipeline runs the model some number of times and then
//! resizes once, by interpolation, to the size that was asked for. This crate
//! plans the passes ([`planner`]), runs them and decides the final resize
//! ([`pipeline`]). Scales are exact fractions ([`scale`], modelled by
//! [`ratio`]), and the powers that the planner compares are numbers of any
//! size ([`natural`]), so that every plan is exactly the one its strategy
//! defines. What holds of all plans and all runs is proved in [`laws`].

pub mod engine;
pub mod image;
pub mod laws;
pub mod models;
pub mod natural;
pub mod pipeline;
pub mod planner;
pub mod ratio;
pub mod scale;

pub use models::SuperResolution;
pub use pipeline::SrPipeline;
