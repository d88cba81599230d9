use moss_model::image::{Image, PixelDepth};
use moss_model::pipeline::{Interpolation, PipelineError, Resize, ScaleStrategy, Upscaled};
use moss_model::scale::Scale;
use moss_model::{SrPipeline, SuperResolution};

/// Multiplies both sides by `factor` and fails on the call numbered `fails_at`, counting from one.
struct Stub {
    factor: u32,
    fails_at: u32,
    calls: u32,
}

impl Stub {
    fn times(factor: u32) -> Stub {
        Stub { factor, fails_at: 0, calls: 0 }
    }
}

impl SuperResolution for Stub {
    fn run(&mut self, input: Image) -> Result<Image, ort::Error> {
        self.calls += 1;
        if self.calls == self.fails_at {
            return Err(ort::Error::new(format!("pass {} failed", self.calls)));
        }
        let (w, h) = (input.width() * self.factor, input.height() * self.factor);
        let len = (w * h * input.channels()) as usize;
        Ok(Image::new(w, h, input.channels(), input.depth(), vec![self.calls as u8; len]).unwrap())
    }
}

fn image(width: u32, height: u32) -> Image {
    Image::new(width, height, 3, PixelDepth::Unsigned8, vec![200; (width * height * 3) as usize]).unwrap()
}

fn final_size(out: &Upscaled) -> (u32, u32) {
    match out.resize {
        Some(r) => (r.width, r.height),
        None => (out.image.width(), out.image.height()),
    }
}

const ALL: [ScaleStrategy; 4] = [
    ScaleStrategy::SinglePass,
    ScaleStrategy::NearestPower,
    ScaleStrategy::CeilPower,
    ScaleStrategy::FloorPower,
];

#[test]
fn a_new_pipeline_plans_by_nearest_power() {
    let pipe = SrPipeline::new(Stub::times(4), Scale::whole(4));
    assert_eq!(pipe.strategy(), ScaleStrategy::NearestPower);
    assert_eq!(pipe.base_scale(), Scale::new(4, 1));
    assert_eq!(pipe.model().calls, 0);
}

#[test]
fn the_strategy_set_is_the_strategy_used() {
    let mut pipe = SrPipeline::new(Stub::times(4), Scale::whole(4));
    for (s, passes) in [
        (ScaleStrategy::CeilPower, 2),
        (ScaleStrategy::FloorPower, 1),
        (ScaleStrategy::SinglePass, 1),
        (ScaleStrategy::NearestPower, 2),
    ] {
        pipe.set_strategy(s);
        assert_eq!(pipe.strategy(), s);
        let before = pipe.model().calls;
        pipe.run_to_scale(image(2, 2), Scale::whole(12)).unwrap();
        assert_eq!(pipe.model().calls - before, passes);
    }
}

#[test]
fn target_three_by_nearest_power_is_one_pass_and_a_shrink() {
    let mut pipe = SrPipeline::new(Stub::times(4), Scale::whole(4));
    let out = pipe.run_to_scale(image(10, 6), Scale::whole(3)).unwrap();
    assert_eq!(pipe.model().calls, 1);
    assert_eq!((out.image.width(), out.image.height()), (40, 24));
    assert_eq!(out.resize, Some(Resize { width: 30, height: 18, kernel: Interpolation::Area }));
}

#[test]
fn target_twelve_by_ceil_power_is_two_passes_and_a_shrink() {
    let mut pipe = SrPipeline::new(Stub::times(4), Scale::whole(4));
    pipe.set_strategy(ScaleStrategy::CeilPower);
    let out = pipe.run_to_scale(image(10, 6), Scale::whole(12)).unwrap();
    assert_eq!(pipe.model().calls, 2);
    assert_eq!((out.image.width(), out.image.height()), (160, 96));
    assert_eq!(out.resize, Some(Resize { width: 120, height: 72, kernel: Interpolation::Area }));
}

#[test]
fn target_twelve_by_floor_power_is_one_pass_and_an_enlargement() {
    let mut pipe = SrPipeline::new(Stub::times(4), Scale::whole(4));
    pipe.set_strategy(ScaleStrategy::FloorPower);
    let out = pipe.run_to_scale(image(10, 6), Scale::whole(12)).unwrap();
    assert_eq!(pipe.model().calls, 1);
    assert_eq!((out.image.width(), out.image.height()), (40, 24));
    assert_eq!(out.resize, Some(Resize { width: 120, height: 72, kernel: Interpolation::Lanczos4 }));
}

#[test]
fn every_strategy_ends_at_the_same_size() {
    for target in [(3, 1), (12, 1), (7, 2), (1, 2), (33, 10), (64, 1), (5, 3)] {
        for (w, h) in [(10, 6), (1, 1), (7, 13)] {
            let expected = (
                ((w as f64) * (target.0 as f64) / (target.1 as f64)).round() as u32,
                ((h as f64) * (target.0 as f64) / (target.1 as f64)).round() as u32,
            );
            for s in ALL {
                let mut pipe = SrPipeline::new(Stub::times(4), Scale::whole(4));
                pipe.set_strategy(s);
                let out = pipe.run_to_scale(image(w, h), Scale::new(target.0, target.1)).unwrap();
                assert_eq!(final_size(&out), expected, "target {:?} size {:?} {:?}", target, (w, h), s);
            }
        }
    }
}

#[test]
fn an_exact_power_is_handed_back_without_a_resize() {
    for s in [ScaleStrategy::NearestPower, ScaleStrategy::CeilPower, ScaleStrategy::FloorPower] {
        for (target, passes) in [(1, 0), (4, 1), (16, 2), (64, 3)] {
            let mut pipe = SrPipeline::new(Stub::times(4), Scale::whole(4));
            pipe.set_strategy(s);
            let out = pipe.run_to_scale(image(3, 5), Scale::whole(target)).unwrap();
            assert_eq!(pipe.model().calls, passes);
            assert_eq!(out.resize, None);
            assert_eq!((out.image.width(), out.image.height()), (3 * target, 5 * target));
        }
    }
}

#[test]
fn no_pass_leaves_the_input_as_it_was() {
    let mut pipe = SrPipeline::new(Stub::times(4), Scale::whole(4));
    pipe.set_strategy(ScaleStrategy::FloorPower);
    let out = pipe.run_to_scale(image(10, 6), Scale::new(1, 2)).unwrap();
    assert_eq!(pipe.model().calls, 0);
    assert_eq!((out.image.width(), out.image.height()), (10, 6));
    assert_eq!(out.image.data(), &vec![200u8; 180]);
    assert_eq!(out.resize, Some(Resize { width: 5, height: 3, kernel: Interpolation::Area }));
}

#[test]
fn each_pass_runs_on_what_the_pass_before_returned() {
    let mut pipe = SrPipeline::new(Stub::times(2), Scale::whole(2));
    pipe.set_strategy(ScaleStrategy::CeilPower);
    let out = pipe.run_to_scale(image(3, 1), Scale::whole(7)).unwrap();
    assert_eq!(pipe.model().calls, 3);
    assert_eq!((out.image.width(), out.image.height()), (24, 8));
    // The stub fills its output with the number of the call.
    assert_eq!(out.image.data(), &vec![3u8; 24 * 8 * 3]);
    assert_eq!(out.resize, Some(Resize { width: 21, height: 7, kernel: Interpolation::Area }));
}

#[test]
fn a_failing_pass_ends_the_run_with_its_error() {
    for (fails_at, strategy) in [(1, ScaleStrategy::SinglePass), (1, ScaleStrategy::CeilPower), (2, ScaleStrategy::CeilPower)] {
        let mut pipe = SrPipeline::new(Stub { factor: 4, fails_at, calls: 0 }, Scale::whole(4));
        pipe.set_strategy(strategy);
        let r = pipe.run_to_scale(image(2, 2), Scale::whole(12));
        match r {
            Err(PipelineError::Model(e)) => assert_eq!(e.message(), format!("pass {} failed", fails_at)),
            _ => panic!("the run should have failed in the model"),
        }
        assert_eq!(pipe.model().calls, fails_at);
    }
    // A failure that the plan does not reach does no harm.
    let mut pipe = SrPipeline::new(Stub { factor: 4, fails_at: 2, calls: 0 }, Scale::whole(4));
    pipe.set_strategy(ScaleStrategy::FloorPower);
    assert!(pipe.run_to_scale(image(2, 2), Scale::whole(12)).is_ok());
}

#[test]
fn a_scale_that_is_not_positive_is_reported_before_the_model_runs() {
    for s in ALL {
        for (base, target) in [((0, 1), (3, 1)), ((4, 0), (3, 1)), ((4, 1), (0, 1)), ((4, 1), (3, 0))] {
            let mut pipe = SrPipeline::new(Stub::times(4), Scale::new(base.0, base.1));
            pipe.set_strategy(s);
            let r = pipe.run_to_scale(image(2, 2), Scale::new(target.0, target.1));
            assert!(matches!(r, Err(PipelineError::InvalidScale)));
            assert_eq!(pipe.model().calls, 0);
        }
    }
}

#[test]
fn a_base_of_one_is_reported_before_the_model_runs() {
    for s in [ScaleStrategy::NearestPower, ScaleStrategy::CeilPower, ScaleStrategy::FloorPower] {
        let mut pipe = SrPipeline::new(Stub::times(1), Scale::whole(1));
        pipe.set_strategy(s);
        let r = pipe.run_to_scale(image(2, 2), Scale::whole(3));
        assert!(matches!(r, Err(PipelineError::DegenerateBase)));
        assert_eq!(pipe.model().calls, 0);
    }
    let mut pipe = SrPipeline::new(Stub::times(1), Scale::whole(1));
    pipe.set_strategy(ScaleStrategy::SinglePass);
    let out = pipe.run_to_scale(image(2, 2), Scale::whole(3)).unwrap();
    assert_eq!(pipe.model().calls, 1);
    assert_eq!(out.resize, Some(Resize { width: 6, height: 6, kernel: Interpolation::Lanczos4 }));
}

#[test]
fn a_degenerate_target_size_is_an_error() {
    let mut pipe = SrPipeline::new(Stub::times(4), Scale::whole(4));
    let r = pipe.run_to_scale(image(1, 1), Scale::new(1, 3));
    assert!(matches!(r, Err(PipelineError::DegenerateTarget)));
    pipe.set_strategy(ScaleStrategy::SinglePass);
    let r = pipe.run_to_scale(image(3, 3), Scale::whole(4000000000));
    assert!(matches!(r, Err(PipelineError::DegenerateTarget)));
    let out = pipe.run_to_scale(image(2, 1), Scale::whole(1000000000)).unwrap();
    assert_eq!(
        out.resize,
        Some(Resize { width: 2000000000, height: 1000000000, kernel: Interpolation::Lanczos4 })
    );
}
