use moss_model::pipeline::ScaleStrategy;
use moss_model::planner::{pass_count, plan, PlanError};
use moss_model::scale::Scale;

const POWER_STRATEGIES: [ScaleStrategy; 3] =
    [ScaleStrategy::NearestPower, ScaleStrategy::CeilPower, ScaleStrategy::FloorPower];

fn count(base: (u32, u32), target: (u32, u32), strategy: ScaleStrategy) -> u64 {
    pass_count(Scale::new(base.0, base.1), Scale::new(target.0, target.1), strategy).unwrap()
}

/// The count as the logarithm gives it, for inputs away from ties.
fn by_logarithm(base: f64, target: f64, strategy: ScaleStrategy) -> u64 {
    let x = target.ln() / base.ln();
    let n = match strategy {
        ScaleStrategy::SinglePass => 1.0,
        ScaleStrategy::NearestPower => x.round(),
        ScaleStrategy::CeilPower => x.ceil(),
        ScaleStrategy::FloorPower => x.floor(),
    };
    if n < 0.0 { 0 } else { n as u64 }
}

#[test]
fn base_four_target_three_nearest_is_one_pass() {
    assert_eq!(count((4, 1), (3, 1), ScaleStrategy::NearestPower), 1);
    let p = plan(Scale::whole(4), Scale::whole(3), ScaleStrategy::NearestPower).unwrap();
    assert_eq!(p.passes(), 1);
    let (an, ad) = p.achieved();
    assert_eq!((an.to_u64(), ad.to_u64()), (Some(4), Some(1)));
    let (rn, rd) = p.residual();
    assert_eq!((rn.to_u64(), rd.to_u64()), (Some(3), Some(4)));
}

#[test]
fn base_four_target_twelve_ceil_is_two_passes() {
    assert_eq!(count((4, 1), (12, 1), ScaleStrategy::CeilPower), 2);
    let p = plan(Scale::whole(4), Scale::whole(12), ScaleStrategy::CeilPower).unwrap();
    let (an, ad) = p.achieved();
    assert_eq!((an.to_u64(), ad.to_u64()), (Some(16), Some(1)));
    let (rn, rd) = p.residual();
    assert_eq!((rn.to_u64(), rd.to_u64()), (Some(12), Some(16)));
}

#[test]
fn base_four_target_twelve_floor_is_one_pass() {
    assert_eq!(count((4, 1), (12, 1), ScaleStrategy::FloorPower), 1);
    let p = plan(Scale::whole(4), Scale::whole(12), ScaleStrategy::FloorPower).unwrap();
    let (an, ad) = p.achieved();
    assert_eq!((an.to_u64(), ad.to_u64()), (Some(4), Some(1)));
    let (rn, rd) = p.residual();
    assert_eq!((rn.to_u64(), rd.to_u64()), (Some(12), Some(4)));
}

#[test]
fn single_pass_is_always_one() {
    for target in [(1, 1000), (1, 1), (3, 1), (12, 1), (4000000000, 1)] {
        for base in [(4, 1), (1, 1), (1, 2), (3, 2)] {
            assert_eq!(count(base, target, ScaleStrategy::SinglePass), 1);
        }
    }
}

#[test]
fn counts_agree_with_the_logarithm() {
    let bases = [(2u32, 1u32), (3, 1), (4, 1), (8, 1), (3, 2), (5, 4), (11, 10), (7, 3)];
    let targets =
        [(3u32, 1u32), (12, 1), (5, 1), (7, 2), (100, 1), (1000, 7), (1, 3), (9, 10), (65, 1), (999, 1)];
    for b in bases {
        for t in targets {
            for s in POWER_STRATEGIES {
                let expected = by_logarithm(b.0 as f64 / b.1 as f64, t.0 as f64 / t.1 as f64, s);
                assert_eq!(count(b, t, s), expected, "base {:?} target {:?} {:?}", b, t, s);
            }
        }
    }
}

#[test]
fn exact_powers_take_their_exponent() {
    for s in POWER_STRATEGIES {
        assert_eq!(count((2, 1), (1024, 1), s), 10);
        assert_eq!(count((4, 1), (1, 1), s), 0);
        assert_eq!(count((4, 1), (4, 1), s), 1);
        assert_eq!(count((3, 2), (243, 32), s), 5);
        assert_eq!(count((4, 1), (16, 1), s), 2);
    }
}

#[test]
fn targets_below_one_take_no_pass() {
    for s in POWER_STRATEGIES {
        assert_eq!(count((4, 1), (1, 2), s), 0);
        assert_eq!(count((4, 1), (1, 4000000000), s), 0);
        assert_eq!(count((3, 2), (99, 100), s), 0);
    }
}

#[test]
fn nearest_power_rounds_a_half_away_from_zero() {
    // 2 is 4 to the power one half, 8 is 4 to the power one and a half.
    assert_eq!(count((4, 1), (2, 1), ScaleStrategy::NearestPower), 1);
    assert_eq!(count((4, 1), (8, 1), ScaleStrategy::NearestPower), 2);
    assert_eq!(count((9, 4), (3, 2), ScaleStrategy::NearestPower), 1);
    // Just below the half it rounds down.
    assert_eq!(count((4, 1), (1999, 1000), ScaleStrategy::NearestPower), 0);
    assert_eq!(count((4, 1), (7999, 1000), ScaleStrategy::NearestPower), 1);
}

#[test]
fn a_shrinking_base_counts_on_the_inverses() {
    for s in POWER_STRATEGIES {
        assert_eq!(count((1, 2), (1, 4), s), 2);
        assert_eq!(count((1, 2), (3, 1), s), 0);
    }
    // One third is one half to the power 1.58...
    assert_eq!(count((1, 2), (1, 3), ScaleStrategy::FloorPower), 1);
    assert_eq!(count((1, 2), (1, 3), ScaleStrategy::CeilPower), 2);
    assert_eq!(count((1, 2), (1, 3), ScaleStrategy::NearestPower), 2);
}

#[test]
fn a_base_near_one_takes_many_passes() {
    // ln 2 / ln 1.001 is 693.49...
    assert_eq!(count((1001, 1000), (2, 1), ScaleStrategy::FloorPower), 693);
    assert_eq!(count((1001, 1000), (2, 1), ScaleStrategy::CeilPower), 694);
    assert_eq!(count((1001, 1000), (2, 1), ScaleStrategy::NearestPower), 693);
}

#[test]
fn the_largest_parts_are_planned() {
    let max = u32::MAX;
    assert_eq!(count((max, 1), (max, 1), ScaleStrategy::CeilPower), 1);
    assert_eq!(count((max, 1), (max, max), ScaleStrategy::NearestPower), 0);
    assert_eq!(count((2, 1), (max, 1), ScaleStrategy::FloorPower), 31);
    assert_eq!(count((2, 1), (max, 1), ScaleStrategy::CeilPower), 32);
    assert_eq!(count((2, 1), (max, 1), ScaleStrategy::NearestPower), 32);
}

#[test]
fn a_base_of_one_is_degenerate_for_power_strategies() {
    for s in POWER_STRATEGIES {
        for target in [(1, 1), (3, 1), (1, 3)] {
            let r = pass_count(Scale::new(1, 1), Scale::new(target.0, target.1), s);
            assert_eq!(r, Err(PlanError::DegenerateBase));
            let r = pass_count(Scale::new(7, 7), Scale::new(target.0, target.1), s);
            assert_eq!(r, Err(PlanError::DegenerateBase));
        }
    }
    assert!(matches!(
        plan(Scale::whole(1), Scale::whole(3), ScaleStrategy::CeilPower),
        Err(PlanError::DegenerateBase)
    ));
    let p = plan(Scale::whole(1), Scale::whole(3), ScaleStrategy::SinglePass).unwrap();
    assert_eq!(p.passes(), 1);
    let (rn, rd) = p.residual();
    assert_eq!((rn.to_u64(), rd.to_u64()), (Some(3), Some(1)));
}

#[test]
fn scales_that_are_not_positive_are_rejected() {
    let strategies = [
        ScaleStrategy::SinglePass,
        ScaleStrategy::NearestPower,
        ScaleStrategy::CeilPower,
        ScaleStrategy::FloorPower,
    ];
    for s in strategies {
        assert_eq!(pass_count(Scale::new(0, 1), Scale::whole(3), s), Err(PlanError::InvalidScale));
        assert_eq!(pass_count(Scale::new(4, 0), Scale::whole(3), s), Err(PlanError::InvalidScale));
        assert_eq!(pass_count(Scale::whole(4), Scale::new(0, 1), s), Err(PlanError::InvalidScale));
        assert_eq!(pass_count(Scale::whole(4), Scale::new(3, 0), s), Err(PlanError::InvalidScale));
        assert_eq!(pass_count(Scale::new(1, 1), Scale::new(0, 0), s), Err(PlanError::InvalidScale));
        assert!(matches!(plan(Scale::new(0, 1), Scale::whole(3), s), Err(PlanError::InvalidScale)));
    }
}
