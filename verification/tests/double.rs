//! Bit-pattern arithmetic against the hardware.

use samplerack::double::Double;
use samplerack::resampler::sanitize_ratio;

fn double(x: f64) -> Double {
    Double { bits: x.to_bits() }
}

fn value(x: Double) -> f64 {
    f64::from_bits(x.bits)
}

fn samples() -> Vec<f64> {
    let mut all = vec![
        0.0,
        0.25,
        0.5,
        0.999_999_999_999_999_9,
        1.0,
        1.5,
        2.0,
        3.999_999,
        15.75,
        1e3,
        123_456.789,
        4_503_599_627_370_495.5,
        4_503_599_627_370_496.0,
        9_007_199_254_740_991.0,
        9_007_199_254_740_992.0,
        9_007_199_254_740_994.0,
        1e17,
        4_611_686_018_427_387_904.0,
        9_223_372_036_854_774_784.0,
        9_223_372_036_854_775_808.0,
        1e19,
        18_446_744_073_709_549_568.0,
        18_446_744_073_709_551_616.0,
        2.5,
        1_048_576.5,
        1e300,
        f64::MAX,
        f64::INFINITY,
        f64::NAN,
        f64::MIN_POSITIVE,
        5e-324,
        1e-310,
        1e-300,
    ];
    let mut x = 0.1;
    for _ in 0..400 {
        all.push(x);
        x = x * 1.379 + 0.013;
    }
    let negated: Vec<f64> = all.iter().map(|x| -x).collect();
    all.extend(negated);
    all
}

#[test]
fn frame_is_the_hardware_floor() {
    for x in samples() {
        assert_eq!(double(x).to_frame(), x.floor() as i64, "floor of {x:?}");
    }
}

#[test]
fn frame_of_exact_values() {
    assert_eq!(double(2.75).to_frame(), 2);
    assert_eq!(double(-2.75).to_frame(), -3);
    assert_eq!(double(-2.0).to_frame(), -2);
    assert_eq!(double(-5e-324).to_frame(), -1);
    assert_eq!(double(-0.0).to_frame(), 0);
    assert_eq!(double(f64::NAN).to_frame(), 0);
    assert_eq!(double(f64::INFINITY).to_frame(), i64::MAX);
    assert_eq!(double(f64::NEG_INFINITY).to_frame(), i64::MIN);
    assert_eq!(double(-9_223_372_036_854_775_808.0).to_frame(), i64::MIN);
}

#[test]
fn frames_follow_positions() {
    let mut all: Vec<f64> = samples().into_iter().filter(|x| x.is_finite()).collect();
    all.sort_by(|a, b| a.total_cmp(b));
    for pair in all.windows(2) {
        assert!(double(pair[0]).to_frame() <= double(pair[1]).to_frame());
    }
}

#[test]
fn position_lies_in_its_frame() {
    for x in samples() {
        if x.abs() < 1e15 {
            let frame = double(x).to_frame() as f64;
            assert!(frame <= x && x < frame + 1.0, "{x} in frame {frame}");
        }
    }
}

#[test]
fn usable_ratios_are_finite_and_positive() {
    for x in samples() {
        assert_eq!(double(x).usable_ratio(), x.is_finite() && x > 0.0, "{x:?}");
    }
}

#[test]
fn sanitized_ratio_matches_the_hardware() {
    for x in samples() {
        let expected = if x.is_finite() && x > 0.0 {
            x.max(f64::MIN_POSITIVE)
        } else {
            1.0
        };
        assert_eq!(value(sanitize_ratio(double(x))), expected, "{x:?}");
    }
}

#[test]
fn sanitized_ratio_exact_values() {
    assert_eq!(value(sanitize_ratio(double(0.0))), 1.0);
    assert_eq!(value(sanitize_ratio(double(-3.0))), 1.0);
    assert_eq!(value(sanitize_ratio(double(f64::NAN))), 1.0);
    assert_eq!(value(sanitize_ratio(double(f64::INFINITY))), 1.0);
    assert_eq!(value(sanitize_ratio(double(1e-310))), f64::MIN_POSITIVE);
    assert_eq!(value(sanitize_ratio(double(0.5))), 0.5);
}

#[test]
fn sanitizing_twice_changes_nothing() {
    for x in samples() {
        let once = sanitize_ratio(double(x));
        assert!(once.usable_ratio());
        assert_eq!(sanitize_ratio(once), once);
    }
}

#[test]
fn cutoff_is_limited_to_one() {
    for x in samples() {
        if x.is_finite() && x > 0.0 {
            assert_eq!(value(double(x).at_most_one()), x.min(1.0), "{x:?}");
        }
    }
}

#[test]
fn upsampling_keeps_the_band() {
    for x in [1.0, 1.000_000_000_000_000_2, 2.0, 3.7, 1e300] {
        assert_eq!(double(x).at_most_one(), Double::one());
    }
    assert_eq!(value(double(0.75).at_most_one()), 0.75);
}

#[test]
fn bounds_match_the_hardware() {
    for bound in [0.0, f64::MIN_POSITIVE, 1e-12, 1e-9, 1.0, 123_456.789] {
        for x in samples() {
            assert_eq!(double(x).beyond(double(bound)), x.abs() > bound, "{x:?} {bound}");
            assert_eq!(double(x).within(double(bound)), x.abs() < bound, "{x:?} {bound}");
        }
    }
}

#[test]
fn ceiling_is_the_hardware_ceiling() {
    for x in samples() {
        assert_eq!(double(x).to_ceiling(), x.ceil() as u64, "ceiling of {x:?}");
    }
}

#[test]
fn rounding_is_the_hardware_rounding() {
    for x in samples() {
        assert_eq!(double(x).to_rounded(), x.round() as u64, "{x:?} rounded");
        let halved = (x * 2.0).floor() / 2.0;
        assert_eq!(double(halved).to_rounded(), halved.round() as u64, "{halved:?} rounded");
    }
}

#[test]
fn counts_of_exact_values() {
    assert_eq!(double(2.0).to_ceiling(), 2);
    assert_eq!(double(2.000_000_1).to_ceiling(), 3);
    assert_eq!(double(5e-324).to_ceiling(), 1);
    assert_eq!(double(-0.5).to_ceiling(), 0);
    assert_eq!(double(f64::NAN).to_ceiling(), 0);
    assert_eq!(double(18_446_744_073_709_551_616.0).to_ceiling(), u64::MAX);
    assert_eq!(double(f64::INFINITY).to_ceiling(), u64::MAX);
    assert_eq!(double(0.5).to_rounded(), 1);
    assert_eq!(double(1.499_999).to_rounded(), 1);
    assert_eq!(double(2.5).to_rounded(), 3);
    assert_eq!(double(0.499_999_999_999_999_94).to_rounded(), 0);
    assert_eq!(double(-2.5).to_rounded(), 0);
    assert_eq!(double(18_446_744_073_709_549_568.0).to_rounded(), 18_446_744_073_709_549_568);
    assert_eq!(double(f64::INFINITY).to_rounded(), u64::MAX);
}
