//! The formulas against the hardware, bit by bit.

use samplerack::formulas::accumulate;
use samplerack::formulas::advance;
use samplerack::formulas::blackman;
use samplerack::formulas::blend;
use samplerack::formulas::cutoffs_differ;
use samplerack::formulas::frames_owed;
use samplerack::formulas::kernel_tap;
use samplerack::formulas::nearest_phase;
use samplerack::formulas::ratio_of_rates;
use samplerack::formulas::ratios_agree;
use samplerack::formulas::sinc;
use samplerack::formulas::stretched_taps;
use samplerack::formulas::unit_gain;
use samplerack::formulas::EIGHT_HUNDREDTHS;
use samplerack::formulas::FORTY_TWO_HUNDREDTHS;
use samplerack::formulas::HALF;
use samplerack::formulas::PI;
use samplerack::formulas::SAME_CUTOFF;
use samplerack::formulas::SAME_RATIO;
use samplerack::formulas::SINC_PEAK;
use samplerack::formulas::TAU;
use samplerack::formulas::TWO;
use samplerack::rubato_backend::CUTOFF;
use samplerack::rubato_backend::MAX_RELATIVE_RATIO;
use samplerack::Arithmetic;
use samplerack::Double;

struct Float;

fn value(x: Double) -> f64 {
    f64::from_bits(x.bits)
}

fn double(x: f64) -> Double {
    Double { bits: x.to_bits() }
}

impl Arithmetic for Float {
    type Sample = f32;

    fn sum(a: Double, b: Double) -> Double {
        double(value(a) + value(b))
    }

    fn difference(a: Double, b: Double) -> Double {
        double(value(a) - value(b))
    }

    fn product(a: Double, b: Double) -> Double {
        double(value(a) * value(b))
    }

    fn quotient(a: Double, b: Double) -> Double {
        double(value(a) / value(b))
    }

    fn sine(angle: Double) -> Double {
        double(value(angle).sin())
    }

    fn cosine(angle: Double) -> Double {
        double(value(angle).cos())
    }

    fn of_count(count: u64) -> Double {
        double(count as f64)
    }

    fn of_frame(frame: i64) -> Double {
        double(frame as f64)
    }

    fn narrow(number: Double) -> f32 {
        value(number) as f32
    }

    fn silence() -> f32 {
        0.0
    }

    fn sample_sum(a: f32, b: f32) -> f32 {
        a + b
    }

    fn sample_difference(a: f32, b: f32) -> f32 {
        a - b
    }

    fn sample_product(a: f32, b: f32) -> f32 {
        a * b
    }
}

#[test]
fn constants_are_what_they_say() {
    assert_eq!(f64::from_bits(EIGHT_HUNDREDTHS), 0.08);
    assert_eq!(f64::from_bits(FORTY_TWO_HUNDREDTHS), 0.42);
    assert_eq!(f64::from_bits(HALF), 0.5);
    assert_eq!(f64::from_bits(TWO), 2.0);
    assert_eq!(f64::from_bits(PI), std::f64::consts::PI);
    assert_eq!(f64::from_bits(TAU), std::f64::consts::TAU);
    assert_eq!(f64::from_bits(SAME_CUTOFF), 1e-9);
    assert_eq!(f64::from_bits(SAME_RATIO), 1e-12);
    assert_eq!(f64::from_bits(SINC_PEAK), 1e-12);
    assert_eq!(f64::from_bits(CUTOFF), 0.95);
    assert_eq!(f64::from_bits(MAX_RELATIVE_RATIO), 8.0);
}

#[test]
fn ratios_of_rates() {
    assert_eq!(value(ratio_of_rates::<Float>(48_000, 44_100)), 0.91875);
    assert_eq!(value(ratio_of_rates::<Float>(16_000, 48_000)), 3.0);
    assert_eq!(value(ratio_of_rates::<Float>(3, 1)), 1.0 / 3.0);
}

#[test]
fn positions_advance_by_the_inverse_ratio() {
    assert_eq!(value(advance::<Float>(double(3.5), double(0.5))), 5.5);
    assert_eq!(value(advance::<Float>(double(7.0), double(3.0))), 7.0 + 1.0 / 3.0);
    let mut position = 0.0;
    for _ in 0..1_000 {
        let next = value(advance::<Float>(double(position), double(0.91875)));
        assert_eq!(next, position + 1.0 / 0.91875);
        assert!(next > position);
        position = next;
    }
}

#[test]
fn blends_are_on_the_line() {
    assert_eq!(blend::<Float>(1.0, 3.0, double(10.25), 10), 1.5);
    assert_eq!(blend::<Float>(1.0, 3.0, double(10.0), 10), 1.0);
    let (a, b, position) = (0.3f32, -0.7f32, 4.812_345_f64);
    let frac = (position - 4.0) as f32;
    assert_eq!(blend::<Float>(a, b, double(position), 4), a + (b - a) * frac);
}

#[test]
fn phases_are_the_nearest() {
    assert_eq!(nearest_phase::<Float>(double(5.0), 5, 512), 0);
    assert_eq!(nearest_phase::<Float>(double(5.5), 5, 512), 256);
    assert_eq!(nearest_phase::<Float>(double(5.0 + 1.0 / 1024.0), 5, 512), 1);
    assert_eq!(nearest_phase::<Float>(double(5.000_9), 5, 512), 0);
    assert_eq!(nearest_phase::<Float>(double(5.999_9), 5, 512), 512);
}

#[test]
fn kernels_stretch_with_the_cutoff() {
    assert_eq!(stretched_taps::<Float>(16, double(1.0)), 16);
    assert_eq!(stretched_taps::<Float>(16, double(0.5)), 32);
    assert_eq!(stretched_taps::<Float>(16, double(0.91875)), 18);
    assert_eq!(stretched_taps::<Float>(16, double(f64::MIN_POSITIVE)), u64::MAX);
}

#[test]
fn small_differences_do_not_count() {
    assert!(!cutoffs_differ::<Float>(double(0.5), double(0.5)));
    assert!(!cutoffs_differ::<Float>(double(0.5), double(0.5 + 1e-10)));
    assert!(cutoffs_differ::<Float>(double(0.5), double(0.5 + 2e-9)));
    assert!(cutoffs_differ::<Float>(double(0.5 + 2e-9), double(0.5)));
    assert!(ratios_agree::<Float>(double(1.0), double(1.0)));
    assert!(ratios_agree::<Float>(double(1.0), double(1.0 - 1e-13)));
    assert!(!ratios_agree::<Float>(double(1.0), double(1.0 + 1e-9)));
    assert!(!ratios_agree::<Float>(double(0.0), double(1e-12)));
}

#[test]
fn owed_frames_are_rounded_up() {
    assert_eq!(frames_owed::<Float>(double(0.5), 20_000), 10_000);
    assert_eq!(frames_owed::<Float>(double(0.5), 3), 2);
    assert_eq!(frames_owed::<Float>(double(0.91875), 5_000), 4_594);
    assert_eq!(frames_owed::<Float>(double(3.0), 0), 0);
}

#[test]
fn sums_accumulate() {
    assert_eq!(accumulate::<Float>(1.0, 2.0, 3.0), 7.0);
    assert_eq!(unit_gain::<Float>(double(4.0)), 0.25);
    assert_eq!(unit_gain::<Float>(double(3.0)), (1.0f64 / 3.0) as f32);
}

fn plain_sinc(x: f64) -> f64 {
    if x.abs() < 1e-12 {
        1.0
    } else {
        let px = std::f64::consts::PI * x;
        px.sin() / px
    }
}

fn plain_blackman(k: usize, taps: usize) -> f64 {
    let n = k as f64;
    let m = (taps - 1) as f64;
    let a = std::f64::consts::TAU * n / m;
    0.42 - 0.5 * a.cos() + 0.08 * (2.0 * a).cos()
}

#[test]
fn sinc_values() {
    assert_eq!(value(sinc::<Float>(double(0.0))), 1.0);
    assert_eq!(value(sinc::<Float>(double(-9e-13))), 1.0);
    for x in [1e-12, 1e-6, 0.25, -0.5, 1.0, 2.75, -15.9] {
        assert_eq!(value(sinc::<Float>(double(x))), plain_sinc(x));
    }
}

#[test]
fn window_values() {
    for taps in [2, 32, 33, 512] {
        for k in 0..taps {
            assert_eq!(value(blackman::<Float>(k as u64, taps as u64)), plain_blackman(k, taps));
        }
    }
}

#[test]
fn kernel_values() {
    for (cutoff, half_taps) in [(1.0, 16), (0.5, 32), (0.91875, 18)] {
        for phase in [0, 1, 255, 511] {
            let f = phase as f64 / 512.0;
            for k in 0..2 * half_taps {
                let d = f + (half_taps as f64 - 1.0) - k as f64;
                let expected = plain_blackman(k, 2 * half_taps) * plain_sinc(cutoff * d);
                let tap = kernel_tap::<Float>(double(cutoff), half_taps, phase, 512, k);
                assert_eq!(value(tap), expected);
            }
        }
    }
}
