//! The interpolating resamplers on single-precision samples.

use samplerack::sinc::half_taps_for;
use samplerack::sinc::limit_taps;
use samplerack::Arithmetic;
use samplerack::Double;
use samplerack::LinearResampler as Linear;
use samplerack::NoopResampler;
use samplerack::ResampleResult;
use samplerack::Resampler;
use samplerack::SincResampler as Sinc;

struct Float;

fn value(x: Double) -> f64 {
    f64::from_bits(x.bits)
}

fn double(x: f64) -> Double {
    Double { bits: x.to_bits() }
}

impl Arithmetic for Float {
    type Sample = f32;

    fn sum(a: Double, b: Double) -> Double {
        double(value(a) + value(b))
    }

    fn difference(a: Double, b: Double) -> Double {
        double(value(a) - value(b))
    }

    fn product(a: Double, b: Double) -> Double {
        double(value(a) * value(b))
    }

    fn quotient(a: Double, b: Double) -> Double {
        double(value(a) / value(b))
    }

    fn sine(angle: Double) -> Double {
        double(value(angle).sin())
    }

    fn cosine(angle: Double) -> Double {
        double(value(angle).cos())
    }

    fn of_count(count: u64) -> Double {
        double(count as f64)
    }

    fn of_frame(frame: i64) -> Double {
        double(frame as f64)
    }

    fn narrow(number: Double) -> f32 {
        value(number) as f32
    }

    fn silence() -> f32 {
        0.0
    }

    fn sample_sum(a: f32, b: f32) -> f32 {
        a + b
    }

    fn sample_difference(a: f32, b: f32) -> f32 {
        a - b
    }

    fn sample_product(a: f32, b: f32) -> f32 {
        a * b
    }
}

type LinearResampler = Linear<Float>;
type SincResampler = Sinc<Float>;

/// Drives a resampler to completion over `input`, returning interleaved output.
fn run_with<R: Resampler<f32>>(
    r: &mut R,
    input: &[f32],
    channels: usize,
    block_frames: usize,
    buffer_frames: usize,
) -> Vec<f32> {
    let mut out = Vec::new();
    let mut buf = vec![0.0f32; buffer_frames * channels];
    let block = block_frames * channels;
    let mut pos = 0;
    while pos < input.len() {
        let end = (pos + block).min(input.len());
        let res = r.process(&input[pos..end], &mut buf, channels);
        out.extend_from_slice(&buf[..res.output_frames_written * channels]);
        pos += res.input_frames_consumed.max(1) * channels;
    }
    loop {
        let n = r.flush(&mut buf, channels);
        if n == 0 {
            break;
        }
        out.extend_from_slice(&buf[..n * channels]);
    }
    out
}

fn run<R: Resampler<f32>>(r: &mut R, input: &[f32], channels: usize) -> Vec<f32> {
    run_with(r, input, channels, 512, 1024)
}

fn sine(freq: f32, rate: u32, frames: usize, channels: usize) -> Vec<f32> {
    let mut v = Vec::with_capacity(frames * channels);
    for n in 0..frames {
        let s = (2.0 * std::f32::consts::PI * freq * n as f32 / rate as f32).sin();
        for _ in 0..channels {
            v.push(s);
        }
    }
    v
}

fn frames(v: &[f32], channels: usize) -> usize {
    v.len() / channels
}

/// Frequency estimate via zero-crossing count, at the given output rate.
fn est_freq(v: &[f32], rate: u32, channels: usize) -> f32 {
    let n = v.len() / channels;
    let mut crossings = 0;
    for i in 1..n {
        let a = v[(i - 1) * channels];
        let b = v[i * channels];
        if (a <= 0.0 && b > 0.0) || (a >= 0.0 && b < 0.0) {
            crossings += 1;
        }
    }
    (crossings as f32 / 2.0) * rate as f32 / n as f32
}

#[test]
fn constructors_reject_bad_args() {
    assert!(LinearResampler::new(48_000, 44_100, 0).is_err());
    assert!(LinearResampler::new(0, 44_100, 1).is_err());
    assert!(SincResampler::new(48_000, 0, 1).is_err());
}

#[test]
fn noop_passes_through() {
    let mut r = NoopResampler;
    let input = sine(440.0, 48_000, 4800, 1);
    let out = run(&mut r, &input, 1);
    assert_eq!(out, input);
}

#[test]
fn lib_output_length_tracks_ratio() {
    // 48k -> 24k (ratio 0.5) should roughly halve the frame count.
    for (ctor_sinc, name) in [(true, "sinc"), (false, "linear")] {
        let input = sine(300.0, 48_000, 48_000, 1);
        let out = if ctor_sinc {
            run(&mut SincResampler::new(48_000, 24_000, 1).unwrap(), &input, 1)
        } else {
            run(&mut LinearResampler::new(48_000, 24_000, 1).unwrap(), &input, 1)
        };
        let ratio = frames(&out, 1) as f32 / frames(&input, 1) as f32;
        assert!(
            (ratio - 0.5).abs() < 0.02,
            "{name}: length ratio {ratio} should be ~0.5"
        );
    }
}

#[test]
fn upsampling_preserves_frequency_sinc() {
    // 16k -> 48k (ratio 3.0): a 1 kHz tone stays 1 kHz, and frame count triples.
    let in_rate = 16_000;
    let out_rate = 48_000;
    let input = sine(1000.0, in_rate, 16_000, 1);
    let mut r = SincResampler::new(in_rate, out_rate, 1).unwrap();
    let out = run(&mut r, &input, 1);
    let ratio = frames(&out, 1) as f32 / frames(&input, 1) as f32;
    assert!((ratio - 3.0).abs() < 0.05, "frame ratio {ratio} ~ 3.0");
    let f = est_freq(&out, out_rate, 1);
    assert!((f - 1000.0).abs() < 15.0, "freq {f} should stay ~1000 Hz");
}

#[test]
fn downsampling_preserves_frequency_sinc() {
    // 48k -> 32k: a 500 Hz tone stays 500 Hz after anti-aliased downsampling.
    let in_rate = 48_000;
    let out_rate = 32_000;
    let input = sine(500.0, in_rate, 48_000, 1);
    let mut r = SincResampler::new(in_rate, out_rate, 1).unwrap();
    let out = run(&mut r, &input, 1);
    let f = est_freq(&out, out_rate, 1);
    assert!((f - 500.0).abs() < 10.0, "freq {f} should stay ~500 Hz");
}

#[test]
fn ratio_one_is_near_identity_sinc() {
    // ratio 1.0 should reproduce the input closely (a windowed-sinc at integer
    // positions is ~a unit impulse), bar the kernel's start/end transient.
    let input = sine(440.0, 48_000, 9600, 1);
    let mut r = SincResampler::new(48_000, 48_000, 1).unwrap();
    let out = run(&mut r, &input, 1);
    let n = frames(&out, 1).min(frames(&input, 1));
    // Compare the steady middle, skipping the filter's edge transients.
    let lo = 64;
    let hi = n.saturating_sub(64);
    let mut max_err = 0.0f32;
    for i in lo..hi {
        max_err = max_err.max((out[i] - input[i]).abs());
    }
    assert!(max_err < 0.02, "ratio-1 max error {max_err} should be tiny");
}

#[test]
fn lib_stereo_channels_stay_independent() {
    // Left = 300 Hz, right = silence: resampling must not bleed L into R.
    let in_rate = 48_000;
    let frames_in = 24_000;
    let mut input = Vec::with_capacity(frames_in * 2);
    for n in 0..frames_in {
        let s = (2.0 * std::f32::consts::PI * 300.0 * n as f32 / in_rate as f32).sin();
        input.push(s);
        input.push(0.0);
    }
    let mut r = SincResampler::new(in_rate, 44_100, 2).unwrap();
    let out = run(&mut r, &input, 2);
    let right_energy: f32 = out.iter().skip(1).step_by(2).map(|s| s * s).sum();
    assert!(right_energy < 1e-3, "right channel should stay silent");
}

#[test]
fn lib_output_is_finite_and_bounded() {
    let input = sine(220.0, 44_100, 22_050, 2);
    let mut r = SincResampler::new(44_100, 48_000, 2).unwrap();
    let out = run(&mut r, &input, 2);
    assert!(!out.is_empty());
    assert!(out.iter().all(|s| s.is_finite() && s.abs() <= 1.5));
}

#[test]
fn lib_reset_equals_fresh() {
    let input = sine(440.0, 48_000, 20_000, 1);
    let mut reused = SincResampler::new(48_000, 44_100, 1).unwrap();
    let _ = run(&mut reused, &input, 1);
    reused.reset();
    let after = run(&mut reused, &input, 1);
    let mut fresh = SincResampler::new(48_000, 44_100, 1).unwrap();
    let from_fresh = run(&mut fresh, &input, 1);
    assert_eq!(after, from_fresh, "reset must behave like a fresh build");
}

#[test]
fn set_ratio_changes_output_rate() {
    // Reconfiguring the ratio mid-life takes effect (and rebuilds the sinc table).
    let mut r = SincResampler::with_ratio(double(1.0), 1);
    assert_eq!(value(r.ratio()), 1.0);
    r.set_ratio(double(0.5));
    assert_eq!(value(r.ratio()), 0.5);
    let input = sine(300.0, 48_000, 24_000, 1);
    let out = run(&mut r, &input, 1);
    let ratio = frames(&out, 1) as f32 / frames(&input, 1) as f32;
    assert!((ratio - 0.5).abs() < 0.03, "post set_ratio length ~0.5");
}

/// Drive the resampler to completion over `input` with a larger output buffer.
fn run_wide(r: &mut SincResampler, input: &[f32], channels: usize) -> Vec<f32> {
    run_with(r, input, channels, 512, 2048)
}

fn rms(v: &[f32]) -> f32 {
    if v.is_empty() {
        return 0.0;
    }
    (v.iter().map(|s| s * s).sum::<f32>() / v.len() as f32).sqrt()
}

fn tone(freq: f32, rate: u32, frames: usize) -> Vec<f32> {
    (0..frames)
        .map(|n| (2.0 * std::f32::consts::PI * freq * n as f32 / rate as f32).sin())
        .collect()
}

/// On a heavy 6:1 downsample (48k -> 8k, output Nyquist 4 kHz), a tone above the output
/// Nyquist must be strongly attenuated, while a passband tone passes at full level.
#[test]
fn heavy_downsample_attenuates_above_output_nyquist() {
    let in_rate = 48_000;
    let out_rate = 8_000; // ratio 1/6, output Nyquist 4 kHz
    let frames = 24_000;

    let mut pass_r = SincResampler::new(in_rate, out_rate, 1).unwrap();
    let pass = run_wide(&mut pass_r, &tone(1_000.0, in_rate, frames), 1); // 1 kHz, passband

    let mut stop_r = SincResampler::new(in_rate, out_rate, 1).unwrap();
    let stop = run_wide(&mut stop_r, &tone(6_000.0, in_rate, frames), 1); // 6 kHz, stopband

    let (p, s) = (rms(&pass), rms(&stop));
    assert!(p > 0.3, "passband tone should pass at full level, rms {p}");
    assert!(
        s / p < 0.05,
        "stopband tone must be >26 dB down (anti-aliased); ratio {}",
        s / p
    );
}

/// Passband level is preserved (unity DC/low-frequency gain) across a downsample.
#[test]
fn downsample_preserves_passband_level() {
    let mut r = SincResampler::new(48_000, 8_000, 1).unwrap();
    let out = run_wide(&mut r, &tone(500.0, 48_000, 24_000), 1);
    // A 500 Hz sine has RMS ~0.707; the resampled passband tone should match closely.
    assert!((rms(&out) - 0.707).abs() < 0.05, "passband rms {}", rms(&out));
}

#[test]
fn linear_heavy_downsample_is_length_aligned_no_panic() {
    // ratio 1/3 (step 3.0) — overshoots the buffer end on the last emit.
    let mut r = LinearResampler::new(48_000, 16_000, 1).unwrap();
    let input: Vec<f32> = (0..500).map(|i| (i as f32 * 0.01).sin()).collect();
    let mut out = vec![0.0; 4096];
    let res = r.process(&input, &mut out, 1);
    assert_eq!(res.input_frames_consumed, 500);
    // ~500 * 1/3 output frames, off-by-a-frame at the boundary is fine.
    assert!((res.output_frames_written as i64 - 167).abs() <= 1);
}

#[test]
fn sinc_heavy_downsample_is_length_aligned_no_panic() {
    // ratio 1/24 (step 24) — overshoots even past the sinc half-tap margin.
    let mut r = SincResampler::new(48_000, 2_000, 1).unwrap();
    let input: Vec<f32> = (0..2000).map(|i| (i as f32 * 0.01).sin()).collect();
    let mut out = vec![0.0; 4096];
    let res = r.process(&input, &mut out, 1);
    let mut tail = vec![0.0; 4096];
    let flushed = r.flush(&mut tail, 1);
    assert_eq!(res.input_frames_consumed, 2000);
    // ~2000 * 1/24 ≈ 83 total output frames across process + flush.
    let total = res.output_frames_written + flushed;
    assert!((total as i64 - 83).abs() <= 2, "got {total}");
}

#[test]
fn linear_doubles_exactly() {
    let mut r = LinearResampler::with_ratio(double(2.0), 1);
    let mut out = [9.0f32; 8];
    let res = r.process(&[0.0, 1.0, 2.0, 3.0], &mut out, 1);
    assert_eq!(
        res,
        ResampleResult { input_frames_consumed: 4, output_frames_written: 6 }
    );
    assert_eq!(out, [0.0, 0.5, 1.0, 1.5, 2.0, 2.5, 9.0, 9.0]);
    assert_eq!(r.flush(&mut out, 1), 2);
    assert_eq!(out[..2], [3.0, 1.5]);
    assert_eq!(r.flush(&mut out, 1), 0);
}

#[test]
fn linear_at_ratio_one_gives_the_input_back() {
    let input = sine(440.0, 48_000, 3_000, 2);
    for (block, buffer) in [(1, 1), (100, 7), (3_000, 4_096)] {
        let mut r = LinearResampler::new(48_000, 48_000, 2).unwrap();
        assert_eq!(run_with(&mut r, &input, 2, block, buffer), input);
    }
}

#[test]
fn linear_and_sinc_streams_are_as_long_as_their_input_is_worth() {
    for (ratio, frames, expected) in [(0.5, 5_001, 2_501), (2.0, 700, 1_400), (1.0, 33, 33), (4.0, 0, 0)] {
        let input = sine(300.0, 48_000, frames, 1);
        let linear = run(&mut LinearResampler::with_ratio(double(ratio), 1), &input, 1);
        let sinc = run(&mut SincResampler::with_ratio(double(ratio), 1), &input, 1);
        assert_eq!(linear.len(), expected);
        assert_eq!(sinc.len(), expected);
    }
}

#[test]
fn linear_halves_exactly() {
    let mut r = LinearResampler::with_ratio(double(0.5), 2);
    let mut out = [9.0f32; 8];
    let res = r.process(&[0.0, 10.0, 1.0, 11.0, 2.0, 12.0, 3.0, 13.0, 4.0, 14.0], &mut out, 2);
    assert_eq!(
        res,
        ResampleResult { input_frames_consumed: 5, output_frames_written: 2 }
    );
    assert_eq!(out[..4], [0.0, 10.0, 2.0, 12.0]);
    assert_eq!(r.flush(&mut out, 2), 1);
    assert_eq!(out[..2], [4.0, 14.0]);
}

#[test]
fn linear_stops_at_a_full_output_and_goes_on() {
    let mut r = LinearResampler::with_ratio(double(2.0), 1);
    let mut out = [0.0f32; 2];
    let res = r.process(&[0.0, 1.0, 2.0], &mut out, 1);
    assert_eq!(
        res,
        ResampleResult { input_frames_consumed: 3, output_frames_written: 2 }
    );
    assert_eq!(out, [0.0, 0.5]);
    let res = r.process(&[], &mut out, 1);
    assert_eq!(res.output_frames_written, 2);
    assert_eq!(out, [1.0, 1.5]);
    assert_eq!(r.flush(&mut out, 1), 2);
    assert_eq!(out, [2.0, 1.0]);
    assert_eq!(r.flush(&mut out, 1), 0);
}

#[test]
fn partial_frames_are_left_out() {
    let mut r = LinearResampler::with_ratio(double(1.0), 2);
    let mut out = [0.0f32; 7];
    let res = r.process(&[1.0, 2.0, 3.0, 4.0, 5.0], &mut out, 2);
    assert_eq!(res.input_frames_consumed, 2);
    assert_eq!(res.output_frames_written, 1);
    assert_eq!(out, [1.0, 2.0, 0.0, 0.0, 0.0, 0.0, 0.0]);
}

#[test]
fn mismatched_calls_do_nothing() {
    let mut linear = LinearResampler::with_ratio(double(1.0), 2);
    let mut sinc = SincResampler::with_ratio(double(1.0), 2);
    let mut out = [7.0f32; 4];
    for channels in [0, 1, 3] {
        assert_eq!(linear.process(&[1.0; 8], &mut out, channels), ResampleResult::default());
        assert_eq!(linear.flush(&mut out, channels), 0);
        assert_eq!(sinc.process(&[1.0; 8], &mut out, channels), ResampleResult::default());
        assert_eq!(sinc.flush(&mut out, channels), 0);
    }
    assert_eq!(linear.process(&[1.0; 8], &mut out[..1], 2), ResampleResult::default());
    assert_eq!(sinc.flush(&mut out[..1], 2), 0);
    assert_eq!(out, [7.0; 4]);
    // Nothing was taken in either.
    assert_eq!(linear.flush(&mut out, 2), 0);
    assert_eq!(sinc.flush(&mut out, 2), 0);
}

#[test]
fn zero_channels_convert_nothing() {
    let mut linear = LinearResampler::with_ratio(double(1.0), 0);
    let mut sinc = SincResampler::with_ratio(double(1.0), 0);
    let mut out = [0.0f32; 4];
    assert_eq!(linear.process(&[1.0; 8], &mut out, 0), ResampleResult::default());
    assert_eq!(sinc.process(&[1.0; 8], &mut out, 0), ResampleResult::default());
    assert_eq!(linear.flush(&mut out, 0), 0);
    assert_eq!(sinc.flush(&mut out, 0), 0);
}

#[test]
fn error_messages() {
    assert_eq!(
        LinearResampler::new(48_000, 44_100, 0).err(),
        Some("channel count must be greater than zero".to_string())
    );
    assert_eq!(
        LinearResampler::new(48_000, 0, 1).err(),
        Some("sample rates must be greater than zero".to_string())
    );
    assert_eq!(
        SincResampler::new(0, 44_100, 1).err(),
        Some("sample rates must be greater than zero".to_string())
    );
    assert_eq!(
        SincResampler::new(0, 44_100, 0).err(),
        Some("channel count must be greater than zero".to_string())
    );
}

#[test]
fn ratios_are_sanitized() {
    let mut r = LinearResampler::new(48_000, 24_000, 1).unwrap();
    assert_eq!(value(r.ratio()), 0.5);
    r.set_ratio(double(f64::NAN));
    assert_eq!(value(r.ratio()), 1.0);
    r.set_ratio(double(1e-310));
    assert_eq!(value(r.ratio()), f64::MIN_POSITIVE);
    let r = SincResampler::with_ratio(double(-2.0), 1);
    assert_eq!(value(r.ratio()), 1.0);
}

#[test]
fn latencies() {
    assert_eq!(LinearResampler::with_ratio(double(0.1), 1).latency(), 1);
    assert_eq!(SincResampler::with_ratio(double(3.0), 1).latency(), 16);
    assert_eq!(SincResampler::with_ratio(double(1.0), 1).latency(), 16);
    assert_eq!(SincResampler::with_ratio(double(0.5), 1).latency(), 32);
    assert_eq!(SincResampler::new(48_000, 8_000, 1).unwrap().latency(), 96);
    assert_eq!(SincResampler::with_ratio(double(1e-6), 1).latency(), 256);
}

#[test]
fn taps_are_limited() {
    assert_eq!(limit_taps(0), 16);
    assert_eq!(limit_taps(16), 16);
    assert_eq!(limit_taps(17), 17);
    assert_eq!(limit_taps(256), 256);
    assert_eq!(limit_taps(u64::MAX), 256);
}

#[test]
fn half_taps_follow_the_cutoff() {
    for (cutoff, taps) in [
        (1.0, 16),
        (0.5, 32),
        (0.3, 54),
        (0.25, 64),
        (0.0625, 256),
        (0.01, 256),
        (0.0, 256),
        (-1.0, 256),
        (f64::NAN, 256),
        (f64::INFINITY, 16),
    ] {
        assert_eq!(half_taps_for::<Float>(double(cutoff)), taps, "cutoff {cutoff}");
    }
}

#[test]
fn slices_of_any_size_lose_nothing() {
    let input = sine(330.0, 48_000, 300, 2);
    for ratio in [0.4, 1.0, 3.0] {
        let linear = run_with(
            &mut LinearResampler::with_ratio(double(ratio), 2),
            &input,
            2,
            300,
            4_000,
        );
        let sinc = run_with(
            &mut SincResampler::with_ratio(double(ratio), 2),
            &input,
            2,
            300,
            4_000,
        );
        // Both kinds write as many frames.
        assert_eq!(linear.len(), sinc.len());
        for (block, buffer) in [(17, 1), (17, 5), (300, 3), (1, 2)] {
            let cut = run_with(
                &mut LinearResampler::with_ratio(double(ratio), 2),
                &input,
                2,
                block,
                buffer,
            );
            assert_eq!(cut, linear, "ratio {ratio}, blocks of {block}, slices of {buffer}");
            let cut = run_with(
                &mut SincResampler::with_ratio(double(ratio), 2),
                &input,
                2,
                block,
                buffer,
            );
            assert_eq!(cut, sinc, "ratio {ratio}, blocks of {block}, slices of {buffer}");
        }
    }
}

#[test]
fn the_first_frame_waits_for_the_latency() {
    let mut out = [0.0f32; 64];
    for frames in 0..40 {
        let input = vec![1.0f32; frames];
        let mut linear = LinearResampler::with_ratio(double(1.0), 1);
        let written = linear.process(&input, &mut out, 1).output_frames_written;
        assert_eq!(written == 0, frames <= linear.latency());
        let mut sinc = SincResampler::with_ratio(double(1.0), 1);
        let written = sinc.process(&input, &mut out, 1).output_frames_written;
        assert_eq!(written == 0, frames <= sinc.latency());
    }
}

#[test]
fn the_table_follows_the_ratio_on_the_next_call() {
    let mut r = SincResampler::with_ratio(double(1.0), 1);
    r.set_ratio(double(0.25));
    assert_eq!(r.latency(), 16);
    let mut out = [0.0f32; 4];
    r.process(&[0.0; 4], &mut out, 1);
    assert_eq!(r.latency(), 64);
    // From one up all ratios share a cutoff.
    r.set_ratio(double(1.5));
    r.process(&[0.0; 4], &mut out, 1);
    assert_eq!(r.latency(), 16);
    r.set_ratio(double(7.0));
    r.process(&[0.0; 4], &mut out, 1);
    assert_eq!(r.latency(), 16);
}

#[test]
fn sinc_preserves_a_constant_level() {
    for ratio in [0.3, 0.75, 1.0, 1.7] {
        let mut r = SincResampler::with_ratio(double(ratio), 1);
        let out = run(&mut r, &vec![1.0; 2000], 1);
        for s in &out[100..out.len() - 100] {
            assert!((s - 1.0).abs() < 1e-4, "{s} at ratio {ratio}");
        }
    }
}

#[test]
fn sinc_reads_its_kernel_around_the_position() {
    // An impulse at frame 40, read at ratio 1: the output peaks at frame 40.
    let mut input = vec![0.0f32; 80];
    input[40] = 1.0;
    let mut r = SincResampler::with_ratio(double(1.0), 1);
    let out = run(&mut r, &input, 1);
    assert_eq!(out.len(), 80);
    let peak = out
        .iter()
        .enumerate()
        .max_by(|a, b| a.1.abs().total_cmp(&b.1.abs()))
        .unwrap()
        .0;
    assert_eq!(peak, 40);
    // Outside the kernel's reach the output is silent.
    assert!(out[..24].iter().all(|s| *s == 0.0));
    assert!(out[57..].iter().all(|s| *s == 0.0));
}

#[test]
fn output_starts_where_the_input_does() {
    let mut linear = LinearResampler::with_ratio(double(0.37), 1);
    let mut out = [0.0f32; 1];
    linear.process(&[5.0, 6.0], &mut out, 1);
    assert_eq!(out[0], 5.0);
}

#[test]
fn blocks_join_linear() {
    let input = sine(330.0, 48_000, 3_000, 2);
    for ratio in [0.29, 0.5, 0.92, 1.0, 1.6, 3.0] {
        let whole = run_with(
            &mut LinearResampler::with_ratio(double(ratio), 2),
            &input,
            2,
            3_000,
            20_000,
        );
        for block in [1, 7, 64, 1_023] {
            let cut = run_with(
                &mut LinearResampler::with_ratio(double(ratio), 2),
                &input,
                2,
                block,
                20_000,
            );
            assert_eq!(cut, whole, "ratio {ratio}, blocks of {block}");
        }
    }
}

#[test]
fn blocks_join_sinc() {
    let input = sine(330.0, 48_000, 1_500, 2);
    for ratio in [0.29, 0.92, 1.0, 2.3] {
        let whole = run_with(
            &mut SincResampler::with_ratio(double(ratio), 2),
            &input,
            2,
            1_500,
            20_000,
        );
        for block in [1, 64, 1_023] {
            let cut = run_with(
                &mut SincResampler::with_ratio(double(ratio), 2),
                &input,
                2,
                block,
                20_000,
            );
            assert_eq!(cut, whole, "ratio {ratio}, blocks of {block}");
        }
    }
}

#[test]
fn streaming_and_flushing_is_flushing_everything() {
    // With an output of one frame all but the first block is left to the flushes.
    let input = sine(330.0, 48_000, 400, 1);
    let streamed = run_with(&mut SincResampler::with_ratio(double(1.3), 1), &input, 1, 50, 4_000);
    let mut r = SincResampler::with_ratio(double(1.3), 1);
    let mut first = [0.0f32; 1];
    assert_eq!(r.process(&input, &mut first, 1).output_frames_written, 1);
    let mut rest = vec![0.0f32; 4_000];
    let n = r.flush(&mut rest, 1);
    let mut flushed = first.to_vec();
    flushed.extend_from_slice(&rest[..n]);
    assert_eq!(flushed, streamed);
}

#[test]
fn a_drained_stream_stays_drained() {
    let mut linear = LinearResampler::with_ratio(double(1.9), 1);
    let mut sinc = SincResampler::with_ratio(double(0.6), 1);
    let input = sine(100.0, 8_000, 300, 1);
    let _ = run(&mut linear, &input, 1);
    let _ = run(&mut sinc, &input, 1);
    let mut out = [4.0f32; 16];
    for _ in 0..3 {
        assert_eq!(linear.flush(&mut out, 1), 0);
        assert_eq!(sinc.flush(&mut out, 1), 0);
    }
    assert_eq!(out, [4.0; 16]);
}

#[test]
fn channels_are_converted_as_if_alone() {
    let left = sine(220.0, 8_000, 700, 1);
    let right = sine(910.0, 8_000, 700, 1);
    let mut both = Vec::new();
    for i in 0..700 {
        both.push(left[i]);
        both.push(right[i]);
    }
    let linear = run(&mut LinearResampler::with_ratio(double(0.83), 2), &both, 2);
    let alone = run(&mut LinearResampler::with_ratio(double(0.83), 1), &right, 1);
    let second: Vec<f32> = linear.iter().skip(1).step_by(2).copied().collect();
    assert_eq!(second, alone);
    let sinc = run(&mut SincResampler::with_ratio(double(0.83), 2), &both, 2);
    let alone = run(&mut SincResampler::with_ratio(double(0.83), 1), &left, 1);
    let first: Vec<f32> = sinc.iter().step_by(2).copied().collect();
    assert_eq!(first, alone);
}

#[test]
fn linear_reset_is_fresh() {
    let input = sine(440.0, 48_000, 2_000, 1);
    let mut reused = LinearResampler::new(48_000, 44_100, 1).unwrap();
    let first = run(&mut reused, &input, 1);
    reused.reset();
    assert_eq!(run(&mut reused, &input, 1), first);
}

#[test]
fn resamplers_tell_their_room() {
    let linear = LinearResampler::with_ratio(double(1.0), 1);
    assert!(linear.has_room(1_000, 1));
    assert!(!linear.has_room(usize::MAX, 1));
    assert!(linear.has_room(usize::MAX, 0));
    let sinc = SincResampler::with_ratio(double(1.0), 2);
    assert!(sinc.has_room(usize::MAX - 1, 2));
    assert!(!sinc.has_room(usize::MAX, 1));
}

#[test]
fn resamplers_are_send() {
    fn is_send<T: Send>() {}
    is_send::<LinearResampler>();
    is_send::<SincResampler>();
    is_send::<NoopResampler>();
}
