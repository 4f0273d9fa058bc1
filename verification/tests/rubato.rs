//! The fixed-chunk resampler: on rubato, and on small engines whose output is known exactly.

use rubato::audioadapter_buffers::direct::InterleavedSlice;
use rubato::Async;
use rubato::FixedAsync;
use rubato::Indexing;
use rubato::Resampler as _;
use rubato::SincInterpolationParameters;
use rubato::SincInterpolationType;
use rubato::WindowFunction;
use samplerack::rubato_backend::Chunk;
use samplerack::rubato_backend::EngineSettings;
use samplerack::rubato_backend::FilterInterpolation;
use samplerack::rubato_backend::FilterWindow;
use samplerack::rubato_backend::FixedSide;
use samplerack::Arithmetic;
use samplerack::Double;
use samplerack::Engine;
use samplerack::ResampleResult;
use samplerack::Resampler;
use samplerack::RubatoResampler as Chunked;
use samplerack::SincResampler;

struct Float;

fn value(x: Double) -> f64 {
    f64::from_bits(x.bits)
}

fn double(x: f64) -> Double {
    Double { bits: x.to_bits() }
}

impl Arithmetic for Float {
    type Sample = f32;

    fn sum(a: Double, b: Double) -> Double {
        double(value(a) + value(b))
    }

    fn difference(a: Double, b: Double) -> Double {
        double(value(a) - value(b))
    }

    fn product(a: Double, b: Double) -> Double {
        double(value(a) * value(b))
    }

    fn quotient(a: Double, b: Double) -> Double {
        double(value(a) / value(b))
    }

    fn sine(angle: Double) -> Double {
        double(value(angle).sin())
    }

    fn cosine(angle: Double) -> Double {
        double(value(angle).cos())
    }

    fn of_count(count: u64) -> Double {
        double(count as f64)
    }

    fn of_frame(frame: i64) -> Double {
        double(frame as f64)
    }

    fn narrow(number: Double) -> f32 {
        value(number) as f32
    }

    fn silence() -> f32 {
        0.0
    }

    fn sample_sum(a: f32, b: f32) -> f32 {
        a + b
    }

    fn sample_difference(a: f32, b: f32) -> f32 {
        a - b
    }

    fn sample_product(a: f32, b: f32) -> f32 {
        a * b
    }
}

/// rubato's asynchronous sinc resampler.
struct Rubato {
    inner: Async<f32>,
    channels: usize,
}

impl Engine<f32> for Rubato {
    fn build(settings: EngineSettings) -> Self {
        let params = SincInterpolationParameters {
            sinc_len: settings.sinc_len,
            f_cutoff: value(settings.cutoff) as f32,
            oversampling_factor: settings.oversampling_factor,
            interpolation: match settings.interpolation {
                FilterInterpolation::Nearest => SincInterpolationType::Nearest,
                FilterInterpolation::Linear => SincInterpolationType::Linear,
                FilterInterpolation::Quadratic => SincInterpolationType::Quadratic,
                FilterInterpolation::Cubic => SincInterpolationType::Cubic,
            },
            window: match settings.window {
                FilterWindow::Blackman => WindowFunction::Blackman,
                FilterWindow::Blackman2 => WindowFunction::Blackman2,
                FilterWindow::BlackmanHarris => WindowFunction::BlackmanHarris,
                FilterWindow::BlackmanHarris2 => WindowFunction::BlackmanHarris2,
                FilterWindow::Hann => WindowFunction::Hann,
                FilterWindow::Hann2 => WindowFunction::Hann2,
            },
        };
        let inner = Async::<f32>::new_sinc(
            value(settings.ratio),
            value(settings.max_relative_ratio),
            &params,
            settings.chunk_frames,
            settings.channels,
            match settings.fixed {
                FixedSide::Input => FixedAsync::Input,
                FixedSide::Output => FixedAsync::Output,
            },
        )
        .expect("rubato parameters are valid");
        Rubato { inner, channels: settings.channels }
    }

    fn input_frames_next(&self) -> usize {
        self.inner.input_frames_next()
    }

    fn output_delay(&self) -> usize {
        self.inner.output_delay()
    }

    fn resample_ratio(&self) -> Double {
        double(self.inner.resample_ratio())
    }

    fn run(mut self, input: Vec<f32>, partial: Option<usize>) -> (Self, Option<Chunk<f32>>) {
        let channels = self.channels;
        let out_frames = self.inner.output_frames_next();
        let mut samples = vec![0.0f32; out_frames * channels];
        let indexing = partial.map(|frames| Indexing {
            input_offset: 0,
            output_offset: 0,
            partial_len: Some(frames),
            active_channels_mask: None,
        });
        let frames = input.len() / channels;
        let source = InterleavedSlice::new(&input, channels, frames).unwrap();
        let mut sink = InterleavedSlice::new_mut(&mut samples, channels, out_frames).unwrap();
        let done = self.inner.process_into_buffer(&source, &mut sink, indexing.as_ref());
        match done {
            Ok((consumed, produced)) => {
                samples.truncate(produced * channels);
                (self, Some(Chunk { consumed, samples }))
            }
            Err(_) => (self, None),
        }
    }

    fn restart(mut self) -> Self {
        self.inner.reset();
        self
    }

    fn retune(mut self, ratio: Double) -> (Self, bool) {
        let moved = self.inner.set_resample_ratio(value(ratio), true).is_ok();
        (self, moved)
    }
}

type RubatoResampler = Chunked<Float, Rubato>;

/// Drives a resampler to completion over `input`, returning interleaved output.
fn run_with<R: Resampler<f32>>(
    r: &mut R,
    input: &[f32],
    channels: usize,
    block_frames: usize,
    buffer_frames: usize,
) -> Vec<f32> {
    let mut out = Vec::new();
    let mut buf = vec![0.0f32; buffer_frames * channels];
    let block = block_frames * channels;
    let mut pos = 0;
    while pos < input.len() {
        let end = (pos + block).min(input.len());
        let res = r.process(&input[pos..end], &mut buf, channels);
        out.extend_from_slice(&buf[..res.output_frames_written * channels]);
        pos += res.input_frames_consumed.max(1) * channels;
    }
    loop {
        let n = r.flush(&mut buf, channels);
        if n == 0 {
            break;
        }
        out.extend_from_slice(&buf[..n * channels]);
    }
    out
}

fn run<R: Resampler<f32>>(r: &mut R, input: &[f32], channels: usize) -> Vec<f32> {
    run_with(r, input, channels, 512, 4096)
}

fn sine(freq: f32, rate: u32, frames: usize, channels: usize) -> Vec<f32> {
    let mut v = Vec::with_capacity(frames * channels);
    for n in 0..frames {
        let s = (2.0 * std::f32::consts::PI * freq * n as f32 / rate as f32).sin();
        for _ in 0..channels {
            v.push(s);
        }
    }
    v
}

fn frames(v: &[f32], channels: usize) -> usize {
    v.len() / channels
}

/// Frequency estimate via zero-crossing count, at the given output rate.
fn est_freq(v: &[f32], rate: u32, channels: usize) -> f32 {
    let n = v.len() / channels;
    let mut crossings = 0;
    for i in 1..n {
        let a = v[(i - 1) * channels];
        let b = v[i * channels];
        if (a <= 0.0 && b > 0.0) || (a >= 0.0 && b < 0.0) {
            crossings += 1;
        }
    }
    (crossings as f32 / 2.0) * rate as f32 / n as f32
}

#[test]
fn constructor_rejects_bad_args() {
    assert!(RubatoResampler::new(48_000, 0, 1).is_err());
    assert!(RubatoResampler::new(0, 44_100, 1).is_err());
    assert!(RubatoResampler::new(48_000, 44_100, 0).is_err());
}

#[test]
fn rubato_backend_output_length_tracks_ratio() {
    // 48k -> 24k (ratio 0.5) should roughly halve the frame count.
    let input = sine(300.0, 48_000, 48_000, 1);
    let mut r = RubatoResampler::new(48_000, 24_000, 1).unwrap();
    let out = run(&mut r, &input, 1);
    let ratio = frames(&out, 1) as f32 / frames(&input, 1) as f32;
    assert!((ratio - 0.5).abs() < 0.02, "length ratio {ratio} ~ 0.5");
}

#[test]
fn upsampling_preserves_frequency() {
    // 16k -> 48k (ratio 3.0): a 1 kHz tone stays 1 kHz, frame count triples.
    let in_rate = 16_000;
    let out_rate = 48_000;
    let input = sine(1000.0, in_rate, 16_000, 1);
    let mut r = RubatoResampler::new(in_rate, out_rate, 1).unwrap();
    let out = run(&mut r, &input, 1);
    let ratio = frames(&out, 1) as f32 / frames(&input, 1) as f32;
    assert!((ratio - 3.0).abs() < 0.05, "frame ratio {ratio} ~ 3.0");
    let f = est_freq(&out, out_rate, 1);
    assert!((f - 1000.0).abs() < 15.0, "freq {f} should stay ~1000 Hz");
}

#[test]
fn downsampling_preserves_frequency() {
    // 48k -> 32k: a 500 Hz tone stays 500 Hz after anti-aliased downsampling.
    let in_rate = 48_000;
    let out_rate = 32_000;
    let input = sine(500.0, in_rate, 48_000, 1);
    let mut r = RubatoResampler::new(in_rate, out_rate, 1).unwrap();
    let out = run(&mut r, &input, 1);
    let f = est_freq(&out, out_rate, 1);
    assert!((f - 500.0).abs() < 10.0, "freq {f} should stay ~500 Hz");
}

#[test]
fn leading_output_is_content_aligned() {
    // A DC input passes a lowpass unchanged. With the group delay trimmed, the very
    // first output frame sits at the signal level, not warm-up silence.
    let input = vec![1.0_f32; 8000];
    let mut r = RubatoResampler::new(48_000, 44_100, 1).unwrap();
    let out = run(&mut r, &input, 1);
    assert!(
        out[0] > 0.9,
        "trimmed output must start at the signal level; got {}",
        out[0]
    );
}

#[test]
fn rubato_backend_stereo_channels_stay_independent() {
    // Left = 300 Hz, right = silence: resampling must not bleed L into R.
    let in_rate = 48_000;
    let frames_in = 24_000;
    let mut input = Vec::with_capacity(frames_in * 2);
    for n in 0..frames_in {
        let s = (2.0 * std::f32::consts::PI * 300.0 * n as f32 / in_rate as f32).sin();
        input.push(s);
        input.push(0.0);
    }
    let mut r = RubatoResampler::new(in_rate, 44_100, 2).unwrap();
    let out = run(&mut r, &input, 2);
    let right_energy: f32 = out.iter().skip(1).step_by(2).map(|s| s * s).sum();
    assert!(right_energy < 1e-3, "right channel should stay silent");
}

#[test]
fn rubato_backend_reset_equals_fresh() {
    let input = sine(440.0, 48_000, 20_000, 1);
    let mut reused = RubatoResampler::new(48_000, 44_100, 1).unwrap();
    let _ = run(&mut reused, &input, 1);
    reused.reset();
    let after = run(&mut reused, &input, 1);
    let mut fresh = RubatoResampler::new(48_000, 44_100, 1).unwrap();
    let from_fresh = run(&mut fresh, &input, 1);
    assert_eq!(after, from_fresh, "reset must behave like a fresh build");
}

#[test]
fn rubato_backend_output_is_finite_and_bounded() {
    let input = sine(220.0, 44_100, 22_050, 2);
    let mut r = RubatoResampler::new(44_100, 48_000, 2).unwrap();
    let out = run(&mut r, &input, 2);
    assert!(!out.is_empty());
    assert!(out.iter().all(|s| s.is_finite() && s.abs() <= 1.5));
}

/// Process `input` in 512-frame blocks; if `nudge_at` is Some, call `set_ratio` once at
/// that block boundary. Returns total output frames (process + full flush).
fn run_blocks(r: &mut RubatoResampler, input: &[f32], nudge_at: Option<(usize, f64)>) -> usize {
    let mut buf = vec![0.0f32; 4096];
    let block = 512;
    let mut total = 0;
    let mut pos = 0;
    let mut bi = 0;
    while pos < input.len() {
        if let Some((at, ratio)) = nudge_at {
            if bi == at {
                r.set_ratio(double(ratio));
            }
        }
        let end = (pos + block).min(input.len());
        let res = r.process(&input[pos..end], &mut buf, 1);
        total += res.output_frames_written;
        pos = end;
        bi += 1;
    }
    loop {
        let n = r.flush(&mut buf, 1);
        if n == 0 {
            break;
        }
        total += n;
    }
    total
}

#[test]
fn midstream_ratio_change_does_not_drop_frames() {
    // Build at 1:1. A control run vs a run with a negligible mid-stream ratio nudge must
    // produce the same number of frames.
    let input = sine(440.0, 48_000, 20_000, 1);

    let mut control = RubatoResampler::new(48_000, 48_000, 1).unwrap();
    let control_len = run_blocks(&mut control, &input, None);

    let mut nudged = RubatoResampler::new(48_000, 48_000, 1).unwrap();
    let nudged_len = run_blocks(&mut nudged, &input, Some((20, 1.0 + 1e-9)));

    let diff = (control_len as i64 - nudged_len as i64).abs();
    assert!(
        diff <= 2,
        "mid-stream ratio change dropped {diff} frames (control {control_len}, nudged {nudged_len})"
    );
}

#[test]
fn flush_drains_all_buffered_input() {
    // One process of a long input into a tiny output slice buffers most of it internally;
    // flush must then emit the rest.
    let input = sine(300.0, 48_000, 20_000, 1); // 48k -> 24k, ratio 0.5
    let mut r = RubatoResampler::new(48_000, 24_000, 1).unwrap();

    let mut small = vec![0.0f32; 256];
    let res = r.process(&input, &mut small, 1);
    let mut total = res.output_frames_written;
    let mut buf = vec![0.0f32; 4096];
    loop {
        let n = r.flush(&mut buf, 1);
        if n == 0 {
            break;
        }
        total += n;
    }
    // ~20000 * 0.5 = 10000 expected.
    assert!(
        (total as i64 - 10_000).abs() <= 64,
        "expected ~10000 output frames after full flush, got {total}"
    );
}

#[test]
fn rubato_blocks_join() {
    let input = sine(330.0, 48_000, 5_000, 2);
    let whole = run_with(
        &mut RubatoResampler::new(48_000, 44_100, 2).unwrap(),
        &input,
        2,
        5_000,
        8_000,
    );
    assert_eq!(frames(&whole, 2), 4_594); // 5000 * 0.91875, rounded up
    for block in [100, 512, 1_500] {
        let cut = run_with(
            &mut RubatoResampler::new(48_000, 44_100, 2).unwrap(),
            &input,
            2,
            block,
            700,
        );
        assert_eq!(cut, whole, "blocks of {block}");
    }
}

#[test]
fn rubato_latency_is_its_delay_once_built() {
    let mut r = RubatoResampler::new(48_000, 48_000, 1).unwrap();
    assert_eq!(r.latency(), 0);
    let mut out = [0.0f32; 4];
    r.process(&[0.0; 4], &mut out, 1);
    assert_eq!(r.latency(), 64);
}

#[test]
fn the_first_flush_builds_the_engine() {
    let mut r = RubatoResampler::new(48_000, 48_000, 1).unwrap();
    let mut out = [3.0f32; 4];
    // A call that is not answered builds nothing.
    assert_eq!(r.flush(&mut out, 2), 0);
    assert_eq!(r.latency(), 0);
    assert_eq!(r.flush(&mut out, 1), 0);
    assert_eq!(out, [3.0; 4]);
    assert_eq!(r.latency(), 64);
    // The stream behind it is whole.
    let input = sine(440.0, 48_000, 3_000, 1);
    let fresh = run(&mut RubatoResampler::new(48_000, 48_000, 1).unwrap(), &input, 1);
    assert_eq!(run(&mut r, &input, 1), fresh);
}

#[test]
fn reset_after_a_ratio_change_equals_fresh() {
    let input = sine(440.0, 48_000, 5_000, 1);
    let mut r = RubatoResampler::new(48_000, 48_000, 1).unwrap();
    let mut out = vec![0.0f32; 4096];
    r.process(&input, &mut out, 1);
    // The engine follows the ratio in place, and forgets it when it restarts.
    r.set_ratio(double(1.01));
    r.process(&input, &mut out, 1);
    r.set_ratio(double(0.5));
    r.reset();
    assert_eq!(value(r.ratio()), 0.5);
    let mut fresh = RubatoResampler::with_ratio(double(0.5), 1);
    let expected = run(&mut fresh, &input, 1);
    assert_eq!(expected.len(), 2_500);
    assert_eq!(run(&mut r, &input, 1), expected);
    assert_eq!(r.latency(), fresh.latency());
    // And once more, with the ratio that the engine was built for.
    r.reset();
    assert_eq!(run(&mut r, &input, 1), expected);
}

#[test]
fn rubato_streams_are_as_long_as_their_input_is_worth() {
    for (rate, frames, expected) in [
        (24_000, 5_001, 2_501),
        (44_100, 3_333, 3_063),
        (48_000, 1_024, 1_024),
        (96_000, 700, 1_400),
        (6_000, 4_000, 500),
    ] {
        let input = sine(300.0, 48_000, frames, 1);
        for (block, buffer) in [(64, 50), (1_500, 4_096)] {
            let mut r = RubatoResampler::new(48_000, rate, 1).unwrap();
            let out = run_with(&mut r, &input, 1, block, buffer);
            assert_eq!(out.len(), expected, "rate {rate}, blocks of {block}");
        }
    }
}

#[test]
fn flushes_before_any_input_drain_nothing() {
    let input = sine(440.0, 48_000, 100, 1);
    let mut buf = [7.0f32; 256];
    let expected = run(&mut RubatoResampler::new(48_000, 44_100, 1).unwrap(), &input, 1);
    assert_eq!(expected.len(), 92); // 100 * 0.91875, rounded up
    let mut r = RubatoResampler::new(48_000, 44_100, 1).unwrap();
    for _ in 0..3 {
        assert_eq!(r.flush(&mut buf, 1), 0);
    }
    // A call without input begins no stream either.
    assert_eq!(r.process(&[], &mut buf, 1), ResampleResult::default());
    assert_eq!(r.flush(&mut buf, 1), 0);
    assert_eq!(buf, [7.0; 256]);
    assert_eq!(run(&mut r, &input, 1), expected);
    assert_eq!(r.flush(&mut buf, 1), 0);
}

#[test]
fn a_flush_behind_a_reset_equals_a_first_flush() {
    let input = sine(440.0, 48_000, 3_000, 1);
    let mut buf = [0.0f32; 4096];
    let mut expected = RubatoResampler::new(48_000, 44_100, 1).unwrap();
    assert_eq!(expected.flush(&mut buf, 1), 0);
    let expected = run(&mut expected, &input[..100], 1);
    assert_eq!(expected.len(), 92);
    // In the middle of a stream, behind its end, and before it.
    for (used, flushes) in [(2_000, 0), (3_000, 2), (0, 1)] {
        let mut r = RubatoResampler::new(48_000, 44_100, 1).unwrap();
        r.process(&input[..used], &mut buf, 1);
        for _ in 0..flushes {
            r.flush(&mut buf, 1);
        }
        r.reset();
        assert_eq!(r.flush(&mut buf, 1), 0);
        assert_eq!(run(&mut r, &input[..100], 1), expected);
    }
}

#[test]
fn rubato_and_sinc_streams_are_as_long() {
    for (input_rate, output_rate) in
        [(48_000, 44_100), (44_100, 48_000), (48_000, 24_000), (48_000, 96_000), (48_000, 48_000)]
    {
        for frames in [1, 100, 1_024, 5_001] {
            let input = sine(300.0, 48_000, frames, 1);
            let rubato =
                run(&mut RubatoResampler::new(input_rate, output_rate, 1).unwrap(), &input, 1);
            let sinc =
                run(&mut SincResampler::<Float>::new(input_rate, output_rate, 1).unwrap(), &input, 1);
            let apart = rubato.len().abs_diff(sinc.len());
            assert!(apart <= 1, "{input_rate} to {output_rate}, {frames} frames");
            // Steps of a power of two are exact, and so is the length.
            if output_rate % 24_000 == 0 && input_rate == 48_000 {
                assert_eq!(apart, 0);
            }
        }
    }
}

/// An engine at ratio one whose output tells whether it runs at any other ratio.
struct Marked {
    built: Double,
    ratio: Double,
}

impl Engine<f32> for Marked {
    fn build(settings: EngineSettings) -> Self {
        Marked { built: settings.ratio, ratio: settings.ratio }
    }

    fn input_frames_next(&self) -> usize {
        1
    }

    fn output_delay(&self) -> usize {
        0
    }

    fn resample_ratio(&self) -> Double {
        self.ratio
    }

    fn run(self, input: Vec<f32>, _partial: Option<usize>) -> (Self, Option<Chunk<f32>>) {
        let mark = if value(self.ratio) == 1.0 { 0.0 } else { 1.0 };
        let consumed = input.len();
        (self, Some(Chunk { consumed, samples: vec![mark; consumed] }))
    }

    fn restart(mut self) -> Self {
        self.ratio = self.built;
        self
    }

    fn retune(mut self, ratio: Double) -> (Self, bool) {
        self.ratio = ratio;
        (self, true)
    }
}

#[test]
fn an_engine_behind_a_reset_runs_at_the_ratio() {
    let mut out = [5.0f32; 2];
    let mut r = Chunked::<Float, Marked>::with_ratio(double(1.0), 1);
    r.process(&[3.0; 2], &mut out, 1);
    assert_eq!(out, [0.0; 2]);
    // However small the step, a restarted engine is not left at the ratio before it.
    r.set_ratio(double(1.0 + 1e-13));
    r.process(&[3.0; 2], &mut out, 1);
    assert_eq!(out, [1.0; 2]);
    r.reset();
    r.process(&[3.0; 2], &mut out, 1);
    assert_eq!(out, [1.0; 2]);
}

/// An engine at ratio one that delays the signal by `DELAY` frames of `-1`, in chunks of
/// `CHUNK` frames.
struct Delay<const CHUNK: usize, const DELAY: usize> {
    held: Vec<f32>,
    channels: usize,
    built: Double,
    ratio: Double,
    /// Calls that will fail.
    failures: usize,
}

impl<const CHUNK: usize, const DELAY: usize> Engine<f32> for Delay<CHUNK, DELAY> {
    fn build(settings: EngineSettings) -> Self {
        assert_eq!(settings.sinc_len, 128);
        assert_eq!(value(settings.cutoff), 0.95);
        assert_eq!(value(settings.cutoff) as f32, 0.95f32);
        assert_eq!(settings.oversampling_factor, 80);
        assert_eq!(settings.chunk_frames, 1024);
        assert_eq!(settings.interpolation, FilterInterpolation::Linear);
        assert_eq!(settings.window, FilterWindow::BlackmanHarris2);
        assert_eq!(settings.fixed, FixedSide::Input);
        assert_eq!(value(settings.max_relative_ratio), 8.0);
        Delay {
            held: vec![-1.0; DELAY * settings.channels],
            channels: settings.channels,
            built: settings.ratio,
            ratio: settings.ratio,
            // Ratio 3 builds an engine that fails twice.
            failures: if value(settings.ratio) == 3.0 { 2 } else { 0 },
        }
    }

    fn input_frames_next(&self) -> usize {
        CHUNK
    }

    fn output_delay(&self) -> usize {
        DELAY
    }

    fn resample_ratio(&self) -> Double {
        double(1.0)
    }

    fn run(mut self, input: Vec<f32>, partial: Option<usize>) -> (Self, Option<Chunk<f32>>) {
        assert_eq!(input.len(), CHUNK * self.channels);
        if let Some(signal) = partial {
            assert!(input[signal * self.channels..].iter().all(|s| *s == 0.0));
        }
        if self.failures > 0 {
            self.failures -= 1;
            return (self, None);
        }
        self.held.extend(input);
        let rest = self.held.split_off(CHUNK * self.channels);
        let samples = std::mem::replace(&mut self.held, rest);
        (self, Some(Chunk { consumed: CHUNK, samples }))
    }

    fn restart(mut self) -> Self {
        self.held = vec![-1.0; DELAY * self.channels];
        self.ratio = self.built;
        self
    }

    fn retune(mut self, ratio: Double) -> (Self, bool) {
        let follows = value(ratio) < 8.0;
        if follows {
            self.ratio = ratio;
        }
        (self, follows)
    }
}

type Delayed = Chunked<Float, Delay<4, 2>>;

fn ramp(frames: usize) -> Vec<f32> {
    (1..=frames).map(|n| n as f32).collect()
}

#[test]
fn warm_up_is_dropped_and_the_tail_cut() {
    let mut r = Delayed::with_ratio(double(1.0), 1);
    let mut out = [9.0f32; 32];
    let res = r.process(&ramp(10), &mut out, 1);
    assert_eq!(
        res,
        ResampleResult { input_frames_consumed: 10, output_frames_written: 6 }
    );
    assert_eq!(out[..7], [1.0, 2.0, 3.0, 4.0, 5.0, 6.0, 9.0]);
    assert_eq!(r.flush(&mut out, 1), 4);
    assert_eq!(out[..5], [7.0, 8.0, 9.0, 10.0, 5.0]);
    assert_eq!(r.flush(&mut out, 1), 0);
    assert_eq!(r.latency(), 2);
}

#[test]
fn a_long_warm_up_spans_chunks() {
    let mut r = Chunked::<Float, Delay<3, 8>>::with_ratio(double(1.0), 2);
    let input: Vec<f32> = ramp(14);
    let out = run_with(&mut r, &input, 2, 2, 5);
    assert_eq!(out, input);
}

#[test]
fn output_is_handed_out_in_order() {
    for buffer in [1, 2, 3, 7] {
        for block in [1, 4, 9] {
            let mut r = Delayed::with_ratio(double(1.0), 1);
            let input = ramp(23);
            assert_eq!(run_with(&mut r, &input, 1, block, buffer), input);
        }
    }
}

#[test]
fn surplus_is_parked() {
    let mut r = Delayed::with_ratio(double(1.0), 1);
    let mut out = [0.0f32; 1];
    assert_eq!(r.process(&ramp(12), &mut out, 1).output_frames_written, 1);
    assert_eq!(out, [1.0]);
    // The second frame of the first chunk was parked; input need not come for it.
    assert_eq!(r.process(&[], &mut out, 1).output_frames_written, 1);
    assert_eq!(out, [2.0]);
}

#[test]
fn chunked_partial_frames_are_left_out() {
    let mut r = Chunked::<Float, Delay<1, 0>>::with_ratio(double(1.0), 2);
    let mut out = [0.0f32; 5];
    let res = r.process(&[1.0, 2.0, 3.0, 4.0, 5.0], &mut out, 2);
    assert_eq!(
        res,
        ResampleResult { input_frames_consumed: 2, output_frames_written: 2 }
    );
    assert_eq!(out, [1.0, 2.0, 3.0, 4.0, 0.0]);
}

#[test]
fn a_failing_engine_loses_no_input() {
    let mut r = Delayed::with_ratio(double(3.0), 1);
    let mut out = [0.0f32; 16];
    let res = r.process(&ramp(8), &mut out, 1);
    assert_eq!(
        res,
        ResampleResult { input_frames_consumed: 8, output_frames_written: 0 }
    );
    assert_eq!(r.process(&[], &mut out, 1).output_frames_written, 0);
    assert_eq!(r.process(&[], &mut out, 1).output_frames_written, 6);
    assert_eq!(out[..6], [1.0, 2.0, 3.0, 4.0, 5.0, 6.0]);
}

#[test]
fn a_ratio_that_the_engine_follows_keeps_the_stream() {
    let mut r = Delayed::with_ratio(double(1.0), 1);
    let mut out = [0.0f32; 16];
    assert_eq!(r.process(&ramp(6), &mut out, 1).output_frames_written, 2);
    r.set_ratio(double(2.0));
    assert_eq!(value(r.ratio()), 2.0);
    // No warm-up again, and the frames in the delay line come out.
    assert_eq!(r.process(&[7.0, 8.0], &mut out, 1).output_frames_written, 4);
    assert_eq!(out[..4], [3.0, 4.0, 5.0, 6.0]);
}

#[test]
fn a_ratio_that_the_engine_refuses_rebuilds_it() {
    let mut r = Delayed::with_ratio(double(1.0), 1);
    let mut out = [0.0f32; 1];
    assert_eq!(r.process(&ramp(6), &mut out, 1).output_frames_written, 1);
    r.set_ratio(double(9.0));
    assert_eq!(value(r.ratio()), 9.0);
    // Parked output is gone with the old engine; untaken input stays.
    let mut out = [0.0f32; 16];
    assert_eq!(r.process(&[7.0, 8.0], &mut out, 1).output_frames_written, 2);
    assert_eq!(out[..2], [5.0, 6.0]);
}

#[test]
fn every_ratio_asked_for_is_set() {
    let mut r = Delayed::with_ratio(double(1.0), 1);
    let mut out = [0.0f32; 16];
    assert_eq!(r.process(&ramp(6), &mut out, 1).output_frames_written, 2);
    r.set_ratio(double(1.0));
    assert_eq!(value(r.ratio()), 1.0);
    // However small the step, the ratio moves, and the stream goes on.
    r.set_ratio(double(1.0 + 1e-13));
    assert_eq!(value(r.ratio()), 1.0 + 1e-13);
    assert_eq!(r.process(&[7.0, 8.0], &mut out, 1).output_frames_written, 4);
    assert_eq!(out[..4], [3.0, 4.0, 5.0, 6.0]);
    r.set_ratio(double(f64::NAN));
    assert_eq!(value(r.ratio()), 1.0);
    r.set_ratio(double(1e-13));
    r.set_ratio(double(5e-13));
    assert_eq!(value(r.ratio()), 5e-13);
}

#[test]
fn small_ratio_steps_do_not_add_up_to_a_rebuild() {
    let mut r = Delayed::with_ratio(double(1.0), 1);
    let mut out = [0.0f32; 16];
    assert_eq!(r.process(&ramp(6), &mut out, 1).output_frames_written, 2);
    for step in 1..=20 {
        r.set_ratio(double(1.0 + step as f64 * 4e-13));
    }
    assert_eq!(r.process(&[7.0, 8.0], &mut out, 1).output_frames_written, 4);
    assert_eq!(out[..4], [3.0, 4.0, 5.0, 6.0]);
}

#[test]
fn a_ratio_before_the_first_call_is_built_with() {
    let mut r = Delayed::with_ratio(double(1.0), 1);
    r.set_ratio(double(3.0));
    assert_eq!(value(r.ratio()), 3.0);
    let mut out = [0.0f32; 16];
    // The engine for ratio 3 fails at first.
    assert_eq!(r.process(&ramp(8), &mut out, 1).output_frames_written, 0);
}

#[test]
fn chunked_reset_is_fresh() {
    let mut r = Delayed::with_ratio(double(1.0), 1);
    let mut out = [0.0f32; 2];
    r.process(&ramp(11), &mut out, 1);
    r.flush(&mut out, 1);
    r.reset();
    let input = ramp(9);
    assert_eq!(run_with(&mut r, &input, 1, 5, 3), input);
    // Before the first call there is nothing to restart.
    let mut r = Delayed::with_ratio(double(1.0), 1);
    r.reset();
    assert_eq!(run_with(&mut r, &input, 1, 5, 3), input);
}

#[test]
fn chunked_mismatched_calls_do_nothing() {
    let mut r = Delayed::with_ratio(double(1.0), 2);
    let mut out = [5.0f32; 8];
    for channels in [0, 1, 3] {
        assert_eq!(r.process(&[1.0; 16], &mut out, channels), ResampleResult::default());
        assert_eq!(r.flush(&mut out, channels), 0);
    }
    assert_eq!(r.process(&[1.0; 16], &mut out[..1], 2), ResampleResult::default());
    assert_eq!(out, [5.0; 8]);
    // No engine was built.
    assert_eq!(r.latency(), 0);
}

#[test]
fn chunked_error_messages() {
    assert_eq!(
        Delayed::new(0, 1, 0).err(),
        Some("channel count must be greater than zero".to_string())
    );
    assert_eq!(
        Delayed::new(0, 1, 1).err(),
        Some("sample rates must be greater than zero".to_string())
    );
    assert_eq!(value(Delayed::new(48_000, 24_000, 1).unwrap().ratio()), 0.5);
    assert_eq!(value(Delayed::with_ratio(double(-1.0), 1).ratio()), 1.0);
}

#[test]
fn a_flush_behind_a_flush_only_hands_out() {
    let mut r = Delayed::with_ratio(double(1.0), 1);
    let mut out = [0.0f32; 3];
    assert_eq!(r.process(&ramp(3), &mut out, 1).output_frames_written, 0);
    assert_eq!(r.flush(&mut out[..2], 1), 2);
    assert_eq!(out[..2], [1.0, 2.0]);
    assert_eq!(r.flush(&mut out, 1), 1);
    assert_eq!(out[0], 3.0);
    assert_eq!(r.flush(&mut out, 1), 0);
    assert_eq!(r.flush(&mut out, 1), 0);
}

#[test]
fn a_reply_moves_frames() {
    let mut r = Delayed::with_ratio(double(1.0), 1);
    let mut out = [0.0f32; 8];
    // Builds the engine; three frames are pending and two of warm-up are due.
    r.process(&ramp(3), &mut out, 1);
    let engine = || Delay::<4, 2> { held: vec![], channels: 1, built: double(1.0), ratio: double(1.0), failures: 0 };
    assert!(!r.take_reply(engine(), None));
    assert!(r.take_reply(engine(), Some(Chunk { consumed: 2, samples: vec![8.0, 8.5, 9.0] })));
    assert!(r.take_tail_reply(
        engine(),
        Some(Chunk { consumed: 4, samples: vec![10.0, 11.0, 12.0] }),
        1,
        3,
    ));
    assert!(!r.take_tail_reply(engine(), Some(Chunk { consumed: 0, samples: vec![] }), 0, 3));
    assert!(!r.take_tail_reply(engine(), None, 0, 3));
    // One frame survived the warm-up, and two of the tail were owed beside it.
    assert_eq!(r.process(&[], &mut out, 1).output_frames_written, 3);
    assert_eq!(out[..3], [9.0, 10.0, 11.0]);
}

/// An engine that takes in nothing; it answers with `GIVES` samples, and with none on the
/// tail.
struct Stalled<const GIVES: usize>;

impl<const GIVES: usize> Engine<f32> for Stalled<GIVES> {
    fn build(_settings: EngineSettings) -> Self {
        Stalled
    }

    fn input_frames_next(&self) -> usize {
        2
    }

    fn output_delay(&self) -> usize {
        0
    }

    fn resample_ratio(&self) -> Double {
        double(1.0)
    }

    fn run(self, _input: Vec<f32>, partial: Option<usize>) -> (Self, Option<Chunk<f32>>) {
        let samples = match partial {
            Some(_) => vec![],
            None => vec![6.0; GIVES],
        };
        (self, Some(Chunk { consumed: 0, samples }))
    }

    fn restart(self) -> Self {
        self
    }

    fn retune(self, _ratio: Double) -> (Self, bool) {
        (self, true)
    }
}

#[test]
fn an_engine_that_takes_nothing_runs_up_to_the_room_there_is() {
    let mut r = Chunked::<Float, Stalled<1>>::with_ratio(double(1.0), 1);
    let mut out = [0.0f32; 3];
    let res = r.process(&ramp(5), &mut out, 1);
    assert_eq!(
        res,
        ResampleResult { input_frames_consumed: 5, output_frames_written: 3 }
    );
    assert_eq!(out, [6.0; 3]);
    assert_eq!(r.flush(&mut out, 1), 1);
    assert_eq!(r.flush(&mut out, 1), 0);
}

#[test]
fn an_engine_that_does_nothing_ends_the_call() {
    let mut r = Chunked::<Float, Stalled<0>>::with_ratio(double(1.0), 1);
    let mut out = [0.0f32; 3];
    let res = r.process(&ramp(5), &mut out, 1);
    assert_eq!(
        res,
        ResampleResult { input_frames_consumed: 5, output_frames_written: 0 }
    );
    assert_eq!(r.flush(&mut out, 1), 0);
}

#[test]
fn chunked_resamplers_are_send() {
    fn is_send<T: Send>() {}
    is_send::<RubatoResampler>();
    is_send::<Delayed>();
}
