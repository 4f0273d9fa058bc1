//! The resampler contract, and the pass-through resampler.

use vstd::prelude::*;
use vstd::arithmetic::div_mod::lemma_div_is_ordered;
use vstd::arithmetic::div_mod::lemma_fundamental_div_mod;
use vstd::arithmetic::power2::lemma_pow2_pos;
use vstd::arithmetic::power2::pow2;

use crate::double::Double;
use crate::double::lemma_magnitude_order;
use crate::double::lemma_min_positive_units;
use crate::double::lemma_one_units;
use crate::double::min_positive_units;
use crate::double::MIN_POSITIVE;
use crate::double::ONE;

verus! {

/// How much input was consumed and output produced by a single `process` call.
#[derive(Debug, Clone, Copy, PartialEq, Eq, Structural)]
pub struct ResampleResult {
    pub input_frames_consumed: usize,
    pub output_frames_written: usize,
}

impl ResampleResult {
    /// Nothing consumed, nothing written.
    pub open spec fn nothing() -> Self {
        ResampleResult { input_frames_consumed: 0, output_frames_written: 0 }
    }
}

impl Default for ResampleResult {
    fn default() -> (result: Self)
        ensures
            result == ResampleResult::nothing(),
    {
        ResampleResult { input_frames_consumed: 0, output_frames_written: 0 }
    }
}

/// `after` is `before` but for its first `count` samples.
pub open spec fn writes_prefix<S>(before: Seq<S>, after: Seq<S>, count: int) -> bool {
    &&& 0 <= count <= before.len()
    &&& after.len() == before.len()
    &&& after.skip(count) == before.skip(count)
}

/// A sample-rate converter of interleaved audio.
///
/// A resampler changes a signal's sample rate by a `ratio = output_rate / input_rate`. It is
/// partial on both ends: a call may consume and write fewer frames than the buffers hold, so
/// the returned counts have to be honoured. Behind the last input block `flush` drains what
/// is left; it is called until it returns `0`.
pub trait Resampler<S: Copy>: Send {
    /// The state that every operation keeps.
    spec fn valid(&self) -> bool;

    /// Whether `samples` more samples of input fit the frame counters.
    spec fn admits(&self, samples: int, channels: int) -> bool;

    spec fn current_ratio(&self) -> Double;

    /// The delay of the resampler, in frames.
    spec fn delay(&self) -> int;

    /// Resamples interleaved input into a separate interleaved output buffer.
    fn process(&mut self, input: &[S], output: &mut [S], channels: usize) -> (result:
        ResampleResult)
        requires
            old(self).valid(),
            old(self).admits(input@.len() as int, channels as int),
        ensures
            final(self).valid(),
            final(self).current_ratio() == old(self).current_ratio(),
            result.input_frames_consumed * channels <= input@.len(),
            writes_prefix(
                old(output)@,
                final(output)@,
                result.output_frames_written * channels,
            ),
    ;

    /// Writes tail frames after the last input block, and returns how many.
    fn flush(&mut self, output: &mut [S], channels: usize) -> (written: usize)
        requires
            old(self).valid(),
        ensures
            final(self).valid(),
            final(self).current_ratio() == old(self).current_ratio(),
            writes_prefix(old(output)@, final(output)@, written * channels),
    ;

    /// Makes ready for an independent stream.
    fn reset(&mut self)
        requires
            old(self).valid(),
        ensures
            final(self).valid(),
            final(self).current_ratio() == old(self).current_ratio(),
    ;

    /// The delay of the resampler, in frames.
    fn latency(&self) -> (frames: usize)
        requires
            self.valid(),
        ensures
            frames == self.delay(),
    ;

    /// Sets the conversion ratio (`output_rate / input_rate`).
    fn set_ratio(&mut self, ratio: Double)
        requires
            old(self).valid(),
        ensures
            final(self).valid(),
    ;

    /// The conversion ratio: a finite number above zero.
    fn ratio(&self) -> (ratio: Double)
        requires
            self.valid(),
        ensures
            ratio == self.current_ratio(),
            ratio.is_usable_ratio(),
    ;
}

/// What a requested ratio is taken as: a finite number above zero as it is, though no
/// smaller than the smallest normal number, and anything else as `1.0`.
pub open spec fn sanitized(ratio: Double) -> Double {
    if !ratio.is_usable_ratio() {
        Double { bits: ONE }
    } else if ratio.units() < min_positive_units() {
        Double { bits: MIN_POSITIVE }
    } else {
        ratio
    }
}

/// Clamps a requested ratio to a finite, strictly positive number, `1.0` for what is none.
pub fn sanitize_ratio(ratio: Double) -> (result: Double)
    ensures
        result == sanitized(ratio),
        result.is_usable_ratio(),
        sanitized(result) == result,
{
    proof {
        law_sanitized_ratio_is_usable(ratio);
    }
    if ratio.usable_ratio() {
        ratio.at_least_min_positive()
    } else {
        Double::one()
    }
}

/// Why a resampler cannot be built for these rates and channels, if it cannot.
pub open spec fn construction_error(
    input_rate: u32,
    output_rate: u32,
    channels: usize,
) -> Option<Seq<char>> {
    if channels == 0 {
        Some("channel count must be greater than zero"@)
    } else if input_rate == 0 || output_rate == 0 {
        Some("sample rates must be greater than zero"@)
    } else {
        None
    }
}

/// Checks what a resampler is to be built for.
pub fn check_construction(input_rate: u32, output_rate: u32, channels: usize) -> (result: Result<
    (),
    String,
>)
    ensures
        match result {
            Ok(_) => construction_error(input_rate, output_rate, channels) is None,
            Err(message) => construction_error(input_rate, output_rate, channels) == Some(
                message@,
            ),
        },
{
    if channels == 0 {
        return Err("channel count must be greater than zero".to_string());
    }
    if input_rate == 0 || output_rate == 0 {
        return Err("sample rates must be greater than zero".to_string());
    }
    Ok(())
}

/// Whatever is asked for, the ratio in use is finite and positive, and asking for the ratio
/// in use changes nothing.
pub proof fn law_sanitized_ratio_is_usable(ratio: Double)
    ensures
        sanitized(ratio).is_usable_ratio(),
        sanitized(sanitized(ratio)) == sanitized(ratio),
{
    lemma_one_units();
    lemma_magnitude_order(0, MIN_POSITIVE as nat);
    lemma_magnitude_order(MIN_POSITIVE as nat, ONE as nat);
}

/// Of the numbers above zero, those from `2^-1022` on stay what they are, and smaller ones become
/// that number; whatever else is asked for is taken as one.
pub proof fn law_usable_ratio_stays(ratio: Double)
    ensures
        ratio.is_finite() && ratio.units() >= pow2(52) ==> sanitized(ratio) == ratio,
        ratio.is_finite() && 0 < ratio.units() < pow2(52) ==> sanitized(ratio).units() == pow2(52),
        !ratio.is_finite() || ratio.units() <= 0 ==> sanitized(ratio).units() == pow2(1074),
{
    lemma_one_units();
    lemma_min_positive_units();
    lemma_pow2_pos(52);
}

/// A resampler can be built exactly for rates and channels that are not zero. What stands against
/// it is one thing for the channels, whatever the rates are, and another for the rates.
pub proof fn law_only_zeros_are_refused(
    input_rate: u32,
    output_rate: u32,
    channels: usize,
    other_input: u32,
    other_output: u32,
    other_channels: usize,
)
    ensures
        construction_error(input_rate, output_rate, channels) is None <==> channels > 0
            && input_rate > 0 && output_rate > 0,
        construction_error(input_rate, output_rate, 0) == construction_error(
            other_input,
            other_output,
            0,
        ),
        channels > 0 && other_channels > 0 && (input_rate == 0 || output_rate == 0) && (other_input
            == 0 || other_output == 0) ==> construction_error(input_rate, output_rate, channels)
            == construction_error(other_input, other_output, other_channels),
        channels > 0 ==> construction_error(input_rate, output_rate, channels)
            != construction_error(input_rate, output_rate, 0),
{
    reveal_strlit("channel count must be greater than zero");
    reveal_strlit("sample rates must be greater than zero");
    assert("channel count must be greater than zero"@[0] == 'c');
    assert("sample rates must be greater than zero"@[0] == 's');
}

/// `x` whole units of `d` that fit into `len` take up no more than `len`.
pub proof fn lemma_frames_fit(len: int, d: int, x: int)
    requires
        0 <= len,
        0 < d,
        0 <= x <= len / d,
    ensures
        0 <= x * d <= len,
{
    lemma_fundamental_div_mod(len, d);
    assert(0 <= x * d <= len) by (nonlinear_arith)
        requires
            len == d * (len / d) + len % d,
            0 <= len % d,
            0 <= x <= len / d,
            0 < d,
    ;
}

/// `a` and `b` whole frames are `a + b` whole frames.
pub proof fn lemma_whole_frames(a: int, b: int, channels: int)
    requires
        channels > 0,
        a % channels == 0,
        b % channels == 0,
    ensures
        (a + b) % channels == 0,
        (a - b) % channels == 0,
{
    lemma_fundamental_div_mod(a, channels);
    lemma_fundamental_div_mod(b, channels);
    lemma_multiple(a / channels + b / channels, channels);
    lemma_multiple(a / channels - b / channels, channels);
    assert((a / channels + b / channels) * channels == a + b) by (nonlinear_arith)
        requires
            a == channels * (a / channels),
            b == channels * (b / channels),
    ;
    assert((a / channels - b / channels) * channels == a - b) by (nonlinear_arith)
        requires
            a == channels * (a / channels),
            b == channels * (b / channels),
    ;
}

/// `frames` frames are whole frames.
pub proof fn lemma_multiple(frames: int, channels: int)
    requires
        channels > 0,
    ensures
        (frames * channels) % channels == 0,
        (frames * channels) / channels == frames,
{
    vstd::arithmetic::div_mod::lemma_fundamental_div_mod_converse(
        frames * channels,
        channels,
        frames,
        0,
    );
}

/// A pass-through resampler: copies input to output unchanged. It ignores any ratio but
/// `1.0`.
pub struct NoopResampler;

/// The frames that a pass-through call moves: as many as both buffers hold.
pub open spec fn moved_frames(input_len: int, output_len: int, channels: int) -> int {
    if input_len / channels <= output_len / channels {
        input_len / channels
    } else {
        output_len / channels
    }
}

impl<S: Copy> Resampler<S> for NoopResampler {
    open spec fn valid(&self) -> bool {
        true
    }

    open spec fn admits(&self, samples: int, channels: int) -> bool {
        true
    }

    open spec fn current_ratio(&self) -> Double {
        Double { bits: ONE }
    }

    open spec fn delay(&self) -> int {
        0
    }

    fn process(&mut self, input: &[S], output: &mut [S], channels: usize) -> (result:
        ResampleResult)
        ensures
            channels == 0 ==> result == ResampleResult::nothing() && final(output)@ == old(
                output,
            )@,
            channels > 0 ==> {
                let frames = moved_frames(
                    input@.len() as int,
                    old(output)@.len() as int,
                    channels as int,
                );
                &&& result.input_frames_consumed == frames
                &&& result.output_frames_written == frames
                &&& final(output)@ == input@.take(frames * channels) + old(output)@.skip(
                    frames * channels,
                )
            },
    {
        if channels == 0 {
            return ResampleResult::default();
        }
        let in_frames = input.len() / channels;
        let out_frames = output.len() / channels;
        let frames: usize = if in_frames <= out_frames {
            in_frames
        } else {
            out_frames
        };
        proof {
            lemma_frames_fit(input@.len() as int, channels as int, frames as int);
            lemma_frames_fit(output@.len() as int, channels as int, frames as int);
        }
        let samples = frames * channels;
        let ghost before = output@;
        let mut i: usize = 0;
        while i < samples
            invariant
                i <= samples <= input@.len(),
                samples <= before.len(),
                output@.len() == before.len(),
                output@ == input@.take(i as int) + before.skip(i as int),
            decreases samples - i,
        {
            output[i] = input[i];
            i = i + 1;
            proof {
                assert(output@ =~= input@.take(i as int) + before.skip(i as int));
            }
        }
        proof {
            assert(output@.skip(samples as int) =~= before.skip(samples as int));
        }
        ResampleResult { input_frames_consumed: frames, output_frames_written: frames }
    }

    fn flush(&mut self, output: &mut [S], channels: usize) -> (written: usize)
        ensures
            written == 0,
            final(output)@ == old(output)@,
    {
        0
    }

    fn reset(&mut self) {
    }

    fn latency(&self) -> (frames: usize) {
        0
    }

    fn set_ratio(&mut self, ratio: Double) {
    }

    fn ratio(&self) -> (ratio: Double) {
        Double::one()
    }
}

/// A pass-through call moves the most frames that both buffers hold: these fit, and one more would
/// not.
pub proof fn law_noop_moves_all_that_fits(input_len: int, output_len: int, channels: int)
    requires
        channels > 0,
        0 <= input_len,
        0 <= output_len,
    ensures
        0 <= moved_frames(input_len, output_len, channels),
        moved_frames(input_len, output_len, channels) * channels <= input_len,
        moved_frames(input_len, output_len, channels) * channels <= output_len,
        ({
            let more = moved_frames(input_len, output_len, channels) + 1;
            more * channels > input_len || more * channels > output_len
        }),
{
    let a = input_len / channels;
    let b = output_len / channels;
    lemma_fundamental_div_mod(input_len, channels);
    lemma_fundamental_div_mod(output_len, channels);
    assert(0 <= a && a * channels <= input_len < (a + 1) * channels) by (nonlinear_arith)
        requires
            input_len == channels * a + input_len % channels,
            0 <= input_len % channels < channels,
            0 <= input_len,
    ;
    assert(0 <= b && b * channels <= output_len < (b + 1) * channels) by (nonlinear_arith)
        requires
            output_len == channels * b + output_len % channels,
            0 <= output_len % channels < channels,
            0 <= output_len,
    ;
    let moved = moved_frames(input_len, output_len, channels);
    assert(moved * channels <= a * channels && moved * channels <= b * channels)
        by (nonlinear_arith)
        requires
            moved <= a,
            moved <= b,
            channels > 0,
    ;
}

/// Whole frames of input for which the output has room pass through unchanged.
pub proof fn law_noop_passes_everything(input_len: int, output_len: int, channels: int)
    requires
        channels > 0,
        0 <= input_len <= output_len,
        input_len % channels == 0,
    ensures
        moved_frames(input_len, output_len, channels) * channels == input_len,
{
    lemma_div_is_ordered(input_len, output_len, channels);
    lemma_fundamental_div_mod(input_len, channels);
    assert((input_len / channels) * channels == channels * (input_len / channels))
        by (nonlinear_arith);
}

} // verus!
