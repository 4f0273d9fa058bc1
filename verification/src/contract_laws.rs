//! What the operations do, from call to result: laws on the calls themselves, said without the
//! relations that the operations are proved against.

use vstd::prelude::*;
use vstd::arithmetic::div_mod::lemma_fundamental_div_mod;
use vstd::arithmetic::power2::lemma_pow2_pos;
use vstd::arithmetic::power2::lemma_pow2_strictly_increases;
use vstd::arithmetic::power2::pow2;

use crate::arithmetic::Arithmetic;
use crate::double::law_ceiling_is_the_least_above;
use crate::double::law_every_position_has_its_frame;
use crate::double::law_rounded_is_the_nearest;
use crate::double::lemma_min_positive_units;
use crate::double::Double;
use crate::formulas::frames_owed;
use crate::formulas::ratio_of_rates;
use crate::linear::LinearResampler;
use crate::resampler::law_noop_moves_all_that_fits;
use crate::resampler::law_only_zeros_are_refused;
use crate::resampler::law_usable_ratio_stays;
use crate::resampler::sanitize_ratio;
use crate::resampler::NoopResampler;
use crate::resampler::ResampleResult;
use crate::resampler::Resampler;
use crate::rounding::distance;
use crate::rounding::fine;
use crate::rounding::near;
use crate::rounding::rounds;
use crate::rounding::unit;
use crate::rubato_backend::Engine;
use crate::rubato_backend::RubatoResampler;
use crate::setup_laws::law_linear_is_made_for_its_rates;
use crate::setup_laws::law_rubato_is_made_for_its_rates;
use crate::setup_laws::law_sinc_is_made_for_its_rates;
use crate::sinc::half_taps_for;
use crate::sinc::SincResampler;
use crate::value_laws::is_ordinary;
use crate::value_laws::law_kernel_keeps_its_lobes;
use crate::value_laws::law_ratio_is_the_quotient_of_the_rates;
use crate::value_laws::law_worth_of_any_count;
use crate::value_laws::lemma_reach;

verus! {

/// A linear resampler is built exactly for rates and channels above zero, and runs at the quotient
/// of the rates.
pub proof fn law_linear_new<A: Arithmetic>(
    input_rate: u32,
    output_rate: u32,
    channels: usize,
    result: Result<LinearResampler<A>, String>,
)
    requires
        rounds::<A>(),
        call_ensures(LinearResampler::<A>::new, (input_rate, output_rate, channels), result),
    ensures
        result is Ok <==> input_rate > 0 && output_rate > 0 && channels > 0,
        result matches Ok(made) ==> {
            &&& made.valid()
            &&& near(made.current_ratio(), output_rate * unit(), input_rate as int)
            &&& made@.channels == channels
            &&& made@.read_pos.units() == 0
            &&& made@.history.end() == 0
        },
{
    law_only_zeros_are_refused(input_rate, output_rate, channels, 0, 0, 0);
    if input_rate > 0 && output_rate > 0 && channels > 0 {
        law_linear_is_made_for_its_rates::<A>(result->Ok_0@, input_rate, output_rate, channels);
    }
}

/// A sinc resampler is built exactly for rates and channels above zero, and runs at the quotient
/// of the rates.
pub proof fn law_sinc_new<A: Arithmetic>(
    input_rate: u32,
    output_rate: u32,
    channels: usize,
    result: Result<SincResampler<A>, String>,
)
    requires
        rounds::<A>(),
        call_ensures(SincResampler::<A>::new, (input_rate, output_rate, channels), result),
    ensures
        result is Ok <==> input_rate > 0 && output_rate > 0 && channels > 0,
        result matches Ok(made) ==> {
            &&& made.valid()
            &&& near(made.current_ratio(), output_rate * unit(), input_rate as int)
            &&& made@.stream.channels == channels
            &&& made@.stream.read_pos.units() == 0
            &&& made@.stream.history.end() == 0
        },
{
    law_only_zeros_are_refused(input_rate, output_rate, channels, 0, 0, 0);
    if input_rate > 0 && output_rate > 0 && channels > 0 {
        law_sinc_is_made_for_its_rates::<A>(result->Ok_0@, input_rate, output_rate, channels);
    }
}

/// A chunked resampler is built exactly for rates and channels above zero, and runs at the
/// quotient of the rates.
pub proof fn law_rubato_new<A: Arithmetic, E: Engine<A::Sample>>(
    input_rate: u32,
    output_rate: u32,
    channels: usize,
    result: Result<RubatoResampler<A, E>, String>,
)
    requires
        rounds::<A>(),
        call_ensures(RubatoResampler::<A, E>::new, (input_rate, output_rate, channels), result),
    ensures
        result is Ok <==> input_rate > 0 && output_rate > 0 && channels > 0,
        result matches Ok(made) ==> {
            &&& made.valid()
            &&& near(made.current_ratio(), output_rate * unit(), input_rate as int)
            &&& made@.channels == channels
            &&& made@.engine is None
            &&& made@.pending.len() == 0
            &&& made@.ready.len() == 0
        },
{
    law_only_zeros_are_refused(input_rate, output_rate, channels, 0, 0, 0);
    if input_rate > 0 && output_rate > 0 && channels > 0 {
        law_rubato_is_made_for_its_rates::<A, E>(
            result->Ok_0@,
            input_rate,
            output_rate,
            channels,
        );
    }
}

/// The ratio `after` is what asking for `asked` comes to: that number from `2^-1022` on, `2^-1022`
/// for less, and one for what is no number above zero.
pub open spec fn is_taken_as(asked: Double, after: Double) -> bool {
    &&& asked.is_finite() && asked.units() >= pow2(52) ==> after == asked
    &&& asked.is_finite() && 0 < asked.units() < pow2(52) ==> after.units() == pow2(52)
    &&& !asked.is_finite() || asked.units() <= 0 ==> after.units() == pow2(1074)
}

/// Asking a linear resampler for a ratio sets it, and nothing else.
pub proof fn law_linear_set_ratio<A: Arithmetic>(resampler: &mut LinearResampler<A>, ratio: Double)
    requires
        call_ensures(
            <LinearResampler<A> as Resampler<A::Sample>>::set_ratio,
            (resampler, ratio),
            (),
        ),
    ensures
        is_taken_as(ratio, final(resampler).current_ratio()),
        final(resampler)@.history == old(resampler)@.history,
        final(resampler)@.read_pos == old(resampler)@.read_pos,
        final(resampler)@.channels == old(resampler)@.channels,
{
    law_usable_ratio_stays(ratio);
}

/// Asking a sinc resampler for a ratio sets it, and nothing else: the next `process` sees to the
/// table.
pub proof fn law_sinc_set_ratio<A: Arithmetic>(resampler: &mut SincResampler<A>, ratio: Double)
    requires
        call_ensures(
            <SincResampler<A> as Resampler<A::Sample>>::set_ratio,
            (resampler, ratio),
            (),
        ),
    ensures
        is_taken_as(ratio, final(resampler).current_ratio()),
        final(resampler)@.stream.history == old(resampler)@.stream.history,
        final(resampler)@.stream.read_pos == old(resampler)@.stream.read_pos,
        final(resampler)@.stream.channels == old(resampler)@.stream.channels,
        final(resampler)@.table == old(resampler)@.table,
        final(resampler)@.table_cutoff == old(resampler)@.table_cutoff,
        final(resampler)@.half_taps == old(resampler)@.half_taps,
{
    law_usable_ratio_stays(ratio);
}

/// Asking a chunked resampler for a ratio sets it, and leaves alone what is buffered and counted.
pub proof fn law_rubato_set_ratio<A: Arithmetic, E: Engine<A::Sample>>(
    resampler: &mut RubatoResampler<A, E>,
    ratio: Double,
)
    requires
        call_ensures(
            <RubatoResampler<A, E> as Resampler<A::Sample>>::set_ratio,
            (resampler, ratio),
            (),
        ),
    ensures
        is_taken_as(ratio, final(resampler).current_ratio()),
        final(resampler)@.pending == old(resampler)@.pending,
        final(resampler)@.ready == old(resampler)@.ready,
        final(resampler)@.in_total == old(resampler)@.in_total,
        final(resampler)@.out_total == old(resampler)@.out_total,
        final(resampler)@.channels == old(resampler)@.channels,
        final(resampler).delay() == old(resampler).delay(),
        final(resampler)@.engine is Some <==> old(resampler)@.engine is Some,
{
    law_usable_ratio_stays(ratio);
}

/// A reset takes a linear resampler back to the start of the first frame, with no input, at the
/// same ratio and for the same channels.
pub proof fn law_linear_reset<A: Arithmetic>(resampler: &mut LinearResampler<A>)
    requires
        old(resampler).valid(),
        call_ensures(<LinearResampler<A> as Resampler<A::Sample>>::reset, (resampler,), ()),
    ensures
        final(resampler)@.read_pos.is_finite(),
        final(resampler)@.read_pos.units() == 0,
        final(resampler)@.history.start == 0,
        final(resampler)@.history.samples.len() == 0,
        final(resampler)@.history.silence == old(resampler)@.history.silence,
        final(resampler).current_ratio() == old(resampler).current_ratio(),
        final(resampler)@.channels == old(resampler)@.channels,
{
}

/// A reset takes a sinc resampler back to the start of the first frame, with no input, at the same
/// ratio, for the same channels and with the same table.
pub proof fn law_sinc_reset<A: Arithmetic>(resampler: &mut SincResampler<A>)
    requires
        old(resampler).valid(),
        call_ensures(<SincResampler<A> as Resampler<A::Sample>>::reset, (resampler,), ()),
    ensures
        final(resampler)@.stream.read_pos.is_finite(),
        final(resampler)@.stream.read_pos.units() == 0,
        final(resampler)@.stream.history.start == 0,
        final(resampler)@.stream.history.samples.len() == 0,
        final(resampler)@.stream.history.silence == old(resampler)@.stream.history.silence,
        final(resampler).current_ratio() == old(resampler).current_ratio(),
        final(resampler)@.stream.channels == old(resampler)@.stream.channels,
        final(resampler)@.table == old(resampler)@.table,
        final(resampler)@.half_taps == old(resampler)@.half_taps,
{
}

/// A reset leaves a chunked resampler with nothing buffered and nothing counted, and the whole
/// warm-up still to be dropped, at the same ratio and for the same channels.
pub proof fn law_rubato_reset<A: Arithmetic, E: Engine<A::Sample>>(
    resampler: &mut RubatoResampler<A, E>,
)
    requires
        call_ensures(<RubatoResampler<A, E> as Resampler<A::Sample>>::reset, (resampler,), ()),
    ensures
        final(resampler)@.pending.len() == 0,
        final(resampler)@.ready.len() == 0,
        final(resampler)@.in_total == 0,
        final(resampler)@.out_total == 0,
        !final(resampler)@.flushed,
        final(resampler)@.lead_trim == final(resampler).delay(),
        final(resampler).delay() == old(resampler).delay(),
        final(resampler).current_ratio() == old(resampler).current_ratio(),
        final(resampler)@.channels == old(resampler)@.channels,
{
}

/// The delay that is reported: none without a filter, a frame for linear interpolation, and half
/// of a kernel for sinc interpolation, of which there are 512.
pub proof fn law_latency<A: Arithmetic>(
    linear: LinearResampler<A>,
    sinc: SincResampler<A>,
    noop: NoopResampler,
    linear_frames: usize,
    sinc_frames: usize,
    noop_frames: usize,
)
    requires
        sinc.valid(),
        call_ensures(
            <LinearResampler<A> as Resampler<A::Sample>>::latency,
            (&linear,),
            linear_frames,
        ),
        call_ensures(
            <SincResampler<A> as Resampler<A::Sample>>::latency,
            (&sinc,),
            sinc_frames,
        ),
        call_ensures(<NoopResampler as Resampler<A::Sample>>::latency, (&noop,), noop_frames),
    ensures
        linear_frames == 1,
        sinc@.table.len() == 1024 * sinc_frames,
        noop_frames == 0,
{
}

/// Every call takes in all whole frames of its input, and no part of a frame, where it is answered:
/// with the channels of the resampler and room for a frame; else nothing happens.
pub open spec fn takes_whole_frames(
    answered: bool,
    input_len: int,
    channels: int,
    consumed: int,
) -> bool {
    if answered {
        &&& consumed * channels <= input_len
        &&& input_len < (consumed + 1) * channels
    } else {
        consumed == 0
    }
}

proof fn lemma_whole_frames_taken(len: int, channels: int)
    requires
        channels > 0,
        len >= 0,
    ensures
        takes_whole_frames(true, len, channels, len / channels),
{
    let q = len / channels;
    lemma_fundamental_div_mod(len, channels);
    assert(q * channels <= len < (q + 1) * channels) by (nonlinear_arith)
        requires
            len == channels * q + len % channels,
            0 <= len % channels < channels,
    ;
}

/// A call of a linear resampler takes in all whole frames, or does nothing at all.
pub proof fn law_linear_process_takes_all<A: Arithmetic>(
    resampler: &mut LinearResampler<A>,
    input: &[A::Sample],
    output: &mut [A::Sample],
    channels: usize,
    result: ResampleResult,
)
    requires
        call_ensures(
            <LinearResampler<A> as Resampler<A::Sample>>::process,
            (resampler, input, output, channels),
            result,
        ),
    ensures
        ({
            let answered = channels == old(resampler)@.channels && channels > 0
                && old(output)@.len() >= channels;
            &&& takes_whole_frames(
                answered,
                input@.len() as int,
                channels as int,
                result.input_frames_consumed as int,
            )
            &&& !answered ==> {
                &&& result.output_frames_written == 0
                &&& final(output)@ == old(output)@
                &&& final(resampler)@ == old(resampler)@
            }
            &&& final(output)@.len() == old(output)@.len()
            &&& final(resampler).current_ratio() == old(resampler).current_ratio()
        }),
{
    if channels > 0 {
        lemma_whole_frames_taken(input@.len() as int, channels as int);
    }
}

/// A call of a sinc resampler takes in all whole frames, or does nothing at all.
pub proof fn law_sinc_process_takes_all<A: Arithmetic>(
    resampler: &mut SincResampler<A>,
    input: &[A::Sample],
    output: &mut [A::Sample],
    channels: usize,
    result: ResampleResult,
)
    requires
        call_ensures(
            <SincResampler<A> as Resampler<A::Sample>>::process,
            (resampler, input, output, channels),
            result,
        ),
    ensures
        ({
            let answered = channels == old(resampler)@.stream.channels && channels > 0
                && old(output)@.len() >= channels;
            &&& takes_whole_frames(
                answered,
                input@.len() as int,
                channels as int,
                result.input_frames_consumed as int,
            )
            &&& !answered ==> {
                &&& result.output_frames_written == 0
                &&& final(output)@ == old(output)@
                &&& final(resampler)@ == old(resampler)@
            }
            &&& final(output)@.len() == old(output)@.len()
            &&& final(resampler).current_ratio() == old(resampler).current_ratio()
        }),
{
    if channels > 0 {
        lemma_whole_frames_taken(input@.len() as int, channels as int);
    }
}

/// A call of a chunked resampler takes in all whole frames, or does nothing at all.
pub proof fn law_rubato_process_takes_all<A: Arithmetic, E: Engine<A::Sample>>(
    resampler: &mut RubatoResampler<A, E>,
    input: &[A::Sample],
    output: &mut [A::Sample],
    channels: usize,
    result: ResampleResult,
)
    requires
        call_ensures(
            <RubatoResampler<A, E> as Resampler<A::Sample>>::process,
            (resampler, input, output, channels),
            result,
        ),
    ensures
        ({
            let answered = channels == old(resampler)@.channels && channels > 0
                && old(output)@.len() >= channels;
            &&& takes_whole_frames(
                answered,
                input@.len() as int,
                channels as int,
                result.input_frames_consumed as int,
            )
            &&& !answered ==> {
                &&& result.output_frames_written == 0
                &&& final(output)@ == old(output)@
                &&& final(resampler)@ == old(resampler)@
            }
            &&& final(output)@.len() == old(output)@.len()
            &&& final(resampler).current_ratio() == old(resampler).current_ratio()
        }),
{
    if channels > 0 {
        lemma_whole_frames_taken(input@.len() as int, channels as int);
    }
}

/// A pass-through call copies sample for sample as many whole frames as both buffers hold, and
/// leaves the rest of the output alone.
pub proof fn law_noop_process_copies<S: Copy>(
    resampler: &mut NoopResampler,
    input: &[S],
    output: &mut [S],
    channels: usize,
    result: ResampleResult,
)
    requires
        call_ensures(
            <NoopResampler as Resampler<S>>::process,
            (resampler, input, output, channels),
            result,
        ),
    ensures
        result.input_frames_consumed == result.output_frames_written,
        channels == 0 ==> result.output_frames_written == 0 && final(output)@ == old(output)@,
        channels > 0 ==> {
            let moved = result.output_frames_written * channels;
            let more = (result.output_frames_written + 1) * channels;
            &&& moved <= input@.len() && moved <= old(output)@.len()
            &&& more > input@.len() || more > old(output)@.len()
            &&& final(output)@.len() == old(output)@.len()
            &&& forall|i: int| 0 <= i < moved ==> #[trigger] final(output)@[i] == input@[i]
            &&& forall|i: int|
                moved <= i < old(output)@.len() ==> #[trigger] final(output)@[i] == old(output)@[i]
        },
{
    if channels > 0 {
        law_noop_moves_all_that_fits(
            input@.len() as int,
            old(output)@.len() as int,
            channels as int,
        );
        let moved = result.output_frames_written * channels;
        assert(moved >= 0) by (nonlinear_arith)
            requires
                moved == result.output_frames_written * channels,
        ;
    }
}

/// The quotient of two rates, from call to result.
pub proof fn law_ratio_of_rates<A: Arithmetic>(input_rate: u32, output_rate: u32, ratio: Double)
    requires
        rounds::<A>(),
        input_rate > 0,
        output_rate > 0,
        call_ensures(ratio_of_rates::<A>, (input_rate, output_rate), ratio),
    ensures
        near(ratio, output_rate * unit(), input_rate as int),
        input_rate == output_rate ==> ratio.units() == unit(),
{
    law_ratio_is_the_quotient_of_the_rates::<A>(input_rate, output_rate, ratio);
}

/// The frames that input is worth, from call to result.
pub proof fn law_frames_owed<A: Arithmetic>(ratio: Double, frames: u64, owed: u64)
    requires
        rounds::<A>(),
        is_ordinary(ratio),
        ratio.units() * frames <= 0x4000_0000_0000_0000 * unit(),
        call_ensures(frames_owed::<A>, (ratio, frames), owed),
    ensures
        distance(owed * unit(), ratio.units() * frames) * fine() <= 4 * (ratio.units() * frames) + 2
            * (unit() * fine()),
{
    law_worth_of_any_count::<A>(ratio, frames, owed);
}

/// The taps of a kernel, from call to result.
pub proof fn law_half_taps_for<A: Arithmetic>(cutoff: Double, half_taps: usize)
    requires
        rounds::<A>(),
        cutoff.is_finite(),
        16 * unit() <= 0x20_0000_0000_0000 * cutoff.units(),
        call_ensures(half_taps_for::<A>, (cutoff,), half_taps),
    ensures
        16 <= half_taps <= 256,
        half_taps > 16 ==> (half_taps - 1) * cutoff.units() < 16 * unit(),
        half_taps < 256 ==> 16 * unit() < (half_taps + 1) * cutoff.units(),
{
    lemma_reach();
    lemma_min_positive_units();
    assert(cutoff.units() >= pow2(52)) by (nonlinear_arith)
        requires
            16 * unit() <= 0x20_0000_0000_0000 * cutoff.units(),
            unit() >= fine() * fine(),
            fine() == 0x10_0000_0000_0000,
            fine() == pow2(52),
    ;
    law_kernel_keeps_its_lobes::<A>(cutoff, half_taps);
}

/// The ratio that is taken for one that is asked for, from call to result.
pub proof fn law_sanitize_ratio(ratio: Double, result: Double)
    requires
        call_ensures(sanitize_ratio, (ratio,), result),
    ensures
        result.is_finite(),
        result.units() >= pow2(52),
        is_taken_as(ratio, result),
{
    law_usable_ratio_stays(ratio);
    lemma_pow2_pos(52);
    lemma_pow2_strictly_increases(52, 1074);
}

/// The whole numbers next to a number, from call to result: the last that is not above it, the
/// first that is not below it, and the nearest.
pub proof fn law_whole_numbers_around(x: Double, frame: i64, up: u64, nearest: u64)
    requires
        x.is_finite(),
        0 < x.units() < i64::MAX * unit(),
        call_ensures(Double::to_frame, (x,), frame),
        call_ensures(Double::to_ceiling, (x,), up),
        call_ensures(Double::to_rounded, (x,), nearest),
    ensures
        frame * unit() <= x.units() < (frame + 1) * unit(),
        (up - 1) * unit() < x.units() <= up * unit(),
        (2 * nearest - 1) * unit() <= 2 * x.units() < (2 * nearest + 1) * unit(),
{
    lemma_pow2_pos(1074);
    let one = unit();
    assert(i64::MIN * one <= 0 && i64::MAX * one <= (i64::MAX + 1) * one && i64::MAX * one
        <= u64::MAX * one && 2 * (i64::MAX * one) <= (2 * u64::MAX + 1) * one) by (nonlinear_arith)
        requires
            one > 0,
    ;
    law_every_position_has_its_frame(x);
    law_ceiling_is_the_least_above(x);
    law_rounded_is_the_nearest(x);
}

/// A flush of a linear resampler without the channels of the stream, or without room for a frame,
/// does nothing at all; no flush writes more than the output holds.
pub proof fn law_linear_flush_needs_room<A: Arithmetic>(
    resampler: &mut LinearResampler<A>,
    output: &mut [A::Sample],
    channels: usize,
    written: usize,
)
    requires
        call_ensures(
            <LinearResampler<A> as Resampler<A::Sample>>::flush,
            (resampler, output, channels),
            written,
        ),
    ensures
        written * channels <= old(output)@.len() == final(output)@.len(),
        final(resampler).current_ratio() == old(resampler).current_ratio(),
        channels != old(resampler)@.channels || channels == 0 || old(output)@.len() < channels ==> {
            &&& written == 0
            &&& final(output)@ == old(output)@
            &&& final(resampler)@ == old(resampler)@
        },
        forall|i: int|
            written * channels <= i < old(output)@.len() ==> #[trigger] final(output)@[i] == old(
                output,
            )@[i],
{
    let count = written * channels;
    assert forall|i: int| count <= i < old(output)@.len() implies #[trigger] final(output)@[i]
        == old(output)@[i] by {
        assert(final(output)@.skip(count)[i - count] == old(output)@.skip(count)[i - count]);
    }
}

/// A flush of a sinc resampler without the channels of the stream, or without room for a frame,
/// does nothing at all; no flush writes more than the output holds.
pub proof fn law_sinc_flush_needs_room<A: Arithmetic>(
    resampler: &mut SincResampler<A>,
    output: &mut [A::Sample],
    channels: usize,
    written: usize,
)
    requires
        call_ensures(
            <SincResampler<A> as Resampler<A::Sample>>::flush,
            (resampler, output, channels),
            written,
        ),
    ensures
        written * channels <= old(output)@.len() == final(output)@.len(),
        final(resampler).current_ratio() == old(resampler).current_ratio(),
        channels != old(resampler)@.stream.channels || channels == 0 || old(output)@.len() < channels ==> {
            &&& written == 0
            &&& final(output)@ == old(output)@
            &&& final(resampler)@ == old(resampler)@
        },
        forall|i: int|
            written * channels <= i < old(output)@.len() ==> #[trigger] final(output)@[i] == old(
                output,
            )@[i],
{
    let count = written * channels;
    assert forall|i: int| count <= i < old(output)@.len() implies #[trigger] final(output)@[i]
        == old(output)@[i] by {
        assert(final(output)@.skip(count)[i - count] == old(output)@.skip(count)[i - count]);
    }
}

/// A flush of a chunked resampler without the channels of the stream, or without room for a frame,
/// does nothing at all; no flush writes more than the output holds.
pub proof fn law_rubato_flush_needs_room<A: Arithmetic, E: Engine<A::Sample>>(
    resampler: &mut RubatoResampler<A, E>,
    output: &mut [A::Sample],
    channels: usize,
    written: usize,
)
    requires
        call_ensures(
            <RubatoResampler<A, E> as Resampler<A::Sample>>::flush,
            (resampler, output, channels),
            written,
        ),
    ensures
        written * channels <= old(output)@.len() == final(output)@.len(),
        final(resampler).current_ratio() == old(resampler).current_ratio(),
        channels != old(resampler)@.channels || channels == 0 || old(output)@.len() < channels ==> {
            &&& written == 0
            &&& final(output)@ == old(output)@
            &&& final(resampler)@ == old(resampler)@
        },
        forall|i: int|
            written * channels <= i < old(output)@.len() ==> #[trigger] final(output)@[i] == old(
                output,
            )@[i],
{
    let count = written * channels;
    assert forall|i: int| count <= i < old(output)@.len() implies #[trigger] final(output)@[i]
        == old(output)@[i] by {
        assert(final(output)@.skip(count)[i - count] == old(output)@.skip(count)[i - count]);
    }
}

} // verus!
