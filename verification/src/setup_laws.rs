//! What the resamplers are set up to, and what they take in, said without their formulas.

use vstd::prelude::*;
use vstd::arithmetic::div_mod::lemma_fundamental_div_mod;
use vstd::arithmetic::power2::pow2;

use crate::arithmetic::Arithmetic;
use crate::double::Double;
use crate::formulas::is_ratio;
use crate::formulas::ratios_compared;
use crate::internals::law_push_keeps_earlier_frames;
use crate::internals::lemma_frames_added;
use crate::internals::lemma_sample_index;
use crate::kernel_laws::law_constants_are_what_they_say;
use crate::linear;
use crate::linear::linear_run;
use crate::linear::LinearResampler;
use crate::resampler::law_usable_ratio_stays;
use crate::resampler::lemma_frames_fit;
use crate::resampler::Resampler;
use crate::rounding::distance;
use crate::rounding::fine;
use crate::rounding::near;
use crate::rounding::rounds;
use crate::rounding::unit;
use crate::rubato_backend;
use crate::rubato_backend::advances;
use crate::rubato_backend::chunk_run;
use crate::rubato_backend::engine_ensured;
use crate::rubato_backend::goal_met;
use crate::rubato_backend::lemma_cached;
use crate::rubato_backend::lemma_without_input;
use crate::rubato_backend::processed_by;
use crate::rubato_backend::processed_to;
use crate::rubato_backend::produced_through;
use crate::rubato_backend::ran_on;
use crate::rubato_backend::ratio_changed;
use crate::rubato_backend::tail_pass;
use crate::rubato_backend::wants;
use crate::rubato_backend::Chunk;
use crate::rubato_backend::Engine;
use crate::rubato_backend::EngineSettings;
use crate::rubato_backend::FilterInterpolation;
use crate::rubato_backend::FilterWindow;
use crate::rubato_backend::FixedSide;
use crate::rubato_backend::Pipeline;
use crate::rubato_backend::RubatoResampler;
use crate::sinc;
use crate::sinc::sinc_run;
use crate::sinc::Filtered;
use crate::sinc::SincResampler;
use crate::stream::lemma_fed;
use crate::stream::Stream;
use crate::value_laws::law_ratio_is_the_quotient_of_the_rates;
use crate::value_laws::lemma_reach;

verus! {

/// A quotient of two rates is no smaller than `2^-1022`.
proof fn lemma_ratio_is_ordinary(ratio: Double, input_rate: u32, output_rate: u32)
    requires
        input_rate > 0,
        output_rate > 0,
        near(ratio, output_rate * unit(), input_rate as int),
    ensures
        ratio.units() >= pow2(52),
{
    lemma_reach();
    let n = output_rate * unit();
    let d = input_rate as int;
    let f = fine();
    let r = ratio.units();
    assert(n >= unit()) by (nonlinear_arith)
        requires
            n == output_rate * unit(),
            output_rate >= 1,
            unit() > 0,
    ;
    if r < f {
        assert(r * d <= f * d && f * d <= f * 0x1_0000_0000) by (nonlinear_arith)
            requires
                r < f,
                0 < d <= 0x1_0000_0000,
                f > 0,
        ;
        assert(f * f == 0x100_0000_0000_0000_0000_0000_0000int) by (nonlinear_arith)
            requires
                f == 0x10_0000_0000_0000,
        ;
        assert(distance(r * d, n) == n - r * d);
        assert((n - r * d) * f == n * f - (r * d) * f) by (nonlinear_arith);
        assert((r * d) * f <= (f * d) * f && (f * d) * f == (f * f) * d) by (nonlinear_arith)
            requires
                r * d <= f * d,
                f > 0,
        ;
        assert((f * f) * d + d * f < n * (f - 1)) by (nonlinear_arith)
            requires
                n >= f * f,
                f == 0x10_0000_0000_0000,
                0 < d <= 0x1_0000_0000,
        ;
        assert(n * (f - 1) == n * f - n) by (nonlinear_arith);
        assert(false);
    }
}

/// A linear resampler that is made for two rates runs at their quotient, to within the rounding,
/// with the channels it was made for, from the start of the first frame on.
pub proof fn law_linear_is_made_for_its_rates<A: Arithmetic>(
    made: Stream<A::Sample>,
    input_rate: u32,
    output_rate: u32,
    channels: usize,
)
    requires
        rounds::<A>(),
        input_rate > 0,
        output_rate > 0,
        linear::made_for_rates::<A>(made, input_rate, output_rate, channels),
    ensures
        near(made.ratio, output_rate * unit(), input_rate as int),
        input_rate == output_rate ==> made.ratio.units() == unit(),
        made.channels == channels,
        made.read_pos.is_finite(),
        made.read_pos.units() == 0,
        made.history.end() == 0,
{
    let ratio = choose|ratio: Double|
        is_ratio::<A>(input_rate, output_rate, ratio) && #[trigger] linear::made_with::<A>(
            made,
            ratio,
            channels,
        );
    law_ratio_is_the_quotient_of_the_rates::<A>(input_rate, output_rate, ratio);
    lemma_ratio_is_ordinary(ratio, input_rate, output_rate);
    law_usable_ratio_stays(ratio);
}

/// A sinc resampler that is made for two rates runs at their quotient, to within the rounding,
/// with the channels it was made for, from the start of the first frame on.
pub proof fn law_sinc_is_made_for_its_rates<A: Arithmetic>(
    made: Filtered<A::Sample>,
    input_rate: u32,
    output_rate: u32,
    channels: usize,
)
    requires
        rounds::<A>(),
        input_rate > 0,
        output_rate > 0,
        sinc::made_for_rates::<A>(made, input_rate, output_rate, channels),
    ensures
        near(made.stream.ratio, output_rate * unit(), input_rate as int),
        input_rate == output_rate ==> made.stream.ratio.units() == unit(),
        made.stream.channels == channels,
        made.stream.read_pos.is_finite(),
        made.stream.read_pos.units() == 0,
        made.stream.history.end() == 0,
{
    let ratio = choose|ratio: Double|
        is_ratio::<A>(input_rate, output_rate, ratio) && #[trigger] sinc::made_with::<A>(
            made,
            ratio,
            channels,
        );
    law_ratio_is_the_quotient_of_the_rates::<A>(input_rate, output_rate, ratio);
    lemma_ratio_is_ordinary(ratio, input_rate, output_rate);
    law_usable_ratio_stays(ratio);
}

/// A chunked resampler that is made for two rates runs at their quotient, to within the rounding,
/// with the channels it was made for, and has neither input nor output nor an engine yet.
pub proof fn law_rubato_is_made_for_its_rates<A: Arithmetic, E: Engine<A::Sample>>(
    made: Pipeline<A::Sample, E>,
    input_rate: u32,
    output_rate: u32,
    channels: usize,
)
    requires
        rounds::<A>(),
        input_rate > 0,
        output_rate > 0,
        rubato_backend::made_for_rates::<A, E>(made, input_rate, output_rate, channels),
    ensures
        near(made.ratio, output_rate * unit(), input_rate as int),
        input_rate == output_rate ==> made.ratio.units() == unit(),
        made.channels == channels,
        made.engine is None,
        made.pending.len() == 0,
        made.ready.len() == 0,
        made.in_total == 0,
        made.out_total == 0,
        !made.flushed,
{
    let ratio = choose|ratio: Double|
        is_ratio::<A>(input_rate, output_rate, ratio) && #[trigger] rubato_backend::made_with::<
            A,
            E,
        >(made, ratio, channels);
    law_ratio_is_the_quotient_of_the_rates::<A>(input_rate, output_rate, ratio);
    lemma_ratio_is_ordinary(ratio, input_rate, output_rate);
    law_usable_ratio_stays(ratio);
}

/// A call is answered exactly where it comes with the channels of the stream, of which there are
/// some, and the output holds a whole frame; and input fits exactly where the frame counter holds
/// the end of what is then buffered.
pub proof fn law_calls_with_room_are_answered<S>(
    stream: Stream<S>,
    input: Seq<S>,
    output_len: int,
    channels: usize,
)
    requires
        stream.valid(),
        output_len >= 0,
    ensures
        stream.accepts(output_len, channels) <==> channels == stream.channels && channels > 0
            && output_len / (channels as int) > 0,
        stream.channels > 0 ==> (stream.has_room(input.len() as int, stream.channels as int)
            <==> stream.fed(input).history.end() <= i64::MAX),
        stream.has_room(input.len() as int, 0),
{
    if channels > 0 {
        let c = channels as int;
        lemma_fundamental_div_mod(output_len, c);
        assert(output_len >= c <==> output_len / c > 0) by (nonlinear_arith)
            requires
                output_len == c * (output_len / c) + output_len % c,
                0 <= output_len % c < c,
        ;
    }
    if stream.channels > 0 {
        let c = stream.channels as int;
        let frames = input.len() as int / c;
        lemma_fundamental_div_mod(input.len() as int, c);
        assert(frames >= 0) by (nonlinear_arith)
            requires
                input.len() == c * frames + input.len() as int % c,
                0 <= input.len() as int % c < c,
                input.len() >= 0,
        ;
        lemma_frames_fit(input.len() as int, c, frames);
        lemma_frames_added(stream.history.samples.len() as int, c, frames);
        assert(stream.fed(input).history.samples.len() == stream.history.samples.len() + frames
            * c);
    }
}

/// A chunked resampler answers the calls that the others answer.
pub proof fn law_rubato_answers_the_same_calls<S, E>(
    state: Pipeline<S, E>,
    stream: Stream<S>,
    output_len: int,
    channels: usize,
)
    requires
        state.channels == stream.channels,
    ensures
        state.accepts(output_len, channels) <==> stream.accepts(output_len, channels),
{
}

/// What is fed can be read back: every whole frame of the input lies behind the frames that were
/// there, sample for sample, and silence lies behind it. The frames that were there, the ratio and
/// the position stay as they are.
pub proof fn law_fed_input_reads_back<S>(
    stream: Stream<S>,
    input: Seq<S>,
    abs: int,
    ch: int,
)
    requires
        stream.valid(),
        stream.channels > 0,
        stream.has_room(input.len() as int, stream.channels as int),
        0 <= ch < stream.channels,
    ensures
        ({
            let fed = stream.fed(input);
            let c = stream.channels as int;
            let frames = input.len() as int / c;
            let end = stream.history.end();
            &&& fed.history.end() == end + frames
            &&& end <= abs < end + frames ==> fed.history.at(abs, ch) == input[(abs - end) * c
                + ch]
            &&& abs >= end + frames ==> fed.history.at(abs, ch) == stream.history.silence
            &&& abs < end ==> fed.history.at(abs, ch) == stream.history.at(abs, ch)
            &&& fed.ratio == stream.ratio
            &&& fed.read_pos == stream.read_pos
            &&& fed.channels == stream.channels
        }),
{
    let fed = stream.fed(input);
    let c = stream.channels as int;
    let frames = input.len() as int / c;
    let end = stream.history.end();
    let old_len = stream.history.samples.len() as int;
    let held = stream.history.frames();
    lemma_fed(stream, input);
    lemma_frames_fit(input.len() as int, c, frames);
    lemma_fundamental_div_mod(old_len, c);
    assert(old_len == held * c) by (nonlinear_arith)
        requires
            old_len == c * held,
    ;
    if end <= abs < end + frames {
        let k = abs - end;
        lemma_sample_index(input.len() as int, c, k, ch);
        assert(0 <= k * c + ch < frames * c) by (nonlinear_arith)
            requires
                0 <= k < frames,
                0 <= ch < c,
        ;
        assert((abs - stream.history.start) * c + ch == old_len + (k * c + ch)) by (nonlinear_arith)
            requires
                abs - stream.history.start == held + k,
                old_len == held * c,
        ;
    } else if abs < end && stream.history.holds(abs) {
        law_push_keeps_earlier_frames(stream.history, input.take(frames * c), abs, ch);
    }
}

/// The engine of a chunked resampler is built for the ratio and the channels in use: a sinc filter
/// of 128 taps, 80-fold oversampled and linearly interpolated, under a squared Blackman-Harris
/// window, with a cutoff of 0.95, that takes 1024 frames of input at a time and can move by up to
/// a factor of eight. The delay that is reported is the one that the engine names, and all of it
/// is still to be dropped.
pub proof fn law_engine_is_built_for_the_ratio<A: Arithmetic, E: Engine<A::Sample>>(
    before: Pipeline<A::Sample, E>,
    after: RubatoResampler<A, E>,
)
    requires
        engine_ensured::<A, E>(before, after@),
        before.engine is None || !ratios_compared::<A>(before.built_ratio, before.ratio, true),
    ensures
        after.current_ratio() == before.ratio,
        after@.built_ratio == before.ratio,
        after@.engine is Some,
        exists|settings: EngineSettings, delay: usize|
            {
                &&& #[trigger] call_ensures(E::build, (settings,), after@.engine->0)
                &&& #[trigger] call_ensures(E::output_delay, (&after@.engine->0,), delay)
                &&& after.delay() == delay
                &&& after@.lead_trim == delay
                &&& settings.ratio == before.ratio
                &&& settings.channels == before.channels
                &&& settings.sinc_len == 128
                &&& settings.oversampling_factor == 80
                &&& settings.chunk_frames == 1024
                &&& settings.interpolation == FilterInterpolation::Linear
                &&& settings.window == FilterWindow::BlackmanHarris2
                &&& settings.fixed == FixedSide::Input
                &&& settings.max_relative_ratio.units() == 8 * unit()
                &&& distance(settings.cutoff.units() * 100, 95 * unit()) * fine() <= 100 * unit()
            },
{
    law_constants_are_what_they_say();
    let (engine, delay) = choose|engine: E, delay: usize|
        {
            &&& call_ensures(
                E::build,
                (EngineSettings::good_quality(before.ratio, before.channels),),
                engine,
            )
            &&& #[trigger] call_ensures(E::output_delay, (&engine,), delay)
            &&& after@ == before.rebuilt(engine, delay as int)
        };
    let settings = EngineSettings::good_quality(before.ratio, before.channels);
    assert(call_ensures(E::build, (settings,), after@.engine->0));
    assert(call_ensures(E::output_delay, (&after@.engine->0,), delay));
}

/// A change of the ratio takes effect: it is the ratio in use from then on, and the engine of the
/// next call runs at it, or at one that agrees with it, because it followed or was built anew.
pub proof fn law_ratio_change_takes_effect<A: Arithmetic, E: Engine<A::Sample>>(
    before: Pipeline<A::Sample, E>,
    after: Pipeline<A::Sample, E>,
    ratio: Double,
    next: Pipeline<A::Sample, E>,
)
    requires
        ratio_changed::<A, E>(before, after, ratio),
        engine_ensured::<A, E>(after, next),
    ensures
        after.ratio == ratio,
        after.channels == before.channels,
        next.ratio == ratio,
        next.engine is Some,
        next.built_ratio == ratio || ratios_compared::<A>(next.built_ratio, ratio, true),
        ratio != before.ratio && before.engine is Some ==> exists|engine: E, moved: bool|
            #[trigger]
            call_ensures(E::retune, (before.engine->0, ratio), (engine, moved)) && after.engine
                == Some(engine) && after.built_ratio == if moved {
                ratio
            } else {
                before.built_ratio
            },
        ratio == before.ratio || before.engine is None ==> after.engine == before.engine,
{
}

/// The delay that a linear resampler reports is what its output waits for: within the input, no
/// frame comes out before as many frames behind its own are there, and none that could come out
/// is held back while there is room.
pub proof fn law_linear_latency_is_what_output_waits_for<A: Arithmetic>(
    resampler: LinearResampler<A>,
    after: Stream<A::Sample>,
    positions: Seq<Double>,
    shown: Seq<A::Sample>,
    output: Seq<A::Sample>,
    k: int,
)
    requires
        linear_run::<A>(resampler@, after, positions, false, shown, output),
        0 <= k < positions.len(),
    ensures
        k < positions.len() - 1 ==> positions[k].frame() + resampler.delay()
            < resampler@.history.end(),
        positions.len() - 1 < shown.len() as int / (resampler@.channels as int)
            ==> positions.last().frame() + resampler.delay() >= resampler@.history.end(),
        resampler.delay() == 1,
{
}

/// The delay that a sinc resampler reports is what its output waits for: within the input, no
/// frame comes out before as many frames behind its own are there, and none that could come out
/// is held back while there is room.
pub proof fn law_sinc_latency_is_what_output_waits_for<A: Arithmetic>(
    resampler: SincResampler<A>,
    after: Filtered<A::Sample>,
    positions: Seq<Double>,
    shown: Seq<A::Sample>,
    output: Seq<A::Sample>,
    k: int,
)
    requires
        sinc_run::<A>(resampler@, after, positions, false, shown, output),
        0 <= k < positions.len(),
    ensures
        k < positions.len() - 1 ==> positions[k].frame() + resampler.delay()
            < resampler@.stream.history.end(),
        positions.len() - 1 < shown.len() as int / (resampler@.stream.channels as int)
            ==> positions.last().frame() + resampler.delay()
            >= resampler@.stream.history.end(),
        resampler.delay() * 1024 == resampler@.table.len() || !resampler.valid(),
{
    assert(positions.last() == positions[positions.len() - 1]);
}

/// Running chunks keeps the engine there, up to the last of the states between them.
proof fn lemma_engine_stays<S, E: Engine<S>>(
    states: Seq<Pipeline<S, E>>,
    before: Pipeline<S, E>,
    after: Pipeline<S, E>,
    goal: Option<usize>,
)
    requires
        before.engine is Some,
        produced_through(states, before, after, goal),
    ensures
        states.last().engine is Some,
{
    if states.len() > 1 {
        let k = states.len() - 2;
        assert(advances(states[k], states[k + 1], goal));
        assert(chunk_run(states[k], states[k + 1], true));
    }
}

/// A `process` call goes on as long as it can: behind it the output is full, or what input is left
/// is less than the engine wants for its next chunk, where an engine always answers, and always
/// wants and takes some input.
pub proof fn law_process_fills_the_output<A: Arithmetic, E: Engine<A::Sample>>(
    before: Pipeline<A::Sample, E>,
    after: Pipeline<A::Sample, E>,
    input: Seq<A::Sample>,
    shown: Seq<A::Sample>,
    output: Seq<A::Sample>,
    written: int,
)
    requires
        before.channels > 0,
        shown.len() <= usize::MAX,
        processed_to::<A, E>(before, after, input, shown, output, written),
        forall|state: Pipeline<A::Sample, E>, needed: usize| #[trigger]
            wants(state, needed) ==> needed > 0,
        forall|
            state: Pipeline<A::Sample, E>,
            chunk: Vec<A::Sample>,
            partial: Option<usize>,
            next: E,
            reply: Option<Chunk<A::Sample>>,
        | #[trigger]
            ran_on(state, chunk, partial, next, reply) ==> reply is Some && reply->0.consumed > 0,
    ensures
        written == shown.len() as int / (before.channels as int) || exists|needed: usize|
            #[trigger]
            wants(after, needed) && after.pending_frames() < needed,
{
    let c = before.channels as int;
    let goal = Some(shown.len() as usize);
    let (built, full) = choose|built: Pipeline<A::Sample, E>, full: Pipeline<A::Sample, E>|
        {
            let count = full.handed_out(shown.len() as int);
            &&& #[trigger] processed_by::<A, E>(before, built, full, input, shown.len() as usize)
            &&& after == full.drained(count)
            &&& output == full.ready.take(count) + shown.skip(count)
            &&& written * before.channels == count
        };
    let fed = built.fed(input);
    let states = choose|states: Seq<Pipeline<A::Sample, E>>|
        produced_through(states, fed, full, goal);
    assert(built.channels == before.channels && built.engine is Some);
    lemma_engine_stays(states, fed, full, goal);
    lemma_channels_stay(states, fed, full, goal, states.len() - 1);
    let last = states.last();
    if goal_met(last, goal) {
        let frames = shown.len() as int / c;
        lemma_frames_fit(shown.len() as int, c, frames);
        assert(written == frames) by (nonlinear_arith)
            requires
                written * c == frames * c,
                c > 0,
        ;
    } else if chunk_run(last, full, true) {
        lemma_chunk_takes_input(last, full);
        assert(false);
    } else {
        assert(chunk_run(last, full, false));
        let needed = choose|needed: usize| #[trigger]
            wants(last, needed) && last.pending_frames() < needed && full == last;
        assert(wants(after, needed));
    }
}

/// Running chunks leaves the channel count alone.
proof fn lemma_channels_stay<S, E: Engine<S>>(
    states: Seq<Pipeline<S, E>>,
    before: Pipeline<S, E>,
    after: Pipeline<S, E>,
    goal: Option<usize>,
    k: int,
)
    requires
        produced_through(states, before, after, goal),
        0 <= k < states.len(),
    ensures
        states[k].channels == before.channels,
    decreases k,
{
    if k > 0 {
        lemma_channels_stay(states, before, after, goal, k - 1);
        assert(advances(states[k - 1], states[k - 1 + 1], goal));
        assert(chunk_run(states[k - 1], states[k], true));
    }
}

/// A chunk takes some of the pending input off, where the engine wants and takes some.
proof fn lemma_chunk_takes_input<S, E: Engine<S>>(before: Pipeline<S, E>, after: Pipeline<S, E>)
    requires
        before.channels > 0,
        chunk_run(before, after, true),
        forall|state: Pipeline<S, E>, needed: usize| #[trigger] wants(state, needed) ==> needed > 0,
        forall|
            state: Pipeline<S, E>,
            chunk: Vec<S>,
            partial: Option<usize>,
            next: E,
            reply: Option<Chunk<S>>,
        | #[trigger]
            ran_on(state, chunk, partial, next, reply) ==> reply is Some && reply->0.consumed > 0,
    ensures
        after.pending.len() < before.pending.len(),
{
    let c = before.channels as int;
    let (needed, input, next, reply) = choose|
        needed: usize,
        input: Vec<S>,
        next: E,
        reply: Option<Chunk<S>>,
    |
        {
            &&& #[trigger] wants(before, needed)
            &&& #[trigger] ran_on(before, input, None, next, reply)
            &&& before.pending_frames() >= needed
            &&& input@ == before.pending.take(needed * before.channels)
            &&& after == before.answered(next, reply)
            &&& true == reply is Some
        };
    let consumed = reply->0.consumed as int;
    lemma_fundamental_div_mod(before.pending.len() as int, c);
    assert(before.pending.len() > 0) by (nonlinear_arith)
        requires
            before.pending.len() == c * (before.pending.len() as int / c)
                + before.pending.len() as int % c,
            0 <= before.pending.len() as int % c,
            before.pending.len() as int / c >= 1,
            c > 0,
    ;
    assert(consumed * c > 0) by (nonlinear_arith)
        requires
            consumed > 0,
            c > 0,
    ;
    assert(after.pending == before.without_input(consumed).pending);
}

/// A chunk that ran was the first of the pending input, as much as the engine wanted and not named
/// as partial; what the engine took of it is no longer pending, and the rest still is, in order.
pub proof fn law_chunk_is_the_first_of_the_input<S, E: Engine<S>>(
    before: Pipeline<S, E>,
    after: Pipeline<S, E>,
)
    requires
        before.channels > 0,
        chunk_run(before, after, true),
    ensures
        exists|needed: usize, input: Vec<S>, next: E, reply: Option<Chunk<S>>|
            {
                &&& #[trigger] wants(before, needed)
                &&& #[trigger] ran_on(before, input, None, next, reply)
                &&& reply is Some
                &&& input@.len() == needed * before.channels <= before.pending.len()
                &&& forall|i: int| 0 <= i < input@.len() ==> input@[i] == #[trigger]
                    before.pending[i]
                &&& after.engine == Some(next)
                &&& reply->0.consumed * before.channels <= before.pending.len() ==> {
                    &&& after.pending.len() == before.pending.len() - reply->0.consumed
                        * before.channels
                    &&& forall|i: int|
                        0 <= i < after.pending.len() ==> #[trigger] after.pending[i]
                            == before.pending[i + reply->0.consumed * before.channels]
                }
            },
{
    let c = before.channels as int;
    let (needed, input, next, reply) = choose|
        needed: usize,
        input: Vec<S>,
        next: E,
        reply: Option<Chunk<S>>,
    |
        {
            &&& #[trigger] wants(before, needed)
            &&& #[trigger] ran_on(before, input, None, next, reply)
            &&& before.pending_frames() >= needed
            &&& input@ == before.pending.take(needed * before.channels)
            &&& after == before.answered(next, reply)
            &&& true == reply is Some
        };
    lemma_frames_fit(before.pending.len() as int, c, needed as int);
    let consumed = reply->0.consumed as int;
    assert(consumed * c >= 0) by (nonlinear_arith)
        requires
            consumed >= 0,
            c > 0,
    ;
    assert(after.pending == before.without_input(consumed).pending);
    assert(wants(before, needed) && ran_on(before, input, None, next, reply));
}

/// A pass over the tail runs the engine on the signal that is left and on silence behind it, names
/// the frames of signal, and delivers no more than is owed. There may be another pass exactly
/// where the engine gave a frame.
pub proof fn law_tail_pass_is_signal_and_silence<S, E: Engine<S>>(
    before: Pipeline<S, E>,
    after: Pipeline<S, E>,
    signal: usize,
    needed: usize,
    owed: u64,
    more: bool,
)
    requires
        before.valid(),
        before.channels > 0,
        before.engine is Some,
        before.out_total < owed,
        needed * before.channels <= usize::MAX,
        signal <= before.pending_frames(),
        signal <= needed,
        tail_pass(before, after, signal, needed, owed, more),
    ensures
        exists|input: Vec<S>, next: E, reply: Option<Chunk<S>>|
            {
                &&& #[trigger] ran_on(before, input, Some(signal), next, reply)
                &&& input@.len() == needed * before.channels
                &&& forall|i: int|
                    0 <= i < signal * before.channels ==> #[trigger] input@[i]
                        == before.pending[i]
                &&& forall|i: int|
                    signal * before.channels <= i < input@.len() ==> #[trigger] input@[i]
                        == before.silence
                &&& after.engine == Some(next)
                &&& more <==> reply is Some && reply->0.samples@.len() as int / (
                before.channels as int) > 0
            },
        before.out_total <= after.out_total <= owed,
        after.in_total == before.in_total,
{
    reveal(tail_pass);
    let c = before.channels as int;
    let (input, next, reply) = choose|input: Vec<S>, next: E, reply: Option<Chunk<S>>|
        {
            &&& #[trigger] ran_on(before, input, Some(signal), next, reply)
            &&& input@ == before.tail_input(signal as int, needed as int)
            &&& after == before.tail_answered(next, reply, signal as int, owed as int)
            &&& more == (reply is Some && reply->0.samples@.len() >= before.channels)
        };
    lemma_frames_fit(before.pending.len() as int, c, signal as int);
    assert((needed - signal) * c == needed * c - signal * c && (needed - signal) * c >= 0)
        by (nonlinear_arith)
        requires
            signal <= needed,
            c > 0,
    ;
    if reply is Some {
        let len = reply->0.samples@.len() as int;
        lemma_fundamental_div_mod(len, c);
        assert(len >= c <==> len / c > 0) by (nonlinear_arith)
            requires
                len == c * (len / c) + len % c,
                0 <= len % c < c,
        ;
        let taken = Pipeline { engine: Some(next), ..before.without_input(signal as int) };
        lemma_without_input(before, signal as int);
        lemma_cached(taken, reply->0.samples@, owed - before.out_total);
    }
    assert(ran_on(before, input, Some(signal), next, reply));
}

} // verus!
