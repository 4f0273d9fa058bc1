//! What holds of the fixed-chunk resampler across its calls.

use vstd::prelude::*;
use vstd::arithmetic::div_mod::lemma_div_is_ordered;
use vstd::arithmetic::div_mod::lemma_fundamental_div_mod;

use crate::arithmetic::Arithmetic;
use crate::double::Double;
use crate::formulas::ratios_compared;
use crate::internals::lemma_frames_added;
use crate::resampler::lemma_frames_fit;
use crate::resampler::lemma_multiple;
use crate::resampler::lemma_whole_frames;
use crate::rubato_backend::advances;
use crate::rubato_backend::chunk_run;
use crate::rubato_backend::engine_ensured;
use crate::rubato_backend::flush_prepared;
use crate::rubato_backend::flushed_to;
use crate::rubato_backend::goal_met;
use crate::rubato_backend::lemma_cached;
use crate::rubato_backend::lemma_without_input;
use crate::rubato_backend::min_int;
use crate::rubato_backend::owes;
use crate::rubato_backend::processed_by;
use crate::rubato_backend::processed_to;
use crate::rubato_backend::produced;
use crate::rubato_backend::produced_through;
use crate::rubato_backend::ran_on;
use crate::rubato_backend::ratio_changed;
use crate::rubato_backend::reset_to;
use crate::rubato_backend::stops;
use crate::rubato_backend::tail_flushed;
use crate::rubato_backend::tail_flushed_by;
use crate::rubato_backend::tail_opened;
use crate::rubato_backend::tail_pass;
use crate::rubato_backend::tail_through;
use crate::rubato_backend::wants;
use crate::rubato_backend::Chunk;
use crate::rubato_backend::CHUNK_FRAMES;
use crate::rubato_backend::Engine;
use crate::rubato_backend::EngineSettings;
use crate::rubato_backend::Pipeline;

verus! {

/// Two blocks of input, the first of whole frames, add up to one.
pub proof fn law_feeding_joins<S, E>(state: Pipeline<S, E>, first: Seq<S>, second: Seq<S>)
    requires
        state.channels > 0,
        first.len() % (state.channels as nat) == 0,
    ensures
        state.fed(first).fed(second) == state.fed(first + second),
{
    let c = state.channels as int;
    let n1 = first.len() as int / c;
    let n2 = second.len() as int / c;
    lemma_fundamental_div_mod(first.len() as int, c);
    assert(n1 * c == c * n1) by (nonlinear_arith);
    lemma_frames_added(second.len() as int, c, n1);
    lemma_frames_fit(second.len() as int, c, n2);
    assert((n1 + n2) * c == n1 * c + n2 * c) by (nonlinear_arith);
    assert((first + second).take((n1 + n2) * c) =~= first.take(n1 * c) + second.take(n2 * c));
    assert(state.fed(first).fed(second).pending =~= state.fed(first + second).pending);
}

/// The engine's warm-up is dropped, and nothing else: of whole frames of engine output all
/// but the warm-up frames still due become ready, in their order.
pub proof fn law_only_warm_up_is_dropped<S, E>(state: Pipeline<S, E>, samples: Seq<S>)
    requires
        state.valid(),
        state.channels > 0,
        samples.len() % (state.channels as nat) == 0,
        samples.len() as int / (state.channels as int) <= u64::MAX,
    ensures
        ({
            let due = state.warm_up(samples);
            let after = state.cached(samples, u64::MAX as int);
            &&& after.ready == state.ready + samples.skip(due * state.channels)
            &&& after.lead_trim == state.lead_trim - due
            &&& due == state.lead_trim || due * state.channels == samples.len()
        }),
{
    let c = state.channels as int;
    let due = state.warm_up(samples);
    let frames = samples.len() as int / c;
    lemma_cached(state, samples, u64::MAX as int);
    lemma_fundamental_div_mod(samples.len() as int, c);
    assert(frames * c == samples.len()) by (nonlinear_arith)
        requires
            samples.len() == c * frames,
    ;
    assert(state.delivered(samples, u64::MAX as int) == frames - due);
    assert(samples.subrange(due * c, frames * c) =~= samples.skip(due * c));
}

/// Chunking the engine's output changes nothing: two chunks, the first of whole frames, leave
/// what one chunk of both leaves.
pub proof fn law_chunks_join<S, E>(state: Pipeline<S, E>, first: Seq<S>, second: Seq<S>)
    requires
        state.valid(),
        state.channels > 0,
        first.len() % (state.channels as nat) == 0,
        (first.len() + second.len()) as int / (state.channels as int) <= u64::MAX,
    ensures
        state.cached(first, u64::MAX as int).cached(second, u64::MAX as int) == state.cached(
            first + second,
            u64::MAX as int,
        ),
{
    let c = state.channels as int;
    let max = u64::MAX as int;
    let n1 = first.len() as int / c;
    let n2 = second.len() as int / c;
    let both = first + second;
    lemma_fundamental_div_mod(first.len() as int, c);
    assert(n1 * c == first.len()) by (nonlinear_arith)
        requires
            first.len() == c * n1,
    ;
    lemma_frames_added(second.len() as int, c, n1);
    lemma_frames_fit(second.len() as int, c, n2);
    let once = state.cached(first, max);
    lemma_cached(state, first, max);
    lemma_cached(once, second, max);
    lemma_cached(state, both, max);
    let t1 = state.warm_up(first);
    let t2 = once.warm_up(second);
    let t = state.warm_up(both);
    assert(both.len() as int / c == n1 + n2);
    assert(t == t1 + t2);
    assert(state.delivered(first, max) == n1 - t1);
    assert(once.delivered(second, max) == n2 - t2);
    assert(state.delivered(both, max) == n1 + n2 - t);
    let part1 = first.subrange(t1 * c, n1 * c);
    let part2 = second.subrange(t2 * c, n2 * c);
    assert((n1 + n2) * c == n1 * c + n2 * c) by (nonlinear_arith);
    assert((t1 + t2) * c == t1 * c + t2 * c) by (nonlinear_arith);
    assert(t1 < n1 ==> t2 == 0);
    assert(both.subrange(t * c, (n1 + n2) * c) =~= part1 + part2);
    assert(once.cached(second, max).ready =~= state.cached(both, max).ready);
}

/// What is handed out is the front of what is ready, and the rest stays: handing out twice is
/// handing out the sum.
pub proof fn law_hand_outs_join<S, E>(state: Pipeline<S, E>, a: int, b: int)
    requires
        0 <= a,
        0 <= b,
        a + b <= state.ready.len(),
    ensures
        state.drained(a).drained(b) == state.drained(a + b),
        state.ready.take(a) + state.drained(a).ready.take(b) == state.ready.take(a + b),
        state.ready == state.ready.take(a) + state.drained(a).ready,
{
    assert(state.ready.skip(a).skip(b) =~= state.ready.skip(a + b));
    assert(state.ready.take(a) + state.ready.skip(a).take(b) =~= state.ready.take(a + b));
    assert(state.ready =~= state.ready.take(a) + state.ready.skip(a));
}

/// A flush behind a drained tail only hands out what is ready, and once nothing is, it writes
/// nothing and changes nothing.
pub proof fn law_flush_ends<A: Arithmetic, E: Engine<A::Sample>>(
    before: Pipeline<A::Sample, E>,
    full: Pipeline<A::Sample, E>,
    output_len: int,
)
    requires
        before.flushed,
        flush_prepared::<A, E>(before, full),
        output_len >= before.channels > 0,
    ensures
        full == before,
        before.ready.len() == 0 ==> full.handed_out(output_len) == 0 && full.drained(0) == before,
        before.valid() && before.ready.len() > 0 ==> full.handed_out(output_len) > 0,
{
    let c = before.channels as int;
    lemma_frames_fit(output_len, c, output_len / c);
    lemma_fundamental_div_mod(output_len, c);
    if output_len / c == 0 {
        assert(false) by (nonlinear_arith)
            requires
                output_len == c * (output_len / c) + output_len % c,
                output_len % c < c,
                output_len >= c,
                output_len / c == 0,
        ;
    }
    assert((output_len / c) * c > 0) by (nonlinear_arith)
        requires
            output_len / c > 0,
            c > 0,
    ;
    assert(full.drained(0).ready =~= before.ready);
}

/// A change of the ratio touches nothing that is buffered or counted, and where the engine
/// followed it, the next call goes on with that engine: no frame is dropped and no warm-up
/// comes in the middle of a stream.
pub proof fn law_ratio_change_keeps_the_stream<A: Arithmetic, E: Engine<A::Sample>>(
    before: Pipeline<A::Sample, E>,
    after: Pipeline<A::Sample, E>,
    ratio: Double,
    next: Pipeline<A::Sample, E>,
)
    requires
        ratio_changed::<A, E>(before, after, ratio),
        engine_ensured::<A, E>(after, next),
    ensures
        after.pending == before.pending,
        after.ready == before.ready,
        after.lead_trim == before.lead_trim,
        after.in_total == before.in_total,
        after.out_total == before.out_total,
        after.output_delay == before.output_delay,
        after.flushed == before.flushed,
        next.pending == before.pending,
        after.engine is Some && after.built_ratio == after.ratio && !ratios_compared::<A>(
            after.ratio,
            after.ratio,
            false,
        ) ==> next == after,
{
}

/// Restarting the engine of a resampler, where it then names the present ratio, makes it as good
/// as a new one for that ratio.
pub open spec fn restarts_as_new<S, E: Engine<S>>(used: Pipeline<S, E>) -> bool {
    forall|next: E|
        used.engine is Some && #[trigger] call_ensures(E::restart, (used.engine->0,), next)
            && call_ensures(E::resample_ratio, (&next,), used.ratio) ==> {
            &&& call_ensures(
                E::build,
                (EngineSettings::good_quality(used.ratio, used.channels),),
                next,
            )
            &&& call_ensures(E::output_delay, (&next,), used.output_delay as usize)
        }
}

/// A reset leaves the ratio and a stream that has not begun, and the engine that the next call
/// sees to, whatever came before (input, a flush, a change of the ratio), is one that the first
/// call of a new resampler with that ratio may see to. An engine that went back to another
/// ratio is built anew; one that names the present ratio was made as good as new by restarting
/// it.
pub proof fn law_reset_is_fresh<A: Arithmetic, E: Engine<A::Sample>>(
    used: Pipeline<A::Sample, E>,
    after: Pipeline<A::Sample, E>,
    built: Pipeline<A::Sample, E>,
)
    requires
        used.valid(),
        used.output_delay <= usize::MAX,
        reset_to::<A, E>(used, after),
        restarts_as_new(used),
        engine_ensured::<A, E>(after, built),
    ensures
        after.ratio == used.ratio,
        after.channels == used.channels,
        after.untouched(),
        engine_ensured::<A, E>(
            Pipeline::fresh(used.ratio, used.channels, used.silence),
            built,
        ),
{
    let fresh = Pipeline::<A::Sample, E>::fresh(used.ratio, used.channels, used.silence);
    let settings = EngineSettings::good_quality(used.ratio, used.channels);
    if after.engine is Some && built == after {
        let next = after.engine->0;
        let delay = used.output_delay as usize;
        assert(call_ensures(E::restart, (used.engine->0,), next));
        assert(call_ensures(E::build, (settings,), next));
        assert(call_ensures(E::output_delay, (&next,), delay));
        assert(built =~= fresh.rebuilt(next, delay as int));
    } else {
        let (engine, delay) = choose|engine: E, delay: usize|
            {
                &&& call_ensures(E::build, (settings,), engine)
                &&& #[trigger] call_ensures(E::output_delay, (&engine,), delay)
                &&& built == after.rebuilt(engine, delay as int)
            };
        assert(built =~= fresh.rebuilt(engine, delay as int));
    }
}

/// A `process` call right behind a reset is a first call: it writes, returns and leaves what it
/// may on a new resampler with the ratio.
pub proof fn law_call_behind_a_reset_is_a_first_call<A: Arithmetic, E: Engine<A::Sample>>(
    used: Pipeline<A::Sample, E>,
    after: Pipeline<A::Sample, E>,
    next: Pipeline<A::Sample, E>,
    input: Seq<A::Sample>,
    shown: Seq<A::Sample>,
    output: Seq<A::Sample>,
    written: int,
)
    requires
        used.valid(),
        used.output_delay <= usize::MAX,
        reset_to::<A, E>(used, after),
        restarts_as_new(used),
        processed_to::<A, E>(after, next, input, shown, output, written),
    ensures
        processed_to::<A, E>(
            Pipeline::fresh(used.ratio, used.channels, used.silence),
            next,
            input,
            shown,
            output,
            written,
        ),
{
    let fresh = Pipeline::<A::Sample, E>::fresh(used.ratio, used.channels, used.silence);
    let (built, full) = choose|built: Pipeline<A::Sample, E>, full: Pipeline<A::Sample, E>|
        {
            let count = full.handed_out(shown.len() as int);
            &&& #[trigger] processed_by::<A, E>(after, built, full, input, shown.len() as usize)
            &&& next == full.drained(count)
            &&& output == full.ready.take(count) + shown.skip(count)
            &&& written * after.channels == count
        };
    law_reset_is_fresh::<A, E>(used, after, built);
    assert(processed_by::<A, E>(fresh, built, full, input, shown.len() as usize));
}

/// A `flush` call right behind a reset is a first flush: it writes, returns and leaves what it
/// may on a new resampler with the ratio.
pub proof fn law_flush_behind_a_reset_is_a_first_flush<A: Arithmetic, E: Engine<A::Sample>>(
    used: Pipeline<A::Sample, E>,
    after: Pipeline<A::Sample, E>,
    next: Pipeline<A::Sample, E>,
    shown: Seq<A::Sample>,
    output: Seq<A::Sample>,
    written: int,
)
    requires
        used.valid(),
        used.output_delay <= usize::MAX,
        reset_to::<A, E>(used, after),
        restarts_as_new(used),
        flushed_to::<A, E>(after, next, shown, output, written),
    ensures
        flushed_to::<A, E>(
            Pipeline::fresh(used.ratio, used.channels, used.silence),
            next,
            shown,
            output,
            written,
        ),
{
    law_reset_is_fresh::<A, E>(used, after, next);
}

/// Seeing to an engine never touches the pending input, the ratio or the channel count. It
/// changes nothing where there is one for the ratio; else nothing is left of an earlier engine:
/// no cached output, no counts, no drained tail, and the whole warm-up is due. Seeing to it
/// twice in a row is seeing to it once, where a ratio agrees with itself.
pub proof fn law_engine_is_ensured_once<A: Arithmetic, E: Engine<A::Sample>>(
    before: Pipeline<A::Sample, E>,
    once: Pipeline<A::Sample, E>,
    twice: Pipeline<A::Sample, E>,
)
    requires
        engine_ensured::<A, E>(before, once),
        engine_ensured::<A, E>(once, twice),
        !ratios_compared::<A>(before.ratio, before.ratio, false),
        ratios_compared::<A>(before.built_ratio, before.ratio, true) ==> !ratios_compared::<A>(
            before.built_ratio,
            before.ratio,
            false,
        ),
    ensures
        once.engine is Some,
        once.pending == before.pending,
        once.ratio == before.ratio,
        once.channels == before.channels,
        before.engine is Some && ratios_compared::<A>(before.built_ratio, before.ratio, true)
            ==> once == before,
        before.engine is None || !ratios_compared::<A>(before.built_ratio, before.ratio, true)
            ==> {
            &&& once.ready.len() == 0
            &&& once.in_total == 0
            &&& once.out_total == 0
            &&& !once.flushed
            &&& once.built_ratio == before.ratio
            &&& once.lead_trim == once.output_delay
        },
        twice == once,
{
}

/// Running chunks keeps the engine, and adds output behind what is ready.
proof fn lemma_production_adds<S, E: Engine<S>>(
    states: Seq<Pipeline<S, E>>,
    before: Pipeline<S, E>,
    after: Pipeline<S, E>,
    goal: Option<usize>,
    k: int,
)
    requires
        before.engine is Some,
        produced_through(states, before, after, goal),
        0 <= k < states.len(),
    ensures
        states[k].engine is Some,
        before.ready.len() <= states[k].ready.len(),
        before.ready == states[k].ready.take(before.ready.len() as int),
        states[k].channels == before.channels,
    decreases k,
{
    if k > 0 {
        lemma_production_adds(states, before, after, goal, k - 1);
        assert(advances(states[k - 1], states[k - 1 + 1], goal));
        lemma_chunk_adds(states[k - 1], states[k], true);
        assert(states[k].ready.take(states[k - 1].ready.len() as int).take(
            before.ready.len() as int,
        ) =~= states[k].ready.take(before.ready.len() as int));
    } else {
        assert(before.ready =~= before.ready.take(before.ready.len() as int));
    }
}

/// A chunk keeps the engine, and adds output behind what is ready.
proof fn lemma_chunk_adds<S, E: Engine<S>>(
    before: Pipeline<S, E>,
    after: Pipeline<S, E>,
    ran: bool,
)
    requires
        before.engine is Some,
        chunk_run(before, after, ran),
    ensures
        after.engine is Some,
        before.ready.len() <= after.ready.len(),
        before.ready == after.ready.take(before.ready.len() as int),
        after.channels == before.channels,
{
    if after.engine != before.engine || after.ready != before.ready {
        let (needed, input, next, reply) = choose|
            needed: usize,
            input: Vec<S>,
            next: E,
            reply: Option<Chunk<S>>,
        |
            {
                &&& #[trigger] wants(before, needed)
                &&& #[trigger] ran_on(before, input, None, next, reply)
                &&& before.pending_frames() >= needed
                &&& input@ == before.pending.take(needed * before.channels)
                &&& after == before.answered(next, reply)
                &&& ran == reply is Some
            };
        assert(before.ready =~= after.ready.take(before.ready.len() as int));
    } else {
        assert(before.ready =~= before.ready.take(before.ready.len() as int));
    }
}

/// Running chunks until a goal is met keeps the engine, and adds output behind what is ready.
proof fn lemma_produced_adds<S, E: Engine<S>>(
    before: Pipeline<S, E>,
    after: Pipeline<S, E>,
    goal: Option<usize>,
)
    requires
        before.engine is Some,
        produced(before, after, goal),
    ensures
        after.engine is Some,
        before.ready.len() <= after.ready.len(),
        before.ready == after.ready.take(before.ready.len() as int),
        after.channels == before.channels,
{
    let states = choose|states: Seq<Pipeline<S, E>>|
        produced_through(states, before, after, goal);
    let last = states.last();
    lemma_production_adds(states, before, after, goal, states.len() - 1);
    if !goal_met(last, goal) {
        assert(stops(last, after, goal));
        if chunk_run(last, after, false) {
            lemma_chunk_adds(last, after, false);
        } else {
            lemma_chunk_adds(last, after, true);
        }
        assert(after.ready.take(last.ready.len() as int).take(before.ready.len() as int)
            =~= after.ready.take(before.ready.len() as int));
    }
}

/// Output that an earlier call could not hand out comes first, in order and once: with the
/// engine kept, what a `process` call writes and what it leaves ready go on from it.
pub proof fn law_cached_output_comes_first<A: Arithmetic, E: Engine<A::Sample>>(
    before: Pipeline<A::Sample, E>,
    after: Pipeline<A::Sample, E>,
    input: Seq<A::Sample>,
    shown: Seq<A::Sample>,
    output: Seq<A::Sample>,
    written: int,
)
    requires
        before.channels > 0,
        before.engine is Some,
        !ratios_compared::<A>(before.built_ratio, before.ratio, false),
        processed_to::<A, E>(before, after, input, shown, output, written),
    ensures
        before.ready.len() <= (output.take(written * before.channels) + after.ready).len(),
        before.ready == (output.take(written * before.channels) + after.ready).take(
            before.ready.len() as int,
        ),
{
    let c = before.channels as int;
    let (built, full) = choose|built: Pipeline<A::Sample, E>, full: Pipeline<A::Sample, E>|
        {
            let count = full.handed_out(shown.len() as int);
            &&& #[trigger] processed_by::<A, E>(before, built, full, input, shown.len() as usize)
            &&& after == full.drained(count)
            &&& output == full.ready.take(count) + shown.skip(count)
            &&& written * before.channels == count
        };
    let count = full.handed_out(shown.len() as int);
    lemma_produced_adds(built.fed(input), full, Some(shown.len() as usize));
    lemma_frames_fit(shown.len() as int, c, shown.len() as int / c);
    assert(output.take(count) + after.ready =~= full.ready);
}

/// A pass over the tail keeps the engine.
proof fn lemma_pass_keeps_engine<S, E: Engine<S>>(
    before: Pipeline<S, E>,
    after: Pipeline<S, E>,
    signal: usize,
    needed: usize,
    owed: u64,
    more: bool,
)
    requires
        before.engine is Some,
        tail_pass(before, after, signal, needed, owed, more),
    ensures
        after.engine is Some,
        after.channels == before.channels,
{
    reveal(tail_pass);
}

/// The passes over the tail keep the engine.
proof fn lemma_tail_keeps_engine<S, E: Engine<S>>(
    states: Seq<Pipeline<S, E>>,
    before: Pipeline<S, E>,
    after: Pipeline<S, E>,
    signal: usize,
    needed: usize,
    owed: u64,
    k: int,
)
    requires
        before.engine is Some,
        tail_through(states, before, after, signal, needed, owed),
        0 <= k < states.len(),
    ensures
        states[k].engine is Some,
        states[k].channels == before.channels,
    decreases k,
{
    if k > 0 {
        lemma_tail_keeps_engine(states, before, after, signal, needed, owed, k - 1);
        let held: usize = if k - 1 == 0 {
            signal
        } else {
            0
        };
        assert(tail_pass(states[k - 1], states[k - 1 + 1], held, needed, owed, true));
        lemma_pass_keeps_engine(states[k - 1], states[k], held, needed, owed, true);
    }
}

/// Draining the tail keeps the engine.
proof fn lemma_flush_keeps_engine<A: Arithmetic, E: Engine<A::Sample>>(
    before: Pipeline<A::Sample, E>,
    full: Pipeline<A::Sample, E>,
)
    requires
        before.engine is Some,
        flush_prepared::<A, E>(before, full),
    ensures
        full.engine is Some,
        full.channels == before.channels,
        full.flushed,
{
    if !before.flushed {
        let tail = choose|tail: Pipeline<A::Sample, E>| #[trigger]
            tail_flushed::<A, E>(before, tail) && full == (Pipeline { flushed: true, ..tail });
        let whole = choose|whole: Pipeline<A::Sample, E>| #[trigger]
            tail_flushed_by::<A, E>(before, whole, tail);
        lemma_produced_adds(before, whole, None);
        let (needed, signal, ratio, owed, states) = choose|
            needed: usize,
            signal: usize,
            ratio: Double,
            owed: u64,
            states: Seq<Pipeline<A::Sample, E>>,
        |
            {
                &&& #[trigger] wants(whole, needed)
                &&& signal == min_int(whole.pending_frames(), needed as int)
                &&& #[trigger] owes::<A, E>(tail_opened(whole, signal), ratio, owed)
                &&& #[trigger] tail_through(
                    states,
                    tail_opened(whole, signal),
                    tail,
                    signal,
                    needed,
                    owed,
                )
            };
        let opened = tail_opened(whole, signal);
        lemma_tail_keeps_engine(states, opened, tail, signal, needed, owed, states.len() - 1);
        if states.len() <= CHUNK_FRAMES {
            let held: usize = if states.len() == 1 {
                signal
            } else {
                0
            };
            lemma_pass_keeps_engine(states.last(), tail, held, needed, owed, false);
        }
    }
}

/// Without an engine no stream has begun: a new resampler is so, and every call keeps it so.
pub proof fn law_no_stream_without_an_engine<A: Arithmetic, E: Engine<A::Sample>>(
    before: Pipeline<A::Sample, E>,
    after: Pipeline<A::Sample, E>,
    input: Seq<A::Sample>,
    shown: Seq<A::Sample>,
    output: Seq<A::Sample>,
    written: int,
    ratio: Double,
)
    requires
        before.engine is None ==> before.untouched(),
        processed_to::<A, E>(before, after, input, shown, output, written) || flushed_to::<A, E>(
            before,
            after,
            shown,
            output,
            written,
        ) || reset_to::<A, E>(before, after) || ratio_changed::<A, E>(before, after, ratio),
    ensures
        Pipeline::<A::Sample, E>::fresh(before.ratio, before.channels, before.silence).untouched(),
        after.engine is None ==> after.untouched(),
{
    if processed_to::<A, E>(before, after, input, shown, output, written) {
        let (built, full) = choose|built: Pipeline<A::Sample, E>, full: Pipeline<A::Sample, E>|
            {
                let count = full.handed_out(shown.len() as int);
                &&& #[trigger] processed_by::<A, E>(
                    before,
                    built,
                    full,
                    input,
                    shown.len() as usize,
                )
                &&& after == full.drained(count)
                &&& output == full.ready.take(count) + shown.skip(count)
                &&& written * before.channels == count
            };
        lemma_produced_adds(built.fed(input), full, Some(shown.len() as usize));
    } else if flushed_to::<A, E>(before, after, shown, output, written) {
        if before.engine is Some && !before.untouched() {
            let full = choose|full: Pipeline<A::Sample, E>|
                {
                    let count = full.handed_out(shown.len() as int);
                    &&& #[trigger] flush_prepared::<A, E>(before, full)
                    &&& after == full.drained(count)
                    &&& output == full.ready.take(count) + shown.skip(count)
                    &&& written * before.channels == count
                };
            lemma_flush_keeps_engine::<A, E>(before, full);
        }
    }
}

/// Behind a flush that wrote nothing the next one writes nothing either, and leaves its output
/// buffer as it is: a tail is drained once and never run again.
pub proof fn law_flushes_stay_ended<A: Arithmetic, E: Engine<A::Sample>>(
    before: Pipeline<A::Sample, E>,
    between: Pipeline<A::Sample, E>,
    after: Pipeline<A::Sample, E>,
    shown1: Seq<A::Sample>,
    output1: Seq<A::Sample>,
    shown2: Seq<A::Sample>,
    output2: Seq<A::Sample>,
    written: int,
)
    requires
        before.channels > 0,
        before.engine is None ==> before.untouched(),
        shown1.len() >= before.channels,
        shown2.len() >= before.channels,
        flushed_to::<A, E>(before, between, shown1, output1, 0),
        flushed_to::<A, E>(between, after, shown2, output2, written),
    ensures
        written == 0,
        output2 == shown2,
{
    if !before.untouched() {
        let c = before.channels as int;
        let len = shown1.len() as int;
        let full = choose|full: Pipeline<A::Sample, E>|
            {
                let count = full.handed_out(len);
                &&& #[trigger] flush_prepared::<A, E>(before, full)
                &&& between == full.drained(count)
                &&& output1 == full.ready.take(count) + shown1.skip(count)
                &&& 0 * before.channels == count
            };
        lemma_flush_keeps_engine::<A, E>(before, full);
        lemma_fundamental_div_mod(len, c);
        assert((len / c) * c > 0) by (nonlinear_arith)
            requires
                len == c * (len / c) + len % c,
                len % c < c,
                len >= c,
                c > 0,
        ;
        assert(full.handed_out(len) == 0);
        assert(full.ready.len() == 0);
        let count = between.handed_out(shown2.len() as int);
        lemma_frames_fit(shown2.len() as int, c, shown2.len() as int / c);
        assert(count == 0);
        assert(written == 0) by (nonlinear_arith)
            requires
                written * c == 0,
                c > 0,
        ;
        assert(between.ready.take(0) + shown2.skip(0) =~= shown2);
    }
}

/// Every frame that is counted as output was made ready, and no other.
pub proof fn law_output_is_counted<S, E>(state: Pipeline<S, E>, samples: Seq<S>, cap: int)
    requires
        state.valid(),
        state.channels > 0,
        0 <= cap,
        state.out_total + cap <= u64::MAX,
    ensures
        ({
            let after = state.cached(samples, cap);
            &&& state.out_total <= after.out_total <= state.out_total + cap
            &&& after.ready.len() == state.ready.len() + (after.out_total - state.out_total)
                * state.channels
        }),
{
    let c = state.channels as int;
    let trim = state.warm_up(samples);
    let deliver = state.delivered(samples, cap);
    lemma_cached(state, samples, cap);
    assert((trim + deliver) * c - trim * c == deliver * c) by (nonlinear_arith);
}

/// One pass over the tail adds to the output up to what is owed, and counts no input.
proof fn lemma_tail_pass<S, E: Engine<S>>(
    before: Pipeline<S, E>,
    after: Pipeline<S, E>,
    signal: usize,
    needed: usize,
    owed: u64,
    more: bool,
)
    requires
        before.valid(),
        before.channels > 0,
        before.out_total <= owed,
        tail_pass(before, after, signal, needed, owed, more),
    ensures
        after.valid(),
        after.channels == before.channels,
        after.in_total == before.in_total,
        before.out_total <= after.out_total <= owed,
        after.ready.len() == before.ready.len() + (after.out_total - before.out_total)
            * before.channels,
        before.engine is Some ==> after.engine is Some,
{
    reveal(tail_pass);
    let c = before.channels as int;
    assert((before.out_total - before.out_total) * c == 0) by (nonlinear_arith);
    if !(before.out_total >= owed || before.engine is None || needed * before.channels
        > usize::MAX) {
        let (input, next, reply) = choose|input: Vec<S>, next: E, reply: Option<Chunk<S>>|
            {
                &&& #[trigger] ran_on(before, input, Some(signal), next, reply)
                &&& input@ == before.tail_input(signal as int, needed as int)
                &&& after == before.tail_answered(next, reply, signal as int, owed as int)
                &&& more == (reply is Some && reply->0.samples@.len() >= before.channels)
            };
        if reply is Some {
            lemma_without_input(before, signal as int);
            let taken = Pipeline { engine: Some(next), ..before.without_input(signal as int) };
            lemma_cached(taken, reply->0.samples@, owed - before.out_total);
            law_output_is_counted(taken, reply->0.samples@, owed - before.out_total);
        }
    }
}

/// The state after any number of passes over the tail.
proof fn lemma_tail_states<S, E: Engine<S>>(
    states: Seq<Pipeline<S, E>>,
    before: Pipeline<S, E>,
    after: Pipeline<S, E>,
    signal: usize,
    needed: usize,
    owed: u64,
    k: int,
)
    requires
        before.valid(),
        before.channels > 0,
        before.out_total <= owed,
        tail_through(states, before, after, signal, needed, owed),
        0 <= k < states.len(),
    ensures
        states[k].valid(),
        states[k].channels == before.channels,
        states[k].in_total == before.in_total,
        before.out_total <= states[k].out_total <= owed,
        states[k].ready.len() == before.ready.len() + (states[k].out_total - before.out_total)
            * before.channels,
        before.engine is Some ==> states[k].engine is Some,
    decreases k,
{
    let c = before.channels as int;
    assert((before.out_total - before.out_total) * c == 0) by (nonlinear_arith);
    if k > 0 {
        lemma_tail_states(states, before, after, signal, needed, owed, k - 1);
        let here = states[k - 1];
        assert(tail_pass(
            here,
            states[k - 1 + 1],
            if k - 1 == 0 {
                signal
            } else {
                0
            },
            needed,
            owed,
            true,
        ));
        lemma_tail_pass(
            here,
            states[k],
            if k - 1 == 0 {
                signal
            } else {
                0
            },
            needed,
            owed,
            true,
        );
        assert((here.out_total - before.out_total) * c + (states[k].out_total - here.out_total) * c
            == (states[k].out_total - before.out_total) * c) by (nonlinear_arith);
    }
}

/// The tail never runs past what is owed, whatever the engine answers: the output ends at the
/// length that the input is worth or before it, and every frame of it is counted.
pub proof fn law_tail_never_runs_past_what_is_owed<S, E: Engine<S>>(
    states: Seq<Pipeline<S, E>>,
    before: Pipeline<S, E>,
    after: Pipeline<S, E>,
    signal: usize,
    needed: usize,
    owed: u64,
)
    requires
        before.valid(),
        before.channels > 0,
        before.out_total <= owed,
        tail_through(states, before, after, signal, needed, owed),
    ensures
        before.out_total <= after.out_total <= owed,
        after.ready.len() == before.ready.len() + (after.out_total - before.out_total)
            * before.channels,
        after.in_total == before.in_total,
{
    let c = before.channels as int;
    let last = states.last();
    lemma_tail_states(states, before, after, signal, needed, owed, states.len() - 1);
    if states.len() <= CHUNK_FRAMES {
        let held: usize = if states.len() == 1 {
            signal
        } else {
            0
        };
        lemma_tail_pass(last, after, held, needed, owed, false);
        assert((last.out_total - before.out_total) * c + (after.out_total - last.out_total) * c == (
        after.out_total - before.out_total) * c) by (nonlinear_arith);
    }
}

/// A stream that has more output already than is owed gets no tail.
pub proof fn law_no_tail_where_nothing_is_owed<S, E: Engine<S>>(
    states: Seq<Pipeline<S, E>>,
    before: Pipeline<S, E>,
    after: Pipeline<S, E>,
    signal: usize,
    needed: usize,
    owed: u64,
)
    requires
        before.out_total >= owed,
        tail_through(states, before, after, signal, needed, owed),
    ensures
        after == before,
{
    reveal(tail_pass);
    if states.len() > 1 {
        assert(tail_pass(states[0], states[0int + 1], signal, needed, owed, true));
    }
}

/// The state with all of the chunks, one after the other, moved to `ready`.
pub open spec fn cached_all<S, E>(state: Pipeline<S, E>, chunks: Seq<Seq<S>>) -> Pipeline<S, E>
    decreases chunks.len(),
{
    if chunks.len() == 0 {
        state
    } else {
        cached_all(state.cached(chunks.first(), u64::MAX as int), chunks.drop_first())
    }
}

/// Over any number of chunks of whole frames the engine's output reaches the caller in its
/// order, without the warm-up frames due at the start and with nothing else missing.
pub proof fn law_all_chunks_join<S, E>(state: Pipeline<S, E>, chunks: Seq<Seq<S>>)
    requires
        state.valid(),
        state.channels > 0,
        forall|i: int|
            0 <= i < chunks.len() ==> #[trigger] chunks[i].len() % (state.channels as nat) == 0,
        chunks.flatten().len() as int / (state.channels as int) <= u64::MAX,
    ensures
        cached_all(state, chunks) == state.cached(chunks.flatten(), u64::MAX as int),
        cached_all(state, chunks).ready == state.ready + chunks.flatten().skip(
            state.warm_up(chunks.flatten()) * state.channels,
        ),
    decreases chunks.len(),
{
    let c = state.channels as int;
    let max = u64::MAX as int;
    lemma_flatten_whole(chunks, state.channels as nat);
    if chunks.len() == 0 {
        lemma_multiple(0, c);
        assert(chunks.flatten() =~= Seq::<S>::empty());
        assert(state.cached(Seq::<S>::empty(), max) =~= state);
    } else {
        let first = chunks.first();
        let rest = chunks.drop_first();
        let once = state.cached(first, max);
        assert(chunks.flatten() =~= first + rest.flatten());
        assert(chunks[0] == first);
        assert forall|i: int| 0 <= i < rest.len() implies #[trigger] rest[i].len() % (
        state.channels as nat) == 0 by {
            assert(rest[i] == chunks[i + 1]);
        }
        lemma_cached(state, first, max);
        lemma_div_is_ordered(rest.flatten().len() as int, chunks.flatten().len() as int, c);
        law_all_chunks_join(once, rest);
        law_chunks_join(state, first, rest.flatten());
    }
    law_only_warm_up_is_dropped(state, chunks.flatten());
}

/// Chunks of whole frames add up to whole frames.
proof fn lemma_flatten_whole<S>(chunks: Seq<Seq<S>>, channels: nat)
    requires
        channels > 0,
        forall|i: int| 0 <= i < chunks.len() ==> #[trigger] chunks[i].len() % channels == 0,
    ensures
        chunks.flatten().len() % channels == 0,
    decreases chunks.len(),
{
    if chunks.len() == 0 {
        lemma_multiple(0, channels as int);
    } else {
        let rest = chunks.drop_first();
        assert forall|i: int| 0 <= i < rest.len() implies #[trigger] rest[i].len() % channels
            == 0 by {
            assert(rest[i] == chunks[i + 1]);
        }
        lemma_flatten_whole(rest, channels);
        assert(chunks[0] == chunks.first());
        lemma_whole_frames(
            chunks.first().len() as int,
            rest.flatten().len() as int,
            channels as int,
        );
    }
}

/// A chunk does not depend on the output in front of it: handing out before or after it is
/// the same.
pub proof fn law_chunks_ignore_hand_outs<S, E: Engine<S>>(
    before: Pipeline<S, E>,
    after: Pipeline<S, E>,
    count: int,
)
    requires
        before.valid(),
        before.channels > 0,
        0 <= count <= before.ready.len(),
        chunk_run(before, after, true),
    ensures
        chunk_run(before.drained(count), after.drained(count), true),
{
    let (needed, chunk_in, next, reply) = choose|
        needed: usize,
        chunk_in: Vec<S>,
        next: E,
        reply: Option<Chunk<S>>,
    |
        {
            &&& #[trigger] wants(before, needed)
            &&& #[trigger] ran_on(before, chunk_in, None, next, reply)
            &&& before.pending_frames() >= needed
            &&& chunk_in@ == before.pending.take(needed * before.channels)
            &&& after == before.answered(next, reply)
            &&& true == reply is Some
        };
    let drained = before.drained(count);
    assert(wants(drained, needed));
    assert(ran_on(drained, chunk_in, None, next, reply));
    assert(drained.answered(next, reply).ready =~= after.drained(count).ready);
    assert(drained.answered(next, reply) =~= after.drained(count));
}

} // verus!
