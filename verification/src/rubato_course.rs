//! A whole stream through the fixed-chunk resampler: how long its output is, what it is made
//! of, and that it does not depend on how the stream is cut.

use vstd::prelude::*;
use vstd::arithmetic::div_mod::lemma_div_is_ordered;
use vstd::arithmetic::div_mod::lemma_fundamental_div_mod;

use crate::arithmetic::Arithmetic;
use crate::double::Double;
use crate::formulas::is_worth;
use crate::formulas::lemma_worth_is_one;
use crate::formulas::one_result;
use crate::formulas::ratios_compared;
use crate::internals::lemma_frames_added;
use crate::internals::lemma_frames_dropped;
use crate::resampler::lemma_frames_fit;
use crate::resampler::lemma_multiple;
use crate::resampler::lemma_whole_frames;
use crate::resampler::sanitized;
use crate::rubato_backend::advances;
use crate::rubato_backend::chunk_run;
use crate::rubato_backend::engine_ensured;
use crate::rubato_backend::flush_prepared;
use crate::rubato_backend::flushed_to;
use crate::rubato_backend::goal_met;
use crate::rubato_backend::lemma_cached;
use crate::rubato_backend::lemma_without_input;
use crate::rubato_backend::min_int;
use crate::rubato_backend::owes;
use crate::rubato_backend::processed_by;
use crate::rubato_backend::processed_to;
use crate::rubato_backend::produced;
use crate::rubato_backend::produced_through;
use crate::rubato_backend::ran_on;
use crate::rubato_backend::reset_to;
use crate::rubato_backend::stops;
use crate::rubato_backend::tail_flushed;
use crate::rubato_backend::tail_flushed_by;
use crate::rubato_backend::tail_opened;
use crate::rubato_backend::tail_pass;
use crate::rubato_backend::tail_through;
use crate::rubato_backend::wants;
use crate::rubato_backend::Chunk;
use crate::rubato_backend::Engine;
use crate::rubato_backend::EngineSettings;
use crate::rubato_backend::Pipeline;
use crate::rubato_backend::CHUNK_FRAMES;
use crate::rubato_laws::law_call_behind_a_reset_is_a_first_call;
use crate::rubato_laws::law_flush_behind_a_reset_is_a_first_flush;
use crate::rubato_laws::restarts_as_new;
use crate::sinc::law_sinc_stream_is_as_long_as_its_input_is_worth;
use crate::sinc::sinc_interpolator;
use crate::sinc::Filtered;
use crate::stream::all_input;
use crate::stream::all_output;
use crate::stream::all_positions;
use crate::stream::is_course;
use crate::stream::moves_forward;
use crate::stream::worth_agrees;
use crate::stream::Call;

verus! {

/// What is said of the engines that run one stream, at one ratio.
#[verifier::reject_recursive_types(S)]
#[verifier::reject_recursive_types(E)]
pub struct Word<S, E> {
    pub channels: usize,
    pub ratio: Double,
    pub silence: S,
    /// Frames of input that the stream has at most.
    pub limit: u64,
    /// Frames of a chunk.
    pub needed: usize,
    /// Frames of warm-up.
    pub delay: usize,
    /// Frames that each chunk brings at least.
    pub frames: int,
    /// The engine that has taken in the first samples and given the second.
    pub knows: spec_fn(E, Seq<S>, Seq<S>) -> bool,
}

/// A new engine has taken in and given nothing.
pub open spec fn starts_well<S, E: Engine<S>>(word: Word<S, E>) -> bool {
    forall|engine: E, delay: usize|
        call_ensures(
            E::build,
            (EngineSettings::good_quality(word.ratio, word.channels),),
            engine,
        ) && #[trigger] call_ensures(E::output_delay, (&engine,), delay) ==> delay == word.delay
            && (word.knows)(engine, Seq::empty(), Seq::empty())
}

/// Nothing but silence comes behind `frames` frames of input.
pub open spec fn silent_behind<S>(input: Seq<S>, frames: int, channels: int, silence: S) -> bool {
    forall|i: int| frames * channels <= i < input.len() ==> #[trigger] input[i] == silence
}

/// An engine of the stream says what it wants, and runs on a chunk of that size, which is silent
/// behind its signal: it takes the chunk in and answers with whole frames.
pub open spec fn answers_well<S, E: Engine<S>>(word: Word<S, E>) -> bool {
    &&& forall|engine: E, taken: Seq<S>, given: Seq<S>, needed: usize|
        #[trigger] (word.knows)(engine, taken, given) && #[trigger] call_ensures(
            E::input_frames_next,
            (&engine,),
            needed,
        ) ==> needed == word.needed
    &&& forall|engine: E, taken: Seq<S>, given: Seq<S>, ratio: Double|
        #[trigger] (word.knows)(engine, taken, given) && #[trigger] call_ensures(
            E::resample_ratio,
            (&engine,),
            ratio,
        ) ==> ratio == word.ratio
    &&& forall|
        engine: E,
        taken: Seq<S>,
        given: Seq<S>,
        input: Vec<S>,
        partial: Option<usize>,
        next: E,
        reply: Option<Chunk<S>>,
    |
        #[trigger] (word.knows)(engine, taken, given) && #[trigger] call_ensures(
            E::run,
            (engine, input, partial),
            (next, reply),
        ) && input@.len() == word.needed * word.channels && (partial is Some ==> partial->0
            <= word.needed && silent_behind(
            input@,
            partial->0 as int,
            word.channels as int,
            word.silence,
        )) ==> {
            &&& reply is Some
            &&& partial is None ==> reply->0.consumed == word.needed
            &&& reply->0.samples@.len() % (word.channels as nat) == 0
            &&& reply->0.samples@.len() as int >= word.frames * word.channels
            &&& (word.knows)(next, taken + input@, given + reply->0.samples@)
        }
}

/// Behind its warm-up an engine of the stream has given no more than the input is worth that
/// it has taken in; and for input of less than a chunk more it is no further behind than all
/// passes over a tail can bring. That much is asked of input within the limit of the stream.
pub open spec fn stays_close<A: Arithmetic, E: Engine<A::Sample>>(
    word: Word<A::Sample, E>,
) -> bool {
    forall|engine: E, taken: Seq<A::Sample>, given: Seq<A::Sample>, frames: u64, owed: u64|
        #[trigger] (word.knows)(engine, taken, given) && #[trigger] is_worth::<A>(
            word.ratio,
            frames,
            owed,
        ) && frames <= word.limit && taken.len() as int <= frames * word.channels ==> {
            let ahead = given.len() as int / (word.channels as int) - word.delay;
            &&& ahead <= owed
            &&& frames * word.channels < taken.len() as int + word.needed * word.channels ==> owed
                - ahead <= CHUNK_FRAMES * word.frames
        }
}

/// An engine that keeps its word, on the calls that a resampler makes of it.
pub open spec fn keeps_word<A: Arithmetic, E: Engine<A::Sample>>(word: Word<A::Sample, E>) -> bool {
    &&& word.channels > 0
    &&& word.needed > 0
    &&& word.needed * word.channels <= usize::MAX
    &&& word.frames >= 1
    &&& starts_well(word)
    &&& answers_well(word)
    &&& stays_close::<A, E>(word)
}

/// Frames of warm-up among `frames` frames of engine output.
pub open spec fn led(delay: int, frames: int) -> int {
    min_int(delay, frames)
}

/// The resampler in the middle of a stream: `fed` has been fed to it, of which the engine has
/// taken in `taken` and made `given`, and `handed` has been handed out.
pub open spec fn in_course<S, E>(
    word: Word<S, E>,
    state: Pipeline<S, E>,
    fed: Seq<S>,
    taken: Seq<S>,
    given: Seq<S>,
    handed: Seq<S>,
) -> bool {
    let c = word.channels as int;
    let frames = given.len() as int / c;
    &&& state.valid()
    &&& state.channels == word.channels
    &&& state.ratio == word.ratio
    &&& state.built_ratio == word.ratio
    &&& state.silence == word.silence
    &&& !state.flushed
    &&& state.engine is Some
    &&& (word.knows)(state.engine->0, taken, given)
    &&& fed.len() as int % c == 0
    &&& taken.len() as int % c == 0
    &&& given.len() as int % c == 0
    &&& taken.len() <= fed.len()
    &&& taken == fed.take(taken.len() as int)
    &&& state.pending == fed.skip(taken.len() as int)
    &&& state.in_total == taken.len() as int / c
    &&& state.lead_trim == word.delay - led(word.delay as int, frames)
    &&& state.out_total == frames - led(word.delay as int, frames)
    &&& handed + state.ready == given.skip(led(word.delay as int, frames) * c).take(
        state.out_total * c,
    )
}

/// The resampler in the middle of a stream, with some engine output.
pub open spec fn on_course<S, E>(
    word: Word<S, E>,
    state: Pipeline<S, E>,
    fed: Seq<S>,
    handed: Seq<S>,
) -> bool {
    exists|taken: Seq<S>, given: Seq<S>| #[trigger]
        in_course(word, state, fed, taken, given, handed)
}

/// Output behind the warm-up grows by what a chunk brings behind the warm-up.
proof fn lemma_window_grows<S>(
    given: Seq<S>,
    samples: Seq<S>,
    c: int,
    delay: int,
    g: int,
    n: int,
    trim: int,
    deliver: int,
)
    requires
        c > 0,
        delay >= 0,
        g >= 0,
        n >= 0,
        given.len() == g * c,
        samples.len() == n * c,
        trim == min_int(delay - led(delay, g), n),
        0 <= deliver <= n - trim,
    ensures
        given.skip(led(delay, g) * c).take((g - led(delay, g)) * c) + samples.subrange(
            trim * c,
            (trim + deliver) * c,
        ) == (given + samples).skip(led(delay, g + n) * c).take(
            (g - led(delay, g) + deliver) * c,
        ),
        led(delay, g + n) == led(delay, g) + trim,
{
    let l = led(delay, g);
    assert((g + n) * c == g * c + n * c) by (nonlinear_arith);
    assert((g - l) * c == g * c - l * c) by (nonlinear_arith);
    assert((g - l + deliver) * c == g * c - l * c + deliver * c) by (nonlinear_arith);
    assert((trim + deliver) * c == trim * c + deliver * c) by (nonlinear_arith);
    assert((l + trim) * c == l * c + trim * c) by (nonlinear_arith);
    assert(0 <= l * c <= g * c && 0 <= trim * c && 0 <= deliver * c && trim * c + deliver * c <= n
        * c) by (nonlinear_arith)
        requires
            0 <= l <= g,
            0 <= trim,
            0 <= deliver,
            trim + deliver <= n,
            c > 0,
    ;
    if delay <= g {
        assert(trim == 0);
        assert(trim * c == 0) by (nonlinear_arith)
            requires
                trim == 0,
        ;
    } else {
        assert(l == g);
    }
    assert(given.skip(l * c).take((g - l) * c) + samples.subrange(trim * c, (trim + deliver) * c)
        =~= (given + samples).skip(led(delay, g + n) * c).take((g - l + deliver) * c));
}

/// Whole frames divide without a rest.
proof fn lemma_frames_of(len: int, c: int)
    requires
        c > 0,
        len >= 0,
        len % c == 0,
    ensures
        len == (len / c) * c,
        len / c >= 0,
{
    lemma_fundamental_div_mod(len, c);
    assert((len / c) * c == c * (len / c)) by (nonlinear_arith);
    lemma_frames_fit(len, c, 0);
    assert(len / c >= 0) by (nonlinear_arith)
        requires
            len == c * (len / c),
            len >= 0,
            c > 0,
    ;
}

/// A chunk leaves a resampler in the middle of its stream. It runs as long as a whole one is
/// pending.
proof fn lemma_chunk_in_course<A: Arithmetic, E: Engine<A::Sample>>(
    word: Word<A::Sample, E>,
    before: Pipeline<A::Sample, E>,
    after: Pipeline<A::Sample, E>,
    ran: bool,
    fed: Seq<A::Sample>,
    handed: Seq<A::Sample>,
    frames: u64,
    owed: u64,
)
    requires
        keeps_word::<A, E>(word),
        on_course(word, before, fed, handed),
        chunk_run(before, after, ran),
        fed.len() as int <= frames * word.channels,
        frames <= word.limit,
        is_worth::<A>(word.ratio, frames, owed),
    ensures
        on_course(word, after, fed, handed),
        ran ==> after.pending.len() < before.pending.len(),
        !ran ==> after == before && before.pending_frames() < word.needed,
{
    let c = word.channels as int;
    let (taken, given) = choose|taken: Seq<A::Sample>, given: Seq<A::Sample>| #[trigger]
        in_course(word, before, fed, taken, given, handed);
    let engine = before.engine->0;
    if exists|needed: usize| #[trigger]
        wants(before, needed) && before.pending_frames() < needed && !ran && after == before {
        let needed = choose|needed: usize| #[trigger]
            wants(before, needed) && before.pending_frames() < needed && !ran && after == before;
        assert(needed == word.needed);
    } else {
        let (needed, input, next, reply) = choose|
            needed: usize,
            input: Vec<A::Sample>,
            next: E,
            reply: Option<Chunk<A::Sample>>,
        |
            {
                &&& #[trigger] wants(before, needed)
                &&& #[trigger] ran_on(before, input, None, next, reply)
                &&& before.pending_frames() >= needed
                &&& input@ == before.pending.take(needed * before.channels)
                &&& after == before.answered(next, reply)
                &&& ran == reply is Some
            };
        assert(needed == word.needed);
        lemma_frames_fit(before.pending.len() as int, c, needed as int);
        assert(input@.len() == word.needed * word.channels);
        assert(call_ensures(E::run, (engine, input, None::<usize>), (next, reply)));
        let samples = reply->0.samples@;
        let taken2 = taken + input@;
        let given2 = given + samples;
        assert((word.knows)(next, taken2, given2));
        let g = given.len() as int / c;
        let n = samples.len() as int / c;
        lemma_frames_of(given.len() as int, c);
        lemma_frames_of(samples.len() as int, c);
        lemma_frames_of(taken.len() as int, c);
        lemma_frames_of(fed.len() as int, c);
        lemma_frames_added(given.len() as int, c, n);
        lemma_frames_added(taken.len() as int, c, needed as int);
        lemma_multiple(needed as int, c);
        lemma_whole_frames(given.len() as int, samples.len() as int, c);
        lemma_whole_frames(taken.len() as int, needed * c, c);
        assert(needed * c > 0) by (nonlinear_arith)
            requires
                needed > 0,
                c > 0,
        ;
        assert(taken2 =~= fed.take(taken2.len() as int));
        let l = led(word.delay as int, g);
        let trim = min_int(word.delay - l, n);
        let deliver = n - trim;
        lemma_window_grows(given, samples, c, word.delay as int, g, n, trim, deliver);
        // Nothing has reached the end of a counter.
        let ahead = given2.len() as int / c - word.delay;
        assert(ahead <= owed);
        assert(taken2.len() as int / c <= frames) by {
            lemma_div_is_ordered(taken2.len() as int, frames * c, c);
            lemma_multiple(frames as int, c);
        }
        lemma_without_input(before, needed as int);
        let moved = Pipeline {
            engine: Some(next),
            in_total: taken2.len() as int / c,
            ..before.without_input(needed as int)
        };
        assert(moved.valid());
        lemma_cached(moved, samples, u64::MAX as int);
        assert(moved.warm_up(samples) == trim);
        assert(deliver <= u64::MAX);
        assert(moved.delivered(samples, u64::MAX as int) == deliver);
        assert(after == moved.cached(samples, u64::MAX as int));
        assert(after.out_total == before.out_total + deliver);
        assert(moved.pending =~= fed.skip(taken2.len() as int));
        assert(handed + after.ready =~= (handed + before.ready) + samples.subrange(
            trim * c,
            (trim + deliver) * c,
        ));
        assert(in_course(word, after, fed, taken2, given2, handed));
    }
}

/// The states between the chunks of a production are in the middle of the stream.
proof fn lemma_states_on_course<A: Arithmetic, E: Engine<A::Sample>>(
    word: Word<A::Sample, E>,
    states: Seq<Pipeline<A::Sample, E>>,
    before: Pipeline<A::Sample, E>,
    after: Pipeline<A::Sample, E>,
    goal: Option<usize>,
    fed: Seq<A::Sample>,
    handed: Seq<A::Sample>,
    frames: u64,
    owed: u64,
    k: int,
)
    requires
        keeps_word::<A, E>(word),
        on_course(word, before, fed, handed),
        produced_through(states, before, after, goal),
        fed.len() as int <= frames * word.channels,
        frames <= word.limit,
        is_worth::<A>(word.ratio, frames, owed),
        0 <= k < states.len(),
    ensures
        on_course(word, states[k], fed, handed),
    decreases k,
{
    if k > 0 {
        lemma_states_on_course::<A, E>(
            word,
            states,
            before,
            after,
            goal,
            fed,
            handed,
            frames,
            owed,
            k - 1,
        );
        assert(advances(states[k - 1], states[k - 1 + 1], goal));
        lemma_chunk_in_course::<A, E>(
            word,
            states[k - 1],
            states[k],
            true,
            fed,
            handed,
            frames,
            owed,
        );
    }
}

/// A production leaves a resampler in the middle of its stream, with its goal met or less than
/// a chunk pending: every input frame is either pending or taken in, and every frame of engine
/// output behind the warm-up is ready or handed out.
pub proof fn law_production_stays_on_course<A: Arithmetic, E: Engine<A::Sample>>(
    word: Word<A::Sample, E>,
    before: Pipeline<A::Sample, E>,
    after: Pipeline<A::Sample, E>,
    goal: Option<usize>,
    fed: Seq<A::Sample>,
    handed: Seq<A::Sample>,
    frames: u64,
    owed: u64,
)
    requires
        keeps_word::<A, E>(word),
        on_course(word, before, fed, handed),
        produced(before, after, goal),
        fed.len() as int <= frames * word.channels,
        frames <= word.limit,
        is_worth::<A>(word.ratio, frames, owed),
    ensures
        on_course(word, after, fed, handed),
        goal_met(after, goal) || after.pending_frames() < word.needed,
{
    let states = choose|states: Seq<Pipeline<A::Sample, E>>|
        produced_through(states, before, after, goal);
    let last = states.last();
    lemma_states_on_course::<A, E>(
        word,
        states,
        before,
        after,
        goal,
        fed,
        handed,
        frames,
        owed,
        states.len() - 1,
    );
    if !goal_met(last, goal) {
        assert(stops(last, after, goal));
        if chunk_run(last, after, false) {
            lemma_chunk_in_course::<A, E>(word, last, after, false, fed, handed, frames, owed);
        } else {
            lemma_chunk_in_course::<A, E>(word, last, after, true, fed, handed, frames, owed);
        }
    }
}

/// The whole frames of interleaved samples.
pub open spec fn whole_frames<S>(input: Seq<S>, channels: int) -> Seq<S> {
    input.take((input.len() as int / channels) * channels)
}

/// The resampler before a call: new, or in the middle of a stream.
pub open spec fn ready_for<S, E>(
    word: Word<S, E>,
    state: Pipeline<S, E>,
    fed: Seq<S>,
    handed: Seq<S>,
) -> bool {
    ||| on_course(word, state, fed, handed)
    ||| {
        &&& state == Pipeline::<S, E>::fresh(word.ratio, word.channels, word.silence)
        &&& sanitized(word.ratio) == word.ratio
        &&& word.ratio.is_usable_ratio()
        &&& fed.len() == 0
        &&& handed.len() == 0
    }
}

/// Seeing to the engine leaves a resampler in the middle of its stream.
proof fn lemma_ensured_on_course<A: Arithmetic, E: Engine<A::Sample>>(
    word: Word<A::Sample, E>,
    before: Pipeline<A::Sample, E>,
    after: Pipeline<A::Sample, E>,
    fed: Seq<A::Sample>,
    handed: Seq<A::Sample>,
)
    requires
        keeps_word::<A, E>(word),
        !ratios_compared::<A>(word.ratio, word.ratio, false),
        ready_for(word, before, fed, handed),
        engine_ensured::<A, E>(before, after),
    ensures
        on_course(word, after, fed, handed),
{
    if !on_course(word, before, fed, handed) {
        let c = word.channels as int;
        let (engine, delay) = choose|engine: E, delay: usize|
            {
                &&& call_ensures(
                    E::build,
                    (EngineSettings::good_quality(before.ratio, before.channels),),
                    engine,
                )
                &&& #[trigger] call_ensures(E::output_delay, (&engine,), delay)
                &&& after == before.rebuilt(engine, delay as int)
            };
        let none = Seq::<A::Sample>::empty();
        lemma_multiple(0, c);
        assert(fed =~= none && handed =~= none);
        assert(fed.take(0) =~= none);
        assert(fed.skip(0) =~= none);
        assert(0 * c == 0);
        assert(none.skip(0).take(0) =~= none);
        assert(handed + after.ready =~= none);
        assert(led(word.delay as int, 0) == 0);
        assert(in_course(word, after, fed, none, none, handed));
    }
}

/// More input leaves a resampler in the middle of its stream.
proof fn lemma_fed_on_course<A: Arithmetic, E: Engine<A::Sample>>(
    word: Word<A::Sample, E>,
    state: Pipeline<A::Sample, E>,
    fed: Seq<A::Sample>,
    handed: Seq<A::Sample>,
    input: Seq<A::Sample>,
)
    requires
        keeps_word::<A, E>(word),
        on_course(word, state, fed, handed),
    ensures
        on_course(
            word,
            state.fed(input),
            fed + whole_frames(input, word.channels as int),
            handed,
        ),
{
    let c = word.channels as int;
    let frames = input.len() as int / c;
    let more = whole_frames(input, c);
    let (taken, given) = choose|taken: Seq<A::Sample>, given: Seq<A::Sample>| #[trigger]
        in_course(word, state, fed, taken, given, handed);
    lemma_frames_fit(input.len() as int, c, frames);
    lemma_multiple(frames, c);
    lemma_whole_frames(fed.len() as int, frames * c, c);
    lemma_whole_frames(state.pending.len() as int, frames * c, c);
    assert((fed + more).take(taken.len() as int) =~= taken);
    assert((fed + more).skip(taken.len() as int) =~= state.pending + more);
    assert(in_course(word, state.fed(input), fed + more, taken, given, handed));
}

/// Handing out leaves a resampler in the middle of its stream.
proof fn lemma_drained_on_course<A: Arithmetic, E: Engine<A::Sample>>(
    word: Word<A::Sample, E>,
    state: Pipeline<A::Sample, E>,
    fed: Seq<A::Sample>,
    handed: Seq<A::Sample>,
    count: int,
)
    requires
        keeps_word::<A, E>(word),
        on_course(word, state, fed, handed),
        0 <= count <= state.ready.len(),
        count % (word.channels as int) == 0,
    ensures
        on_course(word, state.drained(count), fed, handed + state.ready.take(count)),
{
    let (taken, given) = choose|taken: Seq<A::Sample>, given: Seq<A::Sample>| #[trigger]
        in_course(word, state, fed, taken, given, handed);
    lemma_whole_frames(state.ready.len() as int, count, word.channels as int);
    assert((handed + state.ready.take(count)) + state.ready.skip(count) =~= handed + state.ready);
    assert(in_course(
        word,
        state.drained(count),
        fed,
        taken,
        given,
        handed + state.ready.take(count),
    ));
}

/// What a call hands out is whole frames, no more than are ready.
proof fn lemma_handed_out<S, E>(state: Pipeline<S, E>, output_len: int)
    requires
        state.valid(),
        state.channels > 0,
        output_len >= 0,
    ensures
        0 <= state.handed_out(output_len) <= state.ready.len(),
        state.handed_out(output_len) <= output_len,
        state.handed_out(output_len) % (state.channels as int) == 0,
{
    let c = state.channels as int;
    lemma_fundamental_div_mod(output_len, c);
    assert(output_len / c >= 0) by (nonlinear_arith)
        requires
            output_len == c * (output_len / c) + output_len % c,
            output_len % c < c,
            output_len >= 0,
            c > 0,
    ;
    lemma_frames_fit(output_len, c, output_len / c);
    lemma_multiple(output_len / c, c);
}

/// A `process` call leaves a resampler in the middle of its stream: all of the input is fed,
/// and what the call wrote goes on from what was handed out before. Output is held back only
/// where the call filled its slice; else less than a chunk is pending and nothing is ready.
pub proof fn law_process_stays_on_course<A: Arithmetic, E: Engine<A::Sample>>(
    word: Word<A::Sample, E>,
    before: Pipeline<A::Sample, E>,
    after: Pipeline<A::Sample, E>,
    fed: Seq<A::Sample>,
    handed: Seq<A::Sample>,
    input: Seq<A::Sample>,
    shown: Seq<A::Sample>,
    output: Seq<A::Sample>,
    written: int,
    frames: u64,
    owed: u64,
)
    requires
        keeps_word::<A, E>(word),
        !ratios_compared::<A>(word.ratio, word.ratio, false),
        ready_for(word, before, fed, handed),
        shown.len() <= usize::MAX,
        processed_to::<A, E>(before, after, input, shown, output, written),
        (fed + whole_frames(input, word.channels as int)).len() as int <= frames * word.channels,
        frames <= word.limit,
        is_worth::<A>(word.ratio, frames, owed),
    ensures
        on_course(
            word,
            after,
            fed + whole_frames(input, word.channels as int),
            handed + output.take(written * word.channels),
        ),
        0 <= written * word.channels <= shown.len(),
        written < shown.len() as int / (word.channels as int) ==> after.ready.len() == 0
            && after.pending_frames() < word.needed,
{
    let c = word.channels as int;
    let (built, full) = choose|built: Pipeline<A::Sample, E>, full: Pipeline<A::Sample, E>|
        {
            let count = full.handed_out(shown.len() as int);
            &&& #[trigger] processed_by::<A, E>(before, built, full, input, shown.len() as usize)
            &&& after == full.drained(count)
            &&& output == full.ready.take(count) + shown.skip(count)
            &&& written * before.channels == count
        };
    let count = full.handed_out(shown.len() as int);
    let all = fed + whole_frames(input, c);
    lemma_ensured_on_course::<A, E>(word, before, built, fed, handed);
    lemma_fed_on_course::<A, E>(word, built, fed, handed, input);
    law_production_stays_on_course::<A, E>(
        word,
        built.fed(input),
        full,
        Some(shown.len() as usize),
        all,
        handed,
        frames,
        owed,
    );
    lemma_handed_out(full, shown.len() as int);
    lemma_drained_on_course::<A, E>(word, full, all, handed, count);
    assert(output.take(count) =~= full.ready.take(count));
    if written < shown.len() as int / c {
        assert(written * c < (shown.len() as int / c) * c) by (nonlinear_arith)
            requires
                written < shown.len() as int / c,
                c > 0,
        ;
        lemma_frames_fit(shown.len() as int, c, shown.len() as int / c);
    }
}

/// `taken` is the beginning of `fed` with silence behind it.
pub open spec fn of_stream<S>(taken: Seq<S>, fed: Seq<S>, silence: S) -> bool {
    forall|i: int|
        0 <= i < taken.len() ==> #[trigger] taken[i] == if i < fed.len() {
            fed[i]
        } else {
            silence
        }
}

/// The resampler in the tail of a stream that is owed `owed` output frames.
pub open spec fn in_tail<S, E>(
    word: Word<S, E>,
    state: Pipeline<S, E>,
    fed: Seq<S>,
    taken: Seq<S>,
    given: Seq<S>,
    handed: Seq<S>,
    owed: int,
) -> bool {
    let c = word.channels as int;
    let frames = given.len() as int / c;
    let behind = frames - led(word.delay as int, frames);
    &&& state.valid()
    &&& state.channels == word.channels
    &&& state.engine is Some
    &&& (word.knows)(state.engine->0, taken, given)
    &&& given.len() as int % c == 0
    &&& state.silence == word.silence
    &&& of_stream(taken, fed, word.silence)
    &&& state.pending == if taken.len() < fed.len() {
        fed.skip(taken.len() as int)
    } else {
        Seq::empty()
    }
    &&& state.lead_trim == word.delay - led(word.delay as int, frames)
    &&& state.out_total == min_int(behind, owed)
    &&& handed + state.ready == given.skip(led(word.delay as int, frames) * c).take(
        state.out_total * c,
    )
}

/// The resampler in the tail, after an engine that gave `least` samples or more.
pub open spec fn on_tail<S, E>(
    word: Word<S, E>,
    state: Pipeline<S, E>,
    fed: Seq<S>,
    handed: Seq<S>,
    owed: int,
    least: int,
) -> bool {
    exists|taken: Seq<S>, given: Seq<S>| #[trigger]
        in_tail(word, state, fed, taken, given, handed, owed) && given.len() as int >= least
}

/// A pass over the tail that is owed anything runs, takes the rest of the input with it, and
/// brings more output.
proof fn lemma_pass_on_tail<A: Arithmetic, E: Engine<A::Sample>>(
    word: Word<A::Sample, E>,
    before: Pipeline<A::Sample, E>,
    after: Pipeline<A::Sample, E>,
    signal: usize,
    owed: u64,
    more: bool,
    fed: Seq<A::Sample>,
    handed: Seq<A::Sample>,
    least: int,
)
    requires
        keeps_word::<A, E>(word),
        on_tail(word, before, fed, handed, owed as int, least),
        before.out_total < owed,
        signal <= word.needed,
        signal * word.channels == before.pending.len(),
        tail_pass(before, after, signal, word.needed, owed, more),
    ensures
        more,
        after.pending.len() == 0,
        on_tail(
            word,
            after,
            fed,
            handed,
            owed as int,
            least + word.frames * word.channels,
        ),
{
    reveal(tail_pass);
    let c = word.channels as int;
    let (taken, given) = choose|taken: Seq<A::Sample>, given: Seq<A::Sample>| #[trigger]
        in_tail(word, before, fed, taken, given, handed, owed as int) && given.len() as int
            >= least;
    let engine = before.engine->0;
    let needed = word.needed;
    let (input, next, reply) = choose|
        input: Vec<A::Sample>,
        next: E,
        reply: Option<Chunk<A::Sample>>,
    |
        {
            &&& #[trigger] ran_on(before, input, Some(signal), next, reply)
            &&& input@ == before.tail_input(signal as int, needed as int)
            &&& after == before.tail_answered(next, reply, signal as int, owed as int)
            &&& more == (reply is Some && reply->0.samples@.len() >= before.channels)
        };
    assert(needed * c - signal * c == (needed - signal) * c && (needed - signal) * c >= 0)
        by (nonlinear_arith)
        requires
            signal <= needed,
            c > 0,
    ;
    assert(input@.len() == needed * c);
    assert(silent_behind(input@, signal as int, c, word.silence));
    assert(call_ensures(E::run, (engine, input, Some(signal)), (next, reply)));
    let samples = reply->0.samples@;
    let taken2 = taken + input@;
    let given2 = given + samples;
    assert((word.knows)(next, taken2, given2));
    let g = given.len() as int / c;
    let n = samples.len() as int / c;
    lemma_frames_of(given.len() as int, c);
    lemma_frames_of(samples.len() as int, c);
    lemma_frames_added(given.len() as int, c, n);
    lemma_whole_frames(given.len() as int, samples.len() as int, c);
    assert(word.frames * c >= c) by (nonlinear_arith)
        requires
            word.frames >= 1,
            c > 0,
    ;
    let l = led(word.delay as int, g);
    let trim = min_int(word.delay - l, n);
    let cap = owed - before.out_total;
    let deliver = min_int(n - trim, cap);
    assert(before.out_total == g - l);
    lemma_window_grows(given, samples, c, word.delay as int, g, n, trim, deliver);
    lemma_without_input(before, signal as int);
    let moved = Pipeline { engine: Some(next), ..before.without_input(signal as int) };
    assert(moved.pending =~= Seq::empty());
    lemma_cached(moved, samples, cap);
    assert(moved.warm_up(samples) == trim);
    assert(moved.delivered(samples, cap) == deliver);
    assert(after == moved.cached(samples, cap));
    assert(after.out_total == before.out_total + deliver);
    assert(handed + after.ready =~= (handed + before.ready) + samples.subrange(
        trim * c,
        (trim + deliver) * c,
    ));
    assert(needed * c > 0) by (nonlinear_arith)
        requires
            needed > 0,
            c > 0,
    ;
    assert(taken2.len() >= fed.len());
    assert forall|i: int| 0 <= i < taken2.len() implies #[trigger] taken2[i] == if i < fed.len() {
        fed[i]
    } else {
        word.silence
    } by {
        if i < taken.len() {
            assert(taken2[i] == taken[i]);
        } else {
            assert(taken2[i] == input@[i - taken.len()]);
        }
    }
    assert(of_stream(taken2, fed, word.silence));
    assert(in_tail(word, after, fed, taken2, given2, handed, owed as int));
}

/// The states between the passes over a tail.
proof fn lemma_states_on_tail<A: Arithmetic, E: Engine<A::Sample>>(
    word: Word<A::Sample, E>,
    states: Seq<Pipeline<A::Sample, E>>,
    before: Pipeline<A::Sample, E>,
    after: Pipeline<A::Sample, E>,
    signal: usize,
    owed: u64,
    fed: Seq<A::Sample>,
    handed: Seq<A::Sample>,
    least: int,
    k: int,
)
    requires
        keeps_word::<A, E>(word),
        on_tail(word, before, fed, handed, owed as int, least),
        signal <= word.needed,
        signal * word.channels == before.pending.len(),
        tail_through(states, before, after, signal, word.needed, owed),
        0 <= k < states.len(),
    ensures
        on_tail(
            word,
            states[k],
            fed,
            handed,
            owed as int,
            least + k * (word.frames * word.channels),
        ),
        k > 0 ==> states[k].pending.len() == 0,
    decreases k,
{
    let brought = word.frames * word.channels;
    if k > 0 {
        lemma_states_on_tail::<A, E>(
            word,
            states,
            before,
            after,
            signal,
            owed,
            fed,
            handed,
            least,
            k - 1,
        );
        let held: usize = if k - 1 == 0 {
            signal
        } else {
            0
        };
        let here = states[k - 1];
        assert(tail_pass(here, states[k - 1 + 1], held, word.needed, owed, true));
        if here.out_total >= owed {
            reveal(tail_pass);
        }
        lemma_pass_on_tail::<A, E>(
            word,
            here,
            states[k],
            held,
            owed,
            true,
            fed,
            handed,
            least + (k - 1) * brought,
        );
        assert((k - 1) * brought + brought == k * brought) by (nonlinear_arith);
    } else {
        assert(k * brought == 0) by (nonlinear_arith)
            requires
                k == 0,
        ;
    }
}

/// An output of `owed` frames that the engines of a stream make of the input `fed`: what comes
/// behind the warm-up, of the input with silence behind it.
pub open spec fn is_output<S, E>(
    word: Word<S, E>,
    fed: Seq<S>,
    owed: int,
    output: Seq<S>,
) -> bool {
    exists|engine: E, taken: Seq<S>, given: Seq<S>|
        {
            &&& #[trigger] (word.knows)(engine, taken, given)
            &&& of_stream(taken, fed, word.silence)
            &&& is_window(given, word.channels as int, word.delay as int, owed, output)
        }
}

/// `owed` frames of engine output, from frame `delay` on.
pub open spec fn is_window<S>(
    given: Seq<S>,
    channels: int,
    delay: int,
    owed: int,
    output: Seq<S>,
) -> bool {
    if owed == 0 {
        output.len() == 0
    } else {
        &&& (delay + owed) * channels <= given.len()
        &&& output == given.subrange(delay * channels, (delay + owed) * channels)
    }
}

/// A drained tail is an output of the stream.
proof fn lemma_tail_is_output<A: Arithmetic, E: Engine<A::Sample>>(
    word: Word<A::Sample, E>,
    state: Pipeline<A::Sample, E>,
    fed: Seq<A::Sample>,
    handed: Seq<A::Sample>,
    owed: int,
    least: int,
)
    requires
        keeps_word::<A, E>(word),
        on_tail(word, state, fed, handed, owed, least),
        state.out_total == owed,
    ensures
        is_output(word, fed, owed, handed + state.ready),
{
    let c = word.channels as int;
    let (taken, given) = choose|taken: Seq<A::Sample>, given: Seq<A::Sample>| #[trigger]
        in_tail(word, state, fed, taken, given, handed, owed) && given.len() as int >= least;
    let g = given.len() as int / c;
    let l = led(word.delay as int, g);
    let all = handed + state.ready;
    lemma_frames_of(given.len() as int, c);
    if owed == 0 {
        assert(state.out_total * c == 0) by (nonlinear_arith)
            requires
                state.out_total == 0,
        ;
        assert(0 <= l * c <= g * c) by (nonlinear_arith)
            requires
                0 <= l <= g,
                c > 0,
        ;
    } else {
        assert(l == word.delay);
        assert((l + owed) * c == l * c + owed * c) by (nonlinear_arith);
        assert(0 <= l * c && 0 <= owed * c && (l + owed) * c <= g * c) by (nonlinear_arith)
            requires
                0 <= l,
                0 <= owed,
                l + owed <= g,
                c > 0,
        ;
        assert(all =~= given.subrange(l * c, (l + owed) * c));
    }
    assert(is_window(given, c, word.delay as int, owed, all));
    assert((word.knows)(state.engine->0, taken, given));
}

/// The tail starts where the chunks ended, with the rest of the input as its signal.
proof fn lemma_tail_opens<A: Arithmetic, E: Engine<A::Sample>>(
    word: Word<A::Sample, E>,
    whole: Pipeline<A::Sample, E>,
    signal: usize,
    fed: Seq<A::Sample>,
    taken: Seq<A::Sample>,
    given: Seq<A::Sample>,
    handed: Seq<A::Sample>,
    frames: u64,
    owed: u64,
)
    requires
        keeps_word::<A, E>(word),
        in_course(word, whole, fed, taken, given, handed),
        signal == whole.pending_frames(),
        fed.len() as int == frames * word.channels,
        frames <= word.limit,
        is_worth::<A>(word.ratio, frames, owed),
    ensures
        signal * word.channels == whole.pending.len(),
        fed.len() - taken.len() == signal * word.channels,
        tail_opened(whole, signal).in_total == frames,
        in_tail(
            word,
            tail_opened(whole, signal),
            fed,
            taken,
            given,
            handed,
            owed as int,
        ),
{
    let c = word.channels as int;
    let opened = tail_opened(whole, signal);
    let t = taken.len() as int / c;
    lemma_frames_of(fed.len() as int, c);
    lemma_frames_of(taken.len() as int, c);
    lemma_frames_of(given.len() as int, c);
    lemma_multiple(frames as int, c);
    lemma_div_is_ordered(taken.len() as int, fed.len() as int, c);
    lemma_frames_dropped(fed.len() as int, c, t);
    assert(whole.pending.len() == fed.len() - t * c);
    assert((frames - t) * c == frames * c - t * c) by (nonlinear_arith);
    assert(of_stream(taken, fed, word.silence)) by {
        assert forall|i: int| 0 <= i < taken.len() implies #[trigger] taken[i] == if i
            < fed.len() {
            fed[i]
        } else {
            word.silence
        } by {
            assert(taken[i] == fed.take(taken.len() as int)[i]);
        }
    }
    assert(opened.pending =~= if taken.len() < fed.len() {
        fed.skip(taken.len() as int)
    } else {
        Seq::empty()
    });
    assert((word.knows)(opened.engine->0, taken, given));
    assert(whole.out_total <= owed);
}

/// The passes over the tail bring all that is owed.
proof fn lemma_tail_reaches<A: Arithmetic, E: Engine<A::Sample>>(
    word: Word<A::Sample, E>,
    states: Seq<Pipeline<A::Sample, E>>,
    opened: Pipeline<A::Sample, E>,
    tail: Pipeline<A::Sample, E>,
    signal: usize,
    fed: Seq<A::Sample>,
    taken: Seq<A::Sample>,
    given: Seq<A::Sample>,
    handed: Seq<A::Sample>,
    frames: u64,
    owed: u64,
)
    requires
        keeps_word::<A, E>(word),
        in_tail(word, opened, fed, taken, given, handed, owed as int),
        signal <= word.needed,
        signal * word.channels == opened.pending.len(),
        tail_through(states, opened, tail, signal, word.needed, owed),
        taken.len() <= fed.len(),
        fed.len() - taken.len() == signal * word.channels,
        signal < word.needed,
        fed.len() as int == frames * word.channels,
        frames <= word.limit,
        is_worth::<A>(word.ratio, frames, owed),
    ensures
        tail.out_total == owed,
        tail.engine is Some,
        tail.channels == word.channels,
        tail.valid(),
        is_output(word, fed, owed as int, handed + tail.ready),
{
    let c = word.channels as int;
    let least = given.len() as int;
    let last = states.last();
    let passes = states.len() - 1;
    let brought = word.frames * word.channels;
    assert(on_tail(word, opened, fed, handed, owed as int, least));
    lemma_states_on_tail::<A, E>(
        word,
        states,
        opened,
        tail,
        signal,
        owed,
        fed,
        handed,
        least,
        passes,
    );
    assert(tail == last && tail.out_total == owed) by {
        if states.len() <= CHUNK_FRAMES {
            let held: usize = if states.len() == 1 {
                signal
            } else {
                0
            };
            if last.out_total < owed {
                lemma_pass_on_tail::<A, E>(
                    word,
                    last,
                    tail,
                    held,
                    owed,
                    false,
                    fed,
                    handed,
                    least + passes * brought,
                );
            } else {
                reveal(tail_pass);
            }
        } else {
            let (t2, g2) = choose|t2: Seq<A::Sample>, g2: Seq<A::Sample>| #[trigger]
                in_tail(word, last, fed, t2, g2, handed, owed as int) && g2.len() as int >= least
                    + passes * brought;
            lemma_frames_of(g2.len() as int, c);
            lemma_frames_of(given.len() as int, c);
            let g = given.len() as int / c;
            assert(word.needed * c > signal * c) by (nonlinear_arith)
                requires
                    word.needed > signal,
                    c > 0,
            ;
            assert((word.knows)(opened.engine->0, taken, given));
            assert(owed - (g - word.delay) <= CHUNK_FRAMES * word.frames);
            assert(g2.len() as int / c >= g + CHUNK_FRAMES * word.frames) by (nonlinear_arith)
                requires
                    g2.len() as int >= g * c + CHUNK_FRAMES * (word.frames * c),
                    g2.len() as int == (g2.len() as int / c) * c,
                    c > 0,
            ;
        }
    }
    lemma_tail_is_output::<A, E>(
        word,
        tail,
        fed,
        handed,
        owed as int,
        least + passes * brought,
    );
}

/// A `flush` in the middle of a stream drains it: what was handed out and what is ready are
/// together an output of the stream, as long as the input is worth.
pub proof fn law_flush_drains_the_stream<A: Arithmetic, E: Engine<A::Sample>>(
    word: Word<A::Sample, E>,
    before: Pipeline<A::Sample, E>,
    full: Pipeline<A::Sample, E>,
    fed: Seq<A::Sample>,
    handed: Seq<A::Sample>,
    frames: u64,
    owed: u64,
)
    requires
        one_result::<A>(),
        keeps_word::<A, E>(word),
        on_course(word, before, fed, handed),
        flush_prepared::<A, E>(before, full),
        fed.len() as int == frames * word.channels,
        frames <= word.limit,
        is_worth::<A>(word.ratio, frames, owed),
    ensures
        is_output(word, fed, owed as int, handed + full.ready),
        full.valid(),
        full.flushed,
        full.engine is Some,
        full.channels == word.channels,
        full.out_total == owed,
{
    let tail = choose|tail: Pipeline<A::Sample, E>| #[trigger]
        tail_flushed::<A, E>(before, tail) && full == (Pipeline { flushed: true, ..tail });
    let whole = choose|whole: Pipeline<A::Sample, E>| #[trigger]
        tail_flushed_by::<A, E>(before, whole, tail);
    law_production_stays_on_course::<A, E>(
        word,
        before,
        whole,
        None,
        fed,
        handed,
        frames,
        owed,
    );
    let (taken, given) = choose|taken: Seq<A::Sample>, given: Seq<A::Sample>| #[trigger]
        in_course(word, whole, fed, taken, given, handed);
    let (needed, signal, ratio, worth, states) = choose|
        needed: usize,
        signal: usize,
        ratio: Double,
        worth: u64,
        states: Seq<Pipeline<A::Sample, E>>,
    |
        {
            &&& #[trigger] wants(whole, needed)
            &&& signal == min_int(whole.pending_frames(), needed as int)
            &&& #[trigger] owes::<A, E>(tail_opened(whole, signal), ratio, worth)
            &&& #[trigger] tail_through(
                states,
                tail_opened(whole, signal),
                tail,
                signal,
                needed,
                worth,
            )
        };
    assert(needed == word.needed);
    assert(ratio == word.ratio);
    lemma_tail_opens::<A, E>(word, whole, signal, fed, taken, given, handed, frames, owed);
    lemma_worth_is_one::<A>(word.ratio, frames, worth, owed);
    lemma_tail_reaches::<A, E>(
        word,
        states,
        tail_opened(whole, signal),
        tail,
        signal,
        fed,
        taken,
        given,
        handed,
        frames,
        owed,
    );
}

/// One call of a stream: whether it was a flush, its input, the output buffer before and after,
/// and the frames written.
#[verifier::ext_equal]
pub struct Turn<S> {
    pub flush: bool,
    pub input: Seq<S>,
    pub shown: Seq<S>,
    pub output: Seq<S>,
    pub written: int,
}

/// A call that was answered.
pub open spec fn is_turn<A: Arithmetic, E: Engine<A::Sample>>(
    before: Pipeline<A::Sample, E>,
    after: Pipeline<A::Sample, E>,
    turn: Turn<A::Sample>,
) -> bool {
    &&& before.accepts(turn.shown.len() as int, before.channels)
    &&& turn.shown.len() <= usize::MAX
    &&& if turn.flush {
        flushed_to::<A, E>(before, after, turn.shown, turn.output, turn.written)
    } else {
        processed_to::<A, E>(before, after, turn.input, turn.shown, turn.output, turn.written)
    }
}

/// The input of all calls, in whole frames.
pub open spec fn fed_by<S>(turns: Seq<Turn<S>>, channels: int) -> Seq<S>
    decreases turns.len(),
{
    if turns.len() == 0 {
        Seq::empty()
    } else if turns.last().flush {
        fed_by(turns.drop_last(), channels)
    } else {
        fed_by(turns.drop_last(), channels) + whole_frames(turns.last().input, channels)
    }
}

/// The output of all calls.
pub open spec fn handed_by<S>(turns: Seq<Turn<S>>, channels: int) -> Seq<S>
    decreases turns.len(),
{
    if turns.len() == 0 {
        Seq::empty()
    } else {
        handed_by(turns.drop_last(), channels) + turns.last().output.take(
            turns.last().written * channels,
        )
    }
}

/// Calls one after the other.
pub open spec fn is_run<A: Arithmetic, E: Engine<A::Sample>>(
    states: Seq<Pipeline<A::Sample, E>>,
    turns: Seq<Turn<A::Sample>>,
) -> bool {
    &&& states.len() == turns.len() + 1
    &&& forall|k: int|
        0 <= k < turns.len() ==> is_turn::<A, E>(
            states[k],
            states[k + 1],
            #[trigger] turns[k],
        )
}

/// The calls of a whole stream: those with input are among the first `calls` calls, and flushes
/// come behind them until one writes nothing. There may be flushes before any input, too.
pub open spec fn are_turns<S>(turns: Seq<Turn<S>>, channels: usize, calls: int) -> bool {
    &&& 0 <= calls < turns.len()
    &&& forall|k: int|
        0 <= k < calls && turns[k].flush ==> fed_by(
            #[trigger] turns.take(k),
            channels as int,
        ).len() == 0
    &&& forall|k: int| calls <= k < turns.len() ==> (#[trigger] turns[k]).flush
    &&& turns.last().written == 0
}

/// A whole stream from its start.
pub open spec fn is_stream<A: Arithmetic, E: Engine<A::Sample>>(
    ratio: Double,
    channels: usize,
    silence: A::Sample,
    states: Seq<Pipeline<A::Sample, E>>,
    turns: Seq<Turn<A::Sample>>,
    calls: int,
) -> bool {
    &&& are_turns(turns, channels, calls)
    &&& is_run::<A, E>(states, turns)
    &&& states[0] == Pipeline::<A::Sample, E>::fresh(ratio, channels, silence)
    &&& states[0].valid()
}

/// Behind a reset every call is as on a new resampler: calls behind it, whatever they are, write,
/// return and leave what they may on a new resampler with the ratio.
pub proof fn law_calls_behind_a_reset_are_as_on_a_new_one<A: Arithmetic, E: Engine<A::Sample>>(
    used: Pipeline<A::Sample, E>,
    states: Seq<Pipeline<A::Sample, E>>,
    turns: Seq<Turn<A::Sample>>,
)
    requires
        used.valid(),
        used.output_delay <= usize::MAX,
        restarts_as_new(used),
        is_run::<A, E>(states, turns),
        reset_to::<A, E>(used, states[0]),
    ensures
        is_run::<A, E>(
            states.update(0, Pipeline::fresh(used.ratio, used.channels, used.silence)),
            turns,
        ),
{
    let fresh = Pipeline::<A::Sample, E>::fresh(used.ratio, used.channels, used.silence);
    let anew = states.update(0, fresh);
    assert forall|k: int| 0 <= k < turns.len() implies is_turn::<A, E>(
        anew[k],
        anew[k + 1],
        #[trigger] turns[k],
    ) by {
        assert(is_turn::<A, E>(states[k], states[k + 1], turns[k]));
        if k == 0 {
            let turn = turns[0];
            if turn.flush {
                law_flush_behind_a_reset_is_a_first_flush::<A, E>(
                    used,
                    states[0],
                    states[1],
                    turn.shown,
                    turn.output,
                    turn.written,
                );
            } else {
                law_call_behind_a_reset_is_a_first_call::<A, E>(
                    used,
                    states[0],
                    states[1],
                    turn.input,
                    turn.shown,
                    turn.output,
                    turn.written,
                );
            }
        }
    }
}

/// The input of the first calls is no longer than that of all.
proof fn lemma_fed_grows<S>(turns: Seq<Turn<S>>, channels: int, k: int)
    requires
        0 <= k <= turns.len(),
    ensures
        fed_by(turns.take(k), channels).len() <= fed_by(turns, channels).len(),
    decreases turns.len(),
{
    if k < turns.len() {
        lemma_fed_grows(turns.drop_last(), channels, k);
        assert(turns.drop_last().take(k) =~= turns.take(k));
    } else {
        assert(turns.take(k) =~= turns);
    }
}

/// One call more.
proof fn lemma_one_turn_more<S>(turns: Seq<Turn<S>>, channels: int, k: int)
    requires
        0 <= k < turns.len(),
    ensures
        fed_by(turns.take(k + 1), channels) == if turns[k].flush {
            fed_by(turns.take(k), channels)
        } else {
            fed_by(turns.take(k), channels) + whole_frames(turns[k].input, channels)
        },
        handed_by(turns.take(k + 1), channels) == handed_by(turns.take(k), channels)
            + turns[k].output.take(turns[k].written * channels),
{
    assert(turns.take(k + 1).drop_last() =~= turns.take(k));
    assert(turns.take(k + 1).last() == turns[k]);
}

/// In the middle of a stream without any input nothing has begun.
proof fn lemma_course_untouched<A: Arithmetic, E: Engine<A::Sample>>(
    word: Word<A::Sample, E>,
    state: Pipeline<A::Sample, E>,
    fed: Seq<A::Sample>,
    handed: Seq<A::Sample>,
)
    requires
        keeps_word::<A, E>(word),
        is_worth::<A>(word.ratio, 0, 0),
        on_course(word, state, fed, handed),
    ensures
        fed.len() == 0 ==> state.untouched() && handed.len() == 0,
        fed.len() > 0 ==> !state.untouched(),
{
    let c = word.channels as int;
    let (taken, given) = choose|taken: Seq<A::Sample>, given: Seq<A::Sample>| #[trigger]
        in_course(word, state, fed, taken, given, handed);
    lemma_frames_of(taken.len() as int, c);
    lemma_frames_of(given.len() as int, c);
    if fed.len() == 0 {
        assert(taken.len() as int <= 0 * c);
        let frames = given.len() as int / c;
        let ahead = frames - word.delay;
        assert(ahead <= 0);
        lemma_multiple(0, c);
        assert(state.out_total == 0);
        assert(state.out_total * c == 0) by (nonlinear_arith)
            requires
                state.out_total == 0,
        ;
        let l = led(word.delay as int, frames);
        assert(0 <= l * c <= frames * c) by (nonlinear_arith)
            requires
                0 <= l <= frames,
                c > 0,
        ;
        assert((handed + state.ready).len() == 0);
    } else if state.untouched() {
        assert(taken.len() == 0) by (nonlinear_arith)
            requires
                taken.len() as int == (taken.len() as int / c) * c,
                taken.len() as int / c == 0,
        ;
        assert(state.pending.len() == fed.len());
    }
}

/// A flush before any input leaves a resampler at the start of its stream.
proof fn lemma_flush_before_input<A: Arithmetic, E: Engine<A::Sample>>(
    word: Word<A::Sample, E>,
    before: Pipeline<A::Sample, E>,
    after: Pipeline<A::Sample, E>,
    fed: Seq<A::Sample>,
    handed: Seq<A::Sample>,
    turn: Turn<A::Sample>,
)
    requires
        keeps_word::<A, E>(word),
        !ratios_compared::<A>(word.ratio, word.ratio, false),
        is_worth::<A>(word.ratio, 0, 0),
        ready_for(word, before, fed, handed),
        fed.len() == 0,
        flushed_to::<A, E>(before, after, turn.shown, turn.output, turn.written),
    ensures
        on_course(word, after, fed, handed + turn.output.take(turn.written * word.channels)),
        turn.written == 0,
{
    let c = word.channels as int;
    if on_course(word, before, fed, handed) {
        lemma_course_untouched::<A, E>(word, before, fed, handed);
    }
    lemma_ensured_on_course::<A, E>(word, before, after, fed, handed);
    assert(turn.written * c == 0) by (nonlinear_arith)
        requires
            turn.written == 0,
    ;
    assert(handed + turn.output.take(0) =~= handed);
}

/// The state behind the first calls of a stream, or behind any calls where none has input.
proof fn lemma_stream_on_course<A: Arithmetic, E: Engine<A::Sample>>(
    word: Word<A::Sample, E>,
    states: Seq<Pipeline<A::Sample, E>>,
    turns: Seq<Turn<A::Sample>>,
    calls: int,
    frames: u64,
    owed: u64,
    k: int,
)
    requires
        keeps_word::<A, E>(word),
        !ratios_compared::<A>(word.ratio, word.ratio, false),
        is_worth::<A>(word.ratio, 0, 0),
        is_stream::<A, E>(word.ratio, word.channels, word.silence, states, turns, calls),
        fed_by(turns, word.channels as int).len() as int == frames * word.channels,
        frames <= word.limit,
        is_worth::<A>(word.ratio, frames, owed),
        0 <= k <= turns.len(),
        k <= calls || frames == 0,
    ensures
        ready_for(
            word,
            states[k],
            fed_by(turns.take(k), word.channels as int),
            handed_by(turns.take(k), word.channels as int),
        ),
        k > 0 ==> on_course(
            word,
            states[k],
            fed_by(turns.take(k), word.channels as int),
            handed_by(turns.take(k), word.channels as int),
        ),
    decreases k,
{
    let c = word.channels as int;
    if k > 0 {
        lemma_stream_on_course::<A, E>(word, states, turns, calls, frames, owed, k - 1);
        let turn = turns[k - 1];
        let fed = fed_by(turns.take(k - 1), c);
        let handed = handed_by(turns.take(k - 1), c);
        assert(is_turn::<A, E>(states[k - 1], states[k - 1 + 1], turn));
        lemma_one_turn_more(turns, c, k - 1);
        lemma_fed_grows(turns, c, k);
        if turn.flush {
            if k - 1 >= calls {
                lemma_fed_grows(turns, c, k - 1);
                assert(frames * c == 0) by (nonlinear_arith)
                    requires
                        frames == 0,
                ;
            }
            lemma_flush_before_input::<A, E>(word, states[k - 1], states[k], fed, handed, turn);
        } else {
            law_process_stays_on_course::<A, E>(
                word,
                states[k - 1],
                states[k],
                fed,
                handed,
                turn.input,
                turn.shown,
                turn.output,
                turn.written,
                frames,
                owed,
            );
        }
    } else {
        assert(turns.take(0) =~= Seq::empty());
    }
}

/// The state behind a flush: all that was handed out and all that is ready are an output of the
/// stream.
pub open spec fn is_drained<S, E>(
    word: Word<S, E>,
    state: Pipeline<S, E>,
    fed: Seq<S>,
    handed: Seq<S>,
    owed: int,
) -> bool {
    &&& state.valid()
    &&& state.flushed
    &&& state.engine is Some
    &&& state.channels == word.channels
    &&& is_output(word, fed, owed, handed + state.ready)
}

/// A flush hands out from the front of what is ready, and nothing is ready behind one that
/// writes nothing.
proof fn lemma_flush_hands_out<A: Arithmetic, E: Engine<A::Sample>>(
    word: Word<A::Sample, E>,
    full: Pipeline<A::Sample, E>,
    after: Pipeline<A::Sample, E>,
    fed: Seq<A::Sample>,
    handed: Seq<A::Sample>,
    owed: int,
    turn: Turn<A::Sample>,
)
    requires
        is_drained(word, full, fed, handed, owed),
        word.channels > 0,
        turn.shown.len() >= word.channels,
        after == full.drained(full.handed_out(turn.shown.len() as int)),
        turn.output == full.ready.take(full.handed_out(turn.shown.len() as int))
            + turn.shown.skip(full.handed_out(turn.shown.len() as int)),
        turn.written * word.channels == full.handed_out(turn.shown.len() as int),
    ensures
        is_drained(
            word,
            after,
            fed,
            handed + turn.output.take(turn.written * word.channels),
            owed,
        ),
        turn.written == 0 ==> after.ready.len() == 0,
{
    let c = word.channels as int;
    let len = turn.shown.len() as int;
    let count = full.handed_out(len);
    lemma_handed_out(full, len);
    lemma_whole_frames(full.ready.len() as int, count, c);
    assert(turn.output.take(count) =~= full.ready.take(count));
    assert((handed + full.ready.take(count)) + full.ready.skip(count) =~= handed + full.ready);
    if turn.written == 0 {
        assert(turn.written * c == 0) by (nonlinear_arith)
            requires
                turn.written == 0,
        ;
        lemma_fundamental_div_mod(len, c);
        assert((len / c) * c > 0) by (nonlinear_arith)
            requires
                len == c * (len / c) + len % c,
                len % c < c,
                len >= c,
                c > 0,
        ;
    }
}

/// The state behind the flushes of a stream.
proof fn lemma_stream_drained<A: Arithmetic, E: Engine<A::Sample>>(
    word: Word<A::Sample, E>,
    states: Seq<Pipeline<A::Sample, E>>,
    turns: Seq<Turn<A::Sample>>,
    calls: int,
    frames: u64,
    owed: u64,
    k: int,
)
    requires
        one_result::<A>(),
        keeps_word::<A, E>(word),
        !ratios_compared::<A>(word.ratio, word.ratio, false),
        is_worth::<A>(word.ratio, 0, 0),
        is_stream::<A, E>(word.ratio, word.channels, word.silence, states, turns, calls),
        fed_by(turns, word.channels as int).len() as int == frames * word.channels,
        frames <= word.limit,
        is_worth::<A>(word.ratio, frames, owed),
        frames > 0,
        calls < k <= turns.len(),
    ensures
        fed_by(turns.take(k), word.channels as int) == fed_by(
            turns.take(calls),
            word.channels as int,
        ),
        is_drained(
            word,
            states[k],
            fed_by(turns.take(calls), word.channels as int),
            handed_by(turns.take(k), word.channels as int),
            owed as int,
        ),
        turns[k - 1].written == 0 ==> states[k].ready.len() == 0,
    decreases k,
{
    let c = word.channels as int;
    let fed = fed_by(turns.take(calls), c);
    let handed = handed_by(turns.take(k - 1), c);
    let before = states[k - 1];
    let turn = turns[k - 1];
    assert(is_turn::<A, E>(states[k - 1], states[k - 1 + 1], turn));
    assert(turn.flush);
    lemma_one_turn_more(turns, c, k - 1);
    if k - 1 > calls {
        lemma_stream_drained::<A, E>(word, states, turns, calls, frames, owed, k - 1);
    } else {
        lemma_stream_on_course::<A, E>(word, states, turns, calls, frames, owed, calls);
        lemma_flushes_feed_nothing(turns, c, calls, turns.len() as int);
        assert(turns.take(turns.len() as int) =~= turns);
        assert(frames * c > 0) by (nonlinear_arith)
            requires
                frames > 0,
                c > 0,
        ;
        if calls == 0 {
            assert(turns.take(0) =~= Seq::empty());
        }
        lemma_course_untouched::<A, E>(word, before, fed, handed);
    }
    let full = choose|full: Pipeline<A::Sample, E>|
        {
            let count = full.handed_out(turn.shown.len() as int);
            &&& #[trigger] flush_prepared::<A, E>(before, full)
            &&& states[k] == full.drained(count)
            &&& turn.output == full.ready.take(count) + turn.shown.skip(count)
            &&& turn.written * before.channels == count
        };
    if k - 1 == calls {
        law_flush_drains_the_stream::<A, E>(word, before, full, fed, handed, frames, owed);
    }
    assert(is_drained(word, full, fed, handed, owed as int));
    lemma_flush_hands_out::<A, E>(
        word,
        full,
        states[k],
        fed,
        handed,
        owed as int,
        turn,
    );
}

/// Flushes feed nothing.
proof fn lemma_flushes_feed_nothing<S>(turns: Seq<Turn<S>>, channels: int, calls: int, k: int)
    requires
        0 <= calls <= k <= turns.len(),
        forall|i: int| calls <= i < turns.len() ==> (#[trigger] turns[i]).flush,
    ensures
        fed_by(turns.take(k), channels) == fed_by(turns.take(calls), channels),
    decreases k,
{
    if k > calls {
        lemma_one_turn_more(turns, channels, k - 1);
        lemma_flushes_feed_nothing(turns, channels, calls, k - 1);
    }
}

/// A whole stream, however its input and output are cut: all that its calls and flushes write
/// together is an output of its input, exactly as many frames as the input is worth. No
/// buffered input is lost, and nothing is written behind the end.
pub proof fn law_stream_is_as_long_as_its_input_is_worth<A: Arithmetic, E: Engine<A::Sample>>(
    word: Word<A::Sample, E>,
    states: Seq<Pipeline<A::Sample, E>>,
    turns: Seq<Turn<A::Sample>>,
    calls: int,
    frames: u64,
    owed: u64,
)
    requires
        one_result::<A>(),
        keeps_word::<A, E>(word),
        !ratios_compared::<A>(word.ratio, word.ratio, false),
        is_worth::<A>(word.ratio, 0, 0),
        is_stream::<A, E>(word.ratio, word.channels, word.silence, states, turns, calls),
        fed_by(turns, word.channels as int).len() as int == frames * word.channels,
        frames <= word.limit,
        is_worth::<A>(word.ratio, frames, owed),
    ensures
        handed_by(turns, word.channels as int).len() as int == owed * word.channels,
        is_output(
            word,
            fed_by(turns, word.channels as int),
            owed as int,
            handed_by(turns, word.channels as int),
        ),
{
    let c = word.channels as int;
    let k = turns.len() as int;
    let fed = fed_by(turns, c);
    let handed = handed_by(turns, c);
    assert(turns.take(k) =~= turns);
    if frames == 0 {
        assert(frames * c == 0) by (nonlinear_arith)
            requires
                frames == 0,
        ;
        lemma_worth_is_one::<A>(word.ratio, 0, owed, 0);
        lemma_stream_on_course::<A, E>(word, states, turns, calls, frames, owed, k);
        lemma_course_untouched::<A, E>(word, states[k], fed, handed);
        let (taken, given) = choose|taken: Seq<A::Sample>, given: Seq<A::Sample>| #[trigger]
            in_course(word, states[k], fed, taken, given, handed);
        assert((word.knows)(states[k].engine->0, taken, given));
        assert(is_window(given, c, word.delay as int, 0, handed));
    } else {
        lemma_stream_drained::<A, E>(word, states, turns, calls, frames, owed, k);
        assert(handed + states[k].ready =~= handed);
    }
    lemma_output_length(word, fed, owed as int, handed);
}

/// A whole stream behind a reset is a stream from the start: all that its calls and flushes write
/// together is an output of its input, exactly as many frames as the input is worth, whatever
/// came before the reset.
pub proof fn law_stream_behind_a_reset_is_as_long_as_its_input_is_worth<
    A: Arithmetic,
    E: Engine<A::Sample>,
>(
    word: Word<A::Sample, E>,
    used: Pipeline<A::Sample, E>,
    states: Seq<Pipeline<A::Sample, E>>,
    turns: Seq<Turn<A::Sample>>,
    calls: int,
    frames: u64,
    owed: u64,
)
    requires
        one_result::<A>(),
        keeps_word::<A, E>(word),
        !ratios_compared::<A>(word.ratio, word.ratio, false),
        is_worth::<A>(word.ratio, 0, 0),
        used.valid(),
        used.output_delay <= usize::MAX,
        used.ratio == word.ratio,
        used.channels == word.channels,
        used.silence == word.silence,
        restarts_as_new(used),
        reset_to::<A, E>(used, states[0]),
        is_run::<A, E>(states, turns),
        are_turns(turns, word.channels, calls),
        fed_by(turns, word.channels as int).len() as int == frames * word.channels,
        frames <= word.limit,
        is_worth::<A>(word.ratio, frames, owed),
    ensures
        handed_by(turns, word.channels as int).len() as int == owed * word.channels,
        is_output(
            word,
            fed_by(turns, word.channels as int),
            owed as int,
            handed_by(turns, word.channels as int),
        ),
{
    let fresh = Pipeline::<A::Sample, E>::fresh(used.ratio, used.channels, used.silence);
    law_calls_behind_a_reset_are_as_on_a_new_one::<A, E>(used, states, turns);
    lemma_multiple(0, word.channels as int);
    law_stream_is_as_long_as_its_input_is_worth::<A, E>(
        word,
        states.update(0, fresh),
        turns,
        calls,
        frames,
        owed,
    );
}

/// An output of a stream is as long as it is to be.
proof fn lemma_output_length<S, E>(
    word: Word<S, E>,
    fed: Seq<S>,
    owed: int,
    output: Seq<S>,
)
    requires
        word.channels > 0,
        owed >= 0,
        is_output(word, fed, owed, output),
    ensures
        output.len() as int == owed * word.channels,
{
    let c = word.channels as int;
    let d = word.delay as int;
    assert((d + owed) * c == d * c + owed * c && 0 <= d * c && 0 <= owed * c) by (nonlinear_arith)
        requires
            d >= 0,
            owed >= 0,
            c > 0,
    ;
    if owed == 0 {
        assert(owed * c == 0) by (nonlinear_arith)
            requires
                owed == 0,
        ;
    }
}

/// What the engines of a stream give depends on what they take in: more input only adds output.
pub open spec fn is_steady<S, E>(word: Word<S, E>) -> bool {
    forall|a: E, taken1: Seq<S>, given1: Seq<S>, b: E, taken2: Seq<S>, given2: Seq<S>|
        #[trigger] (word.knows)(a, taken1, given1) && #[trigger] (word.knows)(b, taken2, given2)
            && taken1.len() <= taken2.len() && taken1 == taken2.take(taken1.len() as int)
            ==> given1.len() <= given2.len() && given1 == given2.take(given1.len() as int)
}

/// One output of engine output that goes on from other engine output is the other's.
proof fn lemma_windows_agree<S>(
    given1: Seq<S>,
    given2: Seq<S>,
    channels: int,
    delay: int,
    owed: int,
    x: Seq<S>,
    y: Seq<S>,
)
    requires
        channels > 0,
        delay >= 0,
        owed >= 0,
        given1.len() <= given2.len(),
        given1 == given2.take(given1.len() as int),
        is_window(given1, channels, delay, owed, x),
        is_window(given2, channels, delay, owed, y),
    ensures
        x == y,
{
    if owed > 0 {
        assert((delay + owed) * channels == delay * channels + owed * channels && 0 <= delay
            * channels && 0 <= owed * channels) by (nonlinear_arith)
            requires
                delay >= 0,
                owed >= 0,
                channels > 0,
        ;
        assert forall|i: int| 0 <= i < x.len() implies x[i] == y[i] by {
            assert(given1[delay * channels + i] == given2.take(given1.len() as int)[delay
                * channels + i]);
        }
    }
    assert(x =~= y);
}

/// An input has one output, where the engine is steady.
proof fn lemma_output_is_one<S, E>(
    word: Word<S, E>,
    fed: Seq<S>,
    owed: int,
    x: Seq<S>,
    y: Seq<S>,
)
    requires
        word.channels > 0,
        owed >= 0,
        is_steady(word),
        is_output(word, fed, owed, x),
        is_output(word, fed, owed, y),
    ensures
        x == y,
{
    let c = word.channels as int;
    let d = word.delay as int;
    let (e1, t1, g1) = choose|engine: E, taken: Seq<S>, given: Seq<S>|
        {
            &&& #[trigger] (word.knows)(engine, taken, given)
            &&& of_stream(taken, fed, word.silence)
            &&& is_window(given, c, d, owed, x)
        };
    let (e2, t2, g2) = choose|engine: E, taken: Seq<S>, given: Seq<S>|
        {
            &&& #[trigger] (word.knows)(engine, taken, given)
            &&& of_stream(taken, fed, word.silence)
            &&& is_window(given, c, d, owed, y)
        };
    if t1.len() <= t2.len() {
        assert(t1 =~= t2.take(t1.len() as int));
        lemma_windows_agree(g1, g2, c, d, owed, x, y);
    } else {
        assert(t2 =~= t1.take(t2.len() as int));
        lemma_windows_agree(g2, g1, c, d, owed, y, x);
    }
}

/// However a stream is cut, its output is the same, sample for sample: two streams of the same
/// input, in whatever blocks and slices, write the same, where the engine is steady.
pub proof fn law_stream_ignores_cutting<A: Arithmetic, E: Engine<A::Sample>>(
    word: Word<A::Sample, E>,
    states1: Seq<Pipeline<A::Sample, E>>,
    turns1: Seq<Turn<A::Sample>>,
    calls1: int,
    states2: Seq<Pipeline<A::Sample, E>>,
    turns2: Seq<Turn<A::Sample>>,
    calls2: int,
    frames: u64,
    owed: u64,
)
    requires
        one_result::<A>(),
        keeps_word::<A, E>(word),
        is_steady(word),
        !ratios_compared::<A>(word.ratio, word.ratio, false),
        is_worth::<A>(word.ratio, 0, 0),
        is_stream::<A, E>(word.ratio, word.channels, word.silence, states1, turns1, calls1),
        is_stream::<A, E>(word.ratio, word.channels, word.silence, states2, turns2, calls2),
        fed_by(turns1, word.channels as int) == fed_by(turns2, word.channels as int),
        fed_by(turns1, word.channels as int).len() as int == frames * word.channels,
        frames <= word.limit,
        is_worth::<A>(word.ratio, frames, owed),
    ensures
        handed_by(turns1, word.channels as int) == handed_by(turns2, word.channels as int),
{
    law_stream_is_as_long_as_its_input_is_worth::<A, E>(
        word,
        states1,
        turns1,
        calls1,
        frames,
        owed,
    );
    law_stream_is_as_long_as_its_input_is_worth::<A, E>(
        word,
        states2,
        turns2,
        calls2,
        frames,
        owed,
    );
    lemma_output_is_one(
        word,
        fed_by(turns1, word.channels as int),
        owed as int,
        handed_by(turns1, word.channels as int),
        handed_by(turns2, word.channels as int),
    );
}

/// A rubato stream and a sinc stream of one ratio and as many frames of input, whole and however
/// cut, are as long as each other, where the positions of the sinc stream agree with the length
/// that the input is worth; to within `slack` frames, where they do so to within as many. So one
/// can stand in for the other.
pub proof fn law_rubato_and_sinc_streams_are_as_long<A: Arithmetic, E: Engine<A::Sample>>(
    word: Word<A::Sample, E>,
    states: Seq<Pipeline<A::Sample, E>>,
    turns: Seq<Turn<A::Sample>>,
    turns_fed: int,
    sinc: Filtered<A::Sample>,
    ratio: Double,
    calls: Seq<Call<A::Sample>>,
    flush: Call<A::Sample>,
    frames: u64,
    owed: u64,
    slack: int,
)
    requires
        one_result::<A>(),
        moves_forward::<A>(),
        keeps_word::<A, E>(word),
        !ratios_compared::<A>(word.ratio, word.ratio, false),
        is_worth::<A>(word.ratio, 0, 0),
        is_stream::<A, E>(word.ratio, word.channels, word.silence, states, turns, turns_fed),
        fed_by(turns, word.channels as int).len() as int == frames * word.channels,
        frames <= word.limit,
        is_worth::<A>(word.ratio, frames, owed),
        0 <= slack,
        crate::sinc::made_with::<A>(sinc, ratio, word.channels),
        sinc.stream.ratio == word.ratio,
        sinc.stream.has_room(all_input(calls).len() as int, word.channels as int),
        frames == all_input(calls).len() as int / (word.channels as int),
        is_course::<A>(
            sinc.stream,
            calls,
            flush,
            sinc_interpolator::<A>(sinc.table, sinc.half_taps),
            sinc.half_taps - 1,
            sinc.half_taps as int,
        ),
        worth_agrees::<A>(word.ratio, frames as int, owed as int, slack),
    ensures
        ({
            let c = word.channels as int;
            let rubato = handed_by(turns, c).len() as int;
            let other = all_output(calls, flush, c).len() as int;
            &&& rubato == owed * c
            &&& rubato - slack * c <= other <= rubato + slack * c
            &&& slack == 0 ==> rubato == other
        }),
{
    let c = word.channels as int;
    law_stream_is_as_long_as_its_input_is_worth::<A, E>(
        word,
        states,
        turns,
        turns_fed,
        frames,
        owed,
    );
    law_sinc_stream_is_as_long_as_its_input_is_worth::<A>(
        sinc,
        ratio,
        word.channels,
        calls,
        flush,
        frames,
        owed,
        slack,
    );
    let n = all_positions(calls, flush).len() - 1;
    assert(owed * c - slack * c <= n * c <= owed * c + slack * c) by (nonlinear_arith)
        requires
            owed - slack <= n <= owed + slack,
            c > 0,
    ;
    assert(slack == 0 ==> slack * c == 0) by (nonlinear_arith);
}

} // verus!
