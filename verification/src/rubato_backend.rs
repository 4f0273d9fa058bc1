//! The high-fidelity resampler: buffering, alignment and length of a stream that a
//! fixed-chunk engine (rubato's asynchronous sinc resampler) converts.
//!
//! The engine takes whole input chunks, emits output chunks of varying size, and delays the
//! signal. The resampler here bridges that to the [`Resampler`] contract: it collects input
//! until a chunk is there, parks output that the caller's slice cannot hold, drops the
//! engine's warm-up frames so that output frame 0 is input frame 0, and cuts the tail at the
//! length that the input is worth.

use std::collections::VecDeque;

use vstd::prelude::*;
use vstd::arithmetic::div_mod::lemma_fundamental_div_mod;

use crate::arithmetic::Arithmetic;
use crate::double::Double;
use crate::formulas::frames_owed;
use crate::formulas::is_ratio;
use crate::formulas::is_worth;
use crate::formulas::ratio_of_rates;
use crate::formulas::ratios_agree;
use crate::formulas::ratios_compared;
use crate::resampler::check_construction;
use crate::resampler::construction_error;
use crate::resampler::lemma_frames_fit;
use crate::resampler::lemma_multiple;
use crate::resampler::lemma_whole_frames;
use crate::resampler::sanitize_ratio;
use crate::resampler::sanitized;
use crate::resampler::ResampleResult;
use crate::resampler::Resampler;

verus! {

/// Filter length of the engine: longer is sharper, and costs time and delay.
pub const SINC_LEN: usize = 128;

/// Bit pattern of the filter's relative cutoff, `0.95`.
pub const CUTOFF: u64 = 0x3fee_6666_6666_6666;

pub const OVERSAMPLING_FACTOR: usize = 80;

/// Input frames that the engine takes per call; also the most passes over the tail.
pub const CHUNK_FRAMES: usize = 1024;

/// Bit pattern of `8.0`, the largest factor by which the ratio of a built engine may move.
pub const MAX_RELATIVE_RATIO: u64 = 0x4020_0000_0000_0000;

/// How an engine interpolates between the points of its filter.
#[derive(Debug, Clone, Copy, PartialEq, Eq, Structural)]
pub enum FilterInterpolation {
    Nearest,
    Linear,
    Quadratic,
    Cubic,
}

/// The window over the filter of an engine.
#[derive(Debug, Clone, Copy, PartialEq, Eq, Structural)]
pub enum FilterWindow {
    Blackman,
    Blackman2,
    BlackmanHarris,
    BlackmanHarris2,
    Hann,
    Hann2,
}

/// The side of an engine whose chunks are all of one size.
#[derive(Debug, Clone, Copy, PartialEq, Eq, Structural)]
pub enum FixedSide {
    Input,
    Output,
}

/// What an engine is built from.
#[derive(Debug, Clone, Copy, PartialEq, Eq, Structural)]
pub struct EngineSettings {
    pub ratio: Double,
    pub max_relative_ratio: Double,
    pub sinc_len: usize,
    pub cutoff: Double,
    pub oversampling_factor: usize,
    pub interpolation: FilterInterpolation,
    pub window: FilterWindow,
    pub fixed: FixedSide,
    pub chunk_frames: usize,
    pub channels: usize,
}

impl EngineSettings {
    /// The settings of the engine for a ratio and a channel count.
    pub open spec fn good_quality(ratio: Double, channels: usize) -> Self {
        EngineSettings {
            ratio,
            max_relative_ratio: Double { bits: MAX_RELATIVE_RATIO },
            sinc_len: SINC_LEN,
            cutoff: Double { bits: CUTOFF },
            oversampling_factor: OVERSAMPLING_FACTOR,
            interpolation: FilterInterpolation::Linear,
            window: FilterWindow::BlackmanHarris2,
            fixed: FixedSide::Input,
            chunk_frames: CHUNK_FRAMES,
            channels,
        }
    }
}

/// What the engine made of one input chunk.
pub struct Chunk<S> {
    /// Input frames taken in.
    pub consumed: usize,
    /// Output, interleaved.
    pub samples: Vec<S>,
}

/// A fixed-chunk resampling engine.
///
/// No method carries a postcondition: what the resampler does holds whatever an engine
/// answers. A method that changes the engine takes it and hands it back.
pub trait Engine<S>: Sized + Send {
    fn build(settings: EngineSettings) -> Self;

    /// Input frames that the next call of `run` wants.
    fn input_frames_next(&self) -> usize;

    /// Output frames of warm-up before the first input frame comes out.
    fn output_delay(&self) -> usize;

    fn resample_ratio(&self) -> Double;

    /// Converts one chunk. Of a `partial` chunk only that many frames are signal. `None` if
    /// the engine fails.
    fn run(self, input: Vec<S>, partial: Option<usize>) -> (Self, Option<Chunk<S>>);

    /// Forgets the signal.
    fn restart(self) -> Self;

    /// Moves to another ratio in place; tells whether that was possible.
    fn retune(self, ratio: Double) -> (Self, bool);
}

pub open spec fn min_int(a: int, b: int) -> int {
    if a <= b {
        a
    } else {
        b
    }
}

/// `total + more`, limited to what a frame counter holds.
pub open spec fn counted(total: int, more: int) -> int {
    min_int(total + more, u64::MAX as int)
}

/// What a resampler is in the middle of.
#[verifier::ext_equal]
pub struct Pipeline<S, E> {
    pub channels: usize,
    pub ratio: Double,
    pub engine: Option<E>,
    /// The ratio that the engine runs at.
    pub built_ratio: Double,
    /// Input that the engine has not taken yet, interleaved.
    pub pending: Seq<S>,
    /// Output that the caller has not taken yet, interleaved.
    pub ready: Seq<S>,
    /// Warm-up frames of the engine.
    pub output_delay: int,
    /// Warm-up frames still to be dropped.
    pub lead_trim: int,
    /// Frames of signal that the engine took.
    pub in_total: int,
    /// Frames moved to `ready`.
    pub out_total: int,
    /// The tail has been drained.
    pub flushed: bool,
    pub silence: S,
}

impl<S, E> Pipeline<S, E> {
    /// Nothing built, nothing buffered.
    pub open spec fn fresh(ratio: Double, channels: usize, silence: S) -> Self {
        Pipeline {
            channels,
            ratio,
            engine: None,
            built_ratio: Double { bits: 0 },
            pending: Seq::empty(),
            ready: Seq::empty(),
            output_delay: 0,
            lead_trim: 0,
            in_total: 0,
            out_total: 0,
            flushed: false,
            silence,
        }
    }

    pub open spec fn valid(self) -> bool {
        &&& self.ratio.is_usable_ratio()
        &&& sanitized(self.ratio) == self.ratio
        &&& 0 <= self.lead_trim <= self.output_delay
        &&& 0 <= self.in_total <= u64::MAX
        &&& 0 <= self.out_total <= u64::MAX
        &&& self.channels > 0 ==> {
            &&& self.pending.len() % (self.channels as nat) == 0
            &&& self.ready.len() % (self.channels as nat) == 0
        }
        &&& self.channels == 0 ==> {
            &&& self.pending.len() == 0
            &&& self.ready.len() == 0
        }
    }

    /// What running the engine leaves alone.
    pub open spec fn same_setup(self, other: Self) -> bool {
        &&& self.channels == other.channels
        &&& self.ratio == other.ratio
        &&& self.built_ratio == other.built_ratio
        &&& self.output_delay == other.output_delay
        &&& self.silence == other.silence
    }

    /// Whole frames of untaken input.
    pub open spec fn pending_frames(self) -> int {
        self.pending.len() as int / (self.channels as int)
    }

    /// The calls that are answered: with the channel count that the resampler was made for,
    /// and room for a frame.
    pub open spec fn accepts(self, output_len: int, channels: usize) -> bool {
        &&& channels == self.channels
        &&& channels != 0
        &&& output_len >= channels
    }

    /// The stream has not begun: nothing is buffered, taken in or given, and no tail drained.
    pub open spec fn untouched(self) -> bool {
        &&& self.pending.len() == 0
        &&& self.ready.len() == 0
        &&& self.in_total == 0
        &&& self.out_total == 0
        &&& !self.flushed
    }

    /// The state behind a newly built engine: nothing of an earlier ratio is left, but the
    /// input that no engine has taken.
    pub open spec fn rebuilt(self, engine: E, delay: int) -> Self {
        Pipeline {
            engine: Some(engine),
            built_ratio: self.ratio,
            ready: Seq::empty(),
            output_delay: delay,
            lead_trim: delay,
            in_total: 0,
            out_total: 0,
            flushed: false,
            ..self
        }
    }

    /// More whole frames of input.
    pub open spec fn fed(self, input: Seq<S>) -> Self {
        let frames = input.len() as int / (self.channels as int);
        Pipeline { pending: self.pending + input.take(frames * self.channels), ..self }
    }

    /// `count` frames of input taken off the front, or all there are.
    pub open spec fn without_input(self, count: int) -> Self {
        Pipeline {
            pending: self.pending.skip(
                min_int(count * self.channels, self.pending.len() as int),
            ),
            ..self
        }
    }

    /// Frames of warm-up at the front of a chunk of engine output.
    pub open spec fn warm_up(self, samples: Seq<S>) -> int {
        min_int(self.lead_trim, samples.len() as int / (self.channels as int))
    }

    /// Frames of a chunk of engine output that reach the caller, `cap` at most.
    pub open spec fn delivered(self, samples: Seq<S>, cap: int) -> int {
        min_int(samples.len() as int / (self.channels as int) - self.warm_up(samples), cap)
    }

    /// The state with a chunk of engine output moved to `ready`: without the warm-up frames
    /// still due, and no more than `cap` frames.
    pub open spec fn cached(self, samples: Seq<S>, cap: int) -> Self {
        let trim = self.warm_up(samples);
        let deliver = self.delivered(samples, cap);
        Pipeline {
            lead_trim: self.lead_trim - trim,
            out_total: counted(self.out_total, deliver),
            ready: self.ready + samples.subrange(
                trim * self.channels,
                (trim + deliver) * self.channels,
            ),
            ..self
        }
    }

    /// The state after the engine, now `next`, answered for a whole chunk.
    pub open spec fn answered(self, next: E, reply: Option<Chunk<S>>) -> Self {
        match reply {
            Some(chunk) => Pipeline {
                engine: Some(next),
                in_total: counted(self.in_total, chunk.consumed as int),
                ..self.without_input(chunk.consumed as int)
            }.cached(chunk.samples@, u64::MAX as int),
            None => Pipeline { engine: Some(next), ..self },
        }
    }

    /// The input of one pass over the tail: `signal` frames of what is pending, and silence
    /// up to `needed` frames.
    pub open spec fn tail_input(self, signal: int, needed: int) -> Seq<S> {
        self.pending.take(signal * self.channels) + Seq::new(
            ((needed - signal) * self.channels) as nat,
            |i: int| self.silence,
        )
    }

    /// The state after the engine, now `next`, answered for a pass over the tail that held
    /// `signal` frames, where `owed` output frames are owed in all.
    pub open spec fn tail_answered(
        self,
        next: E,
        reply: Option<Chunk<S>>,
        signal: int,
        owed: int,
    ) -> Self {
        match reply {
            Some(chunk) => Pipeline { engine: Some(next), ..self.without_input(signal) }.cached(
                chunk.samples@,
                if owed > self.out_total {
                    owed - self.out_total
                } else {
                    0
                },
            ),
            None => Pipeline { engine: Some(next), ..self },
        }
    }

    /// Samples that a call with room for `output_len` samples hands out.
    pub open spec fn handed_out(self, output_len: int) -> int {
        min_int(
            (output_len / (self.channels as int)) * self.channels,
            self.ready.len() as int,
        )
    }

    /// The state with the first `count` samples of output handed out.
    pub open spec fn drained(self, count: int) -> Self {
        Pipeline { ready: self.ready.skip(count), ..self }
    }

    /// The state of a stream that starts over, with the engine as `engine`.
    pub open spec fn restarted(self, engine: Option<E>) -> Self {
        Pipeline {
            engine,
            pending: Seq::empty(),
            ready: Seq::empty(),
            in_total: 0,
            out_total: 0,
            flushed: false,
            lead_trim: self.output_delay,
            ..self
        }
    }
}

/// The engine wants `needed` input frames for its next chunk.
pub open spec fn wants<S, E: Engine<S>>(state: Pipeline<S, E>, needed: usize) -> bool {
    &&& state.engine is Some
    &&& call_ensures(E::input_frames_next, (&state.engine->0,), needed)
}

/// The engine, run on `input`, is now `next` and answered `reply`.
pub open spec fn ran_on<S, E: Engine<S>>(
    state: Pipeline<S, E>,
    input: Vec<S>,
    partial: Option<usize>,
    next: E,
    reply: Option<Chunk<S>>,
) -> bool {
    &&& state.engine is Some
    &&& call_ensures(E::run, (state.engine->0, input, partial), (next, reply))
}

/// One attempt to run the engine on a whole chunk of pending input. It does not `run` where
/// there is no engine, input is short of a chunk, or the engine fails.
pub open spec fn chunk_run<S, E: Engine<S>>(
    before: Pipeline<S, E>,
    after: Pipeline<S, E>,
    ran: bool,
) -> bool {
    ||| before.engine is None && !ran && after == before
    ||| exists|needed: usize| #[trigger]
        wants(before, needed) && before.pending_frames() < needed && !ran && after == before
    ||| exists|needed: usize, input: Vec<S>, next: E, reply: Option<Chunk<S>>|
        {
            &&& #[trigger] wants(before, needed)
            &&& #[trigger] ran_on(before, input, None, next, reply)
            &&& before.pending_frames() >= needed
            &&& input@ == before.pending.take(needed * before.channels)
            &&& after == before.answered(next, reply)
            &&& ran == reply is Some
        }
}

/// Whether a chunk brought the production on: it took in some of the pending input or, where
/// output is the goal, gave some. A production that is brought on by nothing would go on
/// forever.
pub open spec fn brought_on<S, E>(
    before: Pipeline<S, E>,
    after: Pipeline<S, E>,
    goal: Option<usize>,
) -> bool {
    ||| after.pending.len() < before.pending.len()
    ||| goal is Some && after.ready.len() > before.ready.len()
}

/// A chunk was run and brought the production on.
pub open spec fn advances<S, E: Engine<S>>(
    before: Pipeline<S, E>,
    after: Pipeline<S, E>,
    goal: Option<usize>,
) -> bool {
    chunk_run(before, after, true) && brought_on(before, after, goal)
}

/// No chunk was run, or one that brought nothing on.
pub open spec fn stops<S, E: Engine<S>>(
    before: Pipeline<S, E>,
    after: Pipeline<S, E>,
    goal: Option<usize>,
) -> bool {
    ||| chunk_run(before, after, false)
    ||| chunk_run(before, after, true) && !brought_on(before, after, goal)
}

/// Whether `goal` samples of output are ready; never, where there is no goal.
pub open spec fn goal_met<S, E>(state: Pipeline<S, E>, goal: Option<usize>) -> bool {
    goal is Some && state.ready.len() >= goal->0
}

/// Samples that the ready output is short of `goal`.
pub open spec fn output_short<S, E>(state: Pipeline<S, E>, goal: Option<usize>) -> int {
    if goal is Some && state.ready.len() < goal->0 {
        goal->0 - state.ready.len()
    } else {
        0
    }
}

/// The states between the chunks of a production: chunks are run until the goal is met or
/// no chunk runs any more.
pub open spec fn produced_through<S, E: Engine<S>>(
    states: Seq<Pipeline<S, E>>,
    before: Pipeline<S, E>,
    after: Pipeline<S, E>,
    goal: Option<usize>,
) -> bool {
    &&& states.len() > 0
    &&& states[0] == before
    &&& forall|k: int|
        0 <= k < states.len() - 1 ==> !goal_met(#[trigger] states[k], goal) && advances(
            states[k],
            states[k + 1],
            goal,
        )
    &&& if goal_met(states.last(), goal) {
        after == states.last()
    } else {
        stops(states.last(), after, goal)
    }
}

/// Chunks were run from `before` to `after` until the goal was met or none ran any more.
pub open spec fn produced<S, E: Engine<S>>(
    before: Pipeline<S, E>,
    after: Pipeline<S, E>,
    goal: Option<usize>,
) -> bool {
    exists|states: Seq<Pipeline<S, E>>| produced_through(states, before, after, goal)
}

/// One pass over the tail, `signal` frames of which are pending input: does nothing where
/// all that is owed is there, and otherwise runs the engine on `needed` frames. There may be
/// `more` passes as long as the engine produces output. A chunk too long for memory cannot
/// be run.
#[verifier::opaque]
pub open spec fn tail_pass<S, E: Engine<S>>(
    before: Pipeline<S, E>,
    after: Pipeline<S, E>,
    signal: usize,
    needed: usize,
    owed: u64,
    more: bool,
) -> bool {
    if before.out_total >= owed || before.engine is None || needed * before.channels > usize::MAX {
        !more && after == before
    } else {
        exists|input: Vec<S>, next: E, reply: Option<Chunk<S>>|
            {
                &&& #[trigger] ran_on(before, input, Some(signal), next, reply)
                &&& input@ == before.tail_input(signal as int, needed as int)
                &&& after == before.tail_answered(next, reply, signal as int, owed as int)
                &&& more == (reply is Some && reply->0.samples@.len() >= before.channels)
            }
    }
}

/// The states between the passes over the tail. Only the first pass holds pending input, and
/// there are [`CHUNK_FRAMES`] passes at most.
pub open spec fn tail_through<S, E: Engine<S>>(
    states: Seq<Pipeline<S, E>>,
    before: Pipeline<S, E>,
    after: Pipeline<S, E>,
    signal: usize,
    needed: usize,
    owed: u64,
) -> bool {
    &&& 0 < states.len() <= CHUNK_FRAMES + 1
    &&& states[0] == before
    &&& forall|k: int|
        0 <= k < states.len() - 1 ==> tail_pass(
            #[trigger] states[k],
            states[k + 1],
            if k == 0 {
                signal
            } else {
                0
            },
            needed,
            owed,
            true,
        )
    &&& {
        ||| states.len() == CHUNK_FRAMES + 1 && after == states.last()
        ||| states.len() <= CHUNK_FRAMES && tail_pass(
            states.last(),
            after,
            if states.len() == 1 {
                signal
            } else {
                0
            },
            needed,
            owed,
            false,
        )
    }
}

/// The engine runs at a ratio at which the signal taken in is worth `owed` output frames.
pub open spec fn owes<A: Arithmetic, E: Engine<A::Sample>>(
    state: Pipeline<A::Sample, E>,
    ratio: Double,
    owed: u64,
) -> bool {
    &&& state.engine is Some
    &&& call_ensures(E::resample_ratio, (&state.engine->0,), ratio)
    &&& is_worth::<A>(ratio, state.in_total as u64, owed)
}

/// The state in which the passes over the tail start: the rest of the input counts as taken.
pub open spec fn tail_opened<S, E>(state: Pipeline<S, E>, signal: usize) -> Pipeline<S, E> {
    Pipeline { in_total: counted(state.in_total, signal as int), ..state }
}

/// The tail drained from `before` to `after`, by way of `whole`, where no whole chunk is
/// left to run.
pub open spec fn tail_flushed_by<A: Arithmetic, E: Engine<A::Sample>>(
    before: Pipeline<A::Sample, E>,
    whole: Pipeline<A::Sample, E>,
    after: Pipeline<A::Sample, E>,
) -> bool {
    &&& produced(before, whole, None)
    &&& if whole.engine is None {
        after == whole
    } else {
        exists|
            needed: usize,
            signal: usize,
            ratio: Double,
            owed: u64,
            states: Seq<Pipeline<A::Sample, E>>,
        |
            {
                &&& #[trigger] wants(whole, needed)
                &&& signal == min_int(whole.pending_frames(), needed as int)
                &&& #[trigger] owes::<A, E>(tail_opened(whole, signal), ratio, owed)
                &&& #[trigger] tail_through(
                    states,
                    tail_opened(whole, signal),
                    after,
                    signal,
                    needed,
                    owed,
                )
            }
    }
}

/// The tail drained from `before` to `after`.
pub open spec fn tail_flushed<A: Arithmetic, E: Engine<A::Sample>>(
    before: Pipeline<A::Sample, E>,
    after: Pipeline<A::Sample, E>,
) -> bool {
    exists|whole: Pipeline<A::Sample, E>| #[trigger] tail_flushed_by::<A, E>(before, whole, after)
}

/// The engine that a call runs on: the one there is, as long as it was built for a ratio
/// that agrees with the present one, else a new one.
pub open spec fn engine_ensured<A: Arithmetic, E: Engine<A::Sample>>(
    before: Pipeline<A::Sample, E>,
    after: Pipeline<A::Sample, E>,
) -> bool {
    ||| {
        &&& before.engine is Some
        &&& ratios_compared::<A>(before.built_ratio, before.ratio, true)
        &&& after == before
    }
    ||| {
        &&& before.engine is None || ratios_compared::<A>(before.built_ratio, before.ratio, false)
        &&& exists|engine: E, delay: usize|
            {
                &&& call_ensures(
                    E::build,
                    (EngineSettings::good_quality(before.ratio, before.channels),),
                    engine,
                )
                &&& #[trigger] call_ensures(E::output_delay, (&engine,), delay)
                &&& after == before.rebuilt(engine, delay as int)
            }
    }
}

/// A `process` call, by way of the states with an engine for the ratio and with the output
/// produced.
pub open spec fn processed_by<A: Arithmetic, E: Engine<A::Sample>>(
    before: Pipeline<A::Sample, E>,
    built: Pipeline<A::Sample, E>,
    full: Pipeline<A::Sample, E>,
    input: Seq<A::Sample>,
    output_len: usize,
) -> bool {
    &&& engine_ensured::<A, E>(before, built)
    &&& produced(built.fed(input), full, Some(output_len))
}

/// The state from which a `flush` call hands out: with the tail drained, which is done once.
pub open spec fn flush_prepared<A: Arithmetic, E: Engine<A::Sample>>(
    before: Pipeline<A::Sample, E>,
    full: Pipeline<A::Sample, E>,
) -> bool {
    if before.flushed {
        full == before
    } else {
        exists|tail: Pipeline<A::Sample, E>| #[trigger]
            tail_flushed::<A, E>(before, tail) && full == (Pipeline { flushed: true, ..tail })
    }
}

/// A `process` call: of the output produced, as many frames as `shown` holds are handed out.
pub open spec fn processed_to<A: Arithmetic, E: Engine<A::Sample>>(
    before: Pipeline<A::Sample, E>,
    after: Pipeline<A::Sample, E>,
    input: Seq<A::Sample>,
    shown: Seq<A::Sample>,
    output: Seq<A::Sample>,
    written: int,
) -> bool {
    exists|built: Pipeline<A::Sample, E>, full: Pipeline<A::Sample, E>|
        {
            let count = full.handed_out(shown.len() as int);
            &&& #[trigger] processed_by::<A, E>(before, built, full, input, shown.len() as usize)
            &&& after == full.drained(count)
            &&& output == full.ready.take(count) + shown.skip(count)
            &&& written * before.channels == count
        }
}

/// A `flush` call: with the tail drained, as many frames as `shown` holds are handed out. Before
/// any input there is no tail to drain, and the call only sees to the engine.
pub open spec fn flushed_to<A: Arithmetic, E: Engine<A::Sample>>(
    before: Pipeline<A::Sample, E>,
    after: Pipeline<A::Sample, E>,
    shown: Seq<A::Sample>,
    output: Seq<A::Sample>,
    written: int,
) -> bool {
    if before.engine is None || before.untouched() {
        &&& written == 0
        &&& engine_ensured::<A, E>(before, after)
        &&& output == shown
    } else {
        exists|full: Pipeline<A::Sample, E>|
            {
                let count = full.handed_out(shown.len() as int);
                &&& #[trigger] flush_prepared::<A, E>(before, full)
                &&& after == full.drained(count)
                &&& output == full.ready.take(count) + shown.skip(count)
                &&& written * before.channels == count
            }
    }
}

/// A `reset` call: the stream starts over, and the engine with it. An engine that names another
/// ratio than the present one, once it has started over, is given up.
pub open spec fn reset_to<A: Arithmetic, E: Engine<A::Sample>>(
    before: Pipeline<A::Sample, E>,
    after: Pipeline<A::Sample, E>,
) -> bool {
    match before.engine {
        Some(engine) => exists|next: E, running: Double|
            {
                &&& #[trigger] call_ensures(E::restart, (engine,), next)
                &&& #[trigger] call_ensures(E::resample_ratio, (&next,), running)
                &&& after == (Pipeline {
                    built_ratio: running,
                    ..before.restarted(
                        if running == before.ratio {
                            Some(next)
                        } else {
                            None
                        },
                    )
                })
            },
        None => after == before.restarted(None),
    }
}

/// The fixed-chunk resampler.
pub struct RubatoResampler<A: Arithmetic, E: Engine<A::Sample>> {
    channels: usize,
    ratio: Double,
    engine: Option<E>,
    built_ratio: Double,
    in_fifo: VecDeque<A::Sample>,
    out_cache: VecDeque<A::Sample>,
    output_delay: usize,
    lead_trim: usize,
    in_total: u64,
    out_total: u64,
    flushed: bool,
    silence: A::Sample,
}

impl<A: Arithmetic, E: Engine<A::Sample>> View for RubatoResampler<A, E> {
    type V = Pipeline<A::Sample, E>;

    closed spec fn view(&self) -> Pipeline<A::Sample, E> {
        Pipeline {
            channels: self.channels,
            ratio: self.ratio,
            engine: self.engine,
            built_ratio: self.built_ratio,
            pending: self.in_fifo@,
            ready: self.out_cache@,
            output_delay: self.output_delay as int,
            lead_trim: self.lead_trim as int,
            in_total: self.in_total as int,
            out_total: self.out_total as int,
            flushed: self.flushed,
            silence: self.silence,
        }
    }
}

/// Output moved to `ready` is whole frames, of the chunk.
pub proof fn lemma_cached<S, E>(state: Pipeline<S, E>, samples: Seq<S>, cap: int)
    requires
        state.valid(),
        state.channels > 0,
        cap >= 0,
    ensures
        state.cached(samples, cap).valid(),
        0 <= state.warm_up(samples),
        0 <= state.delivered(samples, cap),
        0 <= state.warm_up(samples) * state.channels,
        state.warm_up(samples) * state.channels <= (state.warm_up(samples) + state.delivered(
            samples,
            cap,
        )) * state.channels <= samples.len(),
{
    let c = state.channels as int;
    let trim = state.warm_up(samples);
    let deliver = state.delivered(samples, cap);
    let produced = samples.len() as int / c;
    lemma_frames_fit(samples.len() as int, c, produced);
    assert(produced >= 0);
    lemma_frames_fit(samples.len() as int, c, trim);
    lemma_frames_fit(samples.len() as int, c, trim + deliver);
    lemma_multiple(deliver, c);
    assert((trim + deliver) * c - trim * c == deliver * c && deliver * c >= 0) by (nonlinear_arith)
        requires
            deliver >= 0,
            c > 0,
    ;
    lemma_whole_frames(state.ready.len() as int, deliver * c, c);
}

/// A chunk adds no input.
proof fn lemma_pending_never_grows<S, E: Engine<S>>(before: Pipeline<S, E>, after: Pipeline<S, E>)
    requires
        before.valid(),
        before.channels > 0,
        chunk_run(before, after, true),
    ensures
        after.pending.len() <= before.pending.len(),
{
    let (needed, input, next, reply) = choose|
        needed: usize,
        input: Vec<S>,
        next: E,
        reply: Option<Chunk<S>>,
    |
        {
            &&& #[trigger] wants(before, needed)
            &&& #[trigger] ran_on(before, input, None, next, reply)
            &&& before.pending_frames() >= needed
            &&& input@ == before.pending.take(needed * before.channels)
            &&& after == before.answered(next, reply)
            &&& true == reply is Some
        };
    lemma_without_input(before, reply->0.consumed as int);
}

/// Input is taken off in whole frames.
pub proof fn lemma_without_input<S, E>(state: Pipeline<S, E>, count: int)
    requires
        state.valid(),
        state.channels > 0,
        count >= 0,
    ensures
        state.without_input(count).valid(),
        0 <= min_int(count * state.channels, state.pending.len() as int),
{
    let c = state.channels as int;
    lemma_multiple(count, c);
    assert(count * c >= 0) by (nonlinear_arith)
        requires
            count >= 0,
            c > 0,
    ;
    if count * c <= state.pending.len() {
        lemma_whole_frames(state.pending.len() as int, count * c, c);
    } else {
        lemma_multiple(0, c);
    }
}

impl<A: Arithmetic, E: Engine<A::Sample>> RubatoResampler<A, E> {
    /// The first `count` samples of pending input.
    fn pending_front(&self, count: usize) -> (front: Vec<A::Sample>)
        requires
            count <= self@.pending.len(),
        ensures
            front@ == self@.pending.take(count as int),
    {
        let mut front: Vec<A::Sample> = Vec::new();
        let mut i: usize = 0;
        while i < count
            invariant
                i <= count <= self.in_fifo@.len(),
                front@ == self.in_fifo@.take(i as int),
            decreases count - i,
        {
            front.push(self.in_fifo[i]);
            i = i + 1;
            proof {
                assert(front@ =~= self.in_fifo@.take(i as int));
            }
        }
        front
    }

    /// Takes `count` frames of input off the front, or all there are.
    fn drop_pending(&mut self, count: usize)
        requires
            old(self)@.valid(),
            old(self)@.channels > 0,
        ensures
            final(self)@ == old(self)@.without_input(count as int),
            final(self)@.valid(),
    {
        let ghost before = self@;
        proof {
            lemma_without_input(before, count as int);
            let frames = before.pending_frames();
            lemma_fundamental_div_mod(before.pending.len() as int, before.channels as int);
            if count > frames {
                assert(count * before.channels > before.pending.len()) by (nonlinear_arith)
                    requires
                        count >= frames + 1,
                        before.pending.len() == before.channels * frames,
                        before.channels > 0,
                ;
            } else {
                lemma_frames_fit(
                    before.pending.len() as int,
                    before.channels as int,
                    count as int,
                );
            }
        }
        let len = self.in_fifo.len();
        let samples: usize = if count <= len / self.channels {
            count * self.channels
        } else {
            len
        };
        let mut i: usize = 0;
        while i < samples
            invariant
                i <= samples <= before.pending.len(),
                self@ == (Pipeline { pending: before.pending.skip(i as int), ..before }),
            decreases samples - i,
        {
            let _ = self.in_fifo.pop_front();
            i = i + 1;
            proof {
                assert(self@.pending =~= before.pending.skip(i as int));
            }
        }
    }

    /// Moves a chunk of engine output to the output buffer: drops the warm-up frames still
    /// due, and delivers `cap_frames` frames at most. The cap ends the stream exactly at the
    /// length that its input is worth.
    fn cache_produced_capped(&mut self, samples: &Vec<A::Sample>, cap_frames: u64)
        requires
            old(self)@.valid(),
            old(self)@.channels > 0,
        ensures
            final(self)@ == old(self)@.cached(samples@, cap_frames as int),
            final(self)@.valid(),
    {
        let ghost before = self@;
        proof {
            lemma_cached(before, samples@, cap_frames as int);
        }
        let produced = samples.len() / self.channels;
        let trim: usize = if self.lead_trim <= produced {
            self.lead_trim
        } else {
            produced
        };
        self.lead_trim = self.lead_trim - trim;
        let left = produced - trim;
        let deliver: usize = if left as u64 <= cap_frames {
            left
        } else {
            cap_frames as usize
        };
        self.out_total = self.out_total.saturating_add(deliver as u64);
        let start = trim * self.channels;
        let end = (trim + deliver) * self.channels;
        let ghost moved = self@;
        let mut i: usize = start;
        while i < end
            invariant
                start <= i <= end <= samples@.len(),
                self@ == (Pipeline {
                    ready: moved.ready + samples@.subrange(start as int, i as int),
                    ..moved
                }),
            decreases end - i,
        {
            self.out_cache.push_back(samples[i]);
            i = i + 1;
            proof {
                assert(self@.ready =~= moved.ready + samples@.subrange(start as int, i as int));
            }
        }
        proof {
            assert(self@ =~= before.cached(samples@, cap_frames as int));
        }
    }

    /// Moves a chunk of engine output to the output buffer, without a cap.
    fn cache_produced(&mut self, samples: &Vec<A::Sample>)
        requires
            old(self)@.valid(),
            old(self)@.channels > 0,
        ensures
            final(self)@ == old(self)@.cached(samples@, u64::MAX as int),
            final(self)@.valid(),
    {
        self.cache_produced_capped(samples, u64::MAX);
    }

    /// Takes the engine back with its answer for a whole chunk, and tells whether it ran.
    pub fn take_reply(&mut self, next: E, reply: Option<Chunk<A::Sample>>) -> (ran: bool)
        requires
            old(self)@.valid(),
            old(self)@.channels > 0,
        ensures
            final(self)@ == old(self)@.answered(next, reply),
            final(self)@.valid(),
            ran == reply is Some,
    {
        self.engine = Some(next);
        match reply {
            Some(chunk) => {
                self.drop_pending(chunk.consumed);
                self.in_total = self.in_total.saturating_add(chunk.consumed as u64);
                self.cache_produced(&chunk.samples);
                true
            },
            None => false,
        }
    }

    /// Runs the engine on one chunk if a whole one is pending, and tells whether it ran.
    fn run_one_chunk(&mut self) -> (ran: bool)
        requires
            old(self)@.valid(),
            old(self)@.channels > 0,
        ensures
            chunk_run(old(self)@, final(self)@, ran),
            final(self)@.valid(),
            final(self)@.same_setup(old(self)@),
    {
        let ghost before = self@;
        match self.engine.take() {
            None => false,
            Some(engine) => {
                let needed = engine.input_frames_next();
                proof {
                    assert(wants(before, needed));
                }
                if self.in_fifo.len() / self.channels < needed {
                    self.engine = Some(engine);
                    return false;
                }
                proof {
                    lemma_frames_fit(
                        before.pending.len() as int,
                        before.channels as int,
                        needed as int,
                    );
                }
                let input = self.pending_front(needed * self.channels);
                let (next, reply) = engine.run(input, None);
                proof {
                    assert(ran_on(before, input, None, next, reply));
                }
                let ran = self.take_reply(next, reply);
                proof {
                    assert(self@ =~= before.answered(next, reply));
                }
                ran
            },
        }
    }

    /// Runs chunks until `goal` samples of output are ready (without end, where there is no
    /// goal) or no chunk runs any more. An engine that brings nothing on has stalled.
    fn run_chunks(&mut self, goal: Option<usize>)
        requires
            old(self)@.valid(),
            old(self)@.channels > 0,
        ensures
            produced(old(self)@, final(self)@, goal),
            final(self)@.valid(),
            final(self)@.same_setup(old(self)@),
    {
        let ghost before = self@;
        let ghost mut states: Seq<Pipeline<A::Sample, E>> = seq![self@];
        loop
            invariant
                before == old(self)@,
                before.channels > 0,
                self@.valid(),
                self@.same_setup(before),
                states.len() > 0,
                states[0] == before,
                states.last() == self@,
                forall|k: int|
                    0 <= k < states.len() - 1 ==> !goal_met(#[trigger] states[k], goal)
                        && advances(states[k], states[k + 1], goal),
            decreases
                    self.in_fifo@.len(),
                    output_short(self@, goal),
        {
            let done = match goal {
                Some(target) => self.out_cache.len() >= target,
                None => false,
            };
            if done {
                proof {
                    assert(produced_through(states, before, self@, goal));
                }
                return;
            }
            let ghost here = self@;
            let pending = self.in_fifo.len();
            let ready = self.out_cache.len();
            let ran = self.run_one_chunk();
            let on = self.in_fifo.len() < pending || (goal.is_some() && self.out_cache.len()
                > ready);
            if !ran || !on {
                proof {
                    assert(produced_through(states, before, self@, goal));
                }
                return;
            }
            proof {
                let longer = states.push(self@);
                assert forall|k: int| 0 <= k < longer.len() - 1 implies !goal_met(
                    #[trigger] longer[k],
                    goal,
                ) && advances(longer[k], longer[k + 1], goal) by {
                    if k < states.len() - 1 {
                        assert(longer[k] == states[k] && longer[k + 1] == states[k + 1]);
                    } else {
                        assert(longer[k] == here && longer[k + 1] == self@);
                    }
                }
                states = longer;
                lemma_pending_never_grows(here, self@);
            }
        }
    }

    /// Runs chunks until `target_samples` samples of output are ready or no chunk runs any
    /// more.
    fn produce_until(&mut self, target_samples: usize)
        requires
            old(self)@.valid(),
            old(self)@.channels > 0,
        ensures
            produced(old(self)@, final(self)@, Some(target_samples)),
            final(self)@.valid(),
            final(self)@.same_setup(old(self)@),
    {
        self.run_chunks(Some(target_samples));
    }

    /// The input of one pass over the tail.
    fn tail_chunk(&self, signal: usize, needed: usize) -> (chunk: Vec<A::Sample>)
        requires
            self@.channels > 0,
            signal <= self@.pending_frames(),
            signal <= needed,
            needed * self@.channels <= usize::MAX,
        ensures
            chunk@ == self@.tail_input(signal as int, needed as int),
    {
        proof {
            lemma_frames_fit(self@.pending.len() as int, self@.channels as int, signal as int);
            assert((needed - signal) * self@.channels == needed * self@.channels - signal
                * self@.channels) by (nonlinear_arith);
            assert(signal * self@.channels <= needed * self@.channels) by (nonlinear_arith)
                requires
                    signal <= needed,
            ;
        }
        let held = signal * self.channels;
        let len = needed * self.channels;
        let mut chunk = self.pending_front(held);
        let ghost front = chunk@;
        let mut i: usize = held;
        while i < len
            invariant
                held <= i <= len,
                chunk@ == front + Seq::new((i - held) as nat, |k: int| self@.silence),
            decreases len - i,
        {
            chunk.push(self.silence);
            i = i + 1;
            proof {
                assert(chunk@ =~= front + Seq::new((i - held) as nat, |k: int| self@.silence));
            }
        }
        chunk
    }

    /// Takes the engine back with its answer for a pass over the tail that held `signal`
    /// frames of input, where `owed` output frames are owed in all. Tells whether another
    /// pass may bring more.
    pub fn take_tail_reply(
        &mut self,
        next: E,
        reply: Option<Chunk<A::Sample>>,
        signal: usize,
        owed: u64,
    ) -> (more: bool)
        requires
            old(self)@.valid(),
            old(self)@.channels > 0,
        ensures
            final(self)@ == old(self)@.tail_answered(next, reply, signal as int, owed as int),
            final(self)@.valid(),
            more == (reply is Some && reply->0.samples@.len() >= old(self)@.channels),
    {
        self.engine = Some(next);
        match reply {
            Some(chunk) => {
                self.drop_pending(signal);
                let remaining = owed.saturating_sub(self.out_total);
                self.cache_produced_capped(&chunk.samples, remaining);
                chunk.samples.len() >= self.channels
            },
            None => false,
        }
    }

    /// Drains the end of the stream: every whole chunk of pending input, then the partial
    /// rest and the engine's delay line, against silence, until the output is as long as the
    /// input is worth.
    fn flush_tail(&mut self)
        requires
            old(self)@.valid(),
            old(self)@.channels > 0,
        ensures
            tail_flushed::<A, E>(old(self)@, final(self)@),
            final(self)@.valid(),
            final(self)@.same_setup(old(self)@),
    {
        self.run_chunks(None);
        let ghost whole = self@;
        let (needed, ratio) = match &self.engine {
            Some(engine) => (engine.input_frames_next(), engine.resample_ratio()),
            None => {
                proof {
                    assert(tail_flushed_by::<A, E>(old(self)@, whole, self@));
                }
                return;
            },
        };
        proof {
            assert(wants(whole, needed));
        }
        let frames = self.in_fifo.len() / self.channels;
        let signal: usize = if frames <= needed {
            frames
        } else {
            needed
        };
        self.in_total = self.in_total.saturating_add(signal as u64);
        let owed = frames_owed::<A>(ratio, self.in_total);
        let ghost opened = self@;
        proof {
            assert(opened =~= tail_opened(whole, signal));
            assert(owes::<A, E>(opened, ratio, owed));
        }
        self.run_tail(signal, needed, owed);
        proof {
            let after = self@;
            let states = choose|states: Seq<Pipeline<A::Sample, E>>| #[trigger]
                tail_through(states, opened, after, signal, needed, owed);
            assert(tail_through(
                states,
                tail_opened(whole, signal),
                after,
                signal,
                needed,
                owed,
            ));
            assert(tail_flushed_by::<A, E>(old(self)@, whole, after));
        }
    }

    /// Runs the engine over the tail, of which `signal` frames are pending, until `owed`
    /// output frames have been delivered or it brings no more.
    fn run_tail(&mut self, signal: usize, needed: usize, owed: u64)
        requires
            old(self)@.valid(),
            old(self)@.channels > 0,
            signal <= old(self)@.pending_frames(),
            signal <= needed,
        ensures
            exists|states: Seq<Pipeline<A::Sample, E>>|
                tail_through(states, old(self)@, final(self)@, signal, needed, owed),
            final(self)@.valid(),
            final(self)@.same_setup(old(self)@),
    {
        let ghost before = self@;
        let mut rest = signal;
        let ghost mut states: Seq<Pipeline<A::Sample, E>> = seq![self@];
        let mut pass: usize = 0;
        while pass < CHUNK_FRAMES
            invariant
                before == old(self)@,
                before.channels > 0,
                pass <= CHUNK_FRAMES,
                states.len() == pass + 1,
                states[0] == before,
                states.last() == self@,
                self@.valid(),
                self@.same_setup(before),
                rest == (if pass == 0 {
                    signal
                } else {
                    0
                }),
                rest <= needed,
                rest <= self@.pending_frames(),
                forall|k: int|
                    0 <= k < states.len() - 1 ==> tail_pass(
                        #[trigger] states[k],
                        states[k + 1],
                        if k == 0 {
                            signal
                        } else {
                            0
                        },
                        needed,
                        owed,
                        true,
                    ),
            decreases CHUNK_FRAMES - pass,
        {
            let ghost here = self@;
            let more = self.run_tail_pass(rest, needed, owed);
            if !more {
                proof {
                    assert(tail_through(states, before, self@, signal, needed, owed));
                }
                return;
            }
            rest = 0;
            pass = pass + 1;
            proof {
                let longer = states.push(self@);
                assert forall|k: int| 0 <= k < longer.len() - 1 implies tail_pass(
                    #[trigger] longer[k],
                    longer[k + 1],
                    if k == 0 {
                        signal
                    } else {
                        0
                    },
                    needed,
                    owed,
                    true,
                ) by {
                    if k < states.len() - 1 {
                        assert(longer[k] == states[k] && longer[k + 1] == states[k + 1]);
                    } else {
                        assert(longer[k] == here && longer[k + 1] == self@);
                    }
                }
                states = longer;
                assert(self@.pending_frames() >= 0);
            }
        }
        proof {
            assert(tail_through(states, before, self@, signal, needed, owed));
        }
    }

    /// Runs the engine once over the tail, and tells whether another pass may bring more.
    fn run_tail_pass(&mut self, signal: usize, needed: usize, owed: u64) -> (more: bool)
        requires
            old(self)@.valid(),
            old(self)@.channels > 0,
            signal <= old(self)@.pending_frames(),
            signal <= needed,
        ensures
            tail_pass(old(self)@, final(self)@, signal, needed, owed, more),
            final(self)@.valid(),
            final(self)@.same_setup(old(self)@),
    {
        proof {
            reveal(tail_pass);
        }
        if self.out_total >= owed || needed > usize::MAX / self.channels {
            proof {
                lemma_too_long(needed as int, self@.channels as int);
            }
            return false;
        }
        proof {
            lemma_frames_fit(usize::MAX as int, self@.channels as int, needed as int);
        }
        let ghost before = self@;
        match self.engine.take() {
            None => false,
            Some(engine) => {
                let input = self.tail_chunk(signal, needed);
                let (next, reply) = engine.run(input, Some(signal));
                proof {
                    assert(ran_on(before, input, Some(signal), next, reply));
                }
                let more = self.take_tail_reply(next, reply, signal, owed);
                proof {
                    assert(self@ =~= before.tail_answered(
                        next,
                        reply,
                        signal as int,
                        owed as int,
                    ));
                }
                more
            },
        }
    }

    /// Hands out as many whole frames of ready output as `output` holds, and returns the
    /// number of samples.
    fn drain_cache(&mut self, output: &mut [A::Sample]) -> (count: usize)
        requires
            old(self)@.valid(),
            old(self)@.channels > 0,
        ensures
            count == old(self)@.handed_out(old(output)@.len() as int),
            final(self)@ == old(self)@.drained(count as int),
            final(self)@.valid(),
            final(output)@ == old(self)@.ready.take(count as int) + old(output)@.skip(
                count as int,
            ),
            count % old(self)@.channels == 0,
            count <= old(output)@.len(),
            count <= old(self)@.ready.len(),
    {
        let ghost before = self@;
        let ghost shown = output@;
        let frames = output.len() / self.channels;
        proof {
            lemma_frames_fit(output@.len() as int, self@.channels as int, frames as int);
            lemma_multiple(frames as int, self@.channels as int);
        }
        let room = frames * self.channels;
        let count: usize = if room <= self.out_cache.len() {
            room
        } else {
            self.out_cache.len()
        };
        let mut i: usize = 0;
        while i < count
            invariant
                i <= count <= before.ready.len(),
                count <= shown.len(),
                output@ == before.ready.take(i as int) + shown.skip(i as int),
                self@ == before.drained(i as int),
            decreases count - i,
        {
            match self.out_cache.pop_front() {
                Some(sample) => {
                    output[i] = sample;
                },
                None => {},
            }
            i = i + 1;
            proof {
                assert(output@ =~= before.ready.take(i as int) + shown.skip(i as int));
                assert(self@ =~= before.drained(i as int));
            }
        }
        proof {
            lemma_whole_frames(
                before.ready.len() as int,
                count as int,
                before.channels as int,
            );
        }
        count
    }
}

impl<A: Arithmetic, E: Engine<A::Sample>> RubatoResampler<A, E> {
    /// Builds a resampler converting `input_rate` to `output_rate`.
    pub fn new(input_rate: u32, output_rate: u32, channels: usize) -> (result: Result<Self, String>)
        ensures
            match construction_error(input_rate, output_rate, channels) {
                Some(message) => result is Err && result->Err_0@ == message,
                None => result is Ok && made_for_rates::<A, E>(
                    result->Ok_0@,
                    input_rate,
                    output_rate,
                    channels,
                ),
            },
    {
        match check_construction(input_rate, output_rate, channels) {
            Ok(_) => {
                let ratio = ratio_of_rates::<A>(input_rate, output_rate);
                Ok(Self::with_ratio(ratio, channels))
            },
            Err(message) => Err(message),
        }
    }

    /// Builds a resampler with an explicit `ratio = output_rate / input_rate`. The engine is
    /// built by the first `process` or `flush`.
    pub fn with_ratio(ratio: Double, channels: usize) -> (result: Self)
        ensures
            made_with::<A, E>(result@, ratio, channels),
    {
        let silence = A::silence();
        let result = RubatoResampler {
            channels,
            ratio: sanitize_ratio(ratio),
            engine: None,
            built_ratio: Double::zero(),
            in_fifo: VecDeque::new(),
            out_cache: VecDeque::new(),
            output_delay: 0,
            lead_trim: 0,
            in_total: 0,
            out_total: 0,
            flushed: false,
            silence,
        };
        proof {
            assert(result@ =~= Pipeline::fresh(sanitized(ratio), channels, silence));
            assert(0nat % (channels as nat) == 0 || channels == 0);
        }
        result
    }

    /// Tells whether the stream has not begun.
    fn is_untouched(&self) -> (result: bool)
        ensures
            result == self@.untouched(),
    {
        self.in_fifo.len() == 0 && self.out_cache.len() == 0 && self.in_total == 0
            && self.out_total == 0 && !self.flushed
    }

    /// Sees to an engine for the present ratio. A new one starts without cached output,
    /// counts or a drained tail, so nothing of an earlier ratio leaks into it.
    fn ensure_built(&mut self)
        requires
            old(self)@.valid(),
        ensures
            engine_ensured::<A, E>(old(self)@, final(self)@),
            final(self)@.valid(),
            final(self)@.channels == old(self)@.channels,
            final(self)@.ratio == old(self)@.ratio,
    {
        let ghost before = self@;
        if self.engine.is_some() {
            let agree = ratios_agree::<A>(self.built_ratio, self.ratio);
            if agree {
                return;
            }
        }
        self.out_cache.clear();
        self.in_total = 0;
        self.out_total = 0;
        self.flushed = false;
        let settings = EngineSettings {
            ratio: self.ratio,
            max_relative_ratio: Double { bits: MAX_RELATIVE_RATIO },
            sinc_len: SINC_LEN,
            cutoff: Double { bits: CUTOFF },
            oversampling_factor: OVERSAMPLING_FACTOR,
            interpolation: FilterInterpolation::Linear,
            window: FilterWindow::BlackmanHarris2,
            fixed: FixedSide::Input,
            chunk_frames: CHUNK_FRAMES,
            channels: self.channels,
        };
        let engine = E::build(settings);
        let delay = engine.output_delay();
        self.output_delay = delay;
        self.lead_trim = delay;
        self.built_ratio = self.ratio;
        self.engine = Some(engine);
        proof {
            assert(self@ =~= before.rebuilt(engine, delay as int));
            assert(call_ensures(E::output_delay, (&engine,), delay));
        }
    }

    /// Appends the whole frames of `input` to the pending input.
    fn feed(&mut self, input: &[A::Sample])
        requires
            old(self)@.valid(),
            old(self)@.channels > 0,
        ensures
            final(self)@ == old(self)@.fed(input@),
            final(self)@.valid(),
    {
        let ghost before = self@;
        let frames = input.len() / self.channels;
        proof {
            lemma_frames_fit(input@.len() as int, self@.channels as int, frames as int);
            lemma_multiple(frames as int, self@.channels as int);
            lemma_whole_frames(
                before.pending.len() as int,
                frames * before.channels,
                before.channels as int,
            );
        }
        let samples = frames * self.channels;
        let mut i: usize = 0;
        while i < samples
            invariant
                i <= samples <= input@.len(),
                self@ == (Pipeline { pending: before.pending + input@.take(i as int), ..before }),
            decreases samples - i,
        {
            self.in_fifo.push_back(input[i]);
            i = i + 1;
            proof {
                assert(self@.pending =~= before.pending + input@.take(i as int));
            }
        }
    }
}

/// What a resampler made for two rates and a channel count starts as.
pub open spec fn made_for_rates<A: Arithmetic, E: Engine<A::Sample>>(
    state: Pipeline<A::Sample, E>,
    input_rate: u32,
    output_rate: u32,
    channels: usize,
) -> bool {
    exists|ratio: Double|
        is_ratio::<A>(input_rate, output_rate, ratio) && #[trigger] made_with::<A, E>(
            state,
            ratio,
            channels,
        )
}

/// What a resampler made for a ratio and a channel count starts as.
pub open spec fn made_with<A: Arithmetic, E: Engine<A::Sample>>(
    state: Pipeline<A::Sample, E>,
    ratio: Double,
    channels: usize,
) -> bool {
    &&& state.valid()
    &&& call_ensures(A::silence, (), state.silence)
    &&& state == Pipeline::<A::Sample, E>::fresh(sanitized(ratio), channels, state.silence)
}

impl<A: Arithmetic, E: Engine<A::Sample>> Resampler<A::Sample> for RubatoResampler<A, E> {
    open spec fn valid(&self) -> bool {
        self@.valid()
    }

    open spec fn admits(&self, samples: int, channels: int) -> bool {
        true
    }

    open spec fn current_ratio(&self) -> Double {
        self@.ratio
    }

    open spec fn delay(&self) -> int {
        self@.output_delay
    }

    fn process(
        &mut self,
        input: &[A::Sample],
        output: &mut [A::Sample],
        channels: usize,
    ) -> (result: ResampleResult)
        ensures
            !old(self)@.accepts(old(output)@.len() as int, channels) ==> {
                &&& result == ResampleResult::nothing()
                &&& final(self)@ == old(self)@
                &&& final(output)@ == old(output)@
            },
            final(self)@.channels == old(self)@.channels,
            old(self)@.accepts(old(output)@.len() as int, channels) ==> {
                &&& processed_to::<A, E>(
                    old(self)@,
                    final(self)@,
                    input@,
                    old(output)@,
                    final(output)@,
                    result.output_frames_written as int,
                )
                &&& result.input_frames_consumed == input@.len() as int / (channels as int)
            },
    {
        if channels != self.channels || channels == 0 || output.len() < channels {
            let nothing = ResampleResult::default();
            proof {
                assert(nothing.input_frames_consumed * channels == 0 && nothing.output_frames_written
                    * channels == 0) by (nonlinear_arith)
                    requires
                        nothing.input_frames_consumed == 0,
                        nothing.output_frames_written == 0,
                ;
            }
            return nothing;
        }
        self.ensure_built();
        let ghost built = self@;
        self.feed(input);
        self.produce_until(output.len());
        let ghost full = self@;
        proof {
            assert(processed_by::<A, E>(old(self)@, built, full, input@, output@.len() as usize));
        }
        let written = self.drain_cache(output);
        proof {
            lemma_fundamental_div_mod(written as int, channels as int);
            lemma_frames_fit(
                input@.len() as int,
                channels as int,
                input@.len() as int / (channels as int),
            );
            assert((written as int / (channels as int)) * channels == channels * (written as int
                / (channels as int))) by (nonlinear_arith);
            assert(output@.skip(written as int) =~= old(output)@.skip(written as int));
        }
        ResampleResult {
            input_frames_consumed: input.len() / channels,
            output_frames_written: written / channels,
        }
    }

    /// The tail is drained once; later calls hand out the rest of it. Before any input there is
    /// none, and a stream may still begin.
    fn flush(&mut self, output: &mut [A::Sample], channels: usize) -> (written: usize)
        ensures
            final(self)@.channels == old(self)@.channels,
            !old(self)@.accepts(old(output)@.len() as int, channels) ==> {
                &&& written == 0
                &&& final(self)@ == old(self)@
                &&& final(output)@ == old(output)@
            },
            old(self)@.accepts(old(output)@.len() as int, channels) ==> flushed_to::<A, E>(
                old(self)@,
                final(self)@,
                old(output)@,
                final(output)@,
                written as int,
            ),
    {
        if channels != self.channels || channels == 0 || output.len() < channels {
            return 0;
        }
        if self.engine.is_none() || self.is_untouched() {
            self.ensure_built();
            return 0;
        }
        if !self.flushed {
            self.flush_tail();
            let ghost tail = self@;
            self.flushed = true;
            proof {
                assert(tail_flushed::<A, E>(old(self)@, tail));
                assert(self@ =~= (Pipeline { flushed: true, ..tail }));
            }
        }
        let ghost full = self@;
        proof {
            assert(flush_prepared::<A, E>(old(self)@, full));
        }
        let count = self.drain_cache(output);
        proof {
            lemma_fundamental_div_mod(count as int, channels as int);
            assert((count as int / (channels as int)) * channels == channels * (count as int / (
            channels as int))) by (nonlinear_arith);
            assert(output@.skip(count as int) =~= old(output)@.skip(count as int));
        }
        count / channels
    }

    /// Restarting an engine may take it back to the ratio that it was built with. Where that is
    /// not the present ratio, it is dropped, and the next call builds a new one.
    fn reset(&mut self)
        ensures
            reset_to::<A, E>(old(self)@, final(self)@),
    {
        let ghost before = self@;
        proof {
            if before.channels > 0 {
                lemma_multiple(0, before.channels as int);
            }
        }
        self.in_fifo.clear();
        self.out_cache.clear();
        self.in_total = 0;
        self.out_total = 0;
        self.flushed = false;
        self.lead_trim = self.output_delay;
        match self.engine.take() {
            Some(engine) => {
                let next = engine.restart();
                let running = next.resample_ratio();
                self.built_ratio = running;
                let ghost restarted = next;
                if running == self.ratio {
                    self.engine = Some(next);
                }
                proof {
                    assert(call_ensures(E::restart, (before.engine->0,), restarted));
                    assert(call_ensures(E::resample_ratio, (&restarted,), running));
                    assert(self@ =~= (Pipeline {
                        built_ratio: running,
                        ..before.restarted(
                            if running == before.ratio {
                                Some(restarted)
                            } else {
                                None
                            },
                        )
                    }));
                }
            },
            None => {
                proof {
                    assert(self@ =~= before.restarted(None));
                }
            },
        }
    }

    fn latency(&self) -> (frames: usize) {
        self.output_delay
    }

    /// The ratio of a built engine is changed in place, so that its delay line and the
    /// buffered input survive. Where the engine cannot follow, the next call builds a new
    /// one.
    fn set_ratio(&mut self, ratio: Double)
        ensures
            final(self)@.ratio == sanitized(ratio),
            ratio_changed::<A, E>(old(self)@, final(self)@, sanitized(ratio)),
    {
        let ghost before = self@;
        let ratio = sanitize_ratio(ratio);
        if ratio == self.ratio {
            return;
        }
        self.ratio = ratio;
        match self.engine.take() {
            Some(engine) => {
                let (next, moved) = engine.retune(ratio);
                self.engine = Some(next);
                if moved {
                    self.built_ratio = ratio;
                }
                proof {
                    assert(call_ensures(E::retune, (before.engine->0, ratio), (next, moved)));
                }
            },
            None => {},
        }
    }

    fn ratio(&self) -> (ratio: Double) {
        self.ratio
    }
}

/// A change of ratio: none where the ratio asked for is the present one; else the ratio moves,
/// and of the rest at most the engine and the ratio it runs at.
pub open spec fn ratio_changed<A: Arithmetic, E: Engine<A::Sample>>(
    before: Pipeline<A::Sample, E>,
    after: Pipeline<A::Sample, E>,
    ratio: Double,
) -> bool {
    if ratio == before.ratio {
        after == before
    } else {
        match before.engine {
            Some(engine) => exists|next: E, moved: bool| #[trigger]
                call_ensures(E::retune, (engine, ratio), (next, moved)) && after == (Pipeline {
                    ratio,
                    engine: Some(next),
                    built_ratio: if moved {
                        ratio
                    } else {
                        before.built_ratio
                    },
                    ..before
                }),
            None => after == (Pipeline { ratio, ..before }),
        }
    }
}

/// More than fits into a `usize` divided by `channels` does not fit multiplied by it.
proof fn lemma_too_long(needed: int, channels: int)
    requires
        channels > 0,
        needed >= 0,
    ensures
        needed > usize::MAX as int / channels ==> needed * channels > usize::MAX,
{
    lemma_fundamental_div_mod(usize::MAX as int, channels);
    let q = usize::MAX as int / channels;
    if needed > q {
        assert(needed * channels > usize::MAX) by (nonlinear_arith)
            requires
                needed >= q + 1,
                usize::MAX == channels * q + usize::MAX as int % channels,
                usize::MAX as int % channels < channels,
                channels > 0,
        ;
    }
}

} // verus!
