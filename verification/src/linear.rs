//! Linear interpolation: the cheapest conversion. Each output frame is a blend of the two
//! input frames around its position. Nothing is filtered, so downsampling aliases.

use vstd::prelude::*;
use vstd::arithmetic::div_mod::lemma_fundamental_div_mod;
use vstd::slice::slice_subrange;

use crate::arithmetic::Arithmetic;
use crate::double::Double;
use crate::double::ONE;
use crate::formulas::advance;
use crate::formulas::advanced;
use crate::formulas::blend;
use crate::formulas::counts_frames;
use crate::formulas::is_at;
use crate::formulas::is_blend;
use crate::formulas::is_ratio;
use crate::formulas::is_worth;
use crate::formulas::lemma_blend_at_a_frame;
use crate::formulas::lemma_blend_is_one;
use crate::formulas::one_result;
use crate::formulas::ratio_of_rates;
use crate::formulas::starts_at;
use crate::internals::channel_of;
use crate::internals::law_channel_reads_alone;
use crate::internals::lemma_trimmed_whole;
use crate::internals::Buffered;
use crate::internals::InputHistory;
use crate::resampler::check_construction;
use crate::resampler::construction_error;
use crate::resampler::lemma_frames_fit;
use crate::resampler::lemma_multiple;
use crate::resampler::lemma_whole_frames;
use crate::resampler::sanitize_ratio;
use crate::resampler::sanitized;
use crate::resampler::ResampleResult;
use crate::resampler::Resampler;
use crate::stream::after_calls;
use crate::stream::agree_on;
use crate::stream::all_input;
use crate::stream::all_output;
use crate::stream::all_positions;
use crate::stream::are_calls;
use crate::stream::emitted;
use crate::stream::frame_of;
use crate::stream::is_course;
use crate::stream::law_blocks_join;
use crate::stream::law_channel_of_read;
use crate::stream::law_channel_stands_alone;
use crate::stream::law_first_frame_waits_for_the_lookahead;
use crate::stream::law_flush_comes_to_an_end;
use crate::stream::law_little_stays_buffered;
use crate::stream::law_output_ignores_cutting;
use crate::stream::law_runs_agree;
use crate::stream::law_stream_is_about_as_long_as_its_input_is_worth;
use crate::stream::law_stream_is_its_whole_input;
use crate::stream::law_streams_start_at_frame_zero;
use crate::stream::lemma_fed;
use crate::stream::lemma_frame_written;
use crate::stream::lemma_rest_agrees;
use crate::stream::moves_forward;
use crate::stream::one_frame;
use crate::stream::readable;
use crate::stream::reads_within;
use crate::stream::spaced;
use crate::stream::worth_agrees;
use crate::stream::Call;
use crate::stream::Interpolation;
use crate::stream::Interpolator;
use crate::stream::Stream;

verus! {

/// Frames after its own that an output frame reads.
pub const LOOKAHEAD: usize = 1;

/// A frame at `position`: in each channel the blend of the input frame there and the next.
pub open spec fn blended<A: Arithmetic>(
    history: Buffered<A::Sample>,
    position: Double,
    frame: Seq<A::Sample>,
) -> bool {
    &&& frame.len() == history.channels
    &&& forall|ch: int|
        0 <= ch < frame.len() ==> is_blend::<A>(
            history.at(position.frame(), ch),
            history.at(position.frame() + 1, ch),
            position,
            position.frame() as i64,
            #[trigger] frame[ch],
        )
}

/// How linear interpolation makes frames of the input in `history`.
pub open spec fn blending<A: Arithmetic>(history: Buffered<A::Sample>) -> Interpolation<A::Sample> {
    |position: Double, frame: Seq<A::Sample>| blended::<A>(history, position, frame)
}

/// Linear interpolation, for each input history.
pub open spec fn linear_interpolator<A: Arithmetic>() -> Interpolator<A::Sample> {
    |history: Buffered<A::Sample>| blending::<A>(history)
}

/// A run of output frames from `before`, by way of `positions`, which leaves the stream as
/// `after`.
pub open spec fn linear_run<A: Arithmetic>(
    before: Stream<A::Sample>,
    after: Stream<A::Sample>,
    positions: Seq<Double>,
    pad: bool,
    shown: Seq<A::Sample>,
    output: Seq<A::Sample>,
) -> bool {
    &&& emitted::<A>(
        before,
        positions,
        LOOKAHEAD as int,
        pad,
        blending::<A>(before.history),
        shown,
        output,
    )
    &&& after == before.read_to(positions.last(), 0)
}

/// Linear-interpolation resampler.
pub struct LinearResampler<A: Arithmetic> {
    channels: usize,
    ratio: Double,
    read_pos: Double,
    history: InputHistory<A::Sample>,
}

impl<A: Arithmetic> View for LinearResampler<A> {
    type V = Stream<A::Sample>;

    closed spec fn view(&self) -> Stream<A::Sample> {
        Stream {
            channels: self.channels,
            ratio: self.ratio,
            read_pos: self.read_pos,
            history: self.history@,
        }
    }
}

impl<A: Arithmetic> LinearResampler<A> {
    /// Makes one output frame at the read position and moves on, if the input for it is
    /// there.
    fn emit(&mut self, output: &mut [A::Sample], at: usize, allow_pad: bool) -> (made: bool)
        requires
            old(self)@.valid(),
            old(self)@.channels > 0,
            (at + 1) * old(self)@.channels <= old(output)@.len(),
        ensures
            made == readable(
                old(self)@.history,
                old(self)@.read_pos,
                LOOKAHEAD as int,
                allow_pad,
            ),
            !made ==> final(self)@ == old(self)@ && final(output)@ == old(output)@,
            made ==> {
                &&& final(self)@ == (Stream { read_pos: final(self)@.read_pos, ..old(self)@ })
                &&& advanced::<A>(old(self)@.read_pos, old(self)@.ratio, final(self)@.read_pos)
                &&& blended::<A>(
                    old(self)@.history,
                    old(self)@.read_pos,
                    frame_of(final(output)@, old(self)@.channels as int, at as int),
                )
            },
            final(output)@.len() == old(output)@.len(),
            forall|k: int|
                0 <= k < at ==> #[trigger] frame_of(final(output)@, old(self)@.channels as int, k)
                    == frame_of(old(output)@, old(self)@.channels as int, k),
            final(output)@.skip((at + 1) * old(self)@.channels) == old(output)@.skip(
                (at + 1) * old(self)@.channels,
            ),
    {
        let i = self.read_pos.to_frame();
        let end = self.history.end();
        if i >= end {
            return false;
        }
        if !allow_pad && i + 1 >= end {
            return false;
        }
        let ghost shown = output@;
        let ghost c = self.channels as int;
        proof {
            assert(output.len() == shown.len());
            assert((at + 1) * c == at * c + c && 0 <= at * c) by (nonlinear_arith)
                requires
                    c > 0,
                    at >= 0,
            ;
        }
        let base = at * self.channels;
        let mut ch: usize = 0;
        while ch < self.channels
            invariant
                ch <= self.channels,
                c == self.channels,
                c > 0,
                self@ == old(self)@,
                self@.valid(),
                i == self.read_pos.frame(),
                i < i64::MAX,
                base == at * c,
                base + c <= shown.len() <= usize::MAX,
                output@.len() == shown.len(),
                forall|k: int|
                    0 <= k < shown.len() && !(base <= k < base + ch) ==> output@[k] == shown[k],
                forall|k: int|
                    #![trigger output@[base + k]]
                    0 <= k < ch ==> is_blend::<A>(
                        self@.history.at(i as int, k),
                        self@.history.at(i + 1, k),
                        self.read_pos,
                        i,
                        output@[base + k],
                    ),
            decreases self.channels - ch,
        {
            let a = self.history.at(i, ch);
            let b = self.history.at(i + 1, ch);
            let sample = blend::<A>(a, b, self.read_pos, i);
            let ghost earlier = output@;
            output[base + ch] = sample;
            proof {
                assert forall|k: int| 0 <= k < ch implies #[trigger] output@[base + k]
                    == earlier[base + k] by {}
            }
            ch = ch + 1;
        }
        proof {
            lemma_frame_written(shown, output@, c, at as int);
            let frame = frame_of(output@, c, at as int);
            assert forall|k: int| 0 <= k < frame.len() implies is_blend::<A>(
                self@.history.at(i as int, k),
                self@.history.at(i + 1, k),
                self.read_pos,
                i,
                #[trigger] frame[k],
            ) by {
                assert(frame[k] == output@[base + k]);
            }
        }
        self.read_pos = advance::<A>(self.read_pos, self.ratio);
        true
    }

    /// Makes output frames as long as there is room and input, then drops the input before
    /// the read position.
    fn run(&mut self, output: &mut [A::Sample], allow_pad: bool) -> (written: usize)
        requires
            old(self)@.valid(),
            old(self)@.channels > 0,
        ensures
            final(self)@.valid(),
            exists|positions: Seq<Double>|
                {
                    &&& #[trigger] linear_run::<A>(
                        old(self)@,
                        final(self)@,
                        positions,
                        allow_pad,
                        old(output)@,
                        final(output)@,
                    )
                    &&& written == positions.len() - 1
                },
    {
        let ghost before = self@;
        let ghost shown = output@;
        let ghost c = self.channels as int;
        let capacity = output.len() / self.channels;
        let ghost mut positions: Seq<Double> = seq![self.read_pos];
        let mut written: usize = 0;
        let mut going = true;
        proof {
            assert(shown.skip(0 * c) =~= output@.skip(0 * c));
        }
        while going && written < capacity
            invariant
                before == old(self)@,
                shown == old(output)@,
                c == before.channels,
                c > 0,
                capacity == shown.len() as int / c,
                written <= capacity,
                self@.valid(),
                self@ == (Stream { read_pos: positions.last(), ..before }),
                positions.len() == written + 1,
                positions[0] == before.read_pos,
                spaced::<A>(positions, before.ratio),
                forall|k: int|
                    0 <= k < written ==> readable(
                        before.history,
                        #[trigger] positions[k],
                        LOOKAHEAD as int,
                        allow_pad,
                    ),
                !going ==> !readable(
                    before.history,
                    positions.last(),
                    LOOKAHEAD as int,
                    allow_pad,
                ),
                output@.len() == shown.len(),
                output@.skip(written * c) == shown.skip(written * c),
                forall|k: int|
                    0 <= k < written ==> blended::<A>(
                        before.history,
                        #[trigger] positions[k],
                        frame_of(output@, c, k),
                    ),
            decreases capacity - written + if going { 1int } else { 0int },
        {
            proof {
                lemma_frames_fit(shown.len() as int, c, written + 1);
            }
            let ghost here = output@;
            let ghost from = self.read_pos;
            going = self.emit(output, written, allow_pad);
            if going {
                proof {
                    lemma_rest_agrees(here, shown, c, written as int);
                    let longer = positions.push(self.read_pos);
                    assert(longer.last() == self.read_pos);
                    assert forall|k: int| 0 <= k < longer.len() - 1 implies advanced::<A>(
                        #[trigger] longer[k],
                        before.ratio,
                        longer[k + 1],
                    ) by {
                        if k < positions.len() - 1 {
                            assert(longer[k] == positions[k] && longer[k + 1] == positions[k + 1]);
                        } else {
                            assert(longer[k] == from);
                        }
                    }
                    assert forall|k: int| 0 <= k < written + 1 implies blended::<A>(
                        before.history,
                        #[trigger] longer[k],
                        frame_of(output@, c, k),
                    ) by {
                        if k < written {
                            assert(longer[k] == positions[k]);
                            assert(frame_of(output@, c, k) == frame_of(here, c, k));
                        }
                    }
                    assert forall|k: int| 0 <= k < written + 1 implies readable(
                        before.history,
                        #[trigger] longer[k],
                        LOOKAHEAD as int,
                        allow_pad,
                    ) by {
                        if k < written {
                            assert(longer[k] == positions[k]);
                        }
                    }
                    positions = longer;
                }
                written = written + 1;
            }
        }
        let keep_from = self.read_pos.to_frame();
        proof {
            lemma_trimmed_whole(self@.history, keep_from as int);
        }
        self.history.trim(keep_from);
        proof {
            assert(self@ =~= before.read_to(positions.last(), 0));
            assert forall|k: int| 0 <= k < written implies (blending::<A>(before.history))(
                #[trigger] positions[k],
                frame_of(output@, c, k),
            ) by {
                assert(blended::<A>(before.history, positions[k], frame_of(output@, c, k)));
            }
            assert(linear_run::<A>(before, self@, positions, allow_pad, shown, output@));
        }
        written
    }
}

/// What a resampler made for two rates and a channel count starts as.
pub open spec fn made_for_rates<A: Arithmetic>(
    stream: Stream<A::Sample>,
    input_rate: u32,
    output_rate: u32,
    channels: usize,
) -> bool {
    exists|ratio: Double|
        is_ratio::<A>(input_rate, output_rate, ratio) && #[trigger] made_with::<A>(
            stream,
            ratio,
            channels,
        )
}

/// What a resampler made for a ratio and a channel count starts as.
pub open spec fn made_with<A: Arithmetic>(
    stream: Stream<A::Sample>,
    ratio: Double,
    channels: usize,
) -> bool {
    &&& stream.valid()
    &&& call_ensures(A::silence, (), stream.history.silence)
    &&& stream == Stream::fresh(sanitized(ratio), channels, stream.history.silence)
}

impl<A: Arithmetic> LinearResampler<A> {
    /// Builds a resampler converting `input_rate` to `output_rate`.
    pub fn new(input_rate: u32, output_rate: u32, channels: usize) -> (result: Result<Self, String>)
        ensures
            match construction_error(input_rate, output_rate, channels) {
                Some(message) => result is Err && result->Err_0@ == message,
                None => result is Ok && made_for_rates::<A>(
                    result->Ok_0@,
                    input_rate,
                    output_rate,
                    channels,
                ),
            },
    {
        match check_construction(input_rate, output_rate, channels) {
            Ok(_) => {
                let ratio = ratio_of_rates::<A>(input_rate, output_rate);
                let made = Self::with_ratio(ratio, channels);
                proof {
                    assert(made_with::<A>(made@, ratio, channels));
                }
                Ok(made)
            },
            Err(message) => Err(message),
        }
    }

    /// Builds a resampler with an explicit `ratio = output_rate / input_rate`.
    pub fn with_ratio(ratio: Double, channels: usize) -> (result: Self)
        ensures
            made_with::<A>(result@, ratio, channels),
    {
        let silence = A::silence();
        let buffered: usize = if channels == 0 {
            1
        } else {
            channels
        };
        LinearResampler {
            channels,
            ratio: sanitize_ratio(ratio),
            read_pos: Double::zero(),
            history: InputHistory::new(buffered, silence),
        }
    }

    /// Tells whether the frame counter has room for `samples` more samples of input.
    pub fn has_room(&self, samples: usize, channels: usize) -> (result: bool)
        requires
            self@.valid(),
        ensures
            result == self@.has_room(samples as int, channels as int),
    {
        channels == 0 || self.history.has_room(samples / channels)
    }
}

impl<A: Arithmetic> Resampler<A::Sample> for LinearResampler<A> {
    open spec fn valid(&self) -> bool {
        self@.valid()
    }

    open spec fn admits(&self, samples: int, channels: int) -> bool {
        self@.has_room(samples, channels)
    }

    open spec fn current_ratio(&self) -> Double {
        self@.ratio
    }

    open spec fn delay(&self) -> int {
        LOOKAHEAD as int
    }

    fn process(
        &mut self,
        input: &[A::Sample],
        output: &mut [A::Sample],
        channels: usize,
    ) -> (result: ResampleResult)
        ensures
            !old(self)@.accepts(old(output)@.len() as int, channels) ==> {
                &&& result == ResampleResult::nothing()
                &&& final(self)@ == old(self)@
                &&& final(output)@ == old(output)@
            },
            old(self)@.accepts(old(output)@.len() as int, channels) ==> exists|
                positions: Seq<Double>,
            |
                {
                    &&& #[trigger] linear_run::<A>(
                        old(self)@.fed(input@),
                        final(self)@,
                        positions,
                        false,
                        old(output)@,
                        final(output)@,
                    )
                    &&& result.input_frames_consumed == input@.len() as int / (channels as int)
                    &&& result.output_frames_written == positions.len() - 1
                },
    {
        if channels != self.channels || channels == 0 || output.len() < channels {
            let nothing = ResampleResult::default();
            proof {
                assert(nothing.input_frames_consumed * channels == 0 && nothing.output_frames_written
                    * channels == 0) by (nonlinear_arith)
                    requires
                        nothing.input_frames_consumed == 0,
                        nothing.output_frames_written == 0,
                ;
            }
            return nothing;
        }
        let input_frames = input.len() / channels;
        proof {
            lemma_fed(self@, input@);
            lemma_frames_fit(input.len() as int, channels as int, input_frames as int);
        }
        let whole = slice_subrange(input, 0, input_frames * channels);
        proof {
            assert(whole@ =~= input@.take(input_frames * channels));
        }
        self.history.push(whole);
        let ghost fed = self@;
        proof {
            assert(fed =~= old(self)@.fed(input@));
        }
        let written = self.run(output, false);
        proof {
            lemma_frames_fit(output@.len() as int, channels as int, written as int);
        }
        ResampleResult { input_frames_consumed: input_frames, output_frames_written: written }
    }

    fn flush(&mut self, output: &mut [A::Sample], channels: usize) -> (written: usize)
        ensures
            !old(self)@.accepts(old(output)@.len() as int, channels) ==> {
                &&& written == 0
                &&& final(self)@ == old(self)@
                &&& final(output)@ == old(output)@
            },
            old(self)@.accepts(old(output)@.len() as int, channels) ==> exists|
                positions: Seq<Double>,
            |
                {
                    &&& #[trigger] linear_run::<A>(
                        old(self)@,
                        final(self)@,
                        positions,
                        true,
                        old(output)@,
                        final(output)@,
                    )
                    &&& written == positions.len() - 1
                },
    {
        if channels != self.channels || channels == 0 || output.len() < channels {
            return 0;
        }
        let written = self.run(output, true);
        proof {
            lemma_frames_fit(output@.len() as int, channels as int, written as int);
        }
        written
    }

    fn reset(&mut self)
        ensures
            final(self)@ == Stream::fresh(
                old(self)@.ratio,
                old(self)@.channels,
                old(self)@.history.silence,
            ),
    {
        self.read_pos = Double::zero();
        self.history.clear();
    }

    fn latency(&self) -> (frames: usize) {
        LOOKAHEAD
    }

    fn set_ratio(&mut self, ratio: Double)
        ensures
            final(self)@ == (Stream { ratio: sanitized(ratio), ..old(self)@ }),
    {
        self.ratio = sanitize_ratio(ratio);
    }

    fn ratio(&self) -> (ratio: Double) {
        self.ratio
    }
}

/// Linear interpolation reads the frame at a position and the next one, and no other.
pub proof fn lemma_blending_reads_within<A: Arithmetic>()
    ensures
        reads_within(linear_interpolator::<A>(), 0, LOOKAHEAD as int),
{
    let interpolator = linear_interpolator::<A>();
    assert forall|
        a: Buffered<A::Sample>,
        b: Buffered<A::Sample>,
        position: Double,
        frame: Seq<A::Sample>,
    |
        agree_on(a, b, position.frame() - 0, position.frame() + LOOKAHEAD)
            && #[trigger] interpolator(a)(position, frame) implies #[trigger] interpolator(b)(
        position,
        frame,
    ) by {
        assert(blended::<A>(a, position, frame));
        assert forall|ch: int| 0 <= ch < frame.len() implies is_blend::<A>(
            b.at(position.frame(), ch),
            b.at(position.frame() + 1, ch),
            position,
            position.frame() as i64,
            #[trigger] frame[ch],
        ) by {
            assert(a.at(position.frame(), ch) == b.at(position.frame(), ch));
            assert(a.at(position.frame() + 1, ch) == b.at(position.frame() + 1, ch));
        }
        assert(blended::<A>(b, position, frame));
    }
}

/// Cutting the input into blocks, and the output into slices, changes nothing: a call with
/// `first` and a call with `second` behind it make the frames that one call may make of both
/// together, and leave the same state. With `pad` the second call is a flush, and where nothing
/// is fed between them, the first may be one too (`ended`).
pub proof fn law_linear_blocks_join<A: Arithmetic>(
    before: Stream<A::Sample>,
    between: Stream<A::Sample>,
    after: Stream<A::Sample>,
    first: Seq<A::Sample>,
    second: Seq<A::Sample>,
    ended: bool,
    pad: bool,
    positions1: Seq<Double>,
    positions2: Seq<Double>,
    shown1: Seq<A::Sample>,
    output1: Seq<A::Sample>,
    shown2: Seq<A::Sample>,
    output2: Seq<A::Sample>,
    shown: Seq<A::Sample>,
)
    requires
        ended ==> pad && second.len() == 0,
        moves_forward::<A>(),
        before.valid(),
        before.channels > 0,
        first.len() % (before.channels as nat) == 0,
        before.has_room((first.len() + second.len()) as int, before.channels as int),
        linear_run::<A>(before.fed(first), between, positions1, ended, shown1, output1),
        linear_run::<A>(between.fed(second), after, positions2, pad, shown2, output2),
        positions1.len() + positions2.len() - 2 <= shown.len() as int / (before.channels as int),
        positions1.len() + positions2.len() - 2 == shown.len() as int / (before.channels as int)
            || positions2.len() - 1 < shown2.len() as int / (before.channels as int),
    ensures
        linear_run::<A>(
            before.fed(first + second),
            after,
            positions1.drop_last() + positions2,
            pad,
            shown,
            output1.take((positions1.len() - 1) * before.channels) + output2.take(
                (positions2.len() - 1) * before.channels,
            ) + shown.skip((positions1.len() + positions2.len() - 2) * before.channels),
        ),
{
    let interpolator = linear_interpolator::<A>();
    lemma_blending_reads_within::<A>();
    law_blocks_join::<A>(
        before,
        first,
        second,
        interpolator,
        0,
        LOOKAHEAD as int,
        ended,
        pad,
        positions1,
        positions2,
        shown1,
        output1,
        shown2,
        output2,
        shown,
    );
    assert((positions1.drop_last() + positions2).last() == positions2.last());
}

/// A stream depends on its input, not on how input and output are cut: any number of calls and
/// then of flushes, with any room, the last of which had room to spare, make together what one
/// flush may make of all their input, and leave the same state.
pub proof fn law_linear_stream_is_its_whole_input<A: Arithmetic>(
    stream: Stream<A::Sample>,
    calls: Seq<Call<A::Sample>>,
    flush: Call<A::Sample>,
    after: Stream<A::Sample>,
    shown: Seq<A::Sample>,
)
    requires
        moves_forward::<A>(),
        stream.valid(),
        stream.channels > 0,
        stream.has_room(all_input(calls).len() as int, stream.channels as int),
        are_calls::<A>(stream, calls, false, linear_interpolator::<A>(), 0, LOOKAHEAD as int),
        linear_run::<A>(
            after_calls(stream, calls, 0),
            after,
            flush.positions,
            true,
            flush.shown,
            flush.output,
        ),
        flush.has_room(stream.channels as int),
        all_positions(calls, flush).len() - 1 < shown.len() as int / (stream.channels as int),
    ensures
        linear_run::<A>(
            stream.fed(all_input(calls)),
            after,
            all_positions(calls, flush),
            true,
            shown,
            all_output(calls, flush, stream.channels as int) + shown.skip(
                (all_positions(calls, flush).len() - 1) * stream.channels,
            ),
        ),
{
    lemma_blending_reads_within::<A>();
    law_stream_is_its_whole_input::<A>(
        stream,
        calls,
        false,
        flush,
        linear_interpolator::<A>(),
        0,
        LOOKAHEAD as int,
        shown,
    );
}

/// A flush that left room in its output has drained the stream: the next one writes nothing
/// and changes nothing.
pub proof fn law_linear_flush_ends<A: Arithmetic>(
    before: Stream<A::Sample>,
    between: Stream<A::Sample>,
    after: Stream<A::Sample>,
    positions1: Seq<Double>,
    positions2: Seq<Double>,
    shown1: Seq<A::Sample>,
    output1: Seq<A::Sample>,
    shown2: Seq<A::Sample>,
    output2: Seq<A::Sample>,
)
    requires
        before.valid(),
        before.channels > 0,
        linear_run::<A>(before, between, positions1, true, shown1, output1),
        positions1.len() - 1 < shown1.len() as int / (before.channels as int),
        linear_run::<A>(between, after, positions2, true, shown2, output2),
    ensures
        positions2.len() == 1,
        output2 == shown2,
        after == between,
{
    law_flush_comes_to_an_end::<A>(
        before,
        blending::<A>(before.history),
        blending::<A>(between.history),
        0,
        LOOKAHEAD as int,
        positions1,
        positions2,
        shown1,
        output1,
        shown2,
        output2,
    );
}

/// Each channel is converted as if it were alone.
pub proof fn law_linear_channels_are_independent<A: Arithmetic>(
    before: Stream<A::Sample>,
    after: Stream<A::Sample>,
    ch: int,
    positions: Seq<Double>,
    pad: bool,
    shown: Seq<A::Sample>,
    output: Seq<A::Sample>,
)
    requires
        before.valid(),
        0 <= ch < before.channels,
        linear_run::<A>(before, after, positions, pad, shown, output),
    ensures
        linear_run::<A>(
            before.channel(ch),
            after.channel(ch),
            positions,
            pad,
            channel_of(shown, before.channels as int, ch),
            channel_of(output, before.channels as int, ch),
        ),
{
    let alone = before.history.channel(ch);
    assert forall|position: Double, frame: Seq<A::Sample>|
        frame.len() == before.channels && #[trigger] blending::<A>(before.history)(
            position,
            frame,
        ) implies blending::<A>(alone)(position, seq![frame[ch]]) by {
        assert(blended::<A>(before.history, position, frame));
        law_channel_reads_alone(before.history, position.frame(), ch);
        law_channel_reads_alone(before.history, position.frame() + 1, ch);
        assert(frame[ch] == seq![frame[ch]][0]);
        assert(blended::<A>(alone, position, seq![frame[ch]]));
    }
    law_channel_stands_alone::<A>(
        before,
        ch,
        positions,
        LOOKAHEAD as int,
        pad,
        blending::<A>(before.history),
        blending::<A>(alone),
        shown,
        output,
    );
    law_channel_of_read(before, positions.last(), 0, ch);
}

/// A resampler that was reset is as one newly made with its ratio.
pub proof fn law_linear_reset_is_fresh<A: Arithmetic>(used: Stream<A::Sample>)
    requires
        used.valid(),
        call_ensures(A::silence, (), used.history.silence),
    ensures
        made_with::<A>(
            Stream::fresh(used.ratio, used.channels, used.history.silence),
            used.ratio,
            used.channels,
        ),
{
    law_streams_start_at_frame_zero(used.ratio, used.channels, used.history.silence);
}

/// Linear interpolation makes one frame at each position.
proof fn lemma_blending_is_one<A: Arithmetic>(history: Buffered<A::Sample>)
    requires
        one_result::<A>(),
    ensures
        one_frame(blending::<A>(history), history.channels),
{
    let interpolation = blending::<A>(history);
    assert forall|position: Double, x: Seq<A::Sample>, y: Seq<A::Sample>|
        x.len() == history.channels && y.len() == history.channels && #[trigger] interpolation(
            position,
            x,
        ) && #[trigger] interpolation(position, y) implies x == y by {
        assert(blended::<A>(history, position, x));
        assert(blended::<A>(history, position, y));
        assert forall|ch: int| 0 <= ch < x.len() implies x[ch] == y[ch] by {
            lemma_blend_is_one::<A>(
                history.at(position.frame(), ch),
                history.at(position.frame() + 1, ch),
                position,
                position.frame() as i64,
                x[ch],
                y[ch],
            );
        }
        assert(x =~= y);
    }
}

/// A call has one outcome, where every operation has one result: two runs from one state make
/// the same frames and leave the same state, where they have as much room (or room to spare).
pub proof fn law_linear_runs_agree<A: Arithmetic>(
    before: Stream<A::Sample>,
    after1: Stream<A::Sample>,
    after2: Stream<A::Sample>,
    positions1: Seq<Double>,
    positions2: Seq<Double>,
    pad: bool,
    shown1: Seq<A::Sample>,
    output1: Seq<A::Sample>,
    shown2: Seq<A::Sample>,
    output2: Seq<A::Sample>,
)
    requires
        one_result::<A>(),
        before.valid(),
        before.channels > 0,
        linear_run::<A>(before, after1, positions1, pad, shown1, output1),
        linear_run::<A>(before, after2, positions2, pad, shown2, output2),
        shown1.len() as int / (before.channels as int) == shown2.len() as int / (
        before.channels as int) || (positions1.len() - 1 < shown1.len() as int / (
        before.channels as int) && positions2.len() - 1 < shown2.len() as int / (
        before.channels as int)),
    ensures
        positions1 == positions2,
        output1.take((positions1.len() - 1) * before.channels) == output2.take(
            (positions1.len() - 1) * before.channels,
        ),
        shown1 == shown2 ==> output1 == output2,
        after1 == after2,
{
    lemma_blending_is_one::<A>(before.history);
    law_runs_agree::<A>(
        before,
        positions1,
        positions2,
        LOOKAHEAD as int,
        pad,
        blending::<A>(before.history),
        shown1,
        output1,
        shown2,
        output2,
    );
}

/// However input and output are cut, the output is the same, sample for sample, and so is the
/// state that is left, where every operation has one result.
pub proof fn law_linear_output_ignores_cutting<A: Arithmetic>(
    stream: Stream<A::Sample>,
    calls1: Seq<Call<A::Sample>>,
    flush1: Call<A::Sample>,
    calls2: Seq<Call<A::Sample>>,
    flush2: Call<A::Sample>,
)
    requires
        one_result::<A>(),
        moves_forward::<A>(),
        stream.valid(),
        stream.channels > 0,
        stream.has_room(all_input(calls1).len() as int, stream.channels as int),
        all_input(calls1) == all_input(calls2),
        is_course::<A>(stream, calls1, flush1, linear_interpolator::<A>(), 0, LOOKAHEAD as int),
        is_course::<A>(stream, calls2, flush2, linear_interpolator::<A>(), 0, LOOKAHEAD as int),
    ensures
        all_output(calls1, flush1, stream.channels as int) == all_output(
            calls2,
            flush2,
            stream.channels as int,
        ),
        after_calls(stream, calls1, 0).read_to(flush1.positions.last(), 0) == after_calls(
            stream,
            calls2,
            0,
        ).read_to(flush2.positions.last(), 0),
{
    let fed = stream.fed(all_input(calls1));
    lemma_blending_is_one::<A>(fed.history);
    lemma_blending_reads_within::<A>();
    law_output_ignores_cutting::<A>(
        stream,
        calls1,
        flush1,
        calls2,
        flush2,
        linear_interpolator::<A>(),
        0,
        LOOKAHEAD as int,
    );
}

/// A channel comes out as from a resampler of its own: given that channel alone, it makes the
/// samples of that channel, where every operation has one result.
pub proof fn law_linear_channel_is_its_own_stream<A: Arithmetic>(
    before: Stream<A::Sample>,
    after: Stream<A::Sample>,
    alone: Stream<A::Sample>,
    ch: int,
    positions: Seq<Double>,
    positions_alone: Seq<Double>,
    pad: bool,
    shown: Seq<A::Sample>,
    output: Seq<A::Sample>,
    shown_alone: Seq<A::Sample>,
    output_alone: Seq<A::Sample>,
)
    requires
        one_result::<A>(),
        before.valid(),
        0 <= ch < before.channels,
        linear_run::<A>(before, after, positions, pad, shown, output),
        linear_run::<A>(
            before.channel(ch),
            alone,
            positions_alone,
            pad,
            shown_alone,
            output_alone,
        ),
        shown_alone.len() == shown.len() as int / (before.channels as int),
    ensures
        positions_alone == positions,
        output_alone.take(positions.len() - 1) == channel_of(
            output,
            before.channels as int,
            ch,
        ).take(positions.len() - 1),
        alone == after.channel(ch),
{
    let c = before.channels as int;
    law_linear_channels_are_independent::<A>(before, after, ch, positions, pad, shown, output);
    law_channel_reads_alone(before.history, 0, ch);
    let mono = before.channel(ch);
    lemma_blending_is_one::<A>(mono.history);
    law_runs_agree::<A>(
        mono,
        positions_alone,
        positions,
        LOOKAHEAD as int,
        pad,
        blending::<A>(mono.history),
        shown_alone,
        output_alone,
        channel_of(shown, c, ch),
        channel_of(output, c, ch),
    );
}

/// Resamplers made alike are alike, where every operation has one result.
pub proof fn law_linear_made_alike<A: Arithmetic>(
    a: Stream<A::Sample>,
    b: Stream<A::Sample>,
    ratio: Double,
    channels: usize,
)
    requires
        one_result::<A>(),
        made_with::<A>(a, ratio, channels),
        made_with::<A>(b, ratio, channels),
    ensures
        a == b,
{
    reveal(one_result);
}

/// A new resampler writes nothing if and only if it was given no more frames than its latency.
pub proof fn law_linear_first_frame<A: Arithmetic>(
    made: Stream<A::Sample>,
    ratio: Double,
    channels: usize,
    after: Stream<A::Sample>,
    input: Seq<A::Sample>,
    positions: Seq<Double>,
    shown: Seq<A::Sample>,
    output: Seq<A::Sample>,
)
    requires
        channels > 0,
        made_with::<A>(made, ratio, channels),
        shown.len() >= channels,
        linear_run::<A>(made.fed(input), after, positions, false, shown, output),
    ensures
        positions.len() - 1 == 0 <==> input.len() as int / (channels as int) <= LOOKAHEAD,
{
    law_first_frame_waits_for_the_lookahead::<A>(
        made.ratio,
        channels,
        made.history.silence,
        input,
        positions,
        LOOKAHEAD as int,
        blending::<A>(made.fed(input).history),
        shown,
        output,
    );
}

/// A `process` call with room to spare leaves one frame buffered at most.
pub proof fn law_linear_little_stays_buffered<A: Arithmetic>(
    before: Stream<A::Sample>,
    after: Stream<A::Sample>,
    positions: Seq<Double>,
    shown: Seq<A::Sample>,
    output: Seq<A::Sample>,
)
    requires
        before.valid(),
        linear_run::<A>(before, after, positions, false, shown, output),
        positions.len() - 1 < shown.len() as int / (before.channels as int),
    ensures
        after.history.frames() <= LOOKAHEAD,
{
    law_little_stays_buffered::<A>(
        before,
        positions,
        0,
        LOOKAHEAD as int,
        blending::<A>(before.history),
        shown,
        output,
    );
}

/// A whole stream, however its input and output are cut, writes as many frames as its input is
/// worth, where its positions agree with that length; to within `slack` frames, where they do so
/// to within as many.
pub proof fn law_linear_stream_is_as_long_as_its_input_is_worth<A: Arithmetic>(
    made: Stream<A::Sample>,
    ratio: Double,
    channels: usize,
    calls: Seq<Call<A::Sample>>,
    flush: Call<A::Sample>,
    frames: u64,
    owed: u64,
    slack: int,
)
    requires
        moves_forward::<A>(),
        channels > 0,
        0 <= slack,
        made_with::<A>(made, ratio, channels),
        made.has_room(all_input(calls).len() as int, channels as int),
        frames == all_input(calls).len() as int / (channels as int),
        is_course::<A>(made, calls, flush, linear_interpolator::<A>(), 0, LOOKAHEAD as int),
        is_worth::<A>(made.ratio, frames, owed),
        worth_agrees::<A>(made.ratio, frames as int, owed as int, slack),
    ensures
        all_output(calls, flush, channels as int).len() == (all_positions(calls, flush).len() - 1)
            * channels,
        owed - slack <= all_positions(calls, flush).len() - 1 <= owed + slack,
{
    lemma_blending_reads_within::<A>();
    law_stream_is_about_as_long_as_its_input_is_worth::<A>(
        made.ratio,
        channels,
        made.history.silence,
        calls,
        flush,
        linear_interpolator::<A>(),
        0,
        LOOKAHEAD as int,
        owed as int,
        slack,
    );
}

/// At a ratio of one the positions of a flush are the starts of the frames.
proof fn lemma_positions_at_ratio_one<A: Arithmetic>(
    stream: Stream<A::Sample>,
    positions: Seq<Double>,
    shown: Seq<A::Sample>,
    output: Seq<A::Sample>,
    limit: int,
    k: int,
)
    requires
        counts_frames::<A>(limit),
        stream.ratio.bits == ONE,
        stream.read_pos.bits == 0,
        0 <= stream.history.end() <= limit <= i64::MAX,
        emitted::<A>(
            stream,
            positions,
            LOOKAHEAD as int,
            true,
            blending::<A>(stream.history),
            shown,
            output,
        ),
        0 <= k < positions.len(),
    ensures
        k <= stream.history.end(),
        is_at::<A>(positions[k], k as i64),
    decreases k,
{
    if k > 0 {
        lemma_positions_at_ratio_one::<A>(stream, positions, shown, output, limit, k - 1);
        assert(readable(stream.history, positions[k - 1], LOOKAHEAD as int, true));
        assert(advanced::<A>(positions[k - 1], stream.ratio, positions[k - 1 + 1]));
        assert(stream.ratio == Double { bits: ONE });
    } else {
        assert(positions[0] == Double { bits: 0 });
    }
}

/// All input of calls with whole frames is whole frames.
proof fn lemma_all_input_whole<A: Arithmetic>(
    stream: Stream<A::Sample>,
    calls: Seq<Call<A::Sample>>,
    ended: bool,
)
    requires
        stream.channels > 0,
        are_calls::<A>(stream, calls, ended, linear_interpolator::<A>(), 0, LOOKAHEAD as int),
    ensures
        all_input(calls).len() as int % (stream.channels as int) == 0,
    decreases calls.len(),
{
    let c = stream.channels as int;
    if calls.len() > 0 {
        let call = calls.first();
        lemma_all_input_whole::<A>(
            stream.fed(call.input).read_to(call.positions.last(), 0),
            calls.drop_first(),
            call.pad,
        );
        lemma_whole_frames(
            call.input.len() as int,
            all_input(calls.drop_first()).len() as int,
            c,
        );
    } else {
        lemma_multiple(0, c);
    }
}

/// At a ratio of one linear interpolation gives the input back, sample for sample, however input
/// and output are cut: where the arithmetic counts frames exactly, and nothing of the way from
/// a sample of the input to the next is that sample.
pub proof fn law_linear_at_ratio_one_gives_the_input_back<A: Arithmetic>(
    made: Stream<A::Sample>,
    ratio: Double,
    channels: usize,
    calls: Seq<Call<A::Sample>>,
    flush: Call<A::Sample>,
    limit: int,
)
    requires
        moves_forward::<A>(),
        counts_frames::<A>(limit),
        limit <= i64::MAX,
        channels > 0,
        made_with::<A>(made, ratio, channels),
        made.ratio.bits == ONE,
        all_input(calls).len() as int / (channels as int) <= limit,
        is_course::<A>(made, calls, flush, linear_interpolator::<A>(), 0, LOOKAHEAD as int),
        forall|abs: int, ch: int|
            0 <= abs < made.fed(all_input(calls)).history.end() && 0 <= ch < channels
                ==> starts_at::<A>(
                #[trigger] made.fed(all_input(calls)).history.at(abs, ch),
                made.fed(all_input(calls)).history.at(abs + 1, ch),
            ),
    ensures
        all_output(calls, flush, channels as int) == all_input(calls),
{
    let c = channels as int;
    let input = all_input(calls);
    let positions = all_positions(calls, flush);
    let silence = made.history.silence;
    let room = positions.len() as int;
    let shown: Seq<A::Sample> = Seq::new((room * c) as nat, |i: int| silence);
    lemma_multiple(room, c);
    assert(room * c >= 0) by (nonlinear_arith)
        requires
            room >= 0,
            c > 0,
    ;
    law_streams_start_at_frame_zero(made.ratio, channels, silence);
    let fed = made.fed(input);
    let left = after_calls(made, calls, 0).read_to(flush.positions.last(), 0);
    law_linear_stream_is_its_whole_input::<A>(made, calls, flush, left, shown);
    let n = positions.len() - 1;
    let made_output = all_output(calls, flush, c);
    let output = made_output + shown.skip(n * c);
    lemma_fed(made, input);
    lemma_all_input_whole::<A>(made, calls, false);
    lemma_frames_fit(input.len() as int, c, input.len() as int / c);
    lemma_positions_at_ratio_one::<A>(fed, positions, shown, output, limit, n);
    assert(!readable(fed.history, positions[n], LOOKAHEAD as int, true));
    assert(n == fed.history.end());
    lemma_fundamental_div_mod(input.len() as int, c);
    assert(n * c == input.len()) by (nonlinear_arith)
        requires
            n == input.len() as int / c,
            input.len() == c * (input.len() as int / c),
    ;
    lemma_frames_fit(shown.len() as int, c, n);
    assert(fed.history.samples =~= input);
    assert(made_output.len() == n * c) by {
        lemma_blending_reads_within::<A>();
        law_stream_is_its_whole_input::<A>(
            made,
            calls,
            false,
            flush,
            linear_interpolator::<A>(),
            0,
            LOOKAHEAD as int,
            shown,
        );
    }
    assert forall|i: int| 0 <= i < n * c implies made_output[i] == input[i] by {
        let k = i / c;
        let ch = i % c;
        lemma_fundamental_div_mod(i, c);
        assert(0 <= k < n && k * c + ch == i && 0 <= k * c && (k + 1) * c == k * c + c && (k + 1)
            * c <= n * c) by (nonlinear_arith)
            requires
                i == c * k + ch,
                0 <= ch < c,
                0 <= i < n * c,
        ;
        lemma_positions_at_ratio_one::<A>(fed, positions, shown, output, limit, k);
        let frame = frame_of(output, c, k);
        assert((blending::<A>(fed.history))(positions[k], frame));
        assert(blended::<A>(fed.history, positions[k], frame));
        assert(frame[ch] == output[i]);
        assert(fed.history.at(k, ch) == input[i]);
        lemma_blend_at_a_frame::<A>(
            fed.history.at(k, ch),
            fed.history.at(k + 1, ch),
            positions[k],
            k as i64,
            frame[ch],
        );
    }
    assert(made_output =~= input);
}

} // verus!
