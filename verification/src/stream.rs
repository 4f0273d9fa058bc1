//! What the interpolating resamplers have in common: a read position that moves through the
//! input history, one output frame per step.

use vstd::prelude::*;
use vstd::arithmetic::div_mod::lemma_fundamental_div_mod;
use vstd::arithmetic::div_mod::lemma_fundamental_div_mod_converse;
use vstd::arithmetic::power2::lemma_pow2_pos;
use vstd::arithmetic::power2::pow2;

use crate::arithmetic::Arithmetic;
use crate::double::Double;
use crate::formulas::advanced;
use crate::formulas::lemma_advance_is_one;
use crate::formulas::one_result;
use crate::internals::channel_of;
use crate::internals::law_channel_of_pushed;
use crate::internals::law_channel_of_trimmed;
use crate::internals::law_channel_reads_alone;
use crate::internals::law_push_keeps_earlier_frames;
use crate::internals::law_trim_and_push;
use crate::internals::law_trims_join;
use crate::internals::lemma_frames_added;
use crate::internals::lemma_frames_dropped;
use crate::internals::lemma_pushed_whole;
use crate::internals::lemma_sample_index;
use crate::internals::lemma_trimmed_whole;
use crate::internals::Buffered;
use crate::resampler::lemma_frames_fit;
use crate::resampler::sanitized;

verus! {

/// A stream in the middle of its conversion.
#[verifier::ext_equal]
pub struct Stream<S> {
    pub channels: usize,
    pub ratio: Double,
    /// Position of the next output frame, in input frames from the start of the stream.
    pub read_pos: Double,
    pub history: Buffered<S>,
}

impl<S> Stream<S> {
    /// A stream of which nothing has been seen.
    pub open spec fn fresh(ratio: Double, channels: usize, silence: S) -> Self {
        Stream {
            channels,
            ratio,
            read_pos: Double { bits: 0 },
            history: Buffered::empty(
                if channels == 0 {
                    1
                } else {
                    channels as int
                },
                silence,
            ),
        }
    }

    pub open spec fn valid(self) -> bool {
        &&& self.ratio.is_usable_ratio()
        &&& sanitized(self.ratio) == self.ratio
        &&& self.history.valid()
        &&& self.history.whole()
        &&& self.history.channels == if self.channels == 0 {
            1
        } else {
            self.channels as int
        }
    }

    /// The calls that are answered: with the channel count that the resampler was made for,
    /// and room for a frame.
    pub open spec fn accepts(self, output_len: int, channels: usize) -> bool {
        &&& channels == self.channels
        &&& channels != 0
        &&& output_len >= channels
    }

    /// Whether the frame counter has room for `samples` more samples.
    pub open spec fn has_room(self, samples: int, channels: int) -> bool {
        channels > 0 ==> self.history.end() + samples / channels <= i64::MAX
    }

    /// The stream with the whole frames of `input` behind it.
    pub open spec fn fed(self, input: Seq<S>) -> Self {
        let frames = input.len() as int / (self.channels as int);
        Stream { history: self.history.pushed(input.take(frames * self.channels)), ..self }
    }

    /// One channel of the stream.
    pub open spec fn channel(self, ch: int) -> Self {
        Stream { channels: 1, history: self.history.channel(ch), ..self }
    }

    /// The stream read up to `position`, without the frames that lie more than `behind`
    /// frames before it.
    pub open spec fn read_to(self, position: Double, behind: int) -> Self {
        Stream {
            read_pos: position,
            history: self.history.trimmed(position.frame() - behind),
            ..self
        }
    }
}

/// Whether an output frame at `position` can be made: its input frame is there, and, unless
/// the input is over and reads as silence behind its end (`pad`), so are the `lookahead`
/// frames after it.
pub open spec fn readable<S>(
    history: Buffered<S>,
    position: Double,
    lookahead: int,
    pad: bool,
) -> bool {
    &&& position.frame() < history.end()
    &&& pad || position.frame() + lookahead < history.end()
}

/// Each position is one output frame on from the one before it.
pub open spec fn spaced<A: Arithmetic>(positions: Seq<Double>, ratio: Double) -> bool {
    forall|k: int|
        0 <= k < positions.len() - 1 ==> advanced::<A>(
            #[trigger] positions[k],
            ratio,
            positions[k + 1],
        )
}

/// Frame `k` of interleaved samples.
pub open spec fn frame_of<S>(samples: Seq<S>, channels: int, k: int) -> Seq<S> {
    samples.subrange(k * channels, (k + 1) * channels)
}

/// How output frames are made from the input: at each position, which frames are possible.
pub type Interpolation<S> = spec_fn(Double, Seq<S>) -> bool;

/// A run of output frames, one for each of the `positions` but the last, which is where the
/// next frame will be: the run goes on as long as there is room and input to read.
pub open spec fn emitted<A: Arithmetic>(
    stream: Stream<A::Sample>,
    positions: Seq<Double>,
    lookahead: int,
    pad: bool,
    interpolation: Interpolation<A::Sample>,
    before: Seq<A::Sample>,
    after: Seq<A::Sample>,
) -> bool {
    let channels = stream.channels as int;
    let written = positions.len() - 1;
    &&& 0 <= written <= before.len() as int / channels
    &&& positions[0] == stream.read_pos
    &&& spaced::<A>(positions, stream.ratio)
    &&& forall|k: int|
        0 <= k < written ==> readable(stream.history, #[trigger] positions[k], lookahead, pad)
    &&& written == before.len() as int / channels || !readable(
        stream.history,
        positions[written],
        lookahead,
        pad,
    )
    &&& after.len() == before.len()
    &&& after.skip(written * channels) == before.skip(written * channels)
    &&& forall|k: int|
        0 <= k < written ==> interpolation(
            #[trigger] positions[k],
            frame_of(after, channels, k),
        )
}

/// Writing frame `at` leaves the frames before it alone, and everything after it.
pub proof fn lemma_frame_written<S>(
    before: Seq<S>,
    after: Seq<S>,
    channels: int,
    at: int,
)
    requires
        channels > 0,
        0 <= at,
        (at + 1) * channels <= before.len(),
        after.len() == before.len(),
        forall|i: int|
            0 <= i < before.len() && !(at * channels <= i < (at + 1) * channels) ==> after[i]
                == before[i],
    ensures
        forall|k: int|
            0 <= k < at ==> #[trigger] frame_of(after, channels, k) == frame_of(
                before,
                channels,
                k,
            ),
        after.skip((at + 1) * channels) == before.skip((at + 1) * channels),
{
    assert(0 <= at * channels <= (at + 1) * channels) by (nonlinear_arith)
        requires
            0 <= at,
            0 < channels,
    ;
    assert forall|k: int| 0 <= k < at implies #[trigger] frame_of(after, channels, k) == frame_of(
        before,
        channels,
        k,
    ) by {
        assert(0 <= k * channels <= (k + 1) * channels <= at * channels) by (nonlinear_arith)
            requires
                0 <= k < at,
                0 < channels,
        ;
        assert(frame_of(after, channels, k) =~= frame_of(before, channels, k));
    }
    assert(after.skip((at + 1) * channels) =~= before.skip((at + 1) * channels));
}

/// What agrees from frame `at` on agrees from the next frame on.
pub proof fn lemma_rest_agrees<S>(a: Seq<S>, b: Seq<S>, channels: int, at: int)
    requires
        channels > 0,
        0 <= at,
        a.len() == b.len(),
        (at + 1) * channels <= a.len(),
        a.skip(at * channels) == b.skip(at * channels),
    ensures
        a.skip((at + 1) * channels) == b.skip((at + 1) * channels),
{
    assert((at + 1) * channels == at * channels + channels && 0 <= at * channels)
        by (nonlinear_arith)
        requires
            0 <= at,
            0 < channels,
    ;
    assert(a.skip((at + 1) * channels) =~= a.skip(at * channels).skip(channels));
    assert(b.skip((at + 1) * channels) =~= b.skip(at * channels).skip(channels));
}

/// Feeding whole frames to a stream that has room for them.
pub proof fn lemma_fed<S>(stream: Stream<S>, input: Seq<S>)
    requires
        stream.valid(),
        stream.channels > 0,
        stream.has_room(input.len() as int, stream.channels as int),
    ensures
        stream.fed(input).valid(),
        stream.fed(input).history.end() == stream.history.end() + input.len() as int / (
        stream.channels as int),
{
    let c = stream.channels as int;
    let frames = input.len() as int / c;
    lemma_frames_fit(input.len() as int, c, frames);
    lemma_frames_added(stream.history.samples.len() as int, c, frames);
    lemma_pushed_whole(stream.history, input.take(frames * c), frames);
}

/// An arithmetic in which the next output frame never lies before the present one.
pub open spec fn moves_forward<A: Arithmetic>() -> bool {
    forall|position: Double, ratio: Double, next: Double|
        ratio.is_usable_ratio() && #[trigger] advanced::<A>(position, ratio, next)
            ==> position.frame() <= next.frame()
}

/// The two histories read the same from frame `from` to frame `to`.
pub open spec fn agree_on<S>(a: Buffered<S>, b: Buffered<S>, from: int, to: int) -> bool {
    &&& a.channels == b.channels
    &&& a.silence == b.silence
    &&& forall|abs: int, ch: int|
        from <= abs <= to && 0 <= ch < a.channels ==> #[trigger] a.at(abs, ch) == b.at(abs, ch)
}

/// How output frames are made, for each input history.
pub type Interpolator<S> = spec_fn(Buffered<S>) -> Interpolation<S>;

/// A frame depends on the input no further than `behind` frames before its position and
/// `lookahead` frames after it.
pub open spec fn reads_within<S>(
    interpolator: Interpolator<S>,
    behind: int,
    lookahead: int,
) -> bool {
    forall|a: Buffered<S>, b: Buffered<S>, position: Double, frame: Seq<S>|
        agree_on(a, b, position.frame() - behind, position.frame() + lookahead)
            && #[trigger] interpolator(a)(position, frame) ==> #[trigger] interpolator(b)(
            position,
            frame,
        )
}

/// Positions that move forward stay at or behind the first.
proof fn lemma_positions_forward<A: Arithmetic>(positions: Seq<Double>, ratio: Double, k: int)
    requires
        moves_forward::<A>(),
        ratio.is_usable_ratio(),
        spaced::<A>(positions, ratio),
        0 <= k < positions.len(),
    ensures
        positions[0].frame() <= positions[k].frame(),
    decreases k,
{
    if k > 0 {
        lemma_positions_forward::<A>(positions, ratio, k - 1);
        assert(advanced::<A>(positions[k - 1], ratio, positions[k - 1 + 1]));
    }
}

/// Two blocks of input, the first of whole frames, add up to one.
pub proof fn law_feeding_joins<S>(stream: Stream<S>, first: Seq<S>, second: Seq<S>)
    requires
        stream.valid(),
        stream.channels > 0,
        first.len() % (stream.channels as nat) == 0,
    ensures
        stream.fed(first).fed(second) == stream.fed(first + second),
        (first.len() + second.len()) as int / (stream.channels as int) == first.len() as int / (
        stream.channels as int) + second.len() as int / (stream.channels as int),
{
    let c = stream.channels as int;
    let n1 = first.len() as int / c;
    let n2 = second.len() as int / c;
    lemma_fundamental_div_mod(first.len() as int, c);
    assert(n1 * c == c * n1) by (nonlinear_arith);
    assert(first.len() == n1 * c);
    lemma_frames_added(second.len() as int, c, n1);
    lemma_frames_fit(second.len() as int, c, n2);
    assert((n1 + n2) * c == n1 * c + n2 * c) by (nonlinear_arith);
    assert((first + second).take((n1 + n2) * c) =~= first.take(n1 * c) + second.take(n2 * c));
    assert(stream.fed(first).fed(second).history.samples =~= stream.fed(
        first + second,
    ).history.samples);
}

/// Output that was cut in two is whole again.
proof fn lemma_frames_joined<S>(
    first: Seq<S>,
    second: Seq<S>,
    rest: Seq<S>,
    channels: int,
    n1: int,
    n2: int,
)
    requires
        channels > 0,
        0 <= n1,
        0 <= n2,
        n1 * channels <= first.len(),
        n2 * channels <= second.len(),
    ensures
        forall|k: int|
            0 <= k < n1 ==> #[trigger] frame_of(
                first.take(n1 * channels) + second.take(n2 * channels) + rest,
                channels,
                k,
            ) == frame_of(first, channels, k),
        forall|k: int|
            n1 <= k < n1 + n2 ==> #[trigger] frame_of(
                first.take(n1 * channels) + second.take(n2 * channels) + rest,
                channels,
                k,
            ) == frame_of(second, channels, k - n1),
        (first.take(n1 * channels) + second.take(n2 * channels) + rest).skip(
            (n1 + n2) * channels,
        ) == rest,
{
    let c = channels;
    let all = first.take(n1 * c) + second.take(n2 * c) + rest;
    assert((n1 + n2) * c == n1 * c + n2 * c && 0 <= n1 * c && 0 <= n2 * c) by (nonlinear_arith)
        requires
            0 <= n1,
            0 <= n2,
            0 < c,
    ;
    assert forall|k: int| 0 <= k < n1 implies #[trigger] frame_of(all, c, k) == frame_of(
        first,
        c,
        k,
    ) by {
        assert(0 <= k * c <= (k + 1) * c <= n1 * c) by (nonlinear_arith)
            requires
                0 <= k < n1,
                0 < c,
        ;
        assert(frame_of(all, c, k) =~= frame_of(first, c, k));
    }
    assert forall|k: int| n1 <= k < n1 + n2 implies #[trigger] frame_of(all, c, k) == frame_of(
        second,
        c,
        k - n1,
    ) by {
        let j = k - n1;
        assert(k * c == n1 * c + j * c && (k + 1) * c == n1 * c + (j + 1) * c && 0 <= j * c <= (j
            + 1) * c <= n2 * c) by (nonlinear_arith)
            requires
                j == k - n1,
                0 <= j < n2,
                0 < c,
        ;
        assert(frame_of(all, c, k) =~= frame_of(second, c, j));
    }
    assert(all.skip((n1 + n2) * c) =~= rest);
}

/// Cutting the input into blocks, and the output into slices, changes nothing: what two calls
/// make of `first` and `second`, one call may make of both together, and it leaves the stream
/// in the same state. The second call may be a flush (`pad`), and where nothing is fed between
/// them, so may the first (`ended`).
pub proof fn law_blocks_join<A: Arithmetic>(
    stream: Stream<A::Sample>,
    first: Seq<A::Sample>,
    second: Seq<A::Sample>,
    interpolator: Interpolator<A::Sample>,
    behind: int,
    lookahead: int,
    ended: bool,
    pad: bool,
    positions1: Seq<Double>,
    positions2: Seq<Double>,
    shown1: Seq<A::Sample>,
    output1: Seq<A::Sample>,
    shown2: Seq<A::Sample>,
    output2: Seq<A::Sample>,
    shown: Seq<A::Sample>,
)
    requires
        ended ==> pad && second.len() == 0,
        moves_forward::<A>(),
        reads_within(interpolator, behind, lookahead),
        0 <= behind,
        0 <= lookahead,
        stream.valid(),
        stream.channels > 0,
        first.len() % (stream.channels as nat) == 0,
        stream.has_room((first.len() + second.len()) as int, stream.channels as int),
        ({
            let fed1 = stream.fed(first);
            let fed2 = fed1.read_to(positions1.last(), behind).fed(second);
            let written = positions1.len() + positions2.len() - 2;
            let capacity = shown.len() as int / (stream.channels as int);
            &&& emitted::<A>(
                fed1,
                positions1,
                lookahead,
                ended,
                interpolator(fed1.history),
                shown1,
                output1,
            )
            &&& emitted::<A>(
                fed2,
                positions2,
                lookahead,
                pad,
                interpolator(fed2.history),
                shown2,
                output2,
            )
            &&& written <= capacity
            &&& written == capacity || !readable(
                fed2.history,
                positions2.last(),
                lookahead,
                pad,
            )
        }),
    ensures
        ({
            let c = stream.channels as int;
            let fed = stream.fed(first + second);
            let fed2 = stream.fed(first).read_to(positions1.last(), behind).fed(second);
            let n1 = positions1.len() - 1;
            let n2 = positions2.len() - 1;
            &&& emitted::<A>(
                fed,
                positions1.drop_last() + positions2,
                lookahead,
                pad,
                interpolator(fed.history),
                shown,
                output1.take(n1 * c) + output2.take(n2 * c) + shown.skip((n1 + n2) * c),
            )
            &&& fed.read_to(positions2.last(), behind) == fed2.read_to(positions2.last(), behind)
        }),
{
    let c = stream.channels as int;
    let fed1 = stream.fed(first);
    let h1 = fed1.history;
    let stop = positions1.last();
    let mid = fed1.read_to(stop, behind);
    let fed2 = mid.fed(second);
    let fed = stream.fed(first + second);
    let n1 = positions1.len() - 1;
    let n2 = positions2.len() - 1;
    let positions = positions1.drop_last() + positions2;
    let tail = second.take((second.len() as int / c) * c);
    let output = output1.take(n1 * c) + output2.take(n2 * c) + shown.skip((n1 + n2) * c);

    law_feeding_joins(stream, first, second);
    lemma_fed(stream, first + second);
    lemma_fed(stream, first);
    assert(fed.history == h1.pushed(tail));
    law_trim_and_push(h1, tail, stop.frame() - behind, stop.frame() - behind);
    assert(fed2.history == h1.trimmed(stop.frame() - behind).pushed(tail));

    // The output, frame by frame.
    lemma_frames_fit(shown1.len() as int, c, n1);
    lemma_frames_fit(shown2.len() as int, c, n2);
    lemma_frames_fit(shown.len() as int, c, n1 + n2);
    lemma_frames_joined(output1, output2, shown.skip((n1 + n2) * c), c, n1, n2);
    assert((n1 + n2) * c == n1 * c + n2 * c) by (nonlinear_arith);

    // The positions, one by one.
    assert(positions.len() - 1 == n1 + n2);
    assert(positions[0] == stream.read_pos);
    assert(positions2[0] == stop);
    assert forall|k: int| 0 <= k < positions.len() - 1 implies advanced::<A>(
        #[trigger] positions[k],
        stream.ratio,
        positions[k + 1],
    ) by {
        if k < n1 {
            assert(positions[k] == positions1[k]);
            assert(positions[k + 1] == positions1[k + 1]);
        } else {
            assert(positions[k] == positions2[k - n1]);
            assert(positions[k + 1] == positions2[k - n1 + 1]);
        }
    }
    assert forall|k: int| 0 <= k < n1 + n2 implies {
        &&& readable(fed.history, #[trigger] positions[k], lookahead, pad)
        &&& interpolator(fed.history)(positions[k], frame_of(output, c, k))
    } by {
        let f = positions[k].frame();
        if k < n1 {
            assert(positions[k] == positions1[k]);
            assert(readable(h1, positions1[k], lookahead, ended));
            assert(agree_on(h1, fed.history, f - behind, f + lookahead)) by {
                assert forall|abs: int, ch: int|
                    f - behind <= abs <= f + lookahead && 0 <= ch < h1.channels implies #[trigger] h1.at(
                    abs,
                    ch,
                ) == fed.history.at(abs, ch) by {
                    if ended {
                        assert(tail =~= Seq::empty());
                        assert(fed.history.samples =~= h1.samples);
                    } else if h1.holds(abs) {
                        law_push_keeps_earlier_frames(h1, tail, abs, ch);
                    }
                }
            }
            assert(interpolator(h1)(positions1[k], frame_of(output1, c, k)));
            assert(frame_of(output, c, k) == frame_of(output1, c, k));
        } else {
            let j = k - n1;
            assert(positions[k] == positions2[j]);
            assert(readable(fed2.history, positions2[j], lookahead, pad));
            lemma_positions_forward::<A>(positions2, stream.ratio, j);
            assert(agree_on(fed2.history, fed.history, f - behind, f + lookahead));
            assert(interpolator(fed2.history)(positions2[j], frame_of(output2, c, j)));
            assert(frame_of(output, c, k) == frame_of(output2, c, j));
        }
    }
    assert forall|k: int| 0 <= k < n1 + n2 implies readable(
        fed.history,
        #[trigger] positions[k],
        lookahead,
        pad,
    ) by {}
    assert forall|k: int| 0 <= k < n1 + n2 implies interpolator(fed.history)(
        #[trigger] positions[k],
        frame_of(output, c, k),
    ) by {}
    assert(positions[n1 + n2] == positions2.last());
    assert(output.len() == shown.len());
    assert(spaced::<A>(positions, stream.ratio));

    // The state that is left.
    lemma_positions_forward::<A>(positions2, stream.ratio, n2);
    law_trim_and_push(
        h1,
        tail,
        stop.frame() - behind,
        positions2.last().frame() - behind,
    );
}

/// A flush that has come to the end of the input leaves nothing: the next one makes no frame
/// and changes nothing.
pub proof fn law_flush_comes_to_an_end<A: Arithmetic>(
    stream: Stream<A::Sample>,
    interpolation: Interpolation<A::Sample>,
    later: Interpolation<A::Sample>,
    behind: int,
    lookahead: int,
    positions1: Seq<Double>,
    positions2: Seq<Double>,
    shown1: Seq<A::Sample>,
    output1: Seq<A::Sample>,
    shown2: Seq<A::Sample>,
    output2: Seq<A::Sample>,
)
    requires
        stream.valid(),
        stream.channels > 0,
        emitted::<A>(stream, positions1, lookahead, true, interpolation, shown1, output1),
        positions1.len() - 1 < shown1.len() as int / (stream.channels as int),
        emitted::<A>(
            stream.read_to(positions1.last(), behind),
            positions2,
            lookahead,
            true,
            later,
            shown2,
            output2,
        ),
    ensures
        positions2.len() == 1,
        output2 == shown2,
        stream.read_to(positions1.last(), behind).read_to(positions2.last(), behind)
            == stream.read_to(positions1.last(), behind),
{
    let stop = positions1.last();
    let keep = stop.frame() - behind;
    let left = stream.read_to(stop, behind);
    law_trim_and_push(stream.history, Seq::empty(), keep, keep);
    law_trims_join(stream.history, keep, keep);
    assert(stream.history.pushed(Seq::empty()) =~= stream.history);
    assert(left.history.pushed(Seq::empty()) =~= left.history);
    assert(!readable(left.history, positions2[0], lookahead, true));
    assert(output2 =~= output2.skip(0 * stream.channels as int));
    assert(shown2 =~= shown2.skip(0 * stream.channels as int));
}

/// The length of the output: a flush with room to spare makes one frame for each position
/// that lies in the input, up to the first position behind its end.
pub proof fn law_flush_reads_to_the_end<A: Arithmetic>(
    stream: Stream<A::Sample>,
    positions: Seq<Double>,
    lookahead: int,
    interpolation: Interpolation<A::Sample>,
    shown: Seq<A::Sample>,
    output: Seq<A::Sample>,
)
    requires
        emitted::<A>(stream, positions, lookahead, true, interpolation, shown, output),
        positions.len() - 1 < shown.len() as int / (stream.channels as int),
    ensures
        forall|k: int|
            0 <= k < positions.len() - 1 ==> (#[trigger] positions[k]).frame()
                < stream.history.end(),
        positions.last().frame() >= stream.history.end(),
{
    assert forall|k: int| 0 <= k < positions.len() - 1 implies (#[trigger] positions[k]).frame()
        < stream.history.end() by {
        assert(readable(stream.history, positions[k], lookahead, true));
    }
}

/// Feeding a stream feeds each channel of it.
pub proof fn law_channel_of_fed<S>(stream: Stream<S>, input: Seq<S>, ch: int)
    requires
        stream.valid(),
        0 <= ch < stream.channels,
    ensures
        stream.fed(input).channel(ch) == stream.channel(ch).fed(
            channel_of(input, stream.channels as int, ch),
        ),
{
    let c = stream.channels as int;
    let frames = input.len() as int / c;
    lemma_frames_fit(input.len() as int, c, frames);
    let whole = input.take(frames * c);
    lemma_frames_added(0, c, frames);
    law_channel_of_pushed(stream.history, whole, frames, ch);
    let alone = channel_of(input, c, ch);
    assert(channel_of(whole, c, ch) =~= alone) by {
        assert forall|k: int| 0 <= k < frames implies channel_of(whole, c, ch)[k] == alone[k] by {
            lemma_sample_index(input.len() as int, c, k, ch);
            lemma_sample_index(frames * c, c, k, ch);
        }
    }
    assert(alone.take(alone.len() as int / 1 * 1) =~= alone);
}

/// Reading a stream reads each channel of it.
pub proof fn law_channel_of_read<S>(stream: Stream<S>, position: Double, behind: int, ch: int)
    requires
        stream.valid(),
        0 <= ch < stream.channels,
    ensures
        stream.read_to(position, behind).channel(ch) == stream.channel(ch).read_to(
            position,
            behind,
        ),
{
    law_channel_of_trimmed(stream.history, position.frame() - behind, ch);
}

/// Each channel is converted as if it were alone, where each sample of a frame depends on
/// its own channel only.
pub proof fn law_channel_stands_alone<A: Arithmetic>(
    stream: Stream<A::Sample>,
    ch: int,
    positions: Seq<Double>,
    lookahead: int,
    pad: bool,
    interpolation: Interpolation<A::Sample>,
    alone: Interpolation<A::Sample>,
    before: Seq<A::Sample>,
    after: Seq<A::Sample>,
)
    requires
        stream.valid(),
        0 <= ch < stream.channels,
        emitted::<A>(stream, positions, lookahead, pad, interpolation, before, after),
        forall|position: Double, frame: Seq<A::Sample>|
            frame.len() == stream.channels && #[trigger] interpolation(position, frame) ==> alone(
                position,
                seq![frame[ch]],
            ),
    ensures
        emitted::<A>(
            stream.channel(ch),
            positions,
            lookahead,
            pad,
            alone,
            channel_of(before, stream.channels as int, ch),
            channel_of(after, stream.channels as int, ch),
        ),
{
    let c = stream.channels as int;
    let written = positions.len() - 1;
    let from = channel_of(before, c, ch);
    let to = channel_of(after, c, ch);
    let frames = before.len() as int / c;
    law_channel_reads_alone(stream.history, 0, ch);
    lemma_frames_fit(before.len() as int, c, frames);
    assert(frames >= 0);
    assert(to.skip(written * 1) =~= from.skip(written * 1)) by {
        assert forall|k: int| written <= k < frames implies to[k] == from[k] by {
            lemma_sample_index(before.len() as int, c, k, ch);
            assert(written * c <= k * c) by (nonlinear_arith)
                requires
                    written <= k,
                    c > 0,
            ;
            let i = k * c + ch - written * c;
            assert(after.skip(written * c)[i] == before.skip(written * c)[i]);
        }
    }
    assert forall|k: int| 0 <= k < written implies alone(
        #[trigger] positions[k],
        frame_of(to, 1, k),
    ) by {
        lemma_frames_fit(before.len() as int, c, k + 1);
        lemma_sample_index(before.len() as int, c, k, ch);
        let frame = frame_of(after, c, k);
        assert((k + 1) * c == k * c + c) by (nonlinear_arith);
        assert(interpolation(positions[k], frame));
        assert(frame.len() == c);
        assert(frame_of(to, 1, k) =~= seq![frame[ch]]);
    }
    let mono = stream.channel(ch);
    lemma_fundamental_div_mod_converse(frames, 1, frames, 0);
    assert(from.len() == frames && mono.channels == 1);
    assert(from.len() as int / (mono.channels as int) == frames);
    assert forall|k: int| 0 <= k < written implies readable(
        mono.history,
        #[trigger] positions[k],
        lookahead,
        pad,
    ) by {
        assert(readable(stream.history, positions[k], lookahead, pad));
    }
    assert(spaced::<A>(positions, mono.ratio));
}

/// The first output frame of a stream is made of the input from frame 0 on: the output starts
/// where the input does.
pub proof fn law_streams_start_at_frame_zero<S>(ratio: Double, channels: usize, silence: S)
    ensures
        Stream::fresh(ratio, channels, silence).read_pos.frame() == 0,
        Stream::fresh(ratio, channels, silence).history.end() == 0,
{
    lemma_pow2_pos(1074);
    assert(Double { bits: 0 }.units() == 0);
    lemma_fundamental_div_mod_converse(0, pow2(1074) as int, 0, 0);
    let c: int = if channels == 0 {
        1
    } else {
        channels as int
    };
    lemma_fundamental_div_mod_converse(0, c, 0, 0);
}

/// A flush before any input writes nothing and changes nothing.
pub proof fn law_flush_before_input_writes_nothing<A: Arithmetic>(
    ratio: Double,
    channels: usize,
    silence: A::Sample,
    positions: Seq<Double>,
    behind: int,
    lookahead: int,
    interpolation: Interpolation<A::Sample>,
    shown: Seq<A::Sample>,
    output: Seq<A::Sample>,
)
    requires
        channels > 0,
        0 <= behind,
        emitted::<A>(
            Stream::fresh(ratio, channels, silence),
            positions,
            lookahead,
            true,
            interpolation,
            shown,
            output,
        ),
    ensures
        positions.len() - 1 == 0,
        output == shown,
        Stream::fresh(ratio, channels, silence).read_to(positions.last(), behind)
            == Stream::fresh(ratio, channels, silence),
{
    let fresh = Stream::fresh(ratio, channels, silence);
    law_streams_start_at_frame_zero(ratio, channels, silence);
    if positions.len() > 1 {
        assert(readable(fresh.history, positions[0], lookahead, true));
    }
    assert(output =~= output.skip(0 * channels as int));
    assert(shown =~= shown.skip(0 * channels as int));
    assert(fresh.history.samples.skip(0 * channels as int) =~= fresh.history.samples);
}

/// One call of a stream: whether it was a flush, the input it was given, the positions at
/// which it made frames, and the output buffer before and after.
#[verifier::ext_equal]
pub struct Call<S> {
    pub pad: bool,
    pub input: Seq<S>,
    pub positions: Seq<Double>,
    pub shown: Seq<S>,
    pub output: Seq<S>,
}

impl<S> Call<S> {
    /// The frames that were made.
    pub open spec fn frames(self) -> int {
        self.positions.len() - 1
    }

    /// The output that was made.
    pub open spec fn made(self, channels: int) -> Seq<S> {
        self.output.take(self.frames() * channels)
    }

    /// The call left room in its output.
    pub open spec fn has_room(self, channels: int) -> bool {
        self.frames() < self.shown.len() as int / channels
    }
}

/// The input of all calls.
pub open spec fn all_input<S>(calls: Seq<Call<S>>) -> Seq<S>
    decreases calls.len(),
{
    if calls.len() == 0 {
        Seq::empty()
    } else {
        calls.first().input + all_input(calls.drop_first())
    }
}

/// The positions of all calls and of the flush behind them.
pub open spec fn all_positions<S>(calls: Seq<Call<S>>, flush: Call<S>) -> Seq<Double>
    decreases calls.len(),
{
    if calls.len() == 0 {
        flush.positions
    } else {
        calls.first().positions.drop_last() + all_positions(calls.drop_first(), flush)
    }
}

/// The output of all calls and of the flush behind them.
pub open spec fn all_output<S>(calls: Seq<Call<S>>, flush: Call<S>, channels: int) -> Seq<S>
    decreases calls.len(),
{
    if calls.len() == 0 {
        flush.made(channels)
    } else {
        calls.first().made(channels) + all_output(calls.drop_first(), flush, channels)
    }
}

/// The stream behind the calls.
pub open spec fn after_calls<S>(stream: Stream<S>, calls: Seq<Call<S>>, behind: int) -> Stream<S>
    decreases calls.len(),
{
    if calls.len() == 0 {
        stream
    } else {
        after_calls(
            stream.fed(calls.first().input).read_to(calls.first().positions.last(), behind),
            calls.drop_first(),
            behind,
        )
    }
}

/// Calls of a stream, each with whole frames of input, and behind the first flush nothing but
/// flushes (and from the start, where the input has `ended`).
pub open spec fn are_calls<A: Arithmetic>(
    stream: Stream<A::Sample>,
    calls: Seq<Call<A::Sample>>,
    ended: bool,
    interpolator: Interpolator<A::Sample>,
    behind: int,
    lookahead: int,
) -> bool
    decreases calls.len(),
{
    calls.len() == 0 || {
        let call = calls.first();
        let fed = stream.fed(call.input);
        &&& call.input.len() % (stream.channels as nat) == 0
        &&& ended ==> call.pad
        &&& call.pad ==> call.input.len() == 0
        &&& emitted::<A>(
            fed,
            call.positions,
            lookahead,
            call.pad,
            interpolator(fed.history),
            call.shown,
            call.output,
        )
        &&& are_calls::<A>(
            fed.read_to(call.positions.last(), behind),
            calls.drop_first(),
            call.pad,
            interpolator,
            behind,
            lookahead,
        )
    }
}

/// Nothing is fed behind the end of the input.
proof fn lemma_no_input_behind_the_end<A: Arithmetic>(
    stream: Stream<A::Sample>,
    calls: Seq<Call<A::Sample>>,
    interpolator: Interpolator<A::Sample>,
    behind: int,
    lookahead: int,
)
    requires
        are_calls::<A>(stream, calls, true, interpolator, behind, lookahead),
    ensures
        all_input(calls).len() == 0,
    decreases calls.len(),
{
    if calls.len() > 0 {
        let call = calls.first();
        lemma_no_input_behind_the_end::<A>(
            stream.fed(call.input).read_to(call.positions.last(), behind),
            calls.drop_first(),
            interpolator,
            behind,
            lookahead,
        );
    }
}

/// Reading a stream keeps it valid.
proof fn lemma_read_valid<S>(stream: Stream<S>, position: Double, behind: int)
    requires
        stream.valid(),
    ensures
        stream.read_to(position, behind).valid(),
        stream.read_to(position, behind).history.end() == stream.history.end(),
{
    let keep = position.frame() - behind;
    let drop = stream.history.trim_point(keep) - stream.history.start;
    lemma_frames_dropped(stream.history.samples.len() as int, stream.history.channels, drop);
    lemma_trimmed_whole(stream.history, keep);
}

/// A run of frames does not depend on the buffer it is written to, as long as there is room.
proof fn lemma_other_buffer<A: Arithmetic>(
    stream: Stream<A::Sample>,
    call: Call<A::Sample>,
    lookahead: int,
    pad: bool,
    interpolation: Interpolation<A::Sample>,
    shown: Seq<A::Sample>,
)
    requires
        stream.channels > 0,
        emitted::<A>(
            stream,
            call.positions,
            lookahead,
            pad,
            interpolation,
            call.shown,
            call.output,
        ),
        call.has_room(stream.channels as int),
        call.frames() < shown.len() as int / (stream.channels as int),
    ensures
        emitted::<A>(
            stream,
            call.positions,
            lookahead,
            pad,
            interpolation,
            shown,
            call.made(stream.channels as int) + shown.skip(call.frames() * stream.channels),
        ),
{
    let c = stream.channels as int;
    let n = call.frames();
    let output = call.made(c) + shown.skip(n * c);
    lemma_frames_fit(call.shown.len() as int, c, n);
    lemma_frames_fit(shown.len() as int, c, n);
    lemma_frames_joined(call.output, Seq::empty(), shown.skip(n * c), c, n, 0);
    assert(Seq::<A::Sample>::empty().take(0 * c) =~= Seq::empty());
    assert(call.output.take(n * c) + Seq::<A::Sample>::empty().take(0 * c) + shown.skip(n * c)
        =~= output);
    assert(output.len() == shown.len());
    assert forall|k: int| 0 <= k < n implies interpolation(
        #[trigger] call.positions[k],
        frame_of(output, c, k),
    ) by {
        assert(frame_of(output, c, k) == frame_of(call.output, c, k));
    }
}

/// A stream depends on its input, not on how input and output are cut: any number of calls and
/// then of flushes, with any room, the last of which had room to spare, make together what one
/// flush may make of all their input, and leave the same state. A small slice delays frames;
/// it loses none and repeats none.
pub proof fn law_stream_is_its_whole_input<A: Arithmetic>(
    stream: Stream<A::Sample>,
    calls: Seq<Call<A::Sample>>,
    ended: bool,
    flush: Call<A::Sample>,
    interpolator: Interpolator<A::Sample>,
    behind: int,
    lookahead: int,
    shown: Seq<A::Sample>,
)
    requires
        moves_forward::<A>(),
        reads_within(interpolator, behind, lookahead),
        0 <= behind,
        0 <= lookahead,
        stream.valid(),
        stream.channels > 0,
        stream.has_room(all_input(calls).len() as int, stream.channels as int),
        are_calls::<A>(stream, calls, ended, interpolator, behind, lookahead),
        emitted::<A>(
            after_calls(stream, calls, behind),
            flush.positions,
            lookahead,
            true,
            interpolator(after_calls(stream, calls, behind).history),
            flush.shown,
            flush.output,
        ),
        flush.has_room(stream.channels as int),
        all_positions(calls, flush).len() - 1 < shown.len() as int / (stream.channels as int),
    ensures
        ({
            let c = stream.channels as int;
            let fed = stream.fed(all_input(calls));
            let positions = all_positions(calls, flush);
            &&& emitted::<A>(
                fed,
                positions,
                lookahead,
                true,
                interpolator(fed.history),
                shown,
                all_output(calls, flush, c) + shown.skip((positions.len() - 1) * c),
            )
            &&& all_output(calls, flush, c).len() == (positions.len() - 1) * c
            &&& positions.last() == flush.positions.last()
            &&& fed.read_to(positions.last(), behind) == after_calls(
                stream,
                calls,
                behind,
            ).read_to(flush.positions.last(), behind)
        }),
    decreases calls.len(),
{
    let c = stream.channels as int;
    if calls.len() == 0 {
        lemma_fundamental_div_mod_converse(0, c, 0, 0);
        assert(Seq::<A::Sample>::empty().take(0 * c) =~= Seq::empty());
        assert(stream.history.pushed(Seq::empty()) =~= stream.history);
        assert(stream.fed(Seq::empty()) =~= stream);
        lemma_other_buffer::<A>(
            stream,
            flush,
            lookahead,
            true,
            interpolator(stream.history),
            shown,
        );
        lemma_frames_fit(flush.shown.len() as int, c, flush.frames());
    } else {
        let call = calls.first();
        let rest = calls.drop_first();
        let fed = stream.fed(call.input);
        let next = fed.read_to(call.positions.last(), behind);
        let more = all_input(rest);
        let later = all_positions(rest, flush);
        if call.pad {
            lemma_no_input_behind_the_end::<A>(next, rest, interpolator, behind, lookahead);
        }
        law_feeding_joins(stream, call.input, more);
        lemma_frames_fit(more.len() as int, c, more.len() as int / c);
        lemma_fed(stream, call.input);
        lemma_read_valid(fed, call.positions.last(), behind);
        assert(all_positions(calls, flush).len() == call.frames() + later.len());
        law_stream_is_its_whole_input::<A>(
            next,
            rest,
            call.pad,
            flush,
            interpolator,
            behind,
            lookahead,
            shown,
        );
        let later_output = all_output(rest, flush, c) + shown.skip((later.len() - 1) * c);
        lemma_frames_fit(shown.len() as int, c, later.len() - 1);
        law_blocks_join::<A>(
            stream,
            call.input,
            more,
            interpolator,
            behind,
            lookahead,
            call.pad,
            true,
            call.positions,
            later,
            call.shown,
            call.output,
            shown,
            later_output,
            shown,
        );
        assert(later_output.take((later.len() - 1) * c) =~= all_output(rest, flush, c));
        lemma_frames_fit(call.shown.len() as int, c, call.frames());
        assert(call.frames() * c + (later.len() - 1) * c == (call.frames() + later.len() - 1) * c)
            by (nonlinear_arith);
        assert(all_positions(calls, flush).last() == later.last());
    }
}

/// An interpolation that allows one frame of `channels` samples at each position.
pub open spec fn one_frame<S>(interpolation: Interpolation<S>, channels: int) -> bool {
    forall|position: Double, x: Seq<S>, y: Seq<S>|
        x.len() == channels && y.len() == channels && #[trigger] interpolation(position, x)
            && #[trigger] interpolation(position, y) ==> x == y
}

/// Positions of one start and one ratio are the same as far as they go.
proof fn lemma_positions_agree<A: Arithmetic>(
    a: Seq<Double>,
    b: Seq<Double>,
    ratio: Double,
    k: int,
)
    requires
        one_result::<A>(),
        spaced::<A>(a, ratio),
        spaced::<A>(b, ratio),
        0 <= k < a.len(),
        k < b.len(),
        a[0] == b[0],
    ensures
        a[k] == b[k],
    decreases k,
{
    if k > 0 {
        lemma_positions_agree::<A>(a, b, ratio, k - 1);
        assert(advanced::<A>(a[k - 1], ratio, a[k - 1 + 1]));
        assert(advanced::<A>(b[k - 1], ratio, b[k - 1 + 1]));
        lemma_advance_is_one::<A>(a[k - 1], ratio, a[k], b[k]);
    }
}

/// One run does not stop before another that may read as far and has as much room.
proof fn lemma_run_goes_as_far<A: Arithmetic>(
    a: Stream<A::Sample>,
    b: Stream<A::Sample>,
    positions1: Seq<Double>,
    positions2: Seq<Double>,
    lookahead1: int,
    lookahead2: int,
    pad: bool,
    interpolation1: Interpolation<A::Sample>,
    interpolation2: Interpolation<A::Sample>,
    shown1: Seq<A::Sample>,
    output1: Seq<A::Sample>,
    shown2: Seq<A::Sample>,
    output2: Seq<A::Sample>,
)
    requires
        one_result::<A>(),
        a.ratio == b.ratio,
        a.read_pos == b.read_pos,
        a.history.end() == b.history.end(),
        pad || lookahead1 == lookahead2,
        emitted::<A>(a, positions1, lookahead1, pad, interpolation1, shown1, output1),
        emitted::<A>(b, positions2, lookahead2, pad, interpolation2, shown2, output2),
        shown1.len() as int / (a.channels as int) >= shown2.len() as int / (b.channels as int)
            || positions1.len() - 1 < shown1.len() as int / (a.channels as int),
    ensures
        positions1.len() >= positions2.len(),
{
    if positions1.len() < positions2.len() {
        let n = positions1.len() - 1;
        lemma_positions_agree::<A>(positions1, positions2, a.ratio, n);
        assert(readable(b.history, positions2[n], lookahead2, pad));
    }
}

/// The number of frames is fixed by ratio, position and length of the input: two streams that
/// share these make frames at the same positions, as many of them, where they look ahead as
/// far (or need not, at the end of the input) and have as much room (or room to spare). So
/// resamplers of any kind write as many frames for the same number of input frames, flushed.
pub proof fn law_lengths_agree<A: Arithmetic>(
    a: Stream<A::Sample>,
    b: Stream<A::Sample>,
    positions1: Seq<Double>,
    positions2: Seq<Double>,
    lookahead1: int,
    lookahead2: int,
    pad: bool,
    interpolation1: Interpolation<A::Sample>,
    interpolation2: Interpolation<A::Sample>,
    shown1: Seq<A::Sample>,
    output1: Seq<A::Sample>,
    shown2: Seq<A::Sample>,
    output2: Seq<A::Sample>,
)
    requires
        one_result::<A>(),
        a.ratio == b.ratio,
        a.read_pos == b.read_pos,
        a.history.end() == b.history.end(),
        pad || lookahead1 == lookahead2,
        emitted::<A>(a, positions1, lookahead1, pad, interpolation1, shown1, output1),
        emitted::<A>(b, positions2, lookahead2, pad, interpolation2, shown2, output2),
        shown1.len() as int / (a.channels as int) == shown2.len() as int / (b.channels as int) || (
        positions1.len() - 1 < shown1.len() as int / (a.channels as int) && positions2.len() - 1
            < shown2.len() as int / (b.channels as int)),
    ensures
        positions1 == positions2,
{
    lemma_run_goes_as_far::<A>(
        a,
        b,
        positions1,
        positions2,
        lookahead1,
        lookahead2,
        pad,
        interpolation1,
        interpolation2,
        shown1,
        output1,
        shown2,
        output2,
    );
    lemma_run_goes_as_far::<A>(
        b,
        a,
        positions2,
        positions1,
        lookahead2,
        lookahead1,
        pad,
        interpolation2,
        interpolation1,
        shown2,
        output2,
        shown1,
        output1,
    );
    assert forall|k: int| 0 <= k < positions1.len() implies positions1[k] == positions2[k] by {
        lemma_positions_agree::<A>(positions1, positions2, a.ratio, k);
    }
    assert(positions1 =~= positions2);
}

/// A run has one outcome: two runs of one stream make the same frames, where they have as much
/// room (or room to spare).
pub proof fn law_runs_agree<A: Arithmetic>(
    stream: Stream<A::Sample>,
    positions1: Seq<Double>,
    positions2: Seq<Double>,
    lookahead: int,
    pad: bool,
    interpolation: Interpolation<A::Sample>,
    shown1: Seq<A::Sample>,
    output1: Seq<A::Sample>,
    shown2: Seq<A::Sample>,
    output2: Seq<A::Sample>,
)
    requires
        one_result::<A>(),
        stream.channels > 0,
        one_frame(interpolation, stream.channels as int),
        emitted::<A>(stream, positions1, lookahead, pad, interpolation, shown1, output1),
        emitted::<A>(stream, positions2, lookahead, pad, interpolation, shown2, output2),
        shown1.len() as int / (stream.channels as int) == shown2.len() as int / (
        stream.channels as int) || (positions1.len() - 1 < shown1.len() as int / (
        stream.channels as int) && positions2.len() - 1 < shown2.len() as int / (
        stream.channels as int)),
    ensures
        positions1 == positions2,
        output1.take((positions1.len() - 1) * stream.channels) == output2.take(
            (positions1.len() - 1) * stream.channels,
        ),
        shown1 == shown2 ==> output1 == output2,
{
    let c = stream.channels as int;
    law_lengths_agree::<A>(
        stream,
        stream,
        positions1,
        positions2,
        lookahead,
        lookahead,
        pad,
        interpolation,
        interpolation,
        shown1,
        output1,
        shown2,
        output2,
    );
    let n = positions1.len() - 1;
    lemma_frames_fit(shown1.len() as int, c, n);
    lemma_frames_fit(shown2.len() as int, c, n);
    let made1 = output1.take(n * c);
    let made2 = output2.take(n * c);
    assert forall|i: int| 0 <= i < n * c implies made1[i] == made2[i] by {
        let k = i / c;
        let ch = i % c;
        lemma_fundamental_div_mod(i, c);
        assert(0 <= k < n && k * c + ch == i && 0 <= k * c && (k + 1) * c == k * c + c && (k + 1)
            * c <= n * c) by (nonlinear_arith)
            requires
                i == c * k + ch,
                0 <= ch < c,
                0 <= i < n * c,
        ;
        let x = frame_of(output1, c, k);
        let y = frame_of(output2, c, k);
        assert(interpolation(positions1[k], x));
        assert(interpolation(positions2[k], y));
        assert(x.len() == c && y.len() == c);
        assert(x == y);
        assert(x[ch] == output1[i]);
        assert(y[ch] == output2[i]);
    }
    assert(made1 =~= made2);
    if shown1 == shown2 {
        assert(output1 =~= made1 + output1.skip(n * c));
        assert(output2 =~= made2 + output2.skip(n * c));
    }
}

/// A new stream makes its first frame as soon as more frames have come than it looks ahead, and
/// not before.
pub proof fn law_first_frame_waits_for_the_lookahead<A: Arithmetic>(
    ratio: Double,
    channels: usize,
    silence: A::Sample,
    input: Seq<A::Sample>,
    positions: Seq<Double>,
    lookahead: int,
    interpolation: Interpolation<A::Sample>,
    shown: Seq<A::Sample>,
    output: Seq<A::Sample>,
)
    requires
        channels > 0,
        lookahead >= 0,
        shown.len() >= channels,
        emitted::<A>(
            Stream::fresh(ratio, channels, silence).fed(input),
            positions,
            lookahead,
            false,
            interpolation,
            shown,
            output,
        ),
    ensures
        positions.len() - 1 == 0 <==> input.len() as int / (channels as int) <= lookahead,
{
    let c = channels as int;
    let fresh = Stream::fresh(ratio, channels, silence);
    law_streams_start_at_frame_zero(ratio, channels, silence);
    let frames = input.len() as int / c;
    lemma_frames_fit(input.len() as int, c, frames);
    lemma_frames_added(0, c, frames);
    lemma_fundamental_div_mod_converse(0, c, 0, 0);
    assert(fresh.fed(input).history.samples =~= input.take(frames * c));
    assert(fresh.fed(input).history.end() == frames);
    lemma_fundamental_div_mod(shown.len() as int, c);
    assert(shown.len() as int / c > 0) by (nonlinear_arith)
        requires
            shown.len() == c * (shown.len() as int / c) + shown.len() as int % c,
            shown.len() as int % c < c,
            shown.len() >= c,
            c > 0,
    ;
}

/// A call with room to spare leaves no more frames buffered than a frame reads besides its own.
pub proof fn law_little_stays_buffered<A: Arithmetic>(
    stream: Stream<A::Sample>,
    positions: Seq<Double>,
    behind: int,
    lookahead: int,
    interpolation: Interpolation<A::Sample>,
    shown: Seq<A::Sample>,
    output: Seq<A::Sample>,
)
    requires
        stream.valid(),
        0 <= behind,
        0 <= lookahead,
        emitted::<A>(stream, positions, lookahead, false, interpolation, shown, output),
        positions.len() - 1 < shown.len() as int / (stream.channels as int),
    ensures
        stream.read_to(positions.last(), behind).history.frames() <= behind + lookahead,
{
    let keep = positions.last().frame() - behind;
    let drop = stream.history.trim_point(keep) - stream.history.start;
    lemma_frames_dropped(stream.history.samples.len() as int, stream.history.channels, drop);
}

/// On the way from `start`, any `stride` steps from a frame before `end` lead into a later frame.
pub open spec fn strides<A: Arithmetic>(
    start: Double,
    ratio: Double,
    stride: int,
    end: int,
) -> bool {
    forall|positions: Seq<Double>, k: int|
        #[trigger] spaced::<A>(positions, ratio) && 0 <= k && k + stride < positions.len()
            && positions[0] == start && (#[trigger] positions[k]).frame() < end
            ==> positions[k].frame() < positions[k + stride].frame()
}

/// After every `stride` steps the position is a frame further on.
proof fn lemma_strides<A: Arithmetic>(
    positions: Seq<Double>,
    ratio: Double,
    stride: int,
    end: int,
    n: int,
)
    requires
        stride > 0,
        strides::<A>(positions[0], ratio, stride, end),
        spaced::<A>(positions, ratio),
        forall|k: int|
            0 <= k < positions.len() - 1 ==> (#[trigger] positions[k]).frame() < end,
        0 <= n,
        n * stride < positions.len(),
    ensures
        positions[n * stride].frame() >= positions[0].frame() + n,
    decreases n,
{
    if n > 0 {
        assert((n - 1) * stride + stride == n * stride && (n - 1) * stride >= 0)
            by (nonlinear_arith)
            requires
                n > 0,
                stride > 0,
        ;
        lemma_strides::<A>(positions, ratio, stride, end, n - 1);
        let from = (n - 1) * stride;
        assert(positions[from].frame() < end);
        assert(positions[from + stride] == positions[n * stride]);
    } else {
        assert(n * stride == 0) by (nonlinear_arith)
            requires
                n == 0,
        ;
    }
}

/// A flush comes to its end: where any `stride` steps within the input lead into a later frame,
/// no flush makes more than `stride` frames for each input frame that is left, however much
/// room it has.
pub proof fn law_flush_is_finite<A: Arithmetic>(
    stream: Stream<A::Sample>,
    positions: Seq<Double>,
    lookahead: int,
    interpolation: Interpolation<A::Sample>,
    shown: Seq<A::Sample>,
    output: Seq<A::Sample>,
    stride: int,
)
    requires
        stride > 0,
        strides::<A>(stream.read_pos, stream.ratio, stride, stream.history.end()),
        emitted::<A>(stream, positions, lookahead, true, interpolation, shown, output),
    ensures
        stream.read_pos.frame() < stream.history.end() ==> positions.len() - 1 <= (
        stream.history.end() - stream.read_pos.frame()) * stride,
        stream.read_pos.frame() >= stream.history.end() ==> positions.len() - 1 == 0,
{
    let end = stream.history.end();
    let left = end - stream.read_pos.frame();
    assert forall|k: int| 0 <= k < positions.len() - 1 implies (#[trigger] positions[k]).frame()
        < end by {
        assert(readable(stream.history, positions[k], lookahead, true));
    }
    if left > 0 && positions.len() - 1 > left * stride {
        assert(left * stride >= 0) by (nonlinear_arith)
            requires
                left > 0,
                stride > 0,
        ;
        lemma_strides::<A>(positions, stream.ratio, stride, end, left);
        assert(positions[left * stride].frame() < end);
    }
}

/// The positions of a stream and the length that its input is worth agree to within `slack`
/// frames: of the positions from the start on, about the first `owed` lie before frame `frames`.
pub open spec fn worth_agrees<A: Arithmetic>(
    ratio: Double,
    frames: int,
    owed: int,
    slack: int,
) -> bool {
    forall|positions: Seq<Double>, k: int|
        #[trigger] spaced::<A>(positions, ratio) && 0 <= k < positions.len()
            && positions[0].bits == 0 ==> {
            &&& (#[trigger] positions[k]).frame() < frames ==> k < owed + slack
            &&& k < owed - slack ==> positions[k].frame() < frames
        }
}

/// A whole stream, however its input and output are cut, writes as many frames as its input is
/// worth, to within the frames by which its positions and that length disagree; exactly as
/// many, where they agree.
pub proof fn law_stream_is_about_as_long_as_its_input_is_worth<A: Arithmetic>(
    ratio: Double,
    channels: usize,
    silence: A::Sample,
    calls: Seq<Call<A::Sample>>,
    flush: Call<A::Sample>,
    interpolator: Interpolator<A::Sample>,
    behind: int,
    lookahead: int,
    owed: int,
    slack: int,
)
    requires
        moves_forward::<A>(),
        reads_within(interpolator, behind, lookahead),
        0 <= behind,
        0 <= lookahead,
        0 <= owed,
        0 <= slack,
        channels > 0,
        Stream::fresh(ratio, channels, silence).valid(),
        Stream::fresh(ratio, channels, silence).has_room(
            all_input(calls).len() as int,
            channels as int,
        ),
        is_course::<A>(
            Stream::fresh(ratio, channels, silence),
            calls,
            flush,
            interpolator,
            behind,
            lookahead,
        ),
        worth_agrees::<A>(
            ratio,
            all_input(calls).len() as int / (channels as int),
            owed,
            slack,
        ),
    ensures
        all_output(calls, flush, channels as int).len() == (all_positions(calls, flush).len() - 1)
            * channels,
        owed - slack <= all_positions(calls, flush).len() - 1 <= owed + slack,
{
    let c = channels as int;
    let stream = Stream::fresh(ratio, channels, silence);
    let positions = all_positions(calls, flush);
    let room = positions.len() as int;
    let shown: Seq<A::Sample> = Seq::new((room * c) as nat, |i: int| silence);
    lemma_fundamental_div_mod_converse(room * c, c, room, 0);
    assert(room * c >= 0) by (nonlinear_arith)
        requires
            room >= 0,
            c > 0,
    ;
    law_streams_start_at_frame_zero(ratio, channels, silence);
    law_stream_is_its_whole_input::<A>(
        stream,
        calls,
        false,
        flush,
        interpolator,
        behind,
        lookahead,
        shown,
    );
    let fed = stream.fed(all_input(calls));
    lemma_fed(stream, all_input(calls));
    let n = positions.len() - 1;
    assert(spaced::<A>(positions, ratio));
    assert(positions[0].bits == 0);
    assert(!readable(fed.history, positions[n], lookahead, true));
    if n > 0 {
        assert(readable(fed.history, positions[n - 1], lookahead, true));
        assert(positions[n - 1].frame() < fed.history.end());
    }
}

/// However input and output are cut, the output is the same, sample for sample, and so is the
/// state that is left: two courses of calls and flushes from one state, with the same input in
/// all and room to spare in their last flush, make the same.
pub proof fn law_output_ignores_cutting<A: Arithmetic>(
    stream: Stream<A::Sample>,
    calls1: Seq<Call<A::Sample>>,
    flush1: Call<A::Sample>,
    calls2: Seq<Call<A::Sample>>,
    flush2: Call<A::Sample>,
    interpolator: Interpolator<A::Sample>,
    behind: int,
    lookahead: int,
)
    requires
        one_result::<A>(),
        moves_forward::<A>(),
        reads_within(interpolator, behind, lookahead),
        one_frame(
            interpolator(stream.fed(all_input(calls1)).history),
            stream.channels as int,
        ),
        0 <= behind,
        0 <= lookahead,
        stream.valid(),
        stream.channels > 0,
        stream.has_room(all_input(calls1).len() as int, stream.channels as int),
        all_input(calls1) == all_input(calls2),
        is_course::<A>(stream, calls1, flush1, interpolator, behind, lookahead),
        is_course::<A>(stream, calls2, flush2, interpolator, behind, lookahead),
    ensures
        all_positions(calls1, flush1) == all_positions(calls2, flush2),
        all_output(calls1, flush1, stream.channels as int) == all_output(
            calls2,
            flush2,
            stream.channels as int,
        ),
        after_calls(stream, calls1, behind).read_to(flush1.positions.last(), behind)
            == after_calls(stream, calls2, behind).read_to(flush2.positions.last(), behind),
{
    let c = stream.channels as int;
    let p1 = all_positions(calls1, flush1);
    let p2 = all_positions(calls2, flush2);
    let room = p1.len() + p2.len();
    let shown: Seq<A::Sample> = Seq::new((room * c) as nat, |i: int| stream.history.silence);
    lemma_fundamental_div_mod_converse(room * c, c, room as int, 0);
    assert(room * c >= 0) by (nonlinear_arith)
        requires
            room >= 0,
            c > 0,
    ;
    law_stream_is_its_whole_input::<A>(
        stream,
        calls1,
        false,
        flush1,
        interpolator,
        behind,
        lookahead,
        shown,
    );
    law_stream_is_its_whole_input::<A>(
        stream,
        calls2,
        false,
        flush2,
        interpolator,
        behind,
        lookahead,
        shown,
    );
    let o1 = all_output(calls1, flush1, c);
    let o2 = all_output(calls2, flush2, c);
    let whole1 = o1 + shown.skip((p1.len() - 1) * c);
    let whole2 = o2 + shown.skip((p2.len() - 1) * c);
    let fed = stream.fed(all_input(calls1));
    law_runs_agree::<A>(
        fed,
        p1,
        p2,
        lookahead,
        true,
        interpolator(fed.history),
        shown,
        whole1,
        shown,
        whole2,
    );
    assert(o1 =~= whole1.take((p1.len() - 1) * c));
    assert(o2 =~= whole2.take((p1.len() - 1) * c));
}

/// A course of calls and flushes, up to one that had room to spare.
pub open spec fn is_course<A: Arithmetic>(
    stream: Stream<A::Sample>,
    calls: Seq<Call<A::Sample>>,
    flush: Call<A::Sample>,
    interpolator: Interpolator<A::Sample>,
    behind: int,
    lookahead: int,
) -> bool {
    let left = after_calls(stream, calls, behind);
    &&& are_calls::<A>(stream, calls, false, interpolator, behind, lookahead)
    &&& emitted::<A>(
        left,
        flush.positions,
        lookahead,
        true,
        interpolator(left.history),
        flush.shown,
        flush.output,
    )
    &&& flush.has_room(stream.channels as int)
}

/// A channel of a new stream is a new stream of one channel.
pub proof fn law_channel_of_fresh<S>(ratio: Double, channels: usize, silence: S, ch: int)
    requires
        0 <= ch < channels,
    ensures
        Stream::fresh(ratio, channels, silence).channel(ch) == Stream::fresh(ratio, 1, silence),
{
    lemma_fundamental_div_mod_converse(0, channels as int, 0, 0);
    assert(channel_of(Seq::<S>::empty(), channels as int, ch) =~= Seq::empty());
}

} // verus!
