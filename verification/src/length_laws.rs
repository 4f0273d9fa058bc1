//! How long the output of a whole stream is: the ratio times the input, as a number.

use vstd::prelude::*;
use vstd::arithmetic::div_mod::lemma_fundamental_div_mod_converse;

use crate::arithmetic::Arithmetic;
use crate::double::Double;
use crate::double::HIDDEN;
use crate::formulas::is_worth;
use crate::formulas::one_result;
use crate::formulas::ratios_compared;
use crate::linear;
use crate::linear::lemma_blending_reads_within;
use crate::linear::linear_interpolator;
use crate::linear::LOOKAHEAD;
use crate::resampler::lemma_multiple;
use crate::rounding::rounds;
use crate::rounding::unit;
use crate::rubato_backend::Engine;
use crate::rubato_backend::Pipeline;
use crate::rubato_course::fed_by;
use crate::rubato_course::handed_by;
use crate::rubato_course::is_stream;
use crate::rubato_course::keeps_word;
use crate::rubato_course::law_stream_is_as_long_as_its_input_is_worth;
use crate::rubato_course::Turn;
use crate::rubato_course::Word;
use crate::sinc;
use crate::sinc::lemma_filtering_reads_within;
use crate::sinc::sinc_interpolator;
use crate::sinc::Filtered;
use crate::stream::all_input;
use crate::stream::all_output;
use crate::stream::all_positions;
use crate::stream::is_course;
use crate::stream::law_stream_is_its_whole_input;
use crate::stream::law_streams_start_at_frame_zero;
use crate::stream::lemma_fed;
use crate::stream::moves_forward;
use crate::stream::readable;
use crate::stream::reads_within;
use crate::stream::spaced;
use crate::stream::Call;
use crate::stream::Interpolator;
use crate::stream::Stream;
use crate::value_laws::is_ordinary;
use crate::value_laws::law_stream_is_as_long_as_ratio_times_input;
use crate::value_laws::law_worth_is_ratio_times_frames;

verus! {

/// A stream from its start to its end, however it is cut.
proof fn lemma_length<A: Arithmetic>(
    stream: Stream<A::Sample>,
    calls: Seq<Call<A::Sample>>,
    flush: Call<A::Sample>,
    interpolator: Interpolator<A::Sample>,
    behind: int,
    lookahead: int,
)
    requires
        rounds::<A>(),
        moves_forward::<A>(),
        reads_within(interpolator, behind, lookahead),
        0 <= behind,
        0 <= lookahead,
        stream.valid(),
        stream.channels > 0,
        stream == Stream::fresh(stream.ratio, stream.channels, stream.history.silence),
        is_ordinary(stream.ratio),
        stream.has_room(all_input(calls).len() as int, stream.channels as int),
        all_input(calls).len() as int / (stream.channels as int) < i64::MAX,
        is_course::<A>(stream, calls, flush, interpolator, behind, lookahead),
        0 < all_positions(calls, flush).len() <= 0x200_0000,
    ensures
        ({
            let c = stream.channels as int;
            let written = all_positions(calls, flush).len() - 1;
            let frames = all_input(calls).len() as int / c;
            &&& all_output(calls, flush, c).len() == written * c
            &&& (written - 2) * unit() < stream.ratio.units() * frames
            &&& stream.ratio.units() * frames <= (written + 1) * unit()
        }),
{
    let c = stream.channels as int;
    let positions = all_positions(calls, flush);
    let room = positions.len() as int;
    let silence = stream.history.silence;
    let shown: Seq<A::Sample> = Seq::new((room * c) as nat, |i: int| silence);
    lemma_fundamental_div_mod_converse(room * c, c, room, 0);
    assert(room * c >= 0) by (nonlinear_arith)
        requires
            room >= 0,
            c > 0,
    ;
    law_streams_start_at_frame_zero(stream.ratio, stream.channels, silence);
    law_stream_is_its_whole_input::<A>(
        stream,
        calls,
        false,
        flush,
        interpolator,
        behind,
        lookahead,
        shown,
    );
    let fed = stream.fed(all_input(calls));
    lemma_fed(stream, all_input(calls));
    let n = positions.len() - 1;
    assert(spaced::<A>(positions, stream.ratio));
    assert(positions[0].bits == 0);
    assert(!readable(fed.history, positions[n], lookahead, true));
    if n > 0 {
        assert(readable(fed.history, positions[n - 1], lookahead, true));
        assert(positions[n - 1].frame() < fed.history.end());
    }
    law_stream_is_as_long_as_ratio_times_input::<A>(
        positions,
        stream.ratio,
        all_input(calls).len() as int / c,
    );
}

/// Linear interpolation makes the ratio times as many frames as it is fed, to within two, however
/// input and output are cut.
pub proof fn law_linear_stream_is_ratio_times_its_input<A: Arithmetic>(
    made: Stream<A::Sample>,
    ratio: Double,
    channels: usize,
    calls: Seq<Call<A::Sample>>,
    flush: Call<A::Sample>,
)
    requires
        rounds::<A>(),
        moves_forward::<A>(),
        channels > 0,
        linear::made_with::<A>(made, ratio, channels),
        is_ordinary(made.ratio),
        made.has_room(all_input(calls).len() as int, channels as int),
        all_input(calls).len() as int / (channels as int) < i64::MAX,
        is_course::<A>(made, calls, flush, linear_interpolator::<A>(), 0, LOOKAHEAD as int),
        0 < all_positions(calls, flush).len() <= 0x200_0000,
    ensures
        ({
            let written = all_output(calls, flush, channels as int).len() as int / (
            channels as int);
            let frames = all_input(calls).len() as int / (channels as int);
            &&& all_output(calls, flush, channels as int).len() == written * channels
            &&& (written - 2) * unit() < made.ratio.units() * frames
            &&& made.ratio.units() * frames <= (written + 1) * unit()
        }),
{
    lemma_blending_reads_within::<A>();
    lemma_length::<A>(made, calls, flush, linear_interpolator::<A>(), 0, LOOKAHEAD as int);
    lemma_multiple(all_positions(calls, flush).len() - 1, channels as int);
}

/// Sinc interpolation makes the ratio times as many frames as it is fed, to within two, however
/// input and output are cut.
pub proof fn law_sinc_stream_is_ratio_times_its_input<A: Arithmetic>(
    made: Filtered<A::Sample>,
    ratio: Double,
    channels: usize,
    calls: Seq<Call<A::Sample>>,
    flush: Call<A::Sample>,
)
    requires
        rounds::<A>(),
        moves_forward::<A>(),
        channels > 0,
        sinc::made_with::<A>(made, ratio, channels),
        is_ordinary(made.stream.ratio),
        made.stream.has_room(all_input(calls).len() as int, channels as int),
        all_input(calls).len() as int / (channels as int) < i64::MAX,
        is_course::<A>(
            made.stream,
            calls,
            flush,
            sinc_interpolator::<A>(made.table, made.half_taps),
            made.half_taps - 1,
            made.half_taps as int,
        ),
        0 < all_positions(calls, flush).len() <= 0x200_0000,
    ensures
        ({
            let written = all_output(calls, flush, channels as int).len() as int / (
            channels as int);
            let frames = all_input(calls).len() as int / (channels as int);
            &&& all_output(calls, flush, channels as int).len() == written * channels
            &&& (written - 2) * unit() < made.stream.ratio.units() * frames
            &&& made.stream.ratio.units() * frames <= (written + 1) * unit()
        }),
{
    lemma_filtering_reads_within::<A>(made.table, made.half_taps);
    lemma_length::<A>(
        made.stream,
        calls,
        flush,
        sinc_interpolator::<A>(made.table, made.half_taps),
        made.half_taps - 1,
        made.half_taps as int,
    );
    lemma_multiple(all_positions(calls, flush).len() - 1, channels as int);
}

/// A chunked resampler makes the ratio times as many frames as it is fed, to within one, and as
/// many as it is fed at a ratio of one, where its engine keeps its word.
pub proof fn law_rubato_stream_is_ratio_times_its_input<A: Arithmetic, E: Engine<A::Sample>>(
    word: Word<A::Sample, E>,
    states: Seq<Pipeline<A::Sample, E>>,
    turns: Seq<Turn<A::Sample>>,
    calls: int,
    frames: u64,
    owed: u64,
)
    requires
        rounds::<A>(),
        one_result::<A>(),
        keeps_word::<A, E>(word),
        word.ratio.is_finite(),
        word.ratio.units() >= 0,
        !ratios_compared::<A>(word.ratio, word.ratio, false),
        is_worth::<A>(word.ratio, 0, 0),
        is_stream::<A, E>(word.ratio, word.channels, word.silence, states, turns, calls),
        fed_by(turns, word.channels as int).len() as int == frames * word.channels,
        frames <= word.limit,
        frames <= 2 * HIDDEN,
        word.ratio.units() * frames <= 2 * HIDDEN * unit(),
        is_worth::<A>(word.ratio, frames, owed),
    ensures
        ({
            let c = word.channels as int;
            let written = handed_by(turns, c).len() as int / c;
            &&& handed_by(turns, c).len() == written * c
            &&& written > 0 ==> (written - 1) * unit() < word.ratio.units() * frames
            &&& word.ratio.units() * frames < (written + 1) * unit()
            &&& word.ratio.units() == unit() ==> written == frames
        }),
{
    law_stream_is_as_long_as_its_input_is_worth::<A, E>(word, states, turns, calls, frames, owed);
    law_worth_is_ratio_times_frames::<A>(word.ratio, frames, owed);
    lemma_multiple(owed as int, word.channels as int);
}

} // verus!
