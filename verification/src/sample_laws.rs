//! What output samples come to, as numbers: where the samples of a signal can be read as values
//! and an operation on them gives the exact value whenever there is a sample for it, linear
//! interpolation is on the line between its neighbours, and sinc interpolation is the sum of
//! kernel times input.

use vstd::prelude::*;
use vstd::arithmetic::div_mod::lemma_fundamental_div_mod;

use crate::arithmetic::Arithmetic;
use crate::double::lemma_one_units;
use crate::double::Double;
use crate::double::MIN_POSITIVE;
use crate::double::ONE;
use crate::formulas::accumulated;
use crate::formulas::is_blend;
use crate::formulas::is_fraction;
use crate::formulas::is_gain;
use crate::internals::Buffered;
use crate::kernel_laws::adds_up;
use crate::linear::blended;
use crate::linear::blending;
use crate::linear::lemma_blending_reads_within;
use crate::linear::linear_interpolator;
use crate::linear::LOOKAHEAD;
use crate::resampler::lemma_frames_fit;
use crate::resampler::lemma_multiple;
use crate::rounding::distance;
use crate::rounding::fine;
use crate::rounding::is_rounding;
use crate::rounding::lemma_rounding_is_exact;
use crate::rounding::lemma_rounding_is_near;
use crate::rounding::reach;
use crate::rounding::rounds;
use crate::rounding::unit;
use crate::sinc::convolution_sums;
use crate::sinc::convolved;
use crate::sinc::convolved_frame;
use crate::sinc::filtered;
use crate::sinc::filtering;
use crate::sinc::kernel_of;
use crate::sinc::kernel_rounded;
use crate::sinc::kernel_scaled;
use crate::sinc::lemma_filtering_reads_within;
use crate::sinc::phase_of;
use crate::sinc::sinc_interpolator;
use crate::sinc::window;
use crate::sinc::Filtered;
use crate::stream::all_input;
use crate::stream::all_output;
use crate::stream::all_positions;
use crate::stream::frame_of;
use crate::stream::is_course;
use crate::stream::law_stream_is_its_whole_input;
use crate::stream::law_streams_start_at_frame_zero;
use crate::stream::lemma_fed;
use crate::stream::moves_forward;
use crate::stream::readable;
use crate::stream::reads_within;
use crate::stream::Call;
use crate::stream::Interpolator;
use crate::stream::Stream;
use crate::value_laws::into_frame;
use crate::value_laws::is_ordinary;
use crate::value_laws::law_fraction_is_what_lies_behind_the_frame;
use crate::value_laws::law_phase_is_the_nearest;
use crate::value_laws::law_positions_keep_time;
use crate::value_laws::lemma_reach;
use crate::value_laws::value_of;

verus! {

/// How samples are read as values.
#[verifier::reject_recursive_types(S)]
pub struct Scale<S> {
    /// The value of a sample, in units of some smallest value.
    pub value: spec_fn(S) -> int,
    /// The samples that have a value.
    pub sound: spec_fn(S) -> bool,
    /// The value of `1.0`.
    pub one: int,
}

impl<S> Scale<S> {
    /// There is a sample of this value.
    pub open spec fn has(self, n: int) -> bool {
        exists|s: S| #[trigger] (self.sound)(s) && (self.value)(s) == n
    }

    /// The sample has this value.
    pub open spec fn reads(self, s: S, n: int) -> bool {
        (self.sound)(s) && (self.value)(s) == n
    }
}

/// Operations on samples give the exact value, wherever there is a sample for it.
#[verifier::opaque]
pub open spec fn measures<A: Arithmetic>(scale: Scale<A::Sample>) -> bool {
    &&& scale.one > 0
    &&& forall|s: A::Sample| #[trigger] call_ensures(A::silence, (), s) ==> scale.reads(s, 0)
    &&& forall|a: A::Sample, b: A::Sample, r: A::Sample|
        (scale.sound)(a) && (scale.sound)(b) && scale.has((scale.value)(a) + (scale.value)(b))
            && #[trigger] call_ensures(A::sample_sum, (a, b), r) ==> scale.reads(
            r,
            (scale.value)(a) + (scale.value)(b),
        )
    &&& forall|a: A::Sample, b: A::Sample, r: A::Sample|
        (scale.sound)(a) && (scale.sound)(b) && scale.has((scale.value)(a) - (scale.value)(b))
            && #[trigger] call_ensures(A::sample_difference, (a, b), r) ==> scale.reads(
            r,
            (scale.value)(a) - (scale.value)(b),
        )
    &&& forall|a: A::Sample, b: A::Sample, r: A::Sample, n: int|
        (scale.sound)(a) && (scale.sound)(b) && (scale.value)(a) * (scale.value)(b) == n
            * scale.one && #[trigger] scale.has(n) && #[trigger] call_ensures(
            A::sample_product,
            (a, b),
            r,
        ) ==> scale.reads(r, n)
    &&& forall|x: Double, r: A::Sample, n: int|
        x.is_finite() && x.units() * scale.one == n * unit() && #[trigger] scale.has(n)
            && #[trigger] call_ensures(A::narrow, (x,), r) ==> scale.reads(r, n)
}

/// A blend is on the straight line from one sample to the next, at the very place where the
/// position lies between them, and so it lies between the two.
pub proof fn law_blend_is_on_the_line<A: Arithmetic>(
    scale: Scale<A::Sample>,
    a: A::Sample,
    b: A::Sample,
    position: Double,
    result: A::Sample,
    weight: int,
    part: int,
)
    requires
        rounds::<A>(),
        measures::<A>(scale),
        position.is_finite(),
        position.units() >= 0,
        position.frame() < i64::MAX,
        (scale.sound)(a),
        (scale.sound)(b),
        into_frame(position) * scale.one == weight * unit(),
        scale.has(weight),
        scale.has((scale.value)(b) - (scale.value)(a)),
        ((scale.value)(b) - (scale.value)(a)) * weight == part * scale.one,
        scale.has(part),
        scale.has((scale.value)(a) + part),
        is_blend::<A>(a, b, position, position.frame() as i64, result),
    ensures
        (scale.sound)(result),
        ((scale.value)(result) - (scale.value)(a)) * unit() == ((scale.value)(b) - (scale.value)(
            a,
        )) * into_frame(position),
        (scale.value)(a) <= (scale.value)(b) ==> (scale.value)(a) <= (scale.value)(result)
            <= (scale.value)(b),
        (scale.value)(b) <= (scale.value)(a) ==> (scale.value)(b) <= (scale.value)(result)
            <= (scale.value)(a),
{
    lemma_reach();
    let one = unit();
    let (fraction, w, rise, p) = {
        reveal(is_blend);
        choose|fraction: Double, w: A::Sample, rise: A::Sample, p: A::Sample|
            {
                &&& is_fraction::<A>(position, position.frame() as i64, fraction)
                &&& #[trigger] call_ensures(A::narrow, (fraction,), w)
                &&& call_ensures(A::sample_difference, (b, a), rise)
                &&& #[trigger] call_ensures(A::sample_product, (rise, w), p)
                &&& call_ensures(A::sample_sum, (a, p), result)
            }
    };
    reveal(is_blend);
    reveal(measures);
    law_fraction_is_what_lies_behind_the_frame::<A>(position, fraction);
    let rest = into_frame(position);
    assert(fraction.units() == rest);
    assert(scale.reads(w, weight));
    let (va, vb) = ((scale.value)(a), (scale.value)(b));
    let up = vb - va;
    assert(scale.reads(rise, up));
    assert(scale.reads(p, part));
    assert(scale.reads(result, va + part));
    let s = scale.one;
    assert(part * one == up * rest) by (nonlinear_arith)
        requires
            rest * s == weight * one,
            up * weight == part * s,
            s > 0,
    ;
    assert(up >= 0 ==> 0 <= part <= up) by (nonlinear_arith)
        requires
            part * one == up * rest,
            0 <= rest < one,
    ;
    assert(up <= 0 ==> up <= part <= 0) by (nonlinear_arith)
        requires
            part * one == up * rest,
            0 <= rest < one,
    ;
}

/// Channel `ch` of frame `i` of interleaved input, and silence outside it.
pub open spec fn sample_at<S>(input: Seq<S>, channels: int, i: int, ch: int, silence: S) -> S {
    if 0 <= i < input.len() as int / channels {
        input[i * channels + ch]
    } else {
        silence
    }
}

/// The history of a stream from its start is its input.
proof fn lemma_history_is_input<S>(
    ratio: Double,
    channels: usize,
    silence: S,
    input: Seq<S>,
    i: int,
    ch: int,
)
    requires
        channels > 0,
        0 <= ch < channels,
    ensures
        Stream::fresh(ratio, channels, silence).fed(input).history.at(i, ch) == sample_at(
            input,
            channels as int,
            i,
            ch,
            silence,
        ),
{
    let c = channels as int;
    let fresh = Stream::fresh(ratio, channels, silence);
    let frames = input.len() as int / c;
    lemma_frames_fit(input.len() as int, c, frames);
    lemma_fundamental_div_mod(input.len() as int, c);
    assert(frames >= 0) by (nonlinear_arith)
        requires
            input.len() == c * frames + input.len() as int % c,
            input.len() as int % c < c,
            input.len() >= 0,
            c > 0,
    ;
    let fed = fresh.fed(input);
    assert(fed.history.samples =~= input.take(frames * c));
    lemma_multiple(frames, c);
    if 0 <= i < frames {
        assert(0 <= i * c + ch < frames * c) by (nonlinear_arith)
            requires
                0 <= i < frames,
                0 <= ch < c,
        ;
    }
}

/// A sample of interleaved frames is in its frame.
proof fn lemma_in_frame<S>(samples: Seq<S>, c: int, k: int, ch: int)
    requires
        c > 0,
        0 <= k,
        (k + 1) * c <= samples.len(),
        0 <= ch < c,
    ensures
        0 <= k * c + ch < samples.len(),
        frame_of(samples, c, k).len() == c,
        frame_of(samples, c, k)[ch] == samples[k * c + ch],
{
    assert((k + 1) * c == k * c + c && 0 <= k * c) by (nonlinear_arith)
        requires
            0 <= k,
            c > 0,
    ;
}

/// A sample of a whole stream, however cut, is one of a frame at its position.
proof fn lemma_course_sample<A: Arithmetic>(
    ratio: Double,
    channels: usize,
    silence: A::Sample,
    calls: Seq<Call<A::Sample>>,
    flush: Call<A::Sample>,
    interpolator: Interpolator<A::Sample>,
    behind: int,
    lookahead: int,
    k: int,
    ch: int,
) -> (frame: Seq<A::Sample>)
    requires
        rounds::<A>(),
        moves_forward::<A>(),
        reads_within(interpolator, behind, lookahead),
        0 <= behind,
        0 <= lookahead,
        channels > 0,
        is_ordinary(ratio),
        Stream::fresh(ratio, channels, silence).valid(),
        Stream::fresh(ratio, channels, silence).has_room(
            all_input(calls).len() as int,
            channels as int,
        ),
        is_course::<A>(
            Stream::fresh(ratio, channels, silence),
            calls,
            flush,
            interpolator,
            behind,
            lookahead,
        ),
        0 <= k < all_positions(calls, flush).len() - 1,
        k <= 0x200_0000,
        0 <= ch < channels,
    ensures
        ({
            let position = all_positions(calls, flush)[k];
            let fed = Stream::fresh(ratio, channels, silence).fed(all_input(calls));
            &&& position.is_finite()
            &&& 0 <= position.units()
            &&& position.frame() < i64::MAX
            &&& 0 <= into_frame(position) < unit()
            &&& interpolator(fed.history)(position, frame)
            &&& frame.len() == channels
            &&& 0 <= k * channels + ch < all_output(calls, flush, channels as int).len()
            &&& frame[ch] == all_output(calls, flush, channels as int)[k * channels + ch]
        }),
{
    let c = channels as int;
    let stream = Stream::fresh(ratio, channels, silence);
    let positions = all_positions(calls, flush);
    let position = positions[k];
    let input = all_input(calls);
    let n = positions.len() - 1;
    let room = positions.len() as int;
    let shown: Seq<A::Sample> = Seq::new((room * c) as nat, |i: int| silence);
    lemma_multiple(room, c);
    assert(room * c >= 0) by (nonlinear_arith)
        requires
            room >= 0,
            c > 0,
    ;
    law_stream_is_its_whole_input::<A>(
        stream,
        calls,
        false,
        flush,
        interpolator,
        behind,
        lookahead,
        shown,
    );
    let fed = stream.fed(input);
    law_streams_start_at_frame_zero(ratio, channels, silence);
    lemma_fed(stream, input);
    let made = all_output(calls, flush, c);
    let output = made + shown.skip(n * c);
    lemma_frames_fit(shown.len() as int, c, n);
    law_positions_keep_time::<A>(positions, ratio, k);
    assert(readable(fed.history, position, lookahead, true));
    let frame = frame_of(output, c, k);
    assert(interpolator(fed.history)(position, frame));
    assert((k + 1) * c <= n * c) by (nonlinear_arith)
        requires
            k + 1 <= n,
            c > 0,
    ;
    lemma_in_frame(output, c, k, ch);
    assert(0 <= k * c + ch < n * c) by (nonlinear_arith)
        requires
            (k + 1) * c <= n * c,
            0 <= ch < c,
            0 <= k,
    ;
    lemma_into_frame(position);
    frame
}

/// Linear interpolation, from input to output: however a stream is cut, sample `ch` of output
/// frame `k` is on the line between the samples of that channel in the two input frames around
/// the position of the frame, where the values on the way are samples.
pub proof fn law_linear_output_is_on_the_line<A: Arithmetic>(
    scale: Scale<A::Sample>,
    made: Stream<A::Sample>,
    ratio: Double,
    channels: usize,
    calls: Seq<Call<A::Sample>>,
    flush: Call<A::Sample>,
    k: int,
    ch: int,
    weight: int,
    part: int,
)
    requires
        rounds::<A>(),
        measures::<A>(scale),
        moves_forward::<A>(),
        channels > 0,
        crate::linear::made_with::<A>(made, ratio, channels),
        is_ordinary(made.ratio),
        made.has_room(all_input(calls).len() as int, channels as int),
        is_course::<A>(made, calls, flush, linear_interpolator::<A>(), 0, LOOKAHEAD as int),
        0 <= k < all_positions(calls, flush).len() - 1,
        k <= 0x200_0000,
        0 <= ch < channels,
        ({
            let position = all_positions(calls, flush)[k];
            let input = all_input(calls);
            let silence = made.history.silence;
            let a = sample_at(input, channels as int, position.frame(), ch, silence);
            let b = sample_at(input, channels as int, position.frame() + 1, ch, silence);
            &&& (scale.sound)(a)
            &&& (scale.sound)(b)
            &&& into_frame(position) * scale.one == weight * unit()
            &&& scale.has(weight)
            &&& scale.has((scale.value)(b) - (scale.value)(a))
            &&& ((scale.value)(b) - (scale.value)(a)) * weight == part * scale.one
            &&& scale.has(part)
            &&& scale.has((scale.value)(a) + part)
        }),
    ensures
        ({
            let position = all_positions(calls, flush)[k];
            let input = all_input(calls);
            let silence = made.history.silence;
            let a = sample_at(input, channels as int, position.frame(), ch, silence);
            let b = sample_at(input, channels as int, position.frame() + 1, ch, silence);
            let result = all_output(calls, flush, channels as int)[k * channels + ch];
            let (va, vb, v) = ((scale.value)(a), (scale.value)(b), (scale.value)(result));
            &&& position.is_finite()
            &&& 0 <= position.units()
            &&& 0 <= into_frame(position) < unit()
            &&& (v - va) * unit() == (vb - va) * into_frame(position)
            &&& va <= vb ==> va <= v <= vb
            &&& vb <= va ==> vb <= v <= va
        }),
{
    let position = all_positions(calls, flush)[k];
    let input = all_input(calls);
    let silence = made.history.silence;
    lemma_blending_reads_within::<A>();
    let frame = lemma_course_sample::<A>(
        made.ratio,
        channels,
        silence,
        calls,
        flush,
        linear_interpolator::<A>(),
        0,
        LOOKAHEAD as int,
        k,
        ch,
    );
    let fed = made.fed(input);
    assert((blending::<A>(fed.history))(position, frame));
    assert(blended::<A>(fed.history, position, frame));
    lemma_history_is_input(made.ratio, channels, silence, input, position.frame(), ch);
    lemma_history_is_input(made.ratio, channels, silence, input, position.frame() + 1, ch);
    law_blend_is_on_the_line::<A>(
        scale,
        fed.history.at(position.frame(), ch),
        fed.history.at(position.frame() + 1, ch),
        position,
        frame[ch],
        weight,
        part,
    );
}

/// How far into its frame a position lies.
proof fn lemma_into_frame(position: Double)
    requires
        position.is_finite(),
        position.units() >= 0,
        position.frame() < i64::MAX,
    ensures
        0 <= into_frame(position) < unit(),
{
    lemma_reach();
    let one = unit();
    let u = position.units();
    let q = u / one;
    lemma_fundamental_div_mod(u, one);
    assert(q * one <= u < (q + 1) * one && q >= 0) by (nonlinear_arith)
        requires
            u == one * q + u % one,
            0 <= u % one < one,
            u >= 0,
            one > 0,
    ;
    assert((q + 1) * one == q * one + one) by (nonlinear_arith);
}

/// The sum of the first `n` values.
pub open spec fn sum_of(values: Seq<int>, n: int) -> int
    decreases n,
{
    if n <= 0 {
        0
    } else {
        sum_of(values, n - 1) + values[n - 1]
    }
}

/// The running sums of a convolution are the sums of its products.
proof fn lemma_sums<A: Arithmetic>(
    scale: Scale<A::Sample>,
    sums: Seq<A::Sample>,
    kernel: Seq<A::Sample>,
    input: Seq<A::Sample>,
    silence: A::Sample,
    products: Seq<int>,
    n: int,
)
    requires
        measures::<A>(scale),
        convolution_sums::<A>(sums, kernel, input, silence),
        scale.reads(silence, 0),
        products.len() == kernel.len(),
        input.len() == kernel.len(),
        forall|k: int|
            0 <= k < kernel.len() ==> {
                &&& (scale.sound)(#[trigger] kernel[k])
                &&& (scale.sound)(input[k])
                &&& (scale.value)(kernel[k]) * (scale.value)(input[k]) == products[k] * scale.one
                &&& scale.has(products[k])
                &&& scale.has(sum_of(products, k + 1))
            },
        0 <= n <= kernel.len(),
    ensures
        scale.reads(sums[n], sum_of(products, n)),
    decreases n,
{
    if n > 0 {
        lemma_sums::<A>(scale, sums, kernel, input, silence, products, n - 1);
        let k = n - 1;
        assert((scale.sound)(kernel[k]));
        assert(accumulated::<A>(sums[k], kernel[k], input[k], sums[k + 1]));
        reveal(accumulated);
        reveal(measures);
        let part = choose|part: A::Sample|
            {
                &&& #[trigger] call_ensures(A::sample_product, (kernel[k], input[k]), part)
                &&& call_ensures(A::sample_sum, (sums[k], part), sums[k + 1])
            };
        assert(scale.has(products[k]));
        assert(scale.reads(part, products[k]));
        assert(scale.has(sum_of(products, k + 1)));
    }
}

/// A convolution is the sum of the products of kernel and input, tap by tap.
pub proof fn law_convolution_is_the_sum_of_products<A: Arithmetic>(
    scale: Scale<A::Sample>,
    kernel: Seq<A::Sample>,
    input: Seq<A::Sample>,
    silence: A::Sample,
    products: Seq<int>,
    result: A::Sample,
)
    requires
        measures::<A>(scale),
        convolved::<A>(kernel, input, silence, result),
        scale.reads(silence, 0),
        products.len() == kernel.len(),
        input.len() == kernel.len(),
        forall|k: int|
            0 <= k < kernel.len() ==> {
                &&& (scale.sound)(#[trigger] kernel[k])
                &&& (scale.sound)(input[k])
                &&& (scale.value)(kernel[k]) * (scale.value)(input[k]) == products[k] * scale.one
                &&& scale.has(products[k])
                &&& scale.has(sum_of(products, k + 1))
            },
    ensures
        scale.reads(result, sum_of(products, products.len() as int)),
{
    let sums = choose|sums: Seq<A::Sample>| #[trigger]
        convolution_sums::<A>(sums, kernel, input, silence) && sums.last() == result;
    lemma_sums::<A>(
        scale,
        sums,
        kernel,
        input,
        silence,
        products,
        kernel.len() as int,
    );
}

/// `phase` is the phase nearest to a position, or the last, where the next frame is nearer.
pub open spec fn is_nearest(position: Double, phase: int) -> bool {
    &&& 0 <= phase < 512
    &&& (2 * phase - 1) * unit() <= 1024 * into_frame(position)
    &&& 1024 * into_frame(position) < (2 * phase + 1) * unit() || phase == 511
}

/// There is one nearest phase.
proof fn lemma_nearest_is_one(position: Double, p: int, q: int)
    requires
        is_nearest(position, p),
        is_nearest(position, q),
    ensures
        p == q,
{
    lemma_reach();
    let one = unit();
    let r = 1024 * into_frame(position);
    assert(p == q) by (nonlinear_arith)
        requires
            0 <= p < 512,
            0 <= q < 512,
            (2 * p - 1) * one <= r,
            (2 * q - 1) * one <= r,
            r < (2 * p + 1) * one || p == 511,
            r < (2 * q + 1) * one || q == 511,
            one > 0,
    ;
}

/// `products` are the taps of row `phase` of a table times the input of a channel under them, where
/// the frame of the position is `at`; they and their running sums are samples.
pub open spec fn are_products<S>(
    scale: Scale<S>,
    table: Seq<S>,
    half_taps: int,
    phase: int,
    input: Seq<S>,
    channels: int,
    at: int,
    ch: int,
    silence: S,
    products: Seq<int>,
) -> bool {
    &&& products.len() == 2 * half_taps
    &&& forall|j: int|
        0 <= j < 2 * half_taps ==> {
            let tap = table[phase * (2 * half_taps) + j];
            let sample = sample_at(input, channels, at - half_taps + 1 + j, ch, silence);
            &&& (scale.sound)(tap)
            &&& (scale.sound)(sample)
            &&& (scale.value)(tap) * (scale.value)(sample) == products[j] * scale.one
            &&& scale.has(#[trigger] products[j])
            &&& scale.has(sum_of(products, j + 1))
        }
}

/// A frame is made with the kernel of the nearest phase.
proof fn lemma_nearest_kernel<A: Arithmetic>(
    history: Buffered<A::Sample>,
    table: Seq<A::Sample>,
    half_taps: usize,
    position: Double,
    frame: Seq<A::Sample>,
    phase: int,
    ch: int,
)
    requires
        rounds::<A>(),
        position.is_finite(),
        position.units() >= 0,
        position.frame() < i64::MAX,
        filtered::<A>(history, table, half_taps, position, frame),
        is_nearest(position, phase),
        0 <= ch < history.channels,
    ensures
        convolved::<A>(
            kernel_of(table, half_taps as int, phase),
            window(history, position.frame(), half_taps as int, ch),
            history.silence,
            frame[ch],
        ),
{
    let p = choose|p: usize|
        {
            &&& #[trigger] phase_of::<A>(position, p)
            &&& convolved_frame::<A>(
                history,
                kernel_of(table, half_taps as int, p as int),
                half_taps,
                position.frame(),
                frame,
            )
        };
    law_phase_is_the_nearest::<A>(position, p);
    lemma_nearest_is_one(position, phase, p as int);
}

/// What the kernel covers of a stream from its start is its input.
proof fn lemma_products_match<S>(
    scale: Scale<S>,
    table: Seq<S>,
    half_taps: usize,
    phase: int,
    ratio: Double,
    input: Seq<S>,
    channels: usize,
    at: int,
    ch: int,
    silence: S,
    products: Seq<int>,
    j: int,
)
    requires
        channels > 0,
        0 <= ch < channels,
        0 < half_taps <= 256,
        0 <= phase < 512,
        table.len() == 512 * (2 * half_taps),
        are_products(
            scale,
            table,
            half_taps as int,
            phase,
            input,
            channels as int,
            at,
            ch,
            silence,
            products,
        ),
        0 <= j < 2 * half_taps,
    ensures
        ({
            let kernel = kernel_of(table, half_taps as int, phase);
            let around = window(
                Stream::fresh(ratio, channels, silence).fed(input).history,
                at,
                half_taps as int,
                ch,
            );
            &&& kernel.len() == 2 * half_taps
            &&& around.len() == 2 * half_taps
            &&& (scale.sound)(kernel[j])
            &&& (scale.sound)(around[j])
            &&& (scale.value)(kernel[j]) * (scale.value)(around[j]) == products[j] * scale.one
            &&& scale.has(products[j])
            &&& scale.has(sum_of(products, j + 1))
        }),
{
    let h = half_taps as int;
    let w = 2 * h;
    assert(0 <= phase * w && (phase + 1) * w == phase * w + w && phase * w + w <= 512 * w)
        by (nonlinear_arith)
        requires
            w > 0,
            0 <= phase < 512,
    ;
    lemma_history_is_input(ratio, channels, silence, input, at - h + 1 + j, ch);
    let kernel = kernel_of(table, h, phase);
    assert(kernel[j] == table[phase * (2 * h) + j]);
    assert(scale.has(products[j]));
}

/// Sinc interpolation, from input to output: however a stream is cut, sample `ch` of output frame
/// `k` is the sum, over all taps, of the kernel of the nearest phase times the input of that
/// channel around the position of the frame, where the values on the way are samples. The kernel
/// reaches from `half_taps - 1` frames before the frame of the position to `half_taps` behind.
pub proof fn law_sinc_output_is_kernel_times_input<A: Arithmetic>(
    scale: Scale<A::Sample>,
    made: Filtered<A::Sample>,
    channels: usize,
    calls: Seq<Call<A::Sample>>,
    flush: Call<A::Sample>,
    k: int,
    ch: int,
    phase: int,
    products: Seq<int>,
)
    requires
        rounds::<A>(),
        measures::<A>(scale),
        moves_forward::<A>(),
        channels > 0,
        made.valid(),
        made.stream == Stream::fresh(made.stream.ratio, channels, made.stream.history.silence),
        call_ensures(A::silence, (), made.stream.history.silence),
        is_ordinary(made.stream.ratio),
        made.stream.has_room(all_input(calls).len() as int, channels as int),
        is_course::<A>(
            made.stream,
            calls,
            flush,
            sinc_interpolator::<A>(made.table, made.half_taps),
            made.half_taps - 1,
            made.half_taps as int,
        ),
        0 <= k < all_positions(calls, flush).len() - 1,
        k <= 0x200_0000,
        0 <= ch < channels,
        is_nearest(all_positions(calls, flush)[k], phase),
        are_products(
            scale,
            made.table,
            made.half_taps as int,
            phase,
            all_input(calls),
            channels as int,
            all_positions(calls, flush)[k].frame(),
            ch,
            made.stream.history.silence,
            products,
        ),
    ensures
        scale.reads(
            all_output(calls, flush, channels as int)[k * channels + ch],
            sum_of(products, products.len() as int),
        ),
{
    let position = all_positions(calls, flush)[k];
    let at = position.frame();
    let input = all_input(calls);
    let silence = made.stream.history.silence;
    let h = made.half_taps as int;
    lemma_filtering_reads_within::<A>(made.table, made.half_taps);
    let frame = lemma_course_sample::<A>(
        made.stream.ratio,
        channels,
        silence,
        calls,
        flush,
        sinc_interpolator::<A>(made.table, made.half_taps),
        h - 1,
        h,
        k,
        ch,
    );
    let history = made.stream.fed(input).history;
    assert((filtering::<A>(history, made.table, made.half_taps))(position, frame));
    lemma_nearest_kernel::<A>(
        history,
        made.table,
        made.half_taps,
        position,
        frame,
        phase,
        ch,
    );
    let kernel = kernel_of(made.table, h, phase);
    let around = window(history, at, h, ch);
    assert(scale.reads(silence, 0)) by {
        reveal(measures);
    }
    assert(kernel.len() == 2 * h && products.len() == 2 * h) by {
        lemma_products_match(
            scale,
            made.table,
            made.half_taps,
            phase,
            made.stream.ratio,
            input,
            channels,
            at,
            ch,
            silence,
            products,
            0,
        );
    }
    assert forall|j: int| 0 <= j < kernel.len() implies {
        &&& (scale.sound)(#[trigger] kernel[j])
        &&& (scale.sound)(around[j])
        &&& (scale.value)(kernel[j]) * (scale.value)(around[j]) == products[j] * scale.one
        &&& scale.has(products[j])
        &&& scale.has(sum_of(products, j + 1))
    } by {
        lemma_products_match(
            scale,
            made.table,
            made.half_taps,
            phase,
            made.stream.ratio,
            input,
            channels,
            at,
            ch,
            silence,
            products,
            j,
        );
    }
    law_convolution_is_the_sum_of_products::<A>(
        scale,
        kernel,
        around,
        silence,
        products,
        frame[ch],
    );
}

/// The values of numbers, one by one.
pub open spec fn units_of(numbers: Seq<Double>) -> Seq<int> {
    numbers.map_values(|x: Double| x.units())
}

/// Running sums of numbers are exact, where they are numbers.
proof fn lemma_running_sums<A: Arithmetic>(
    sums: Seq<Double>,
    taps: Seq<Double>,
    marks: Seq<Double>,
    n: int,
)
    requires
        rounds::<A>(),
        adds_up::<A>(sums, taps),
        marks.len() == taps.len() + 1,
        forall|k: int|
            0 <= k < marks.len() ==> {
                &&& (#[trigger] marks[k]).is_finite()
                &&& marks[k].units() == sum_of(units_of(taps), k)
                &&& distance(marks[k].units(), 0) <= reach()
            },
        forall|k: int| 0 <= k < taps.len() ==> (#[trigger] taps[k]).is_finite(),
        0 <= n <= taps.len(),
    ensures
        sums[n].is_finite(),
        sums[n].units() == sum_of(units_of(taps), n),
    decreases n,
{
    if n > 0 {
        lemma_running_sums::<A>(sums, taps, marks, n - 1);
        let k = n - 1;
        assert(taps[k].is_finite());
        assert(call_ensures(A::sum, (sums[k], taps[k]), sums[k + 1]));
        assert(marks[n].is_finite());
        reveal(rounds);
        assert(units_of(taps)[k] == taps[k].units());
        assert(is_rounding(sums[n], sums[k].units() + taps[k].units(), 1));
        lemma_rounding_is_exact(sums[n], marks[n], sums[k].units() + taps[k].units(), 1);
    } else {
        assert(sums[0].units() == 0);
    }
}

/// Scaling every value scales the sum.
proof fn lemma_scaled_sum(a: Seq<int>, b: Seq<int>, p: int, q: int, n: int)
    requires
        a.len() == b.len(),
        0 <= n <= a.len(),
        forall|k: int| 0 <= k < a.len() ==> #[trigger] a[k] * p == b[k] * q,
    ensures
        sum_of(a, n) * p == sum_of(b, n) * q,
    decreases n,
{
    if n > 0 {
        lemma_scaled_sum(a, b, p, q, n - 1);
        assert(a[n - 1] * p == b[n - 1] * q);
        assert((sum_of(a, n - 1) + a[n - 1]) * p == sum_of(a, n - 1) * p + a[n - 1] * p)
            by (nonlinear_arith);
        assert((sum_of(b, n - 1) + b[n - 1]) * q == sum_of(b, n - 1) * q + b[n - 1] * q)
            by (nonlinear_arith);
    } else {
        assert(0 * p == 0 * q) by (nonlinear_arith);
    }
}

/// A kernel preserves level: its samples add up to one, to within the rounding of the gain, where
/// the values on the way are numbers (`marks`, the running sums of the taps) and samples (`gain`,
/// the taps rounded to `plain`, and `scaled`).
pub proof fn law_kernel_preserves_level<A: Arithmetic>(
    scale: Scale<A::Sample>,
    sums: Seq<Double>,
    taps: Seq<Double>,
    marks: Seq<Double>,
    rounded: Seq<A::Sample>,
    row: Seq<A::Sample>,
    gain: int,
    plain: Seq<int>,
    scaled: Seq<int>,
)
    requires
        rounds::<A>(),
        measures::<A>(scale),
        adds_up::<A>(sums, taps),
        kernel_rounded::<A>(taps, rounded),
        kernel_scaled::<A>(rounded, sums.last(), row),
        marks.len() == taps.len() + 1,
        forall|k: int|
            0 <= k < marks.len() ==> {
                &&& (#[trigger] marks[k]).is_finite()
                &&& marks[k].units() == sum_of(units_of(taps), k)
                &&& distance(marks[k].units(), 0) <= reach()
            },
        marks.last().units() > value_of(MIN_POSITIVE),
        unit() * unit() <= reach() * marks.last().units(),
        scale.has(gain),
        forall|inverse: Double| #[trigger]
            call_ensures(A::quotient, (Double { bits: ONE }, sums.last()), inverse)
                ==> inverse.units() * scale.one == gain * unit(),
        plain.len() == taps.len(),
        scaled.len() == taps.len(),
        forall|k: int|
            0 <= k < taps.len() ==> {
                &&& (#[trigger] taps[k]).is_finite()
                &&& taps[k].units() * scale.one == plain[k] * unit()
                &&& scale.has(plain[k])
                &&& scaled[k] * scale.one == plain[k] * gain
                &&& scale.has(scaled[k])
            },
    ensures
        row.len() == taps.len(),
        forall|k: int| 0 <= k < row.len() ==> scale.reads(#[trigger] row[k], scaled[k]),
        distance(
            sum_of(scaled, scaled.len() as int) * (unit() * unit()),
            scale.one * (unit() * unit()),
        ) * fine() <= scale.one * (unit() * unit() + marks.last().units() * fine()),
{
    lemma_reach();
    lemma_one_units();
    let one = unit();
    let n = taps.len() as int;
    let sum = sums.last();
    lemma_running_sums::<A>(sums, taps, marks, n);
    let total = sum.units();
    assert(marks[n].is_finite());
    assert(marks.last() == marks[n]);
    assert(total == marks.last().units());
    assert(sum.is_beyond(Double { bits: MIN_POSITIVE }));
    let g = choose|g: A::Sample|
        {
            &&& #[trigger] is_gain::<A>(sum, g)
            &&& forall|k: int|
                0 <= k < row.len() ==> call_ensures(
                    A::sample_product,
                    (rounded[k], g),
                    #[trigger] row[k],
                )
        };
    let inverse = choose|inverse: Double|
        {
            &&& #[trigger] call_ensures(A::quotient, (Double { bits: ONE }, sum), inverse)
            &&& call_ensures(A::narrow, (inverse,), g)
        };
    assert((Double { bits: ONE }).is_finite() && (Double { bits: ONE }).units() == one);
    assert(one * one >= 0) by (nonlinear_arith);
    assert(total > 0);
    assert(is_rounding(inverse, one * one, total)) by {
        reveal(rounds);
    }
    lemma_rounding_is_near(inverse, one * one, total);
    assert(scale.reads(g, gain)) by {
        reveal(measures);
    }
    assert forall|k: int| 0 <= k < row.len() implies scale.reads(#[trigger] row[k], scaled[k]) by {
        reveal(measures);
        assert(taps[k].is_finite());
        assert(scale.has(plain[k]) && scale.has(scaled[k]));
        assert(scale.reads(rounded[k], plain[k]));
        assert(call_ensures(A::sample_product, (rounded[k], g), row[k]));
    }
    let units = units_of(taps);
    assert forall|k: int| 0 <= k < units.len() implies #[trigger] units[k] * scale.one == plain[k]
        * one by {
        assert(taps[k].is_finite());
    }
    assert forall|k: int| 0 <= k < scaled.len() implies #[trigger] scaled[k] * scale.one == plain[k]
        * gain by {
        assert(taps[k].is_finite());
    }
    lemma_scaled_sum(units, plain, scale.one, one, n);
    lemma_scaled_sum(scaled, plain, scale.one, gain, n);
    let level = sum_of(scaled, n);
    let base = sum_of(plain, n);
    assert(scale.one > 0) by {
        reveal(measures);
    }
    lemma_level(level, base, total, gain, inverse.units(), scale.one, one, fine());
}

/// A kernel whose taps add up to next to nothing is not scaled: its samples are the taps, rounded.
pub proof fn law_vanishing_kernel_is_not_scaled<A: Arithmetic>(
    rounded: Seq<A::Sample>,
    sum: Double,
    row: Seq<A::Sample>,
)
    requires
        kernel_scaled::<A>(rounded, sum, row),
        sum.is_finite(),
        distance(sum.units(), 0) <= value_of(MIN_POSITIVE),
    ensures
        row == rounded,
{
}

proof fn lemma_level(m: int, n: int, s: int, gain: int, inverse: int, a: int, one: int, f: int)
    requires
        a > 0,
        one > 0,
        s > 0,
        f > 0,
        m * a == n * gain,
        s * a == n * one,
        inverse * a == gain * one,
        distance(inverse * s, one * one) * f <= distance(one * one, 0) + s * f,
    ensures
        distance(m * (one * one), a * (one * one)) * f <= a * (one * one + s * f),
{
    let q = one * one;
    assert(q >= 0) by (nonlinear_arith)
        requires
            q == one * one,
    ;
    assert((m * one) * a == (s * gain) * a) by (nonlinear_arith)
        requires
            m * a == n * gain,
            s * a == n * one,
    ;
    assert(m * one == s * gain) by (nonlinear_arith)
        requires
            (m * one) * a == (s * gain) * a,
            a > 0,
    ;
    assert(m * q == (inverse * s) * a) by (nonlinear_arith)
        requires
            m * one == s * gain,
            inverse * a == gain * one,
            q == one * one,
    ;
    let e = distance(inverse * s, q);
    assert(distance((inverse * s) * a, a * q) == e * a) by (nonlinear_arith)
        requires
            a > 0,
            e == inverse * s - q && inverse * s >= q || e == q - inverse * s && q >= inverse * s,
            distance((inverse * s) * a, a * q) == (inverse * s) * a - a * q && (inverse * s) * a >= a
                * q || distance((inverse * s) * a, a * q) == a * q - (inverse * s) * a && a * q >= (
            inverse * s) * a,
    ;
    assert((e * a) * f <= a * (q + s * f)) by (nonlinear_arith)
        requires
            e * f <= q + s * f,
            a > 0,
    ;
}

} // verus!
