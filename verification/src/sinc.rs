//! Windowed-sinc interpolation. Each output frame is a band-limited interpolation of the
//! input around its position, with the kernel of the nearest of a set of sub-sample phases.
//! When downsampling, the cutoff is lowered to the output's Nyquist rate and the kernel grows
//! with it, so that the output does not alias.

use vstd::prelude::*;
use vstd::arithmetic::div_mod::lemma_fundamental_div_mod;
use vstd::arithmetic::div_mod::lemma_fundamental_div_mod_converse;
use vstd::arithmetic::power2::pow2;
use vstd::slice::slice_subrange;

use crate::arithmetic::Arithmetic;
use crate::double::law_upsampling_keeps_the_band;
use crate::double::Double;
use crate::double::MIN_POSITIVE;
use crate::double::ONE;
use crate::formulas::accumulate;
use crate::formulas::accumulated;
use crate::formulas::advance;
use crate::formulas::advanced;
use crate::formulas::cutoffs_compared;
use crate::formulas::cutoffs_differ;
use crate::formulas::is_gain;
use crate::formulas::is_nearest_phase;
use crate::formulas::is_ratio;
use crate::formulas::is_stretched;
use crate::formulas::is_tap;
use crate::formulas::is_worth;
use crate::formulas::kernel_tap;
use crate::formulas::lemma_accumulate_is_one;
use crate::formulas::lemma_gain_is_one;
use crate::formulas::lemma_phase_is_one;
use crate::formulas::lemma_stretch_is_one;
use crate::formulas::lemma_tap_is_one;
use crate::formulas::nearest_phase;
use crate::formulas::one_result;
use crate::formulas::ratio_of_rates;
use crate::formulas::stretched_taps;
use crate::formulas::unit_gain;
use crate::internals::channel_of;
use crate::internals::law_channel_reads_alone;
use crate::internals::lemma_trimmed_whole;
use crate::internals::Buffered;
use crate::internals::InputHistory;
use crate::linear::blending;
use crate::linear::lemma_blending_reads_within;
use crate::linear::linear_interpolator;
use crate::linear::LOOKAHEAD;
use crate::resampler::check_construction;
use crate::resampler::construction_error;
use crate::resampler::lemma_frames_fit;
use crate::resampler::sanitize_ratio;
use crate::resampler::sanitized;
use crate::resampler::ResampleResult;
use crate::resampler::Resampler;
use crate::stream::after_calls;
use crate::stream::agree_on;
use crate::stream::all_input;
use crate::stream::all_output;
use crate::stream::all_positions;
use crate::stream::are_calls;
use crate::stream::emitted;
use crate::stream::frame_of;
use crate::stream::is_course;
use crate::stream::law_blocks_join;
use crate::stream::law_channel_of_read;
use crate::stream::law_channel_stands_alone;
use crate::stream::law_first_frame_waits_for_the_lookahead;
use crate::stream::law_flush_comes_to_an_end;
use crate::stream::law_lengths_agree;
use crate::stream::law_little_stays_buffered;
use crate::stream::law_output_ignores_cutting;
use crate::stream::law_runs_agree;
use crate::stream::law_stream_is_about_as_long_as_its_input_is_worth;
use crate::stream::law_stream_is_its_whole_input;
use crate::stream::law_streams_start_at_frame_zero;
use crate::stream::lemma_fed;
use crate::stream::lemma_frame_written;
use crate::stream::lemma_rest_agrees;
use crate::stream::moves_forward;
use crate::stream::one_frame;
use crate::stream::readable;
use crate::stream::reads_within;
use crate::stream::spaced;
use crate::stream::worth_agrees;
use crate::stream::Call;
use crate::stream::Interpolation;
use crate::stream::Interpolator;
use crate::stream::Stream;

verus! {

/// Taps on either side of the kernel when not downsampling.
pub const HALF_TAPS: usize = 16;

/// The most taps on either side, so that an extreme ratio cannot blow up the kernel.
pub const MAX_HALF_TAPS: usize = 256;

/// Sub-sample phases for which kernels are kept.
pub const SUB_PHASES: usize = 512;

/// The number of taps on either side that `wanted` taps are limited to.
pub open spec fn limited_taps(wanted: u64) -> usize {
    if wanted < HALF_TAPS {
        HALF_TAPS
    } else if wanted > MAX_HALF_TAPS {
        MAX_HALF_TAPS
    } else {
        wanted as usize
    }
}

/// The taps on either side of the kernel for a cutoff: as many more as the cutoff is lower,
/// so that the same number of lobes stays under the window.
pub open spec fn taps_for<A: Arithmetic>(cutoff: Double, half_taps: usize) -> bool {
    exists|wanted: u64|
        is_stretched::<A>(HALF_TAPS, cutoff.raised_to_min_positive(), wanted) && half_taps
            == #[trigger] limited_taps(wanted)
}

/// Limits the number of taps on either side of the kernel.
pub fn limit_taps(wanted: u64) -> (result: usize)
    ensures
        result == limited_taps(wanted),
        HALF_TAPS <= result <= MAX_HALF_TAPS,
{
    if wanted < HALF_TAPS as u64 {
        HALF_TAPS
    } else if wanted > MAX_HALF_TAPS as u64 {
        MAX_HALF_TAPS
    } else {
        wanted as usize
    }
}

/// The number of taps on either side of the kernel for a cutoff.
pub fn half_taps_for<A: Arithmetic>(cutoff: Double) -> (result: usize)
    ensures
        taps_for::<A>(cutoff, result),
        HALF_TAPS <= result <= MAX_HALF_TAPS,
{
    let wanted = stretched_taps::<A>(HALF_TAPS, cutoff.at_least_min_positive());
    let result = limit_taps(wanted);
    proof {
        assert(result == limited_taps(wanted));
    }
    result
}

/// The kernel of one phase, before it is normalized: its taps, and their running sum.
pub open spec fn kernel_taps<A: Arithmetic>(
    taps: Seq<Double>,
    sums: Seq<Double>,
    cutoff: Double,
    half_taps: usize,
    phase: usize,
) -> bool {
    &&& sums.len() == taps.len() + 1
    &&& sums[0].bits == 0
    &&& forall|k: int|
        0 <= k < taps.len() ==> {
            &&& is_tap::<A>(cutoff, half_taps, phase, SUB_PHASES, k as usize, #[trigger] taps[k])
            &&& call_ensures(A::sum, (sums[k], taps[k]), sums[k + 1])
        }
}

/// The taps rounded to samples.
pub open spec fn kernel_rounded<A: Arithmetic>(taps: Seq<Double>, rounded: Seq<A::Sample>) -> bool {
    &&& rounded.len() == taps.len()
    &&& forall|k: int|
        0 <= k < taps.len() ==> call_ensures(A::narrow, (taps[k],), #[trigger] rounded[k])
}

/// The rounded taps scaled to a gain of one, where they have a sum to speak of.
pub open spec fn kernel_scaled<A: Arithmetic>(
    rounded: Seq<A::Sample>,
    sum: Double,
    row: Seq<A::Sample>,
) -> bool {
    if sum.is_beyond(Double { bits: MIN_POSITIVE }) {
        &&& row.len() == rounded.len()
        &&& exists|gain: A::Sample|
            {
                &&& #[trigger] is_gain::<A>(sum, gain)
                &&& forall|k: int|
                    0 <= k < row.len() ==> call_ensures(
                        A::sample_product,
                        (rounded[k], gain),
                        #[trigger] row[k],
                    )
            }
    } else {
        row == rounded
    }
}

/// A kernel of one phase for a cutoff.
pub open spec fn is_kernel<A: Arithmetic>(
    row: Seq<A::Sample>,
    cutoff: Double,
    half_taps: usize,
    phase: usize,
) -> bool {
    exists|taps: Seq<Double>, sums: Seq<Double>, rounded: Seq<A::Sample>|
        {
            &&& taps.len() == 2 * half_taps
            &&& #[trigger] kernel_taps::<A>(taps, sums, cutoff, half_taps, phase)
            &&& #[trigger] kernel_rounded::<A>(taps, rounded)
            &&& kernel_scaled::<A>(rounded, sums.last(), row)
        }
}

/// The kernel of one phase in a table of kernels.
pub open spec fn kernel_of<S>(table: Seq<S>, half_taps: int, phase: int) -> Seq<S> {
    frame_of(table, 2 * half_taps, phase)
}

/// A table of the kernels of all phases for a cutoff.
pub open spec fn is_table<A: Arithmetic>(
    table: Seq<A::Sample>,
    cutoff: Double,
    half_taps: usize,
) -> bool {
    &&& table.len() == SUB_PHASES * (2 * half_taps)
    &&& forall|phase: int|
        0 <= phase < SUB_PHASES ==> is_kernel::<A>(
            #[trigger] kernel_of(table, half_taps as int, phase),
            cutoff,
            half_taps,
            phase as usize,
        )
}

/// Builds the kernel of one phase, normalized so that the resampler preserves level.
fn build_row<A: Arithmetic>(cutoff: Double, half_taps: usize, phase: usize) -> (row: Vec<A::Sample>)
    requires
        half_taps <= MAX_HALF_TAPS,
    ensures
        row@.len() == 2 * half_taps,
        is_kernel::<A>(row@, cutoff, half_taps, phase),
{
    let ghost mut taps: Seq<Double> = Seq::empty();
    let mut sum = Double::zero();
    let ghost mut sums: Seq<Double> = seq![sum];
    let mut row: Vec<A::Sample> = Vec::new();
    let mut k: usize = 0;
    while k < 2 * half_taps
        invariant
            half_taps <= MAX_HALF_TAPS,
            k <= 2 * half_taps,
            taps.len() == k,
            sums.last() == sum,
            kernel_taps::<A>(taps, sums, cutoff, half_taps, phase),
            kernel_rounded::<A>(taps, row@),
        decreases 2 * half_taps - k,
    {
        let tap = kernel_tap::<A>(cutoff, half_taps, phase, SUB_PHASES, k);
        let next = A::sum(sum, tap);
        row.push(A::narrow(tap));
        proof {
            let more = taps.push(tap);
            let longer = sums.push(next);
            assert forall|j: int| 0 <= j < more.len() implies {
                &&& is_tap::<A>(
                    cutoff,
                    half_taps,
                    phase,
                    SUB_PHASES,
                    j as usize,
                    #[trigger] more[j],
                )
                &&& call_ensures(A::sum, (longer[j], more[j]), longer[j + 1])
            } by {
                if j < k {
                    assert(more[j] == taps[j]);
                    assert(longer[j] == sums[j] && longer[j + 1] == sums[j + 1]);
                } else {
                    assert(longer[j] == sum && longer[j + 1] == next);
                }
            }
            assert forall|j: int| 0 <= j < more.len() implies call_ensures(
                A::narrow,
                (more[j],),
                #[trigger] row@[j],
            ) by {
                if j < k {
                    assert(more[j] == taps[j]);
                }
            }
            taps = more;
            sums = longer;
        }
        sum = next;
        k = k + 1;
    }
    let ghost rounded = row@;
    if sum.beyond(Double { bits: MIN_POSITIVE }) {
        let gain = unit_gain::<A>(sum);
        let mut scaled: Vec<A::Sample> = Vec::new();
        let mut j: usize = 0;
        while j < row.len()
            invariant
                j <= row@.len(),
                row@ == rounded,
                scaled@.len() == j,
                forall|i: int|
                    0 <= i < j ==> call_ensures(
                        A::sample_product,
                        (rounded[i], gain),
                        #[trigger] scaled@[i],
                    ),
            decreases row@.len() - j,
        {
            scaled.push(A::sample_product(row[j], gain));
            j = j + 1;
        }
        row = scaled;
    }
    proof {
        assert(kernel_scaled::<A>(rounded, sums.last(), row@));
        assert(is_kernel::<A>(row@, cutoff, half_taps, phase));
    }
    row
}

/// Builds the table of kernels for a cutoff.
fn build_table<A: Arithmetic>(cutoff: Double, half_taps: usize) -> (table: Vec<A::Sample>)
    requires
        0 < half_taps <= MAX_HALF_TAPS,
    ensures
        is_table::<A>(table@, cutoff, half_taps),
{
    let mut table: Vec<A::Sample> = Vec::new();
    let ghost width = 2 * half_taps as int;
    let mut phase: usize = 0;
    while phase < SUB_PHASES
        invariant
            phase <= SUB_PHASES,
            0 < half_taps <= MAX_HALF_TAPS,
            width == 2 * half_taps,
            table@.len() == phase * width,
            forall|p: int|
                0 <= p < phase ==> is_kernel::<A>(
                    #[trigger] kernel_of(table@, half_taps as int, p),
                    cutoff,
                    half_taps,
                    p as usize,
                ),
        decreases SUB_PHASES - phase,
    {
        let mut row = build_row::<A>(cutoff, half_taps, phase);
        let ghost before = table@;
        let ghost added = row@;
        table.append(&mut row);
        proof {
            assert((phase + 1) * width == phase * width + width) by (nonlinear_arith);
            assert forall|p: int| 0 <= p < phase + 1 implies is_kernel::<A>(
                #[trigger] kernel_of(table@, half_taps as int, p),
                cutoff,
                half_taps,
                p as usize,
            ) by {
                if p < phase {
                    assert(0 <= p * width <= (p + 1) * width <= phase * width) by (nonlinear_arith)
                        requires
                            0 <= p < phase,
                            width > 0,
                    ;
                    assert(kernel_of(table@, half_taps as int, p) =~= kernel_of(
                        before,
                        half_taps as int,
                        p,
                    ));
                } else {
                    assert(kernel_of(table@, half_taps as int, p) =~= added);
                }
            }
        }
        phase = phase + 1;
    }
    table
}

/// A stream under conversion, and the kernels that convert it.
#[verifier::ext_equal]
pub struct Filtered<S> {
    pub stream: Stream<S>,
    pub table: Seq<S>,
    /// The cutoff that the table was built for.
    pub table_cutoff: Double,
    /// Taps on either side of the kernels in the table.
    pub half_taps: usize,
}

impl<S> Filtered<S> {
    pub open spec fn valid(self) -> bool {
        &&& self.stream.valid()
        &&& HALF_TAPS <= self.half_taps <= MAX_HALF_TAPS
        &&& self.table.len() == SUB_PHASES * (2 * self.half_taps)
    }
}

/// The input that the kernel covers at `frame`, in one channel.
pub open spec fn window<S>(history: Buffered<S>, frame: int, half_taps: int, ch: int) -> Seq<S> {
    Seq::new((2 * half_taps) as nat, |k: int| history.at(frame - half_taps + 1 + k, ch))
}

/// The running sums of a convolution, from silence to `result`.
pub open spec fn convolution_sums<A: Arithmetic>(
    sums: Seq<A::Sample>,
    kernel: Seq<A::Sample>,
    input: Seq<A::Sample>,
    silence: A::Sample,
) -> bool {
    &&& sums.len() == kernel.len() + 1
    &&& sums[0] == silence
    &&& forall|k: int|
        0 <= k < kernel.len() ==> accumulated::<A>(
            #[trigger] sums[k],
            kernel[k],
            input[k],
            sums[k + 1],
        )
}

/// `result` is the sum of the products of kernel and input, added up from the first tap on.
pub open spec fn convolved<A: Arithmetic>(
    kernel: Seq<A::Sample>,
    input: Seq<A::Sample>,
    silence: A::Sample,
    result: A::Sample,
) -> bool {
    exists|sums: Seq<A::Sample>| #[trigger]
        convolution_sums::<A>(sums, kernel, input, silence) && sums.last() == result
}

/// The kernel phase of a position: the nearest of all phases, and no later than the last.
pub open spec fn phase_of<A: Arithmetic>(position: Double, phase: usize) -> bool {
    exists|nearest: u64| #[trigger]
        is_nearest_phase::<A>(position, position.frame() as i64, SUB_PHASES, nearest) && phase
            == if nearest < SUB_PHASES {
            nearest as usize
        } else {
            (SUB_PHASES - 1) as usize
        }
}

/// A frame of which every channel is the input around `frame`, convolved with a kernel.
pub open spec fn convolved_frame<A: Arithmetic>(
    history: Buffered<A::Sample>,
    kernel: Seq<A::Sample>,
    half_taps: usize,
    at: int,
    frame: Seq<A::Sample>,
) -> bool {
    &&& frame.len() == history.channels
    &&& forall|ch: int|
        0 <= ch < frame.len() ==> convolved::<A>(
            kernel,
            window(history, at, half_taps as int, ch),
            history.silence,
            #[trigger] frame[ch],
        )
}

/// A frame at `position`: the input around it, convolved with the kernel of its phase.
pub open spec fn filtered<A: Arithmetic>(
    history: Buffered<A::Sample>,
    table: Seq<A::Sample>,
    half_taps: usize,
    position: Double,
    frame: Seq<A::Sample>,
) -> bool {
    exists|phase: usize|
        {
            &&& #[trigger] phase_of::<A>(position, phase)
            &&& convolved_frame::<A>(
                history,
                kernel_of(table, half_taps as int, phase as int),
                half_taps,
                position.frame(),
                frame,
            )
        }
}

/// How sinc interpolation makes frames of the input in `history`.
pub open spec fn filtering<A: Arithmetic>(
    history: Buffered<A::Sample>,
    table: Seq<A::Sample>,
    half_taps: usize,
) -> Interpolation<A::Sample> {
    |position: Double, frame: Seq<A::Sample>|
        filtered::<A>(history, table, half_taps, position, frame)
}

/// Sinc interpolation with a table, for each input history.
pub open spec fn sinc_interpolator<A: Arithmetic>(
    table: Seq<A::Sample>,
    half_taps: usize,
) -> Interpolator<A::Sample> {
    |history: Buffered<A::Sample>| filtering::<A>(history, table, half_taps)
}

/// A run of output frames from `before`, by way of `positions`, which leaves the resampler as
/// `after`.
pub open spec fn sinc_run<A: Arithmetic>(
    before: Filtered<A::Sample>,
    after: Filtered<A::Sample>,
    positions: Seq<Double>,
    pad: bool,
    shown: Seq<A::Sample>,
    output: Seq<A::Sample>,
) -> bool {
    &&& emitted::<A>(
        before.stream,
        positions,
        before.half_taps as int,
        pad,
        filtering::<A>(before.stream.history, before.table, before.half_taps),
        shown,
        output,
    )
    &&& after == (Filtered {
        stream: before.stream.read_to(positions.last(), before.half_taps - 1),
        ..before
    })
}

/// The table is kept as long as it was built for a cutoff that does not differ from that of
/// the present ratio, and built anew else.
pub open spec fn table_ensured<A: Arithmetic>(
    before: Filtered<A::Sample>,
    after: Filtered<A::Sample>,
) -> bool {
    let cutoff = before.stream.ratio.limited_to_one();
    ||| cutoffs_compared::<A>(cutoff, before.table_cutoff, false) && after == before
    ||| {
        &&& cutoffs_compared::<A>(cutoff, before.table_cutoff, true)
        &&& taps_for::<A>(cutoff, after.half_taps)
        &&& is_table::<A>(after.table, cutoff, after.half_taps)
        &&& after.table_cutoff == cutoff
        &&& after.stream == before.stream
    }
}

/// Windowed-sinc polyphase resampler.
pub struct SincResampler<A: Arithmetic> {
    channels: usize,
    ratio: Double,
    read_pos: Double,
    history: InputHistory<A::Sample>,
    table: Vec<A::Sample>,
    table_cutoff: Double,
    half_taps: usize,
}

impl<A: Arithmetic> View for SincResampler<A> {
    type V = Filtered<A::Sample>;

    closed spec fn view(&self) -> Filtered<A::Sample> {
        Filtered {
            stream: Stream {
                channels: self.channels,
                ratio: self.ratio,
                read_pos: self.read_pos,
                history: self.history@,
            },
            table: self.table@,
            table_cutoff: self.table_cutoff,
            half_taps: self.half_taps,
        }
    }
}

/// The absolute frame under tap `k` of the kernel at frame `i`, limited to the range of an
/// `i64`.
fn tap_frame(i: i64, half_taps: usize, k: usize) -> (result: i64)
    requires
        half_taps <= MAX_HALF_TAPS,
        k < 2 * half_taps,
    ensures
        result == crate::double::saturate(i - half_taps + 1 + k),
{
    let wide: i128 = i as i128 - half_taps as i128 + 1 + k as i128;
    if wide < i64::MIN as i128 {
        i64::MIN
    } else if wide > i64::MAX as i128 {
        i64::MAX
    } else {
        wide as i64
    }
}

/// A kernel of the table lies inside it.
proof fn lemma_kernel_inside(half_taps: int, phase: int)
    requires
        0 < half_taps,
        0 <= phase < SUB_PHASES,
    ensures
        0 <= phase * (2 * half_taps),
        phase * (2 * half_taps) + 2 * half_taps == (phase + 1) * (2 * half_taps),
        (phase + 1) * (2 * half_taps) <= SUB_PHASES * (2 * half_taps),
        half_taps <= MAX_HALF_TAPS ==> SUB_PHASES * (2 * half_taps) <= 0x4_0000,
{
    let w = 2 * half_taps;
    assert(0 <= phase * w && phase * w + w == (phase + 1) * w && (phase + 1) * w <= 512 * w)
        by (nonlinear_arith)
        requires
            0 < w,
            0 <= phase < 512,
    ;
}

impl<A: Arithmetic> SincResampler<A> {
    /// One sample: the input around frame `i` in one channel, convolved with the kernel of a
    /// phase.
    fn convolve(&self, phase: usize, i: i64, ch: usize) -> (result: A::Sample)
        requires
            self@.valid(),
            phase < SUB_PHASES,
            ch < self@.stream.history.channels,
        ensures
            convolved::<A>(
                kernel_of(self@.table, self@.half_taps as int, phase as int),
                window(self@.stream.history, i as int, self@.half_taps as int, ch as int),
                self@.stream.history.silence,
                result,
            ),
    {
        let ghost kernel = kernel_of(self@.table, self@.half_taps as int, phase as int);
        let ghost input = window(
            self@.stream.history,
            i as int,
            self@.half_taps as int,
            ch as int,
        );
        let ghost silence = self@.stream.history.silence;
        proof {
            lemma_kernel_inside(self@.half_taps as int, phase as int);
        }
        let taps = 2 * self.half_taps;
        let start = phase * taps;
        let mut sum = self.history.silence();
        let ghost mut sums: Seq<A::Sample> = seq![sum];
        let mut k: usize = 0;
        while k < taps
            invariant
                self@.valid(),
                taps == 2 * self.half_taps,
                start == phase * taps,
                0 <= start,
                start + taps <= self.table@.len(),
                start + taps <= usize::MAX,
                ch < self@.stream.history.channels,
                kernel == kernel_of(self@.table, self@.half_taps as int, phase as int),
                kernel.len() == taps,
                forall|j: int| 0 <= j < taps ==> kernel[j] == #[trigger] self.table@[start + j],
                input == window(
                    self@.stream.history,
                    i as int,
                    self@.half_taps as int,
                    ch as int,
                ),
                k <= taps,
                sums.len() == k + 1,
                sums[0] == silence,
                sums.last() == sum,
                forall|j: int|
                    0 <= j < k ==> accumulated::<A>(
                        #[trigger] sums[j],
                        kernel[j],
                        input[j],
                        sums[j + 1],
                    ),
            decreases taps - k,
        {
            let abs = tap_frame(i, self.half_taps, k);
            let sample = self.history.at(abs, ch);
            let coefficient = self.table[start + k];
            let next = accumulate::<A>(sum, coefficient, sample);
            proof {
                assert(input[k as int] == sample);
                assert(kernel[k as int] == coefficient);
                let longer = sums.push(next);
                assert forall|j: int| 0 <= j < k + 1 implies accumulated::<A>(
                    #[trigger] longer[j],
                    kernel[j],
                    input[j],
                    longer[j + 1],
                ) by {
                    if j < k {
                        assert(longer[j] == sums[j] && longer[j + 1] == sums[j + 1]);
                    } else {
                        assert(longer[j] == sum && longer[j + 1] == next);
                    }
                }
                sums = longer;
            }
            sum = next;
            k = k + 1;
        }
        proof {
            assert(convolution_sums::<A>(sums, kernel, input, silence));
        }
        sum
    }

    /// Makes one output frame at the read position and moves on, if the input for it is
    /// there.
    fn emit(&mut self, output: &mut [A::Sample], at: usize, allow_pad: bool) -> (made: bool)
        requires
            old(self)@.valid(),
            old(self)@.stream.channels > 0,
            (at + 1) * old(self)@.stream.channels <= old(output)@.len(),
        ensures
            made == readable(
                old(self)@.stream.history,
                old(self)@.stream.read_pos,
                old(self)@.half_taps as int,
                allow_pad,
            ),
            !made ==> final(self)@ == old(self)@ && final(output)@ == old(output)@,
            made ==> {
                &&& final(self)@ == (Filtered {
                    stream: Stream {
                        read_pos: final(self)@.stream.read_pos,
                        ..old(self)@.stream
                    },
                    ..old(self)@
                })
                &&& advanced::<A>(
                    old(self)@.stream.read_pos,
                    old(self)@.stream.ratio,
                    final(self)@.stream.read_pos,
                )
                &&& filtered::<A>(
                    old(self)@.stream.history,
                    old(self)@.table,
                    old(self)@.half_taps,
                    old(self)@.stream.read_pos,
                    frame_of(final(output)@, old(self)@.stream.channels as int, at as int),
                )
            },
            final(output)@.len() == old(output)@.len(),
            forall|k: int|
                0 <= k < at ==> #[trigger] frame_of(
                    final(output)@,
                    old(self)@.stream.channels as int,
                    k,
                ) == frame_of(old(output)@, old(self)@.stream.channels as int, k),
            final(output)@.skip((at + 1) * old(self)@.stream.channels) == old(output)@.skip(
                (at + 1) * old(self)@.stream.channels,
            ),
    {
        let i = self.read_pos.to_frame();
        let end = self.history.end();
        if i >= end {
            return false;
        }
        // Streaming needs the taps after the frame; at the end of the stream they read as
        // silence.
        if !allow_pad && i >= end - self.half_taps as i64 {
            return false;
        }
        let nearest = nearest_phase::<A>(self.read_pos, i, SUB_PHASES);
        let phase: usize = if nearest < SUB_PHASES as u64 {
            nearest as usize
        } else {
            SUB_PHASES - 1
        };
        let ghost position = self.read_pos;
        let ghost kernel = kernel_of(self@.table, self@.half_taps as int, phase as int);
        let ghost shown = output@;
        let ghost c = self.channels as int;
        proof {
            assert(is_nearest_phase::<A>(
                position,
                position.frame() as i64,
                SUB_PHASES,
                nearest,
            ));
            assert(phase_of::<A>(position, phase));
            assert(output.len() == shown.len());
            assert((at + 1) * c == at * c + c && 0 <= at * c) by (nonlinear_arith)
                requires
                    c > 0,
                    at >= 0,
            ;
        }
        let base = at * self.channels;
        let mut ch: usize = 0;
        while ch < self.channels
            invariant
                ch <= self.channels,
                c == self.channels,
                c > 0,
                self@ == old(self)@,
                self@.valid(),
                phase < SUB_PHASES,
                kernel == kernel_of(self@.table, self@.half_taps as int, phase as int),
                base == at * c,
                base + c <= shown.len() <= usize::MAX,
                output@.len() == shown.len(),
                forall|k: int|
                    0 <= k < shown.len() && !(base <= k < base + ch) ==> output@[k] == shown[k],
                forall|k: int|
                    #![trigger output@[base + k]]
                    0 <= k < ch ==> convolved::<A>(
                        kernel,
                        window(self@.stream.history, i as int, self@.half_taps as int, k),
                        self@.stream.history.silence,
                        output@[base + k],
                    ),
            decreases self.channels - ch,
        {
            let sample = self.convolve(phase, i, ch);
            let ghost earlier = output@;
            output[base + ch] = sample;
            proof {
                assert forall|k: int| 0 <= k < ch implies #[trigger] output@[base + k]
                    == earlier[base + k] by {}
            }
            ch = ch + 1;
        }
        proof {
            lemma_frame_written(shown, output@, c, at as int);
            let frame = frame_of(output@, c, at as int);
            assert forall|k: int| 0 <= k < frame.len() implies convolved::<A>(
                kernel,
                window(self@.stream.history, i as int, self@.half_taps as int, k),
                self@.stream.history.silence,
                #[trigger] frame[k],
            ) by {
                assert(frame[k] == output@[base + k]);
            }
            assert(convolved_frame::<A>(
                self@.stream.history,
                kernel,
                self@.half_taps,
                i as int,
                frame,
            ));
        }
        self.read_pos = advance::<A>(self.read_pos, self.ratio);
        true
    }

    /// Makes output frames as long as there is room and input, then drops the input before
    /// the first tap of the next frame.
    fn run(&mut self, output: &mut [A::Sample], allow_pad: bool) -> (written: usize)
        requires
            old(self)@.valid(),
            old(self)@.stream.channels > 0,
        ensures
            final(self)@.valid(),
            exists|positions: Seq<Double>|
                {
                    &&& #[trigger] sinc_run::<A>(
                        old(self)@,
                        final(self)@,
                        positions,
                        allow_pad,
                        old(output)@,
                        final(output)@,
                    )
                    &&& written == positions.len() - 1
                },
    {
        let ghost before = self@;
        let ghost history = self@.stream.history;
        let ghost ahead = self@.half_taps as int;
        let ghost shown = output@;
        let ghost c = self.channels as int;
        let capacity = output.len() / self.channels;
        let ghost mut positions: Seq<Double> = seq![self.read_pos];
        let mut written: usize = 0;
        let mut going = true;
        proof {
            assert(shown.skip(0 * c) =~= output@.skip(0 * c));
        }
        while going && written < capacity
            invariant
                before == old(self)@,
                shown == old(output)@,
                history == before.stream.history,
                ahead == before.half_taps,
                c == before.stream.channels,
                c > 0,
                capacity == shown.len() as int / c,
                written <= capacity,
                self@.valid(),
                self@ == (Filtered {
                    stream: Stream { read_pos: positions.last(), ..before.stream },
                    ..before
                }),
                positions.len() == written + 1,
                positions[0] == before.stream.read_pos,
                spaced::<A>(positions, before.stream.ratio),
                forall|k: int|
                    0 <= k < written ==> readable(
                        history,
                        #[trigger] positions[k],
                        ahead,
                        allow_pad,
                    ),
                !going ==> !readable(history, positions.last(), ahead, allow_pad),
                output@.len() == shown.len(),
                output@.skip(written * c) == shown.skip(written * c),
                forall|k: int|
                    0 <= k < written ==> filtered::<A>(
                        history,
                        before.table,
                        before.half_taps,
                        #[trigger] positions[k],
                        frame_of(output@, c, k),
                    ),
            decreases capacity - written + if going { 1int } else { 0int },
        {
            proof {
                lemma_frames_fit(shown.len() as int, c, written + 1);
            }
            let ghost here = output@;
            let ghost from = self.read_pos;
            going = self.emit(output, written, allow_pad);
            if going {
                proof {
                    lemma_rest_agrees(here, shown, c, written as int);
                    let longer = positions.push(self.read_pos);
                    assert(longer.last() == self.read_pos);
                    assert forall|k: int| 0 <= k < longer.len() - 1 implies advanced::<A>(
                        #[trigger] longer[k],
                        before.stream.ratio,
                        longer[k + 1],
                    ) by {
                        if k < positions.len() - 1 {
                            assert(longer[k] == positions[k] && longer[k + 1] == positions[k + 1]);
                        } else {
                            assert(longer[k] == from);
                        }
                    }
                    assert forall|k: int| 0 <= k < written + 1 implies filtered::<A>(
                        history,
                        before.table,
                        before.half_taps,
                        #[trigger] longer[k],
                        frame_of(output@, c, k),
                    ) by {
                        if k < written {
                            assert(longer[k] == positions[k]);
                            assert(frame_of(output@, c, k) == frame_of(here, c, k));
                        }
                    }
                    assert forall|k: int| 0 <= k < written + 1 implies readable(
                        history,
                        #[trigger] longer[k],
                        ahead,
                        allow_pad,
                    ) by {
                        if k < written {
                            assert(longer[k] == positions[k]);
                        }
                    }
                    positions = longer;
                }
                written = written + 1;
            }
        }
        let keep_from = tap_frame(self.read_pos.to_frame(), self.half_taps, 0);
        proof {
            lemma_trimmed_whole(self@.stream.history, keep_from as int);
        }
        self.history.trim(keep_from);
        proof {
            assert(self@ =~= (Filtered {
                stream: before.stream.read_to(positions.last(), ahead - 1),
                ..before
            }));
            assert forall|k: int| 0 <= k < written implies (filtering::<A>(
                history,
                before.table,
                before.half_taps,
            ))(#[trigger] positions[k], frame_of(output@, c, k)) by {
                assert(filtered::<A>(
                    history,
                    before.table,
                    before.half_taps,
                    positions[k],
                    frame_of(output@, c, k),
                ));
            }
            assert(sinc_run::<A>(before, self@, positions, allow_pad, shown, output@));
        }
        written
    }

    /// Sees to a table for the cutoff of the present ratio.
    fn ensure_table(&mut self)
        requires
            old(self)@.valid(),
        ensures
            table_ensured::<A>(old(self)@, final(self)@),
            final(self)@.valid(),
            final(self)@.stream == old(self)@.stream,
    {
        let cutoff = self.ratio.at_most_one();
        let moved = cutoffs_differ::<A>(cutoff, self.table_cutoff);
        if moved {
            self.half_taps = half_taps_for::<A>(cutoff);
            self.table = build_table::<A>(cutoff, self.half_taps);
            self.table_cutoff = cutoff;
        }
    }

    /// Builds a resampler converting `input_rate` to `output_rate`.
    pub fn new(input_rate: u32, output_rate: u32, channels: usize) -> (result: Result<Self, String>)
        ensures
            match construction_error(input_rate, output_rate, channels) {
                Some(message) => result is Err && result->Err_0@ == message,
                None => result is Ok && made_for_rates::<A>(
                    result->Ok_0@,
                    input_rate,
                    output_rate,
                    channels,
                ),
            },
    {
        match check_construction(input_rate, output_rate, channels) {
            Ok(_) => {
                let ratio = ratio_of_rates::<A>(input_rate, output_rate);
                let made = Self::with_ratio(ratio, channels);
                proof {
                    assert(made_with::<A>(made@, ratio, channels));
                }
                Ok(made)
            },
            Err(message) => Err(message),
        }
    }

    /// Builds a resampler with an explicit `ratio = output_rate / input_rate`.
    pub fn with_ratio(ratio: Double, channels: usize) -> (result: Self)
        ensures
            made_with::<A>(result@, ratio, channels),
    {
        let silence = A::silence();
        let ratio = sanitize_ratio(ratio);
        let cutoff = ratio.at_most_one();
        let half_taps = half_taps_for::<A>(cutoff);
        let buffered: usize = if channels == 0 {
            1
        } else {
            channels
        };
        SincResampler {
            channels,
            ratio,
            read_pos: Double::zero(),
            history: InputHistory::new(buffered, silence),
            table: build_table::<A>(cutoff, half_taps),
            table_cutoff: cutoff,
            half_taps,
        }
    }

    /// Tells whether the frame counter has room for `samples` more samples of input.
    pub fn has_room(&self, samples: usize, channels: usize) -> (result: bool)
        requires
            self@.valid(),
        ensures
            result == self@.stream.has_room(samples as int, channels as int),
    {
        channels == 0 || self.history.has_room(samples / channels)
    }
}

/// What a resampler made for two rates and a channel count starts as.
pub open spec fn made_for_rates<A: Arithmetic>(
    state: Filtered<A::Sample>,
    input_rate: u32,
    output_rate: u32,
    channels: usize,
) -> bool {
    exists|ratio: Double|
        is_ratio::<A>(input_rate, output_rate, ratio) && #[trigger] made_with::<A>(
            state,
            ratio,
            channels,
        )
}

/// What a resampler made for a ratio and a channel count starts as: with nothing seen of the
/// stream, and the table for the cutoff of the ratio.
pub open spec fn made_with<A: Arithmetic>(
    state: Filtered<A::Sample>,
    ratio: Double,
    channels: usize,
) -> bool {
    &&& state.valid()
    &&& call_ensures(A::silence, (), state.stream.history.silence)
    &&& state.stream == Stream::fresh(
        sanitized(ratio),
        channels,
        state.stream.history.silence,
    )
    &&& has_own_table::<A>(state)
}

/// The table is one for the cutoff of the present ratio.
pub open spec fn has_own_table<A: Arithmetic>(state: Filtered<A::Sample>) -> bool {
    &&& state.table_cutoff == state.stream.ratio.limited_to_one()
    &&& taps_for::<A>(state.table_cutoff, state.half_taps)
    &&& is_table::<A>(state.table, state.table_cutoff, state.half_taps)
}

/// A `process` call from `before`, by way of the state with a table for the ratio.
pub open spec fn processed_by<A: Arithmetic>(
    before: Filtered<A::Sample>,
    tabled: Filtered<A::Sample>,
    after: Filtered<A::Sample>,
    positions: Seq<Double>,
    input: Seq<A::Sample>,
    shown: Seq<A::Sample>,
    output: Seq<A::Sample>,
) -> bool {
    &&& table_ensured::<A>(before, tabled)
    &&& sinc_run::<A>(
        Filtered { stream: tabled.stream.fed(input), ..tabled },
        after,
        positions,
        false,
        shown,
        output,
    )
}

impl<A: Arithmetic> Resampler<A::Sample> for SincResampler<A> {
    open spec fn valid(&self) -> bool {
        self@.valid()
    }

    open spec fn admits(&self, samples: int, channels: int) -> bool {
        self@.stream.has_room(samples, channels)
    }

    open spec fn current_ratio(&self) -> Double {
        self@.stream.ratio
    }

    open spec fn delay(&self) -> int {
        self@.half_taps as int
    }

    fn process(
        &mut self,
        input: &[A::Sample],
        output: &mut [A::Sample],
        channels: usize,
    ) -> (result: ResampleResult)
        ensures
            !old(self)@.stream.accepts(old(output)@.len() as int, channels) ==> {
                &&& result == ResampleResult::nothing()
                &&& final(self)@ == old(self)@
                &&& final(output)@ == old(output)@
            },
            old(self)@.stream.accepts(old(output)@.len() as int, channels) ==> exists|
                tabled: Filtered<A::Sample>,
                positions: Seq<Double>,
            |
                {
                    &&& #[trigger] processed_by::<A>(
                        old(self)@,
                        tabled,
                        final(self)@,
                        positions,
                        input@,
                        old(output)@,
                        final(output)@,
                    )
                    &&& result.input_frames_consumed == input@.len() as int / (channels as int)
                    &&& result.output_frames_written == positions.len() - 1
                },
    {
        if channels != self.channels || channels == 0 || output.len() < channels {
            let nothing = ResampleResult::default();
            proof {
                assert(nothing.input_frames_consumed * channels == 0 && nothing.output_frames_written
                    * channels == 0) by (nonlinear_arith)
                    requires
                        nothing.input_frames_consumed == 0,
                        nothing.output_frames_written == 0,
                ;
            }
            return nothing;
        }
        self.ensure_table();
        let ghost tabled = self@;
        let input_frames = input.len() / channels;
        proof {
            lemma_fed(self@.stream, input@);
            lemma_frames_fit(input.len() as int, channels as int, input_frames as int);
        }
        let whole = slice_subrange(input, 0, input_frames * channels);
        proof {
            assert(whole@ =~= input@.take(input_frames * channels));
        }
        self.history.push(whole);
        proof {
            assert(self@ =~= (Filtered { stream: tabled.stream.fed(input@), ..tabled }));
        }
        let written = self.run(output, false);
        proof {
            let positions = choose|positions: Seq<Double>|
                {
                    &&& #[trigger] sinc_run::<A>(
                        Filtered { stream: tabled.stream.fed(input@), ..tabled },
                        self@,
                        positions,
                        false,
                        old(output)@,
                        output@,
                    )
                    &&& written == positions.len() - 1
                };
            assert(processed_by::<A>(
                old(self)@,
                tabled,
                self@,
                positions,
                input@,
                old(output)@,
                output@,
            ));
            lemma_frames_fit(output@.len() as int, channels as int, written as int);
        }
        ResampleResult { input_frames_consumed: input_frames, output_frames_written: written }
    }

    fn flush(&mut self, output: &mut [A::Sample], channels: usize) -> (written: usize)
        ensures
            !old(self)@.stream.accepts(old(output)@.len() as int, channels) ==> {
                &&& written == 0
                &&& final(self)@ == old(self)@
                &&& final(output)@ == old(output)@
            },
            old(self)@.stream.accepts(old(output)@.len() as int, channels) ==> exists|
                positions: Seq<Double>,
            |
                {
                    &&& #[trigger] sinc_run::<A>(
                        old(self)@,
                        final(self)@,
                        positions,
                        true,
                        old(output)@,
                        final(output)@,
                    )
                    &&& written == positions.len() - 1
                },
    {
        if channels != self.channels || channels == 0 || output.len() < channels {
            return 0;
        }
        let written = self.run(output, true);
        proof {
            lemma_frames_fit(output@.len() as int, channels as int, written as int);
        }
        written
    }

    fn reset(&mut self)
        ensures
            final(self)@ == (Filtered {
                stream: Stream::fresh(
                    old(self)@.stream.ratio,
                    old(self)@.stream.channels,
                    old(self)@.stream.history.silence,
                ),
                ..old(self)@
            }),
    {
        self.read_pos = Double::zero();
        self.history.clear();
    }

    fn latency(&self) -> (frames: usize) {
        self.half_taps
    }

    /// The table for the ratio is built by the next `process`.
    fn set_ratio(&mut self, ratio: Double)
        ensures
            final(self)@ == (Filtered {
                stream: Stream { ratio: sanitized(ratio), ..old(self)@.stream },
                ..old(self)@
            }),
    {
        self.ratio = sanitize_ratio(ratio);
    }

    fn ratio(&self) -> (ratio: Double) {
        self.ratio
    }
}

/// Sinc interpolation reads the frames under the kernel, and no other.
pub proof fn lemma_filtering_reads_within<A: Arithmetic>(table: Seq<A::Sample>, half_taps: usize)
    ensures
        reads_within(
            sinc_interpolator::<A>(table, half_taps),
            half_taps - 1,
            half_taps as int,
        ),
{
    let interpolator = sinc_interpolator::<A>(table, half_taps);
    assert forall|
        a: Buffered<A::Sample>,
        b: Buffered<A::Sample>,
        position: Double,
        frame: Seq<A::Sample>,
    |
        agree_on(a, b, position.frame() - (half_taps - 1), position.frame() + half_taps)
            && #[trigger] interpolator(a)(position, frame) implies #[trigger] interpolator(b)(
        position,
        frame,
    ) by {
        assert(filtered::<A>(a, table, half_taps, position, frame));
        let phase = choose|phase: usize|
            {
                &&& #[trigger] phase_of::<A>(position, phase)
                &&& convolved_frame::<A>(
                    a,
                    kernel_of(table, half_taps as int, phase as int),
                    half_taps,
                    position.frame(),
                    frame,
                )
            };
        let kernel = kernel_of(table, half_taps as int, phase as int);
        assert forall|ch: int| 0 <= ch < frame.len() implies convolved::<A>(
            kernel,
            window(b, position.frame(), half_taps as int, ch),
            b.silence,
            #[trigger] frame[ch],
        ) by {
            assert(window(a, position.frame(), half_taps as int, ch) =~= window(
                b,
                position.frame(),
                half_taps as int,
                ch,
            ));
        }
        assert(convolved_frame::<A>(b, kernel, half_taps, position.frame(), frame));
        assert(filtered::<A>(b, table, half_taps, position, frame));
    }
}

/// Cutting the input into blocks, and the output into slices, changes nothing: a call with
/// `first` and a call with `second` behind it, with the same table, make the frames that one
/// call may make of both together, and leave the same state. With `pad` the second call is a
/// flush, and where nothing is fed between them, the first may be one too (`ended`).
pub proof fn law_sinc_blocks_join<A: Arithmetic>(
    before: Filtered<A::Sample>,
    between: Filtered<A::Sample>,
    after: Filtered<A::Sample>,
    first: Seq<A::Sample>,
    second: Seq<A::Sample>,
    ended: bool,
    pad: bool,
    positions1: Seq<Double>,
    positions2: Seq<Double>,
    shown1: Seq<A::Sample>,
    output1: Seq<A::Sample>,
    shown2: Seq<A::Sample>,
    output2: Seq<A::Sample>,
    shown: Seq<A::Sample>,
)
    requires
        ended ==> pad && second.len() == 0,
        moves_forward::<A>(),
        before.valid(),
        before.stream.channels > 0,
        first.len() % (before.stream.channels as nat) == 0,
        before.stream.has_room(
            (first.len() + second.len()) as int,
            before.stream.channels as int,
        ),
        sinc_run::<A>(
            Filtered { stream: before.stream.fed(first), ..before },
            between,
            positions1,
            ended,
            shown1,
            output1,
        ),
        sinc_run::<A>(
            Filtered { stream: between.stream.fed(second), ..between },
            after,
            positions2,
            pad,
            shown2,
            output2,
        ),
        positions1.len() + positions2.len() - 2 <= shown.len() as int / (
        before.stream.channels as int),
        positions1.len() + positions2.len() - 2 == shown.len() as int / (
        before.stream.channels as int) || positions2.len() - 1 < shown2.len() as int / (
        before.stream.channels as int),
    ensures
        sinc_run::<A>(
            Filtered { stream: before.stream.fed(first + second), ..before },
            after,
            positions1.drop_last() + positions2,
            pad,
            shown,
            output1.take((positions1.len() - 1) * before.stream.channels) + output2.take(
                (positions2.len() - 1) * before.stream.channels,
            ) + shown.skip(
                (positions1.len() + positions2.len() - 2) * before.stream.channels,
            ),
        ),
{
    let half_taps = before.half_taps;
    let interpolator = sinc_interpolator::<A>(before.table, half_taps);
    lemma_filtering_reads_within::<A>(before.table, half_taps);
    law_blocks_join::<A>(
        before.stream,
        first,
        second,
        interpolator,
        half_taps - 1,
        half_taps as int,
        ended,
        pad,
        positions1,
        positions2,
        shown1,
        output1,
        shown2,
        output2,
        shown,
    );
    assert((positions1.drop_last() + positions2).last() == positions2.last());
}

/// A stream depends on its input, not on how input and output are cut: any number of calls and
/// then of flushes with one table, with any room, the last of which had room to spare, make
/// together what one flush may make of all their input, and leave the same state.
pub proof fn law_sinc_stream_is_its_whole_input<A: Arithmetic>(
    before: Filtered<A::Sample>,
    calls: Seq<Call<A::Sample>>,
    flush: Call<A::Sample>,
    after: Filtered<A::Sample>,
    shown: Seq<A::Sample>,
)
    requires
        moves_forward::<A>(),
        before.valid(),
        before.stream.channels > 0,
        before.stream.has_room(all_input(calls).len() as int, before.stream.channels as int),
        are_calls::<A>(
            before.stream,
            calls,
            false,
            sinc_interpolator::<A>(before.table, before.half_taps),
            before.half_taps - 1,
            before.half_taps as int,
        ),
        sinc_run::<A>(
            Filtered {
                stream: after_calls(before.stream, calls, before.half_taps - 1),
                ..before
            },
            after,
            flush.positions,
            true,
            flush.shown,
            flush.output,
        ),
        flush.has_room(before.stream.channels as int),
        all_positions(calls, flush).len() - 1 < shown.len() as int / (
        before.stream.channels as int),
    ensures
        sinc_run::<A>(
            Filtered { stream: before.stream.fed(all_input(calls)), ..before },
            after,
            all_positions(calls, flush),
            true,
            shown,
            all_output(calls, flush, before.stream.channels as int) + shown.skip(
                (all_positions(calls, flush).len() - 1) * before.stream.channels,
            ),
        ),
{
    lemma_filtering_reads_within::<A>(before.table, before.half_taps);
    law_stream_is_its_whole_input::<A>(
        before.stream,
        calls,
        false,
        flush,
        sinc_interpolator::<A>(before.table, before.half_taps),
        before.half_taps - 1,
        before.half_taps as int,
        shown,
    );
}

/// A flush that left room in its output has drained the stream: the next one writes nothing
/// and changes nothing.
pub proof fn law_sinc_flush_ends<A: Arithmetic>(
    before: Filtered<A::Sample>,
    between: Filtered<A::Sample>,
    after: Filtered<A::Sample>,
    positions1: Seq<Double>,
    positions2: Seq<Double>,
    shown1: Seq<A::Sample>,
    output1: Seq<A::Sample>,
    shown2: Seq<A::Sample>,
    output2: Seq<A::Sample>,
)
    requires
        before.valid(),
        before.stream.channels > 0,
        sinc_run::<A>(before, between, positions1, true, shown1, output1),
        positions1.len() - 1 < shown1.len() as int / (before.stream.channels as int),
        sinc_run::<A>(between, after, positions2, true, shown2, output2),
    ensures
        positions2.len() == 1,
        output2 == shown2,
        after == between,
{
    law_flush_comes_to_an_end::<A>(
        before.stream,
        filtering::<A>(before.stream.history, before.table, before.half_taps),
        filtering::<A>(between.stream.history, between.table, between.half_taps),
        before.half_taps - 1,
        before.half_taps as int,
        positions1,
        positions2,
        shown1,
        output1,
        shown2,
        output2,
    );
}

/// Each channel is converted as if it were alone.
pub proof fn law_sinc_channels_are_independent<A: Arithmetic>(
    before: Filtered<A::Sample>,
    after: Filtered<A::Sample>,
    ch: int,
    positions: Seq<Double>,
    pad: bool,
    shown: Seq<A::Sample>,
    output: Seq<A::Sample>,
)
    requires
        before.valid(),
        0 <= ch < before.stream.channels,
        sinc_run::<A>(before, after, positions, pad, shown, output),
    ensures
        sinc_run::<A>(
            Filtered { stream: before.stream.channel(ch), ..before },
            Filtered { stream: after.stream.channel(ch), ..after },
            positions,
            pad,
            channel_of(shown, before.stream.channels as int, ch),
            channel_of(output, before.stream.channels as int, ch),
        ),
{
    let history = before.stream.history;
    let alone = history.channel(ch);
    let half_taps = before.half_taps;
    let together = filtering::<A>(history, before.table, half_taps);
    assert forall|position: Double, frame: Seq<A::Sample>|
        frame.len() == before.stream.channels && #[trigger] together(
            position,
            frame,
        ) implies filtering::<A>(alone, before.table, half_taps)(position, seq![frame[ch]]) by {
        assert(filtered::<A>(history, before.table, half_taps, position, frame));
        let phase = choose|phase: usize|
            {
                &&& #[trigger] phase_of::<A>(position, phase)
                &&& convolved_frame::<A>(
                    history,
                    kernel_of(before.table, half_taps as int, phase as int),
                    half_taps,
                    position.frame(),
                    frame,
                )
            };
        let kernel = kernel_of(before.table, half_taps as int, phase as int);
        assert(window(alone, position.frame(), half_taps as int, 0) =~= window(
            history,
            position.frame(),
            half_taps as int,
            ch,
        )) by {
            assert forall|k: int| 0 <= k < 2 * half_taps implies #[trigger] window(
                alone,
                position.frame(),
                half_taps as int,
                0,
            )[k] == window(history, position.frame(), half_taps as int, ch)[k] by {
                law_channel_reads_alone(history, position.frame() - half_taps + 1 + k, ch);
            }
        }
        assert(frame[ch] == seq![frame[ch]][0]);
        assert(convolved_frame::<A>(
            alone,
            kernel,
            half_taps,
            position.frame(),
            seq![frame[ch]],
        ));
        assert(filtered::<A>(alone, before.table, half_taps, position, seq![frame[ch]]));
    }
    law_channel_stands_alone::<A>(
        before.stream,
        ch,
        positions,
        half_taps as int,
        pad,
        together,
        filtering::<A>(alone, before.table, half_taps),
        shown,
        output,
    );
    law_channel_of_read(before.stream, positions.last(), half_taps - 1, ch);
}

/// A resampler that was reset is as one newly made with its ratio, as long as its table is
/// that of its ratio.
pub proof fn law_sinc_reset_is_fresh<A: Arithmetic>(used: Filtered<A::Sample>)
    requires
        used.valid(),
        has_own_table::<A>(used),
        call_ensures(A::silence, (), used.stream.history.silence),
    ensures
        made_with::<A>(
            Filtered {
                stream: Stream::fresh(
                    used.stream.ratio,
                    used.stream.channels,
                    used.stream.history.silence,
                ),
                ..used
            },
            used.stream.ratio,
            used.stream.channels,
        ),
{
    law_streams_start_at_frame_zero(
        used.stream.ratio,
        used.stream.channels,
        used.stream.history.silence,
    );
}

/// A `process` call right behind a reset is a first call: it runs on the state of a resampler
/// newly made with the ratio, where the table was that of the ratio or was made for a cutoff
/// that differs.
pub proof fn law_sinc_call_behind_a_reset_is_a_first_call<A: Arithmetic>(
    used: Filtered<A::Sample>,
    tabled: Filtered<A::Sample>,
)
    requires
        used.valid(),
        call_ensures(A::silence, (), used.stream.history.silence),
        has_own_table::<A>(used) || !cutoffs_compared::<A>(
            used.stream.ratio.limited_to_one(),
            used.table_cutoff,
            false,
        ),
        table_ensured::<A>(
            (Filtered {
                stream: Stream::fresh(
                    used.stream.ratio,
                    used.stream.channels,
                    used.stream.history.silence,
                ),
                ..used
            }),
            tabled,
        ),
    ensures
        made_with::<A>(tabled, used.stream.ratio, used.stream.channels),
{
    law_streams_start_at_frame_zero(
        used.stream.ratio,
        used.stream.channels,
        used.stream.history.silence,
    );
}

/// A `process` call leaves the resampler with the table of its ratio, where it had that, or
/// where the ratio was moved to one with another cutoff. Nothing but a change of the ratio
/// parts a resampler from its own table.
pub proof fn law_sinc_has_its_own_table<A: Arithmetic>(
    before: Filtered<A::Sample>,
    tabled: Filtered<A::Sample>,
    after: Filtered<A::Sample>,
    positions: Seq<Double>,
    input: Seq<A::Sample>,
    shown: Seq<A::Sample>,
    output: Seq<A::Sample>,
)
    requires
        processed_by::<A>(before, tabled, after, positions, input, shown, output),
        has_own_table::<A>(before) || !cutoffs_compared::<A>(
            before.stream.ratio.limited_to_one(),
            before.table_cutoff,
            false,
        ),
    ensures
        has_own_table::<A>(after),
{
}

/// Ratios from `1.0` up share one cutoff, so moving between them keeps the table, where a
/// cutoff does not differ from itself.
pub proof fn law_sinc_upsampling_keeps_its_table<A: Arithmetic>(
    before: Filtered<A::Sample>,
    after: Filtered<A::Sample>,
)
    requires
        before.valid(),
        before.stream.ratio.units() >= pow2(1074),
        before.table_cutoff == (Double { bits: ONE }),
        !cutoffs_compared::<A>(Double { bits: ONE }, Double { bits: ONE }, true),
        table_ensured::<A>(before, after),
    ensures
        after == before,
{
    law_upsampling_keeps_the_band(before.stream.ratio);
}

/// A convolution has one result.
proof fn lemma_convolution_is_one<A: Arithmetic>(
    a: Seq<A::Sample>,
    b: Seq<A::Sample>,
    kernel: Seq<A::Sample>,
    input: Seq<A::Sample>,
    silence: A::Sample,
    k: int,
)
    requires
        one_result::<A>(),
        convolution_sums::<A>(a, kernel, input, silence),
        convolution_sums::<A>(b, kernel, input, silence),
        0 <= k < a.len(),
    ensures
        a[k] == b[k],
    decreases k,
{
    if k > 0 {
        lemma_convolution_is_one::<A>(a, b, kernel, input, silence, k - 1);
        assert(accumulated::<A>(a[k - 1], kernel[k - 1], input[k - 1], a[k - 1 + 1]));
        assert(accumulated::<A>(b[k - 1], kernel[k - 1], input[k - 1], b[k - 1 + 1]));
        lemma_accumulate_is_one::<A>(a[k - 1], kernel[k - 1], input[k - 1], a[k], b[k]);
    }
}

/// Sinc interpolation makes one frame at each position.
proof fn lemma_filtering_is_one<A: Arithmetic>(
    history: Buffered<A::Sample>,
    table: Seq<A::Sample>,
    half_taps: usize,
)
    requires
        one_result::<A>(),
    ensures
        one_frame(filtering::<A>(history, table, half_taps), history.channels),
{
    let interpolation = filtering::<A>(history, table, half_taps);
    assert forall|position: Double, x: Seq<A::Sample>, y: Seq<A::Sample>|
        x.len() == history.channels && y.len() == history.channels && #[trigger] interpolation(
            position,
            x,
        ) && #[trigger] interpolation(position, y) implies x == y by {
        assert(filtered::<A>(history, table, half_taps, position, x));
        assert(filtered::<A>(history, table, half_taps, position, y));
        let at = position.frame();
        let p = choose|phase: usize|
            {
                &&& #[trigger] phase_of::<A>(position, phase)
                &&& convolved_frame::<A>(
                    history,
                    kernel_of(table, half_taps as int, phase as int),
                    half_taps,
                    at,
                    x,
                )
            };
        let q = choose|phase: usize|
            {
                &&& #[trigger] phase_of::<A>(position, phase)
                &&& convolved_frame::<A>(
                    history,
                    kernel_of(table, half_taps as int, phase as int),
                    half_taps,
                    at,
                    y,
                )
            };
        lemma_phase_of_is_one::<A>(position, p, q);
        let kernel = kernel_of(table, half_taps as int, p as int);
        assert forall|ch: int| 0 <= ch < x.len() implies x[ch] == y[ch] by {
            let input = window(history, at, half_taps as int, ch);
            assert(convolved::<A>(kernel, input, history.silence, x[ch]));
            assert(convolved::<A>(kernel, input, history.silence, y[ch]));
            let a = choose|sums: Seq<A::Sample>| #[trigger]
                convolution_sums::<A>(sums, kernel, input, history.silence) && sums.last()
                    == x[ch];
            let b = choose|sums: Seq<A::Sample>| #[trigger]
                convolution_sums::<A>(sums, kernel, input, history.silence) && sums.last()
                    == y[ch];
            lemma_convolution_is_one::<A>(
                a,
                b,
                kernel,
                input,
                history.silence,
                kernel.len() as int,
            );
        }
        assert(x =~= y);
    }
}

/// A position has one phase.
proof fn lemma_phase_of_is_one<A: Arithmetic>(position: Double, p: usize, q: usize)
    requires
        one_result::<A>(),
        phase_of::<A>(position, p),
        phase_of::<A>(position, q),
    ensures
        p == q,
{
    let frame = position.frame() as i64;
    let a = choose|nearest: u64| #[trigger]
        is_nearest_phase::<A>(position, frame, SUB_PHASES, nearest) && p == if nearest
            < SUB_PHASES {
            nearest as usize
        } else {
            (SUB_PHASES - 1) as usize
        };
    let b = choose|nearest: u64| #[trigger]
        is_nearest_phase::<A>(position, frame, SUB_PHASES, nearest) && q == if nearest
            < SUB_PHASES {
            nearest as usize
        } else {
            (SUB_PHASES - 1) as usize
        };
    lemma_phase_is_one::<A>(position, frame, SUB_PHASES, a, b);
}

/// The taps of a kernel and their sums are the same as far as they go.
proof fn lemma_kernel_taps_are_one<A: Arithmetic>(
    taps1: Seq<Double>,
    sums1: Seq<Double>,
    taps2: Seq<Double>,
    sums2: Seq<Double>,
    cutoff: Double,
    half_taps: usize,
    phase: usize,
    k: int,
)
    requires
        one_result::<A>(),
        kernel_taps::<A>(taps1, sums1, cutoff, half_taps, phase),
        kernel_taps::<A>(taps2, sums2, cutoff, half_taps, phase),
        taps1.len() == taps2.len(),
        0 <= k <= taps1.len(),
    ensures
        sums1[k] == sums2[k],
        k < taps1.len() ==> taps1[k] == taps2[k],
    decreases k,
{
    if k < taps1.len() {
        assert(is_tap::<A>(cutoff, half_taps, phase, SUB_PHASES, k as usize, taps1[k]));
        assert(is_tap::<A>(cutoff, half_taps, phase, SUB_PHASES, k as usize, taps2[k]));
        lemma_tap_is_one::<A>(
            cutoff,
            half_taps,
            phase,
            SUB_PHASES,
            k as usize,
            taps1[k],
            taps2[k],
        );
    }
    if k > 0 {
        lemma_kernel_taps_are_one::<A>(
            taps1,
            sums1,
            taps2,
            sums2,
            cutoff,
            half_taps,
            phase,
            k - 1,
        );
        assert(call_ensures(A::sum, (sums1[k - 1], taps1[k - 1]), sums1[k - 1 + 1]));
        assert(call_ensures(A::sum, (sums2[k - 1], taps2[k - 1]), sums2[k - 1 + 1]));
        reveal(one_result);
    } else {
        assert(sums1[0] == sums2[0]);
    }
}

/// There is one kernel of a phase.
proof fn lemma_kernel_is_one<A: Arithmetic>(
    x: Seq<A::Sample>,
    y: Seq<A::Sample>,
    cutoff: Double,
    half_taps: usize,
    phase: usize,
)
    requires
        one_result::<A>(),
        is_kernel::<A>(x, cutoff, half_taps, phase),
        is_kernel::<A>(y, cutoff, half_taps, phase),
    ensures
        x == y,
{
    let (t1, s1, r1) = choose|taps: Seq<Double>, sums: Seq<Double>, rounded: Seq<A::Sample>|
        {
            &&& taps.len() == 2 * half_taps
            &&& #[trigger] kernel_taps::<A>(taps, sums, cutoff, half_taps, phase)
            &&& #[trigger] kernel_rounded::<A>(taps, rounded)
            &&& kernel_scaled::<A>(rounded, sums.last(), x)
        };
    let (t2, s2, r2) = choose|taps: Seq<Double>, sums: Seq<Double>, rounded: Seq<A::Sample>|
        {
            &&& taps.len() == 2 * half_taps
            &&& #[trigger] kernel_taps::<A>(taps, sums, cutoff, half_taps, phase)
            &&& #[trigger] kernel_rounded::<A>(taps, rounded)
            &&& kernel_scaled::<A>(rounded, sums.last(), y)
        };
    assert forall|k: int| 0 <= k < t1.len() implies r1[k] == r2[k] by {
        lemma_kernel_taps_are_one::<A>(t1, s1, t2, s2, cutoff, half_taps, phase, k);
        assert(call_ensures(A::narrow, (t1[k],), r1[k]));
        assert(call_ensures(A::narrow, (t2[k],), r2[k]));
        reveal(one_result);
    }
    assert(r1 =~= r2);
    lemma_kernel_taps_are_one::<A>(
        t1,
        s1,
        t2,
        s2,
        cutoff,
        half_taps,
        phase,
        t1.len() as int,
    );
    let sum = s1.last();
    if sum.is_beyond(Double { bits: MIN_POSITIVE }) {
        let g1 = choose|gain: A::Sample|
            {
                &&& #[trigger] is_gain::<A>(sum, gain)
                &&& forall|k: int|
                    0 <= k < x.len() ==> call_ensures(
                        A::sample_product,
                        (r1[k], gain),
                        #[trigger] x[k],
                    )
            };
        let g2 = choose|gain: A::Sample|
            {
                &&& #[trigger] is_gain::<A>(sum, gain)
                &&& forall|k: int|
                    0 <= k < y.len() ==> call_ensures(
                        A::sample_product,
                        (r1[k], gain),
                        #[trigger] y[k],
                    )
            };
        lemma_gain_is_one::<A>(sum, g1, g2);
        assert forall|k: int| 0 <= k < x.len() implies x[k] == y[k] by {
            assert(call_ensures(A::sample_product, (r1[k], g1), x[k]));
            assert(call_ensures(A::sample_product, (r1[k], g1), y[k]));
            reveal(one_result);
        }
        assert(x =~= y);
    }
}

/// There is one table for a cutoff and a number of taps.
proof fn lemma_table_is_one<A: Arithmetic>(
    x: Seq<A::Sample>,
    y: Seq<A::Sample>,
    cutoff: Double,
    half_taps: usize,
)
    requires
        one_result::<A>(),
        half_taps > 0,
        is_table::<A>(x, cutoff, half_taps),
        is_table::<A>(y, cutoff, half_taps),
    ensures
        x == y,
{
    let w = 2 * half_taps as int;
    assert forall|i: int| 0 <= i < x.len() implies x[i] == y[i] by {
        let phase = i / w;
        let k = i % w;
        lemma_fundamental_div_mod(i, w);
        assert(0 <= phase < SUB_PHASES && phase * w + k == i && (phase + 1) * w == phase * w + w
            && 0 <= phase * w && (phase + 1) * w <= SUB_PHASES * w) by (nonlinear_arith)
            requires
                i == w * phase + k,
                0 <= k < w,
                0 <= i < SUB_PHASES * w,
        ;
        let a = kernel_of(x, half_taps as int, phase);
        let b = kernel_of(y, half_taps as int, phase);
        lemma_kernel_is_one::<A>(a, b, cutoff, half_taps, phase as usize);
        assert(a[k] == x[i]);
        assert(b[k] == y[i]);
    }
    assert(x =~= y);
}

/// Resamplers made alike are alike, where every operation has one result.
pub proof fn law_sinc_made_alike<A: Arithmetic>(
    a: Filtered<A::Sample>,
    b: Filtered<A::Sample>,
    ratio: Double,
    channels: usize,
)
    requires
        one_result::<A>(),
        made_with::<A>(a, ratio, channels),
        made_with::<A>(b, ratio, channels),
    ensures
        a == b,
{
    assert(a.stream.history.silence == b.stream.history.silence) by {
        reveal(one_result);
    }
    let cutoff = a.table_cutoff.raised_to_min_positive();
    let x = choose|wanted: u64|
        is_stretched::<A>(HALF_TAPS, cutoff, wanted) && a.half_taps == #[trigger] limited_taps(
            wanted,
        );
    let y = choose|wanted: u64|
        is_stretched::<A>(HALF_TAPS, cutoff, wanted) && b.half_taps == #[trigger] limited_taps(
            wanted,
        );
    lemma_stretch_is_one::<A>(HALF_TAPS, cutoff, x, y);
    lemma_table_is_one::<A>(a.table, b.table, a.table_cutoff, a.half_taps);
}

/// The table that a resampler has is one for the cutoff that it names, with the taps that this
/// cutoff asks for.
pub open spec fn has_sound_table<A: Arithmetic>(state: Filtered<A::Sample>) -> bool {
    &&& taps_for::<A>(state.table_cutoff, state.half_taps)
    &&& is_table::<A>(state.table, state.table_cutoff, state.half_taps)
}

/// The table of a resampler is sound when it is made.
pub proof fn law_sinc_table_is_sound_when_made<A: Arithmetic>(
    made: Filtered<A::Sample>,
    ratio: Double,
    channels: usize,
)
    requires
        made_with::<A>(made, ratio, channels),
    ensures
        has_sound_table::<A>(made),
        made.table.len() == 1024 * made.half_taps,
{
}

/// Every call keeps the table of a resampler sound. A `process` call leaves it with a table for
/// the cutoff of its ratio, or the table it had, which was made for one that does not differ;
/// no other call touches the table.
pub proof fn law_sinc_table_stays_sound<A: Arithmetic>(
    before: Filtered<A::Sample>,
    tabled: Filtered<A::Sample>,
    after: Filtered<A::Sample>,
    positions: Seq<Double>,
    input: Seq<A::Sample>,
    shown: Seq<A::Sample>,
    output: Seq<A::Sample>,
)
    requires
        has_sound_table::<A>(before),
        processed_by::<A>(before, tabled, after, positions, input, shown, output),
    ensures
        has_sound_table::<A>(after),
        after.table_cutoff == after.stream.ratio.limited_to_one() || {
            &&& cutoffs_compared::<A>(
                after.stream.ratio.limited_to_one(),
                after.table_cutoff,
                false,
            )
            &&& after.table == before.table
            &&& after.table_cutoff == before.table_cutoff
            &&& after.half_taps == before.half_taps
        },
        forall|stream: Stream<A::Sample>| #[trigger]
            has_sound_table::<A>((Filtered { stream, ..before })),
{
}

/// A new resampler writes nothing if and only if it was given no more frames than its latency.
pub proof fn law_sinc_first_frame<A: Arithmetic>(
    made: Filtered<A::Sample>,
    ratio: Double,
    channels: usize,
    after: Filtered<A::Sample>,
    input: Seq<A::Sample>,
    positions: Seq<Double>,
    shown: Seq<A::Sample>,
    output: Seq<A::Sample>,
)
    requires
        channels > 0,
        made_with::<A>(made, ratio, channels),
        shown.len() >= channels,
        sinc_run::<A>(
            Filtered { stream: made.stream.fed(input), ..made },
            after,
            positions,
            false,
            shown,
            output,
        ),
    ensures
        positions.len() - 1 == 0 <==> input.len() as int / (channels as int) <= made.half_taps,
{
    law_first_frame_waits_for_the_lookahead::<A>(
        made.stream.ratio,
        channels,
        made.stream.history.silence,
        input,
        positions,
        made.half_taps as int,
        filtering::<A>(made.stream.fed(input).history, made.table, made.half_taps),
        shown,
        output,
    );
}

/// A `process` call with room to spare leaves no more frames buffered than a kernel has taps,
/// less one.
pub proof fn law_sinc_little_stays_buffered<A: Arithmetic>(
    before: Filtered<A::Sample>,
    after: Filtered<A::Sample>,
    positions: Seq<Double>,
    shown: Seq<A::Sample>,
    output: Seq<A::Sample>,
)
    requires
        before.valid(),
        sinc_run::<A>(before, after, positions, false, shown, output),
        positions.len() - 1 < shown.len() as int / (before.stream.channels as int),
    ensures
        after.stream.history.frames() <= 2 * before.half_taps - 1,
{
    law_little_stays_buffered::<A>(
        before.stream,
        positions,
        before.half_taps - 1,
        before.half_taps as int,
        filtering::<A>(before.stream.history, before.table, before.half_taps),
        shown,
        output,
    );
}

/// A call has one outcome, where every operation has one result: two runs from one state make
/// the same frames and leave the same state, where they have as much room (or room to spare).
pub proof fn law_sinc_runs_agree<A: Arithmetic>(
    before: Filtered<A::Sample>,
    after1: Filtered<A::Sample>,
    after2: Filtered<A::Sample>,
    positions1: Seq<Double>,
    positions2: Seq<Double>,
    pad: bool,
    shown1: Seq<A::Sample>,
    output1: Seq<A::Sample>,
    shown2: Seq<A::Sample>,
    output2: Seq<A::Sample>,
)
    requires
        one_result::<A>(),
        before.valid(),
        before.stream.channels > 0,
        sinc_run::<A>(before, after1, positions1, pad, shown1, output1),
        sinc_run::<A>(before, after2, positions2, pad, shown2, output2),
        shown1.len() as int / (before.stream.channels as int) == shown2.len() as int / (
        before.stream.channels as int) || (positions1.len() - 1 < shown1.len() as int / (
        before.stream.channels as int) && positions2.len() - 1 < shown2.len() as int / (
        before.stream.channels as int)),
    ensures
        positions1 == positions2,
        output1.take((positions1.len() - 1) * before.stream.channels) == output2.take(
            (positions1.len() - 1) * before.stream.channels,
        ),
        shown1 == shown2 ==> output1 == output2,
        after1 == after2,
{
    lemma_filtering_is_one::<A>(before.stream.history, before.table, before.half_taps);
    law_runs_agree::<A>(
        before.stream,
        positions1,
        positions2,
        before.half_taps as int,
        pad,
        filtering::<A>(before.stream.history, before.table, before.half_taps),
        shown1,
        output1,
        shown2,
        output2,
    );
}

/// However input and output are cut, the output is the same, sample for sample, and so is the
/// state that is left, where every operation has one result and the table stays.
pub proof fn law_sinc_output_ignores_cutting<A: Arithmetic>(
    before: Filtered<A::Sample>,
    calls1: Seq<Call<A::Sample>>,
    flush1: Call<A::Sample>,
    calls2: Seq<Call<A::Sample>>,
    flush2: Call<A::Sample>,
)
    requires
        one_result::<A>(),
        moves_forward::<A>(),
        before.valid(),
        before.stream.channels > 0,
        before.stream.has_room(all_input(calls1).len() as int, before.stream.channels as int),
        all_input(calls1) == all_input(calls2),
        is_course::<A>(
            before.stream,
            calls1,
            flush1,
            sinc_interpolator::<A>(before.table, before.half_taps),
            before.half_taps - 1,
            before.half_taps as int,
        ),
        is_course::<A>(
            before.stream,
            calls2,
            flush2,
            sinc_interpolator::<A>(before.table, before.half_taps),
            before.half_taps - 1,
            before.half_taps as int,
        ),
    ensures
        all_output(calls1, flush1, before.stream.channels as int) == all_output(
            calls2,
            flush2,
            before.stream.channels as int,
        ),
        after_calls(before.stream, calls1, before.half_taps - 1).read_to(
            flush1.positions.last(),
            before.half_taps - 1,
        ) == after_calls(before.stream, calls2, before.half_taps - 1).read_to(
            flush2.positions.last(),
            before.half_taps - 1,
        ),
{
    let fed = before.stream.fed(all_input(calls1));
    lemma_filtering_is_one::<A>(fed.history, before.table, before.half_taps);
    lemma_filtering_reads_within::<A>(before.table, before.half_taps);
    law_output_ignores_cutting::<A>(
        before.stream,
        calls1,
        flush1,
        calls2,
        flush2,
        sinc_interpolator::<A>(before.table, before.half_taps),
        before.half_taps - 1,
        before.half_taps as int,
    );
}

/// A channel comes out as from a resampler of its own: given that channel alone, it makes the
/// samples of that channel, where every operation has one result.
pub proof fn law_sinc_channel_is_its_own_stream<A: Arithmetic>(
    before: Filtered<A::Sample>,
    after: Filtered<A::Sample>,
    alone: Filtered<A::Sample>,
    ch: int,
    positions: Seq<Double>,
    positions_alone: Seq<Double>,
    pad: bool,
    shown: Seq<A::Sample>,
    output: Seq<A::Sample>,
    shown_alone: Seq<A::Sample>,
    output_alone: Seq<A::Sample>,
)
    requires
        one_result::<A>(),
        before.valid(),
        0 <= ch < before.stream.channels,
        sinc_run::<A>(before, after, positions, pad, shown, output),
        sinc_run::<A>(
            Filtered { stream: before.stream.channel(ch), ..before },
            alone,
            positions_alone,
            pad,
            shown_alone,
            output_alone,
        ),
        shown_alone.len() == shown.len() as int / (before.stream.channels as int),
    ensures
        positions_alone == positions,
        output_alone.take(positions.len() - 1) == channel_of(
            output,
            before.stream.channels as int,
            ch,
        ).take(positions.len() - 1),
        alone == (Filtered { stream: after.stream.channel(ch), ..after }),
{
    let c = before.stream.channels as int;
    law_sinc_channels_are_independent::<A>(before, after, ch, positions, pad, shown, output);
    law_channel_reads_alone(before.stream.history, 0, ch);
    let mono = before.stream.channel(ch);
    lemma_filtering_is_one::<A>(mono.history, before.table, before.half_taps);
    law_runs_agree::<A>(
        mono,
        positions_alone,
        positions,
        before.half_taps as int,
        pad,
        filtering::<A>(mono.history, before.table, before.half_taps),
        shown_alone,
        output_alone,
        channel_of(shown, c, ch),
        channel_of(output, c, ch),
    );
}

/// Linear and sinc resamplers of one ratio write as many frames for as many frames of input,
/// flushed, however input and output are cut.
pub proof fn law_linear_and_sinc_write_as_many_frames<A: Arithmetic>(
    linear: Stream<A::Sample>,
    sinc: Filtered<A::Sample>,
    ratio: Double,
    channels: usize,
    calls1: Seq<Call<A::Sample>>,
    flush1: Call<A::Sample>,
    calls2: Seq<Call<A::Sample>>,
    flush2: Call<A::Sample>,
)
    requires
        one_result::<A>(),
        moves_forward::<A>(),
        channels > 0,
        crate::linear::made_with::<A>(linear, ratio, channels),
        made_with::<A>(sinc, ratio, channels),
        linear.has_room(all_input(calls1).len() as int, channels as int),
        all_input(calls1).len() == all_input(calls2).len(),
        is_course::<A>(linear, calls1, flush1, linear_interpolator::<A>(), 0, LOOKAHEAD as int),
        is_course::<A>(
            sinc.stream,
            calls2,
            flush2,
            sinc_interpolator::<A>(sinc.table, sinc.half_taps),
            sinc.half_taps - 1,
            sinc.half_taps as int,
        ),
    ensures
        all_positions(calls1, flush1) == all_positions(calls2, flush2),
{
    let c = channels as int;
    let p1 = all_positions(calls1, flush1);
    let p2 = all_positions(calls2, flush2);
    let room = (p1.len() + p2.len()) as int;
    let silence = linear.history.silence;
    let shown: Seq<A::Sample> = Seq::new((room * c) as nat, |i: int| silence);
    assert(room * c >= 0) by (nonlinear_arith)
        requires
            room >= 0,
            c > 0,
    ;
    lemma_fundamental_div_mod_converse(room * c, c, room, 0);
    lemma_blending_reads_within::<A>();
    lemma_filtering_reads_within::<A>(sinc.table, sinc.half_taps);
    law_streams_start_at_frame_zero(linear.ratio, channels, silence);
    law_streams_start_at_frame_zero(sinc.stream.ratio, channels, sinc.stream.history.silence);
    law_stream_is_its_whole_input::<A>(
        linear,
        calls1,
        false,
        flush1,
        linear_interpolator::<A>(),
        0,
        LOOKAHEAD as int,
        shown,
    );
    law_stream_is_its_whole_input::<A>(
        sinc.stream,
        calls2,
        false,
        flush2,
        sinc_interpolator::<A>(sinc.table, sinc.half_taps),
        sinc.half_taps - 1,
        sinc.half_taps as int,
        shown,
    );
    let fed1 = linear.fed(all_input(calls1));
    let fed2 = sinc.stream.fed(all_input(calls2));
    lemma_fed(linear, all_input(calls1));
    lemma_fed(sinc.stream, all_input(calls2));
    law_lengths_agree::<A>(
        fed1,
        fed2,
        p1,
        p2,
        LOOKAHEAD as int,
        sinc.half_taps as int,
        true,
        blending::<A>(fed1.history),
        filtering::<A>(fed2.history, sinc.table, sinc.half_taps),
        shown,
        all_output(calls1, flush1, c) + shown.skip((p1.len() - 1) * c),
        shown,
        all_output(calls2, flush2, c) + shown.skip((p2.len() - 1) * c),
    );
}

/// A whole stream, however its input and output are cut, writes as many frames as its input is
/// worth, where its positions agree with that length; to within `slack` frames, where they do so
/// to within as many.
pub proof fn law_sinc_stream_is_as_long_as_its_input_is_worth<A: Arithmetic>(
    made: Filtered<A::Sample>,
    ratio: Double,
    channels: usize,
    calls: Seq<Call<A::Sample>>,
    flush: Call<A::Sample>,
    frames: u64,
    owed: u64,
    slack: int,
)
    requires
        moves_forward::<A>(),
        channels > 0,
        0 <= slack,
        made_with::<A>(made, ratio, channels),
        made.stream.has_room(all_input(calls).len() as int, channels as int),
        frames == all_input(calls).len() as int / (channels as int),
        is_course::<A>(
            made.stream,
            calls,
            flush,
            sinc_interpolator::<A>(made.table, made.half_taps),
            made.half_taps - 1,
            made.half_taps as int,
        ),
        is_worth::<A>(made.stream.ratio, frames, owed),
        worth_agrees::<A>(made.stream.ratio, frames as int, owed as int, slack),
    ensures
        all_output(calls, flush, channels as int).len() == (all_positions(calls, flush).len() - 1)
            * channels,
        owed - slack <= all_positions(calls, flush).len() - 1 <= owed + slack,
{
    lemma_filtering_reads_within::<A>(made.table, made.half_taps);
    law_stream_is_about_as_long_as_its_input_is_worth::<A>(
        made.stream.ratio,
        channels,
        made.stream.history.silence,
        calls,
        flush,
        sinc_interpolator::<A>(made.table, made.half_taps),
        made.half_taps - 1,
        made.half_taps as int,
        owed as int,
        slack,
    );
}

} // verus!
