//! The formulas of the resamplers, operation by operation.
//!
//! Each formula is a relation between its operands and a result that its operations can lead
//! to, and a function that computes such a result.

use vstd::prelude::*;

use crate::arithmetic::Arithmetic;
use crate::double::Double;
use crate::double::ONE;

verus! {

/// Bit pattern of `0.08`.
pub const EIGHT_HUNDREDTHS: u64 = 0x3fb4_7ae1_47ae_147b;

/// Bit pattern of `0.42`.
pub const FORTY_TWO_HUNDREDTHS: u64 = 0x3fda_e147_ae14_7ae1;

/// Bit pattern of `0.5`.
pub const HALF: u64 = 0x3fe0_0000_0000_0000;

/// Bit pattern of `2.0`.
pub const TWO: u64 = 0x4000_0000_0000_0000;

/// Bit pattern of pi.
pub const PI: u64 = 0x4009_21fb_5444_2d18;

/// Bit pattern of two pi.
pub const TAU: u64 = 0x4019_21fb_5444_2d18;

/// Bit pattern of `1e-9`: cutoffs that differ by no more share a table.
pub const SAME_CUTOFF: u64 = 0x3e11_2e0b_e826_d695;

/// Bit pattern of `1e-12`: ratios that differ by less are the same.
pub const SAME_RATIO: u64 = 0x3d71_9799_812d_ea11;

/// Bit pattern of `1e-12`: closer to zero the sinc function is one.
pub const SINC_PEAK: u64 = 0x3d71_9799_812d_ea11;

/// `output_rate / input_rate`.
pub open spec fn is_ratio<A: Arithmetic>(
    input_rate: u32,
    output_rate: u32,
    ratio: Double,
) -> bool {
    exists|output: Double, input: Double|
        {
            &&& #[trigger] call_ensures(A::of_count, (output_rate as u64,), output)
            &&& #[trigger] call_ensures(A::of_count, (input_rate as u64,), input)
            &&& call_ensures(A::quotient, (output, input), ratio)
        }
}

/// Computes `output_rate / input_rate`.
pub fn ratio_of_rates<A: Arithmetic>(input_rate: u32, output_rate: u32) -> (ratio: Double)
    ensures
        is_ratio::<A>(input_rate, output_rate, ratio),
{
    let output = A::of_count(output_rate as u64);
    let input = A::of_count(input_rate as u64);
    A::quotient(output, input)
}

/// The position of the output frame after the one at `position`: `position + 1 / ratio`.
#[verifier::opaque]
pub open spec fn advanced<A: Arithmetic>(position: Double, ratio: Double, next: Double) -> bool {
    exists|step: Double|
        {
            &&& #[trigger] call_ensures(A::quotient, (Double { bits: ONE }, ratio), step)
            &&& call_ensures(A::sum, (position, step), next)
        }
}

/// Computes the position of the next output frame.
pub fn advance<A: Arithmetic>(position: Double, ratio: Double) -> (next: Double)
    ensures
        advanced::<A>(position, ratio, next),
{
    proof {
        reveal(advanced);
    }
    let step = A::quotient(Double { bits: ONE }, ratio);
    A::sum(position, step)
}

/// How far `position` lies behind the start of `frame`: `position - frame`.
pub open spec fn is_fraction<A: Arithmetic>(
    position: Double,
    frame: i64,
    fraction: Double,
) -> bool {
    exists|start: Double|
        {
            &&& #[trigger] call_ensures(A::of_frame, (frame,), start)
            &&& call_ensures(A::difference, (position, start), fraction)
        }
}

/// Computes how far `position` lies behind the start of `frame`.
fn fraction_of<A: Arithmetic>(position: Double, frame: i64) -> (fraction: Double)
    ensures
        is_fraction::<A>(position, frame, fraction),
{
    let start = A::of_frame(frame);
    A::difference(position, start)
}

/// The straight line from `a` at `frame` to `b` one frame later, at `position`:
/// `a + (b - a) * (position - frame)`.
#[verifier::opaque]
pub open spec fn is_blend<A: Arithmetic>(
    a: A::Sample,
    b: A::Sample,
    position: Double,
    frame: i64,
    result: A::Sample,
) -> bool {
    exists|fraction: Double, weight: A::Sample, rise: A::Sample, part: A::Sample|
        {
            &&& is_fraction::<A>(position, frame, fraction)
            &&& #[trigger] call_ensures(A::narrow, (fraction,), weight)
            &&& call_ensures(A::sample_difference, (b, a), rise)
            &&& #[trigger] call_ensures(A::sample_product, (rise, weight), part)
            &&& call_ensures(A::sample_sum, (a, part), result)
        }
}

/// Computes a point on the straight line between two samples.
pub fn blend<A: Arithmetic>(a: A::Sample, b: A::Sample, position: Double, frame: i64) -> (result:
    A::Sample)
    ensures
        is_blend::<A>(a, b, position, frame, result),
{
    proof {
        reveal(is_blend);
    }
    let fraction = fraction_of::<A>(position, frame);
    let weight = A::narrow(fraction);
    let rise = A::sample_difference(b, a);
    let part = A::sample_product(rise, weight);
    A::sample_sum(a, part)
}

/// The sub-sample phase of `position` behind `frame`, to the nearest of `phases` steps:
/// `round((position - frame) * phases)`.
#[verifier::opaque]
pub open spec fn is_nearest_phase<A: Arithmetic>(
    position: Double,
    frame: i64,
    phases: usize,
    nearest: u64,
) -> bool {
    exists|fraction: Double, scale: Double, scaled: Double|
        {
            &&& is_fraction::<A>(position, frame, fraction)
            &&& call_ensures(A::of_count, (phases as u64,), scale)
            &&& #[trigger] call_ensures(A::product, (fraction, scale), scaled)
            &&& nearest == scaled.rounded()
        }
}

/// Computes the nearest sub-sample phase.
pub fn nearest_phase<A: Arithmetic>(position: Double, frame: i64, phases: usize) -> (nearest: u64)
    ensures
        is_nearest_phase::<A>(position, frame, phases, nearest),
{
    proof {
        reveal(is_nearest_phase);
    }
    let fraction = fraction_of::<A>(position, frame);
    let scale = A::of_count(phases as u64);
    let scaled = A::product(fraction, scale);
    scaled.to_rounded()
}

/// The taps on either side of a kernel that is stretched by a cutoff:
/// `ceil(half_taps / cutoff)`.
pub open spec fn is_stretched<A: Arithmetic>(
    half_taps: usize,
    cutoff: Double,
    wanted: u64,
) -> bool {
    exists|count: Double, stretched: Double|
        {
            &&& call_ensures(A::of_count, (half_taps as u64,), count)
            &&& #[trigger] call_ensures(A::quotient, (count, cutoff), stretched)
            &&& wanted == stretched.ceiling()
        }
}

/// Computes the taps on either side of a stretched kernel.
pub fn stretched_taps<A: Arithmetic>(half_taps: usize, cutoff: Double) -> (wanted: u64)
    ensures
        is_stretched::<A>(half_taps, cutoff, wanted),
{
    let count = A::of_count(half_taps as u64);
    let stretched = A::quotient(count, cutoff);
    stretched.to_ceiling()
}

/// Whether two cutoffs differ by more than [`SAME_CUTOFF`].
pub open spec fn cutoffs_compared<A: Arithmetic>(a: Double, b: Double, differ: bool) -> bool {
    exists|difference: Double|
        {
            &&& #[trigger] call_ensures(A::difference, (a, b), difference)
            &&& differ == difference.is_beyond(Double { bits: SAME_CUTOFF })
        }
}

/// Tells whether two cutoffs differ.
pub fn cutoffs_differ<A: Arithmetic>(a: Double, b: Double) -> (differ: bool)
    ensures
        cutoffs_compared::<A>(a, b, differ),
{
    let difference = A::difference(a, b);
    difference.beyond(Double { bits: SAME_CUTOFF })
}

/// Whether two ratios differ by less than [`SAME_RATIO`].
pub open spec fn ratios_compared<A: Arithmetic>(a: Double, b: Double, agree: bool) -> bool {
    exists|difference: Double|
        {
            &&& #[trigger] call_ensures(A::difference, (a, b), difference)
            &&& agree == difference.is_within(Double { bits: SAME_RATIO })
        }
}

/// Tells whether two ratios are the same.
pub fn ratios_agree<A: Arithmetic>(a: Double, b: Double) -> (agree: bool)
    ensures
        ratios_compared::<A>(a, b, agree),
{
    let difference = A::difference(a, b);
    difference.within(Double { bits: SAME_RATIO })
}

/// The output frames that `frames` input frames are worth: `ceil(ratio * frames)`.
pub open spec fn is_worth<A: Arithmetic>(ratio: Double, frames: u64, owed: u64) -> bool {
    exists|count: Double, length: Double|
        {
            &&& call_ensures(A::of_count, (frames,), count)
            &&& #[trigger] call_ensures(A::product, (ratio, count), length)
            &&& owed == length.ceiling()
        }
}

/// Computes the output frames that `frames` input frames are worth.
pub fn frames_owed<A: Arithmetic>(ratio: Double, frames: u64) -> (owed: u64)
    ensures
        is_worth::<A>(ratio, frames, owed),
{
    let count = A::of_count(frames);
    let length = A::product(ratio, count);
    length.to_ceiling()
}

/// A tap more of a convolution: `sum + coefficient * sample`.
#[verifier::opaque]
pub open spec fn accumulated<A: Arithmetic>(
    sum: A::Sample,
    coefficient: A::Sample,
    sample: A::Sample,
    result: A::Sample,
) -> bool {
    exists|part: A::Sample|
        {
            &&& #[trigger] call_ensures(A::sample_product, (coefficient, sample), part)
            &&& call_ensures(A::sample_sum, (sum, part), result)
        }
}

/// Adds a tap to a convolution.
pub fn accumulate<A: Arithmetic>(
    sum: A::Sample,
    coefficient: A::Sample,
    sample: A::Sample,
) -> (result: A::Sample)
    ensures
        accumulated::<A>(sum, coefficient, sample, result),
{
    proof {
        reveal(accumulated);
    }
    let part = A::sample_product(coefficient, sample);
    A::sample_sum(sum, part)
}

/// The factor that scales a sum to one, rounded to a sample: `1 / sum`.
pub open spec fn is_gain<A: Arithmetic>(sum: Double, gain: A::Sample) -> bool {
    exists|inverse: Double|
        {
            &&& #[trigger] call_ensures(A::quotient, (Double { bits: ONE }, sum), inverse)
            &&& call_ensures(A::narrow, (inverse,), gain)
        }
}

/// Computes the factor that scales a sum to one.
pub fn unit_gain<A: Arithmetic>(sum: Double) -> (gain: A::Sample)
    ensures
        is_gain::<A>(sum, gain),
{
    let inverse = A::quotient(Double { bits: ONE }, sum);
    A::narrow(inverse)
}

/// The sinc function: `sin(pi * x) / (pi * x)`, and one at its peak.
pub open spec fn is_sinc<A: Arithmetic>(x: Double, result: Double) -> bool {
    if x.is_within(Double { bits: SINC_PEAK }) {
        result == Double { bits: ONE }
    } else {
        exists|angle: Double, sine: Double|
            {
                &&& call_ensures(A::product, (Double { bits: PI }, x), angle)
                &&& #[trigger] call_ensures(A::sine, (angle,), sine)
                &&& call_ensures(A::quotient, (sine, angle), result)
            }
    }
}

/// Computes the sinc function.
pub fn sinc<A: Arithmetic>(x: Double) -> (result: Double)
    ensures
        is_sinc::<A>(x, result),
{
    if x.within(Double { bits: SINC_PEAK }) {
        Double { bits: ONE }
    } else {
        let angle = A::product(Double { bits: PI }, x);
        let sine = A::sine(angle);
        A::quotient(sine, angle)
    }
}

/// The angle of tap `k` of `taps` under the window: `tau * k / (taps - 1)`.
pub open spec fn is_window_angle<A: Arithmetic>(k: u64, taps: u64, angle: Double) -> bool {
    exists|n: Double, m: Double, turn: Double|
        {
            &&& call_ensures(A::of_count, (k,), n)
            &&& call_ensures(A::of_count, ((taps - 1) as u64,), m)
            &&& #[trigger] call_ensures(A::product, (Double { bits: TAU }, n), turn)
            &&& #[trigger] call_ensures(A::quotient, (turn, m), angle)
        }
}

/// The Blackman window at an angle: `0.42 - 0.5 * cos(angle) + 0.08 * cos(2 * angle)`.
pub open spec fn is_blackman<A: Arithmetic>(angle: Double, weight: Double) -> bool {
    exists|
        once: Double,
        twice: Double,
        first: Double,
        second: Double,
        doubled: Double,
        falling: Double,
    |
        {
            &&& call_ensures(A::cosine, (angle,), once)
            &&& #[trigger] call_ensures(A::product, (Double { bits: HALF }, once), first)
            &&& #[trigger] call_ensures(
                A::difference,
                (Double { bits: FORTY_TWO_HUNDREDTHS }, first),
                falling,
            )
            &&& call_ensures(A::product, (Double { bits: TWO }, angle), doubled)
            &&& #[trigger] call_ensures(A::cosine, (doubled,), twice)
            &&& #[trigger] call_ensures(
                A::product,
                (Double { bits: EIGHT_HUNDREDTHS }, twice),
                second,
            )
            &&& call_ensures(A::sum, (falling, second), weight)
        }
}

/// Computes the Blackman window at tap `k` of `taps`.
pub fn blackman<A: Arithmetic>(k: u64, taps: u64) -> (weight: Double)
    requires
        taps > 0,
    ensures
        exists|angle: Double| #[trigger]
            is_window_angle::<A>(k, taps, angle) && is_blackman::<A>(angle, weight),
{
    let n = A::of_count(k);
    let m = A::of_count(taps - 1);
    let turn = A::product(Double { bits: TAU }, n);
    let angle = A::quotient(turn, m);
    proof {
        assert(is_window_angle::<A>(k, taps, angle));
    }
    let once = A::cosine(angle);
    let first = A::product(Double { bits: HALF }, once);
    let falling = A::difference(Double { bits: FORTY_TWO_HUNDREDTHS }, first);
    let doubled = A::product(Double { bits: TWO }, angle);
    let twice = A::cosine(doubled);
    let second = A::product(Double { bits: EIGHT_HUNDREDTHS }, twice);
    let weight = A::sum(falling, second);
    proof {
        assert(is_blackman::<A>(angle, weight));
    }
    weight
}

/// The distance from an output position to tap `k` of a kernel, in frames, at sub-phase
/// `phase / phases`: `phase / phases + (half_taps - 1) - k`.
pub open spec fn is_distance<A: Arithmetic>(
    half_taps: u64,
    phase: u64,
    phases: u64,
    k: u64,
    distance: Double,
) -> bool {
    exists|
        p: Double,
        n: Double,
        fraction: Double,
        h: Double,
        reach: Double,
        far: Double,
        tap: Double,
    |
        {
            &&& call_ensures(A::of_count, (phase,), p)
            &&& call_ensures(A::of_count, (phases,), n)
            &&& #[trigger] call_ensures(A::quotient, (p, n), fraction)
            &&& call_ensures(A::of_count, (half_taps,), h)
            &&& #[trigger] call_ensures(A::difference, (h, Double { bits: ONE }), reach)
            &&& #[trigger] call_ensures(A::sum, (fraction, reach), far)
            &&& call_ensures(A::of_count, (k,), tap)
            &&& #[trigger] call_ensures(A::difference, (far, tap), distance)
        }
}

/// Computes the distance from an output position to a tap.
fn tap_distance<A: Arithmetic>(half_taps: u64, phase: u64, phases: u64, k: u64) -> (distance:
    Double)
    ensures
        is_distance::<A>(half_taps, phase, phases, k, distance),
{
    let p = A::of_count(phase);
    let n = A::of_count(phases);
    let fraction = A::quotient(p, n);
    let h = A::of_count(half_taps);
    let reach = A::difference(h, Double { bits: ONE });
    let far = A::sum(fraction, reach);
    let tap = A::of_count(k);
    let distance = A::difference(far, tap);
    distance
}

/// The coefficient of tap `k` of `2 * half_taps`, at sub-phase `phase / phases`, before the
/// kernel is normalized: the window times the sinc function of the distance to the tap, which
/// the cutoff stretches.
#[verifier::opaque]
pub open spec fn is_tap<A: Arithmetic>(
    cutoff: Double,
    half_taps: usize,
    phase: usize,
    phases: usize,
    k: usize,
    tap: Double,
) -> bool {
    exists|distance: Double, angle: Double, weight: Double, x: Double, lobe: Double|
        {
            &&& #[trigger] is_distance::<A>(
                half_taps as u64,
                phase as u64,
                phases as u64,
                k as u64,
                distance,
            )
            &&& is_window_angle::<A>(k as u64, (2 * half_taps) as u64, angle)
            &&& #[trigger] is_blackman::<A>(angle, weight)
            &&& call_ensures(A::product, (cutoff, distance), x)
            &&& #[trigger] is_sinc::<A>(x, lobe)
            &&& call_ensures(A::product, (weight, lobe), tap)
        }
}

/// Computes the coefficient of a tap.
pub fn kernel_tap<A: Arithmetic>(
    cutoff: Double,
    half_taps: usize,
    phase: usize,
    phases: usize,
    k: usize,
) -> (tap: Double)
    requires
        0 < half_taps,
        2 * half_taps <= u64::MAX,
    ensures
        is_tap::<A>(cutoff, half_taps, phase, phases, k, tap),
{
    proof {
        reveal(is_tap);
    }
    let distance = tap_distance::<A>(half_taps as u64, phase as u64, phases as u64, k as u64);
    let taps: u64 = 2 * half_taps as u64;
    let weight = blackman::<A>(k as u64, taps);
    let ghost angle = choose|angle: Double| #[trigger]
        is_window_angle::<A>(k as u64, taps, angle) && is_blackman::<A>(angle, weight);
    let x = A::product(cutoff, distance);
    let lobe = sinc::<A>(x);
    let tap = A::product(weight, lobe);
    proof {
        assert(is_window_angle::<A>(k as u64, (2 * half_taps) as u64, angle));
        assert(is_sinc::<A>(x, lobe));
    }
    tap
}

/// An arithmetic in which every operation has one result.
#[verifier::opaque]
pub open spec fn one_result<A: Arithmetic>() -> bool {
    &&& forall|a: Double, b: Double, x: Double, y: Double|
        #[trigger] call_ensures(A::sum, (a, b), x) && #[trigger] call_ensures(
            A::sum,
            (a, b),
            y,
        ) ==> x == y
    &&& forall|a: Double, b: Double, x: Double, y: Double|
        #[trigger] call_ensures(A::difference, (a, b), x) && #[trigger] call_ensures(
            A::difference,
            (a, b),
            y,
        ) ==> x == y
    &&& forall|a: Double, b: Double, x: Double, y: Double|
        #[trigger] call_ensures(A::product, (a, b), x) && #[trigger] call_ensures(
            A::product,
            (a, b),
            y,
        ) ==> x == y
    &&& forall|a: Double, b: Double, x: Double, y: Double|
        #[trigger] call_ensures(A::quotient, (a, b), x) && #[trigger] call_ensures(
            A::quotient,
            (a, b),
            y,
        ) ==> x == y
    &&& forall|a: A::Sample, b: A::Sample, x: A::Sample, y: A::Sample|
        #[trigger] call_ensures(A::sample_sum, (a, b), x) && #[trigger] call_ensures(
            A::sample_sum,
            (a, b),
            y,
        ) ==> x == y
    &&& forall|a: A::Sample, b: A::Sample, x: A::Sample, y: A::Sample|
        #[trigger] call_ensures(A::sample_difference, (a, b), x) && #[trigger] call_ensures(
            A::sample_difference,
            (a, b),
            y,
        ) ==> x == y
    &&& forall|a: A::Sample, b: A::Sample, x: A::Sample, y: A::Sample|
        #[trigger] call_ensures(A::sample_product, (a, b), x) && #[trigger] call_ensures(
            A::sample_product,
            (a, b),
            y,
        ) ==> x == y
    &&& forall|a: Double, x: Double, y: Double|
        #[trigger] call_ensures(A::sine, (a,), x) && #[trigger] call_ensures(
            A::sine,
            (a,),
            y,
        ) ==> x == y
    &&& forall|a: Double, x: Double, y: Double|
        #[trigger] call_ensures(A::cosine, (a,), x) && #[trigger] call_ensures(
            A::cosine,
            (a,),
            y,
        ) ==> x == y
    &&& forall|a: u64, x: Double, y: Double|
        #[trigger] call_ensures(A::of_count, (a,), x) && #[trigger] call_ensures(
            A::of_count,
            (a,),
            y,
        ) ==> x == y
    &&& forall|a: i64, x: Double, y: Double|
        #[trigger] call_ensures(A::of_frame, (a,), x) && #[trigger] call_ensures(
            A::of_frame,
            (a,),
            y,
        ) ==> x == y
    &&& forall|a: Double, x: A::Sample, y: A::Sample|
        #[trigger] call_ensures(A::narrow, (a,), x) && #[trigger] call_ensures(
            A::narrow,
            (a,),
            y,
        ) ==> x == y
    &&& forall|x: A::Sample, y: A::Sample|
        #[trigger] call_ensures(A::silence, (), x) && #[trigger] call_ensures(A::silence, (), y)
            ==> x == y
}

/// There is one next position.
pub proof fn lemma_advance_is_one<A: Arithmetic>(
    position: Double,
    ratio: Double,
    x: Double,
    y: Double,
)
    requires
        one_result::<A>(),
        advanced::<A>(position, ratio, x),
        advanced::<A>(position, ratio, y),
    ensures
        x == y,
{
    reveal(one_result);
    reveal(advanced);
}

/// There is one fraction.
pub proof fn lemma_fraction_is_one<A: Arithmetic>(
    position: Double,
    frame: i64,
    x: Double,
    y: Double,
)
    requires
        one_result::<A>(),
        is_fraction::<A>(position, frame, x),
        is_fraction::<A>(position, frame, y),
    ensures
        x == y,
{
    reveal(one_result);
}

/// There is one blend.
pub proof fn lemma_blend_is_one<A: Arithmetic>(
    a: A::Sample,
    b: A::Sample,
    position: Double,
    frame: i64,
    x: A::Sample,
    y: A::Sample,
)
    requires
        one_result::<A>(),
        is_blend::<A>(a, b, position, frame, x),
        is_blend::<A>(a, b, position, frame, y),
    ensures
        x == y,
{
    reveal(one_result);
    reveal(is_blend);
    let (f1, w1, r1, p1) = choose|
        fraction: Double,
        weight: A::Sample,
        rise: A::Sample,
        part: A::Sample,
    |
        {
            &&& is_fraction::<A>(position, frame, fraction)
            &&& #[trigger] call_ensures(A::narrow, (fraction,), weight)
            &&& call_ensures(A::sample_difference, (b, a), rise)
            &&& #[trigger] call_ensures(A::sample_product, (rise, weight), part)
            &&& call_ensures(A::sample_sum, (a, part), x)
        };
    let (f2, w2, r2, p2) = choose|
        fraction: Double,
        weight: A::Sample,
        rise: A::Sample,
        part: A::Sample,
    |
        {
            &&& is_fraction::<A>(position, frame, fraction)
            &&& #[trigger] call_ensures(A::narrow, (fraction,), weight)
            &&& call_ensures(A::sample_difference, (b, a), rise)
            &&& #[trigger] call_ensures(A::sample_product, (rise, weight), part)
            &&& call_ensures(A::sample_sum, (a, part), y)
        };
    lemma_fraction_is_one::<A>(position, frame, f1, f2);
}

/// There is one nearest phase.
pub proof fn lemma_phase_is_one<A: Arithmetic>(
    position: Double,
    frame: i64,
    phases: usize,
    x: u64,
    y: u64,
)
    requires
        one_result::<A>(),
        is_nearest_phase::<A>(position, frame, phases, x),
        is_nearest_phase::<A>(position, frame, phases, y),
    ensures
        x == y,
{
    reveal(one_result);
    reveal(is_nearest_phase);
    let (f1, c1, s1) = choose|fraction: Double, scale: Double, scaled: Double|
        {
            &&& is_fraction::<A>(position, frame, fraction)
            &&& call_ensures(A::of_count, (phases as u64,), scale)
            &&& #[trigger] call_ensures(A::product, (fraction, scale), scaled)
            &&& x == scaled.rounded()
        };
    let (f2, c2, s2) = choose|fraction: Double, scale: Double, scaled: Double|
        {
            &&& is_fraction::<A>(position, frame, fraction)
            &&& call_ensures(A::of_count, (phases as u64,), scale)
            &&& #[trigger] call_ensures(A::product, (fraction, scale), scaled)
            &&& y == scaled.rounded()
        };
    lemma_fraction_is_one::<A>(position, frame, f1, f2);
}

/// There is one number of stretched taps.
pub proof fn lemma_stretch_is_one<A: Arithmetic>(half_taps: usize, cutoff: Double, x: u64, y: u64)
    requires
        one_result::<A>(),
        is_stretched::<A>(half_taps, cutoff, x),
        is_stretched::<A>(half_taps, cutoff, y),
    ensures
        x == y,
{
    reveal(one_result);
}

/// There is one length that input is worth.
pub proof fn lemma_worth_is_one<A: Arithmetic>(ratio: Double, frames: u64, x: u64, y: u64)
    requires
        one_result::<A>(),
        is_worth::<A>(ratio, frames, x),
        is_worth::<A>(ratio, frames, y),
    ensures
        x == y,
{
    reveal(one_result);
}

/// There is one next sum of a convolution.
pub proof fn lemma_accumulate_is_one<A: Arithmetic>(
    sum: A::Sample,
    coefficient: A::Sample,
    sample: A::Sample,
    x: A::Sample,
    y: A::Sample,
)
    requires
        one_result::<A>(),
        accumulated::<A>(sum, coefficient, sample, x),
        accumulated::<A>(sum, coefficient, sample, y),
    ensures
        x == y,
{
    reveal(one_result);
    reveal(accumulated);
}

/// There is one gain.
pub proof fn lemma_gain_is_one<A: Arithmetic>(sum: Double, x: A::Sample, y: A::Sample)
    requires
        one_result::<A>(),
        is_gain::<A>(sum, x),
        is_gain::<A>(sum, y),
    ensures
        x == y,
{
    reveal(one_result);
}

/// There is one value of the sinc function.
pub proof fn lemma_sinc_is_one<A: Arithmetic>(argument: Double, x: Double, y: Double)
    requires
        one_result::<A>(),
        is_sinc::<A>(argument, x),
        is_sinc::<A>(argument, y),
    ensures
        x == y,
{
    reveal(one_result);
}

/// There is one angle of a tap.
pub proof fn lemma_angle_is_one<A: Arithmetic>(k: u64, taps: u64, x: Double, y: Double)
    requires
        one_result::<A>(),
        is_window_angle::<A>(k, taps, x),
        is_window_angle::<A>(k, taps, y),
    ensures
        x == y,
{
    reveal(one_result);
}

/// There is one weight of a window.
pub proof fn lemma_blackman_is_one<A: Arithmetic>(angle: Double, x: Double, y: Double)
    requires
        one_result::<A>(),
        is_blackman::<A>(angle, x),
        is_blackman::<A>(angle, y),
    ensures
        x == y,
{
    reveal(one_result);
}

/// There is one distance to a tap.
pub proof fn lemma_distance_is_one<A: Arithmetic>(
    half_taps: u64,
    phase: u64,
    phases: u64,
    k: u64,
    x: Double,
    y: Double,
)
    requires
        one_result::<A>(),
        is_distance::<A>(half_taps, phase, phases, k, x),
        is_distance::<A>(half_taps, phase, phases, k, y),
    ensures
        x == y,
{
    reveal(one_result);
}

/// There is one coefficient of a tap.
pub proof fn lemma_tap_is_one<A: Arithmetic>(
    cutoff: Double,
    half_taps: usize,
    phase: usize,
    phases: usize,
    k: usize,
    x: Double,
    y: Double,
)
    requires
        one_result::<A>(),
        is_tap::<A>(cutoff, half_taps, phase, phases, k, x),
        is_tap::<A>(cutoff, half_taps, phase, phases, k, y),
    ensures
        x == y,
{
    reveal(is_tap);
    let (h, p, n, j) = (half_taps as u64, phase as u64, phases as u64, k as u64);
    let taps = (2 * half_taps) as u64;
    let (d1, a1, w1, x1, l1) = choose|
        distance: Double,
        angle: Double,
        weight: Double,
        x0: Double,
        lobe: Double,
    |
        {
            &&& #[trigger] is_distance::<A>(h, p, n, j, distance)
            &&& is_window_angle::<A>(j, taps, angle)
            &&& #[trigger] is_blackman::<A>(angle, weight)
            &&& call_ensures(A::product, (cutoff, distance), x0)
            &&& #[trigger] is_sinc::<A>(x0, lobe)
            &&& call_ensures(A::product, (weight, lobe), x)
        };
    let (d2, a2, w2, x2, l2) = choose|
        distance: Double,
        angle: Double,
        weight: Double,
        x0: Double,
        lobe: Double,
    |
        {
            &&& #[trigger] is_distance::<A>(h, p, n, j, distance)
            &&& is_window_angle::<A>(j, taps, angle)
            &&& #[trigger] is_blackman::<A>(angle, weight)
            &&& call_ensures(A::product, (cutoff, distance), x0)
            &&& #[trigger] is_sinc::<A>(x0, lobe)
            &&& call_ensures(A::product, (weight, lobe), y)
        };
    lemma_distance_is_one::<A>(h, p, n, j, d1, d2);
    lemma_angle_is_one::<A>(j, taps, a1, a2);
    lemma_blackman_is_one::<A>(a1, w1, w2);
    assert(x1 == x2) by {
        reveal(one_result);
    }
    lemma_sinc_is_one::<A>(x1, l1, l2);
    reveal(one_result);
}

/// The position is at the start of frame `frame`, with nothing behind it.
pub open spec fn is_at<A: Arithmetic>(position: Double, frame: i64) -> bool {
    &&& position.frame() == frame
    &&& forall|fraction: Double| #[trigger]
        is_fraction::<A>(position, frame, fraction) ==> fraction.bits == 0
}

/// An arithmetic that counts frames exactly, as far as `limit`: at a ratio of one each step leads
/// from the start of one frame to the start of the next.
pub open spec fn counts_frames<A: Arithmetic>(limit: int) -> bool {
    &&& is_at::<A>(Double { bits: 0 }, 0)
    &&& forall|position: Double, frame: i64, next: Double|
        0 <= frame < limit && #[trigger] is_at::<A>(position, frame) && #[trigger] advanced::<A>(
            position,
            Double { bits: ONE },
            next,
        ) ==> is_at::<A>(next, (frame + 1) as i64)
}

/// Nothing of the way from `a` to `b` is `a`: `a + (b - a) * 0`.
pub open spec fn starts_at<A: Arithmetic>(a: A::Sample, b: A::Sample) -> bool {
    forall|weight: A::Sample, rise: A::Sample, part: A::Sample, result: A::Sample|
        call_ensures(A::narrow, (Double { bits: 0 },), weight) && call_ensures(
            A::sample_difference,
            (b, a),
            rise,
        ) && #[trigger] call_ensures(A::sample_product, (rise, weight), part)
            && #[trigger] call_ensures(A::sample_sum, (a, part), result) ==> result == a
}

/// At the start of a frame a blend is the sample there.
pub proof fn lemma_blend_at_a_frame<A: Arithmetic>(
    a: A::Sample,
    b: A::Sample,
    position: Double,
    frame: i64,
    result: A::Sample,
)
    requires
        is_at::<A>(position, frame),
        starts_at::<A>(a, b),
        is_blend::<A>(a, b, position, frame, result),
    ensures
        result == a,
{
    reveal(is_blend);
    let (fraction, weight, rise, part) = choose|
        fraction: Double,
        weight: A::Sample,
        rise: A::Sample,
        part: A::Sample,
    |
        {
            &&& is_fraction::<A>(position, frame, fraction)
            &&& #[trigger] call_ensures(A::narrow, (fraction,), weight)
            &&& call_ensures(A::sample_difference, (b, a), rise)
            &&& #[trigger] call_ensures(A::sample_product, (rise, weight), part)
            &&& call_ensures(A::sample_sum, (a, part), result)
        };
    assert(is_fraction::<A>(position, frame, fraction));
    assert(fraction == Double { bits: 0 });
}

} // verus!
