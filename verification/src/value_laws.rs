//! What the formulas come to, as numbers: where the arithmetic rounds its results, each formula
//! gives the value it is there for, exactly or to within the rounding.

use vstd::prelude::*;
use vstd::arithmetic::div_mod::lemma_fundamental_div_mod;
use vstd::arithmetic::div_mod::lemma_fundamental_div_mod_converse;
use vstd::arithmetic::power2::lemma2_to64;
use vstd::arithmetic::power2::lemma_pow2_adds;
use vstd::arithmetic::power2::lemma_pow2_pos;
use vstd::arithmetic::power2::lemma_pow2_strictly_increases;
use vstd::arithmetic::power2::pow2;

use crate::arithmetic::Arithmetic;
use crate::double::law_ceiling_is_the_least_above;
use crate::double::law_raised_is_the_larger;
use crate::double::law_rounded_is_the_nearest;
use crate::double::lemma_fraction;
use crate::double::lemma_one_units;
use crate::double::min_positive_units;
use crate::double::Double;
use crate::double::HIDDEN;
use crate::double::ONE;
use crate::formulas::advanced;
use crate::formulas::cutoffs_compared;
use crate::formulas::is_fraction;
use crate::formulas::is_nearest_phase;
use crate::formulas::is_ratio;
use crate::formulas::is_stretched;
use crate::formulas::is_worth;
use crate::formulas::ratios_compared;
use crate::formulas::SAME_CUTOFF;
use crate::formulas::SAME_RATIO;
use crate::rounding::distance;
use crate::rounding::fine;
use crate::rounding::is_rounding;
use crate::rounding::lemma_near_reduced;
use crate::rounding::lemma_number;
use crate::rounding::lemma_opposite;
use crate::rounding::lemma_rounding_is_exact;
use crate::rounding::lemma_rounding_is_near;
use crate::rounding::lemma_whole_is_exact;
use crate::rounding::lemma_whole_number;
use crate::rounding::near;
use crate::rounding::reach;
use crate::rounding::rounds;
use crate::rounding::unit;
use crate::sinc::limited_taps;
use crate::sinc::phase_of;
use crate::sinc::taps_for;
use crate::sinc::HALF_TAPS;
use crate::sinc::SUB_PHASES;
use crate::stream::spaced;

verus! {

/// How far into its frame a position lies, in units of the smallest number.
pub open spec fn into_frame(position: Double) -> int {
    position.units() - position.frame() * unit()
}

/// The value of a bit pattern, in units of the smallest number.
pub open spec fn value_of(bits: u64) -> int {
    (Double { bits }).units()
}

/// `a * b` is within reach where `a` and `b` are no larger than `2^p` and `2^q`.
proof fn lemma_within_reach(a: int, b: int, p: nat, q: nat)
    requires
        0 <= a <= pow2(p),
        0 <= b <= pow2(q),
        p + q <= 2090,
    ensures
        0 <= a * b <= reach(),
{
    lemma_pow2_adds(p, q);
    assert(0 <= a * b <= pow2(p) * pow2(q)) by (nonlinear_arith)
        requires
            0 <= a <= pow2(p),
            0 <= b <= pow2(q),
    ;
    if p + q < 2090 {
        lemma_pow2_strictly_increases(p + q, 2090);
    }
}

/// `unit()` and the values around it are within reach.
pub proof fn lemma_reach()
    ensures
        unit() > 0,
        fine() == pow2(52),
        reach() == pow2(1016) * unit(),
        pow2(64) == 0x1_0000_0000_0000_0000,
        pow2(32) == 0x1_0000_0000,
        pow2(1016) >= pow2(64),
        unit() >= fine() * fine(),
{
    lemma2_to64();
    lemma_pow2_pos(1074);
    lemma_pow2_adds(1016, 1074);
    lemma_pow2_adds(20, 32);
    lemma_pow2_adds(32, 32);
    lemma_pow2_strictly_increases(64, 1016);
    lemma_pow2_adds(52, 52);
    lemma_pow2_strictly_increases(104, 1074);
}

/// A position that is not below zero falls into a whole number and a rest that are numbers both,
/// and the rest has no more than 53 bits.
proof fn lemma_split(position: Double) -> (parts: (nat, nat))
    requires
        position.is_finite(),
        position.units() >= 0,
        position.frame() < i64::MAX,
    ensures
        parts.0 < 2 * HIDDEN,
        parts.1 <= 1074,
        into_frame(position) == parts.0 * pow2(parts.1),
        0 <= into_frame(position) < unit(),
        exists|start: Double| #[trigger]
            start.is_finite() && start.units() == position.frame() * unit(),
{
    lemma_reach();
    let one = unit();
    let u = position.units();
    let magnitude = position.magnitude();
    let h = HIDDEN as nat;
    let exponent = magnitude / h;
    let fraction = magnitude % h;
    lemma_fundamental_div_mod(magnitude as int, h as int);
    lemma_fundamental_div_mod(u, one);
    let q = u / one;
    assert(q >= 0) by (nonlinear_arith)
        requires
            u == one * q + u % one,
            0 <= u % one < one,
            u >= 0,
            one > 0,
    ;
    assert(position.frame() == q);
    assert(q * one == one * q) by (nonlinear_arith);
    if position.is_negative() {
        assert(u == 0);
        lemma2_to64();
        let start = lemma_whole_number(0);
        lemma_fundamental_div_mod_converse(0, one, 0, 0);
        assert(start.units() == position.frame() * unit());
        (0nat, 0nat)
    } else if exponent == 0 {
        lemma2_to64();
        lemma_pow2_strictly_increases(52, 1074);
        lemma_fundamental_div_mod_converse(u, one, 0, u);
        let start = lemma_whole_number(0);
        assert(start.units() == position.frame() * unit());
        (fraction, 0nat)
    } else {
        let x = (exponent - 1) as nat;
        let s = h + fraction;
        assert(u == s * pow2(x));
        lemma_pow2_pos(x);
        if x >= 1074 {
            lemma2_to64();
            let w = pow2((x - 1074) as nat) as int;
            lemma_pow2_adds((x - 1074) as nat, 1074);
            assert(u == (s * w) * one) by (nonlinear_arith)
                requires
                    u == s * pow2(x),
                    pow2(x) == w * one,
            ;
            lemma_fundamental_div_mod_converse(u, one, s * w, 0);
            assert(position.is_finite() && position.units() == position.frame() * unit());
            (0nat, 0nat)
        } else {
            let level = x + 1;
            lemma_fraction(s, level);
            let d = pow2((1075 - level) as nat) as int;
            lemma_pow2_pos((1075 - level) as nat);
            lemma_pow2_adds(x, (1074 - x) as nat);
            lemma_fundamental_div_mod(s as int, d);
            let m = s as int % d;
            assert(q == s as int / d);
            assert(u - q * one == m * pow2(x)) by (nonlinear_arith)
                requires
                    u == s * pow2(x),
                    one == pow2(x) * d,
                    s == d * q + m,
            ;
            assert(0 <= q <= s && 0 <= m <= s) by (nonlinear_arith)
                requires
                    s == d * q + m,
                    0 <= m < d,
                    q >= 0,
                    d >= 1,
            ;
            let start = lemma_whole_number(q);
            assert(start.units() == position.frame() * unit());
            (m as nat, x)
        }
    }
}

/// The fraction of a position is the position less its own frame, exactly, at every frame there
/// is: frame and fraction add up to the position, and the fraction is less than a frame.
pub proof fn law_fraction_is_what_lies_behind_the_frame<A: Arithmetic>(
    position: Double,
    fraction: Double,
)
    requires
        rounds::<A>(),
        position.is_finite(),
        position.units() >= 0,
        position.frame() < i64::MAX,
        is_fraction::<A>(position, position.frame() as i64, fraction),
    ensures
        fraction.is_finite(),
        position.frame() * unit() + fraction.units() == position.units(),
        0 <= fraction.units() < unit(),
{
    reveal(rounds);
    lemma_reach();
    let frame = position.frame();
    let (m, x) = lemma_split(position);
    let whole = choose|start: Double| #[trigger]
        start.is_finite() && start.units() == position.frame() * unit();
    assert(frame >= 0) by {
        lemma_fundamental_div_mod(position.units(), unit());
        assert(position.units() / unit() >= 0) by (nonlinear_arith)
            requires
                position.units() == unit() * (position.units() / unit()) + position.units()
                    % unit(),
                0 <= position.units() % unit() < unit(),
                position.units() >= 0,
                unit() > 0,
        ;
    }
    let start = choose|start: Double|
        {
            &&& #[trigger] call_ensures(A::of_frame, (frame as i64,), start)
            &&& call_ensures(A::difference, (position, start), fraction)
        };
    assert(is_rounding(start, frame * unit(), 1));
    lemma_rounding_is_exact(start, whole, frame * unit(), 1);
    let rest = lemma_number(m, x);
    lemma2_to64();
    lemma_within_reach(into_frame(position), 1, 1074, 0);
    assert(is_rounding(fraction, into_frame(position), 1));
    lemma_rounding_is_exact(fraction, rest, into_frame(position), 1);
}

/// The fraction of a position does not depend on which frame it lies in: positions that are whole
/// frames apart have fractions of one value.
pub proof fn law_fraction_is_the_same_in_every_frame<A: Arithmetic>(
    a: Double,
    b: Double,
    apart: int,
    x: Double,
    y: Double,
)
    requires
        rounds::<A>(),
        a.is_finite(),
        b.is_finite(),
        0 <= a.units(),
        0 <= b.units(),
        a.frame() < i64::MAX,
        b.frame() < i64::MAX,
        b.units() == a.units() + apart * unit(),
        is_fraction::<A>(a, a.frame() as i64, x),
        is_fraction::<A>(b, b.frame() as i64, y),
    ensures
        b.frame() == a.frame() + apart,
        x.units() == y.units(),
{
    lemma_reach();
    law_fraction_is_what_lies_behind_the_frame::<A>(a, x);
    law_fraction_is_what_lies_behind_the_frame::<A>(b, y);
    let one = unit();
    let (fa, fb) = (a.frame(), b.frame());
    let n = fb - fa - apart;
    assert(n * one == fb * one - fa * one - apart * one) by (nonlinear_arith)
        requires
            n == fb - fa - apart,
    ;
    assert(n * one == x.units() - y.units());
    assert(n == 0) by (nonlinear_arith)
        requires
            -one < n * one < one,
            one > 0,
    ;
}

/// The nearest phase of a position, where it was not limited.
proof fn lemma_nearest_phase<A: Arithmetic>(position: Double, nearest: u64)
    requires
        rounds::<A>(),
        position.is_finite(),
        position.units() >= 0,
        position.frame() < i64::MAX,
        is_nearest_phase::<A>(position, position.frame() as i64, SUB_PHASES, nearest),
    ensures
        (2 * nearest - 1) * unit() <= 1024 * into_frame(position) < (2 * nearest + 1) * unit(),
        nearest <= 512,
{
    lemma_reach();
    let one = unit();
    let rest = into_frame(position);
    let (m, e) = lemma_split(position);
    let (fraction, scale, scaled): (Double, Double, Double) = {
        reveal(is_nearest_phase);
        choose|fraction: Double, scale: Double, scaled: Double|
            {
                &&& is_fraction::<A>(position, position.frame() as i64, fraction)
                &&& call_ensures(A::of_count, (SUB_PHASES as u64,), scale)
                &&& #[trigger] call_ensures(A::product, (fraction, scale), scaled)
                &&& nearest == scaled.rounded()
            }
    };
    reveal(is_nearest_phase);
    reveal(rounds);
    law_fraction_is_what_lies_behind_the_frame::<A>(position, fraction);
    lemma_whole_is_exact(scale, 512);
    let x = lemma_number(m, e + 9);
    lemma_pow2_adds(e, 9);
    lemma2_to64();
    assert(x.units() == 512 * rest) by (nonlinear_arith)
        requires
            x.units() == m * pow2(e + 9),
            pow2(e + 9) == pow2(e) * 512,
            rest == m * pow2(e),
    ;
    assert(rest * (512 * one) == x.units() * one) by (nonlinear_arith)
        requires
            x.units() == 512 * rest,
    ;
    assert(0 <= x.units() * one <= reach() * one) by (nonlinear_arith)
        requires
            0 <= x.units() <= 512 * one,
            reach() == pow2(1016) * one,
            pow2(1016) >= 512,
            one > 0,
    ;
    assert(is_rounding(scaled, rest * (512 * one), one));
    lemma_rounding_is_exact(scaled, x, rest * (512 * one), one);
    law_rounded_is_the_nearest(scaled);
    lemma_rounded_limited(scaled);
    let n = scaled.rounded();
    assert(scaled.units() == 512 * rest && n == nearest);
    assert((2 * n - 1) * one == (2 * nearest - 1) * one);
    assert((2 * n + 1) * one == (2 * nearest + 1) * one);
    if scaled.units() == 0 {
        assert((2 * nearest - 1) * one < 0 && (2 * nearest + 1) * one == one) by (nonlinear_arith)
            requires
                nearest == 0,
                one > 0,
        ;
    }
    if nearest > 512 {
        assert((2 * nearest - 1) * one >= 1025 * one) by (nonlinear_arith)
            requires
                nearest > 512,
                one > 0,
        ;
    }
}

/// A number below `600.0` is not limited when it is rounded.
proof fn lemma_rounded_limited(x: Double)
    requires
        x.is_finite(),
        0 <= x.units() <= 512 * unit(),
    ensures
        x.rounded() < u64::MAX,
{
    lemma_reach();
    let one = unit();
    let q = (2 * x.units() + one) / (2 * one);
    lemma_fundamental_div_mod(2 * x.units() + one, 2 * one);
    assert(q <= 600) by (nonlinear_arith)
        requires
            2 * x.units() + one == (2 * one) * q + (2 * x.units() + one) % (2 * one),
            0 <= (2 * x.units() + one) % (2 * one),
            x.units() <= 512 * one,
            one > 0,
    ;
}

/// The kernel that a frame is made with is the one nearest to its position: of all 512 phases of
/// a frame none is closer than the phase of a position, but for the start of the next frame,
/// which the last phase stands in for.
pub proof fn law_phase_is_the_nearest<A: Arithmetic>(position: Double, phase: usize)
    requires
        rounds::<A>(),
        position.is_finite(),
        position.units() >= 0,
        position.frame() < i64::MAX,
        phase_of::<A>(position, phase),
    ensures
        phase < 512,
        (2 * phase - 1) * unit() <= 1024 * into_frame(position),
        1024 * into_frame(position) < (2 * phase + 1) * unit() || phase == 511,
{
    lemma_reach();
    let nearest = choose|nearest: u64| #[trigger]
        is_nearest_phase::<A>(position, position.frame() as i64, SUB_PHASES, nearest) && phase
            == if nearest < SUB_PHASES {
            nearest as usize
        } else {
            (SUB_PHASES - 1) as usize
        };
    lemma_nearest_phase::<A>(position, nearest);
    let one = unit();
    assert((2 * phase - 1) * one <= (2 * nearest - 1) * one) by (nonlinear_arith)
        requires
            phase <= nearest,
            one > 0,
    ;
}

/// Positions of one frame that are further apart than a phase have kernels of their own, the last
/// phase aside; and every phase is that of some position.
pub proof fn law_phases_tell_positions_apart<A: Arithmetic>(
    a: Double,
    b: Double,
    p: usize,
    q: usize,
)
    requires
        rounds::<A>(),
        a.is_finite(),
        b.is_finite(),
        0 <= a.units(),
        0 <= b.units(),
        a.frame() == b.frame() < i64::MAX,
        phase_of::<A>(a, p),
        phase_of::<A>(b, q),
        512 * (b.units() - a.units()) > unit(),
    ensures
        p < q || p == 511,
{
    law_phase_is_the_nearest::<A>(a, p);
    law_phase_is_the_nearest::<A>(b, q);
    lemma_reach();
    let one = unit();
    if q <= p && p != 511 {
        assert((2 * q + 1) * one <= (2 * p + 1) * one && (2 * p + 1) * one == (2 * p - 1) * one + 2
            * one) by (nonlinear_arith)
            requires
                q <= p,
                one > 0,
        ;
        assert(false);
    }
}

/// A position right at a phase has that phase, so that every kernel of the table is used.
pub proof fn law_every_phase_is_used<A: Arithmetic>(position: Double, at: usize, phase: usize)
    requires
        rounds::<A>(),
        position.is_finite(),
        position.units() >= 0,
        position.frame() < i64::MAX,
        at < 512,
        512 * into_frame(position) == at * unit(),
        phase_of::<A>(position, phase),
    ensures
        phase == at,
{
    law_phase_is_the_nearest::<A>(position, phase);
    lemma_reach();
    let one = unit();
    assert(phase == at) by (nonlinear_arith)
        requires
            (2 * phase - 1) * one <= 2 * (at * one),
            2 * (at * one) < (2 * phase + 1) * one || phase == 511,
            at < 512,
            phase < 512,
            one > 0,
    ;
}

/// The ratio of two rates is the quotient of the rates, to within the rounding, for all rates
/// there are; and exactly that quotient, where it is a number.
pub proof fn law_ratio_is_the_quotient_of_the_rates<A: Arithmetic>(
    input_rate: u32,
    output_rate: u32,
    ratio: Double,
)
    requires
        rounds::<A>(),
        input_rate > 0,
        output_rate > 0,
        is_ratio::<A>(input_rate, output_rate, ratio),
    ensures
        near(ratio, output_rate * unit(), input_rate as int),
        forall|x: Double|
            #[trigger] x.is_finite() && x.units() * input_rate == output_rate * unit()
                ==> ratio.units() == x.units(),
        input_rate == output_rate ==> ratio.units() == unit(),
{
    reveal(rounds);
    lemma_reach();
    let one = unit();
    let (output, input) = choose|output: Double, input: Double|
        {
            &&& #[trigger] call_ensures(A::of_count, (output_rate as u64,), output)
            &&& #[trigger] call_ensures(A::of_count, (input_rate as u64,), input)
            &&& call_ensures(A::quotient, (output, input), ratio)
        };
    lemma_whole_is_exact(output, output_rate as int);
    lemma_whole_is_exact(input, input_rate as int);
    let n = output_rate * one;
    let d = input_rate as int;
    assert(d * one > 0 && 0 <= n * one <= reach() * (d * one)) by (nonlinear_arith)
        requires
            n == output_rate * one,
            0 < output_rate < 0x1_0000_0000,
            d >= 1,
            one > 0,
            reach() == pow2(1016) * one,
            pow2(1016) >= 0x1_0000_0000,
    ;
    assert(is_rounding(ratio, n * one, d * one));
    lemma_rounding_is_near(ratio, n * one, d * one);
    lemma_near_reduced(ratio, n, d, one);
    assert forall|x: Double| #[trigger]
        x.is_finite() && x.units() * input_rate == output_rate * unit() implies ratio.units()
        == x.units() by {
        assert(x.units() * (d * one) == n * one) by (nonlinear_arith)
            requires
                x.units() * d == n,
        ;
        lemma_rounding_is_exact(ratio, x, n * one, d * one);
    }
    if input_rate == output_rate {
        let x = lemma_whole_number(1);
        assert(x.units() * input_rate == output_rate * unit()) by (nonlinear_arith)
            requires
                x.units() == 1 * unit(),
                input_rate == output_rate,
        ;
    }
}

/// The higher the input rate, the lower the ratio, over all rates there are.
pub proof fn law_ratio_falls_with_the_input_rate<A: Arithmetic>(
    lower: u32,
    higher: u32,
    output_rate: u32,
    r1: Double,
    r2: Double,
)
    requires
        rounds::<A>(),
        0 < lower < higher,
        output_rate > 0,
        is_ratio::<A>(lower, output_rate, r1),
        is_ratio::<A>(higher, output_rate, r2),
    ensures
        r1.units() > r2.units(),
{
    law_ratio_is_the_quotient_of_the_rates::<A>(lower, output_rate, r1);
    law_ratio_is_the_quotient_of_the_rates::<A>(higher, output_rate, r2);
    lemma_reach();
    lemma_pow2_strictly_increases(200, 1074);
    lemma_pow2_strictly_increases(64, 200);
    lemma_pow2_adds(100, 100);
    let x = output_rate * unit();
    assert(x >= unit()) by (nonlinear_arith)
        requires
            x == output_rate * unit(),
            output_rate >= 1,
            unit() > 0,
    ;
    let (a, b) = (lower as int, higher as int);
    let (s, t) = (r1.units(), r2.units());
    let f = fine();
    lemma_falls(s, t, a, b, x, f);
}

proof fn lemma_falls(s: int, t: int, a: int, b: int, x: int, f: int)
    requires
        0 < a < b < 0x1_0000_0000,
        f == 0x10_0000_0000_0000,
        x >= pow2(200),
        distance(s * a, x) * f <= distance(x, 0) + a * f,
        distance(t * b, x) * f <= distance(x, 0) + b * f,
    ensures
        s > t,
{
    lemma_pow2_adds(100, 100);
    lemma_pow2_adds(64, 36);
    lemma2_to64();
    lemma_pow2_adds(20, 44);
    assert(x >= f * f) by {
        lemma_pow2_adds(20, 32);
        lemma_pow2_adds(52, 52);
        lemma_pow2_strictly_increases(104, 200);
    }
    assert((s * a) * f >= x * f - x - a * f) by (nonlinear_arith)
        requires
            distance(s * a, x) * f <= x + a * f,
            distance(s * a, x) >= x - s * a,
            f > 0,
    ;
    assert((t * b) * f <= x * f + x + b * f) by (nonlinear_arith)
        requires
            distance(t * b, x) * f <= x + b * f,
            distance(t * b, x) >= t * b - x,
            f > 0,
    ;
    if s <= t {
        assert(s > 0) by (nonlinear_arith)
            requires
                (s * a) * f >= x * f - x - a * f,
                x >= f * f,
                f == 0x10_0000_0000_0000,
                0 < a < 0x1_0000_0000,
        ;
        assert(t * b >= s * a + s) by (nonlinear_arith)
            requires
                s <= t,
                s > 0,
                0 < a,
                b >= a + 1,
        ;
        assert(s * f <= 2 * x + (a + b) * f) by (nonlinear_arith)
            requires
                t * b >= s * a + s,
                (t * b) * f <= x * f + x + b * f,
                (s * a) * f >= x * f - x - a * f,
                f > 0,
        ;
        assert((s * f) * a <= (2 * x + (a + b) * f) * a) by (nonlinear_arith)
            requires
                s * f <= 2 * x + (a + b) * f,
                a > 0,
        ;
        assert((s * f) * a == (s * a) * f) by (nonlinear_arith);
        assert((2 * x + (a + b) * f) * a <= 0x2_0000_0000 * x + 0x2_0000_0000 * 0x1_0000_0000 * f)
            by (nonlinear_arith)
            requires
                0 < a < 0x1_0000_0000,
                0 < b < 0x1_0000_0000,
                x > 0,
                f > 0,
        ;
        assert(x * f - x - a * f >= 0x8_0000_0000 * x) by (nonlinear_arith)
            requires
                f == 0x10_0000_0000_0000,
                a < 0x1_0000_0000,
                x >= f * f,
        ;
        assert(0x2_0000_0000 * 0x1_0000_0000 * f < 0x4_0000_0000 * x) by (nonlinear_arith)
            requires
                f == 0x10_0000_0000_0000,
                x >= f * f,
        ;
    }
}

/// The frames that input is worth are the least whole number that is not below ratio times
/// frames, where that product is a number; and never a whole frame off it. At a ratio of one
/// frames are worth as many frames.
pub proof fn law_worth_is_ratio_times_frames<A: Arithmetic>(ratio: Double, frames: u64, owed: u64)
    requires
        rounds::<A>(),
        ratio.is_finite(),
        ratio.units() >= 0,
        frames <= 2 * HIDDEN,
        ratio.units() * frames <= 2 * HIDDEN * unit(),
        is_worth::<A>(ratio, frames, owed),
    ensures
        owed > 0 ==> (owed - 1) * unit() < ratio.units() * frames,
        ratio.units() * frames < (owed + 1) * unit(),
        forall|x: Double|
            #[trigger] x.is_finite() && x.units() == ratio.units() * frames ==> ratio.units()
                * frames <= owed * unit(),
        ratio.units() == unit() ==> owed == frames,
{
    reveal(rounds);
    lemma_reach();
    let one = unit();
    let r = ratio.units();
    let v = r * frames;
    let (count, length) = choose|count: Double, length: Double|
        {
            &&& call_ensures(A::of_count, (frames,), count)
            &&& #[trigger] call_ensures(A::product, (ratio, count), length)
            &&& owed == length.ceiling()
        };
    lemma_whole_is_exact(count, frames as int);
    assert(r * (frames * one) == v * one && 0 <= v) by (nonlinear_arith)
        requires
            v == r * frames,
            r >= 0,
            frames >= 0,
    ;
    assert(v * one <= reach() * one) by (nonlinear_arith)
        requires
            v <= 0x20_0000_0000_0000 * one,
            reach() == pow2(1016) * one,
            pow2(1016) >= 0x20_0000_0000_0000,
            one > 0,
    ;
    assert(is_rounding(length, v * one, one));
    assert(v * one <= 2 * HIDDEN * one * one) by (nonlinear_arith)
        requires
            v <= 2 * HIDDEN * one,
            one > 0,
    ;
    lemma_ceiling_of(length, v * one, one);
    let t = owed as int;
    assert(t > 0 ==> (t - 1) * one < v) by (nonlinear_arith)
        requires
            t > 0 ==> (t - 1) * (one * one) < v * one,
            one > 0,
    ;
    assert(v < (t + 1) * one) by (nonlinear_arith)
        requires
            v * one < (t + 1) * (one * one),
            one > 0,
    ;
    assert forall|x: Double| #[trigger]
        x.is_finite() && x.units() == ratio.units() * frames implies ratio.units() * frames <= owed
        * unit() by {
        assert(x.units() * one == v * one);
        assert(v <= t * one) by (nonlinear_arith)
            requires
                v * one <= t * (one * one),
                one > 0,
        ;
    }
    if r == one {
        let x = lemma_whole_number(frames as int);
        assert(v == frames * one) by (nonlinear_arith)
            requires
                v == r * frames,
                r == one,
        ;
        assert(x.is_finite() && x.units() == ratio.units() * frames);
        assert(owed == frames) by (nonlinear_arith)
            requires
                frames * one <= owed * one,
                owed > 0 ==> (owed - 1) * one < frames * one,
                one > 0,
                frames >= 0,
        ;
    }
}

/// A number that is no larger than a count of 64 bits is not limited when it is rounded up.
proof fn lemma_ceiling_limited(x: Double, top: int)
    requires
        x.is_finite(),
        0 < x.units() <= top * unit(),
        top < u64::MAX,
    ensures
        x.ceiling() <= top,
{
    lemma_reach();
    let one = unit();
    let q = (x.units() + one - 1) / one;
    lemma_fundamental_div_mod(x.units() + one - 1, one);
    assert(q <= top) by (nonlinear_arith)
        requires
            x.units() + one - 1 == one * q + (x.units() + one - 1) % one,
            0 <= (x.units() + one - 1) % one,
            x.units() <= top * one,
            one > 0,
    ;
}

/// A rounded value, rounded up to a whole number, is never a whole number off, and exact where
/// the value is a number.
pub proof fn lemma_ceiling_of(r: Double, n: int, d: int)
    requires
        d > 0,
        n >= 0,
        n <= 2 * HIDDEN * unit() * d,
        is_rounding(r, n, d),
    ensures
        r.ceiling() > 0 ==> (r.ceiling() - 1) * (unit() * d) < n,
        n < (r.ceiling() + 1) * (unit() * d),
        r.ceiling() <= 2 * HIDDEN,
        r.ceiling() >= 0,
        forall|x: Double|
            #[trigger] x.is_finite() && x.units() * d == n ==> n <= r.ceiling() * (unit() * d),
{
    lemma_reach();
    let one = unit();
    let w = one * d;
    let owed = r.ceiling();
    let l = r.units();
    assert(w > 0 && 2 * HIDDEN * one * d == 2 * HIDDEN * w) by (nonlinear_arith)
        requires
            one > 0,
            d > 0,
            w == one * d,
    ;
    let q = n / w;
    lemma_fundamental_div_mod(n, w);
    assert(0 <= q <= 2 * HIDDEN && q * w <= n < (q + 1) * w) by (nonlinear_arith)
        requires
            n == w * q + n % w,
            0 <= n % w < w,
            0 <= n <= 2 * HIDDEN * w,
            w > 0,
    ;
    let low = lemma_whole_number(q);
    assert(low.units() * d == q * w) by (nonlinear_arith)
        requires
            low.units() == q * one,
            w == one * d,
    ;
    assert(q * one <= l);
    let top = if n == q * w {
        q
    } else {
        q + 1
    };
    assert(top <= 2 * HIDDEN && n <= top * w) by (nonlinear_arith)
        requires
            top == q && n == q * w || top == q + 1 && n != q * w,
            q * w <= n < (q + 1) * w,
            n <= 2 * HIDDEN * w,
            w > 0,
            0 <= q <= 2 * HIDDEN,
    ;
    let high = lemma_whole_number(top);
    assert(high.units() * d == top * w) by (nonlinear_arith)
        requires
            high.units() == top * one,
            w == one * d,
    ;
    assert(l <= top * one);
    law_ceiling_is_the_least_above(r);
    if l > 0 {
        lemma_ceiling_limited(r, top);
        assert(owed <= top && q <= owed) by (nonlinear_arith)
            requires
                (owed - 1) * one < l <= owed * one,
                q * one <= l <= top * one,
                one > 0,
        ;
    } else {
        assert(q == 0) by (nonlinear_arith)
            requires
                q * one <= l,
                l <= 0,
                q >= 0,
                one > 0,
        ;
    }
    assert(owed > 0 ==> (owed - 1) * w < n) by (nonlinear_arith)
        requires
            owed <= top || owed == 0,
            top == q && n == q * w || top == q + 1 && n > q * w,
            w > 0,
    ;
    assert(n < (owed + 1) * w) by (nonlinear_arith)
        requires
            q <= owed,
            n < (q + 1) * w,
            w > 0,
    ;
    assert forall|x: Double| #[trigger] x.is_finite() && x.units() * d == n implies n <= owed
        * w by {
        lemma_rounding_is_exact(r, x, n, d);
        assert(n <= owed * w) by (nonlinear_arith)
            requires
                l * d == n,
                l <= owed * one || l <= 0 && owed == 0,
                w == one * d,
                d > 0,
        ;
    }
}

/// The taps that a kernel is stretched to are the base taps divided by the cutoff, rounded up;
/// never a whole tap off, and exact where that quotient is a number.
pub proof fn law_taps_grow_as_the_cutoff_falls<A: Arithmetic>(
    base: usize,
    cutoff: Double,
    wanted: u64,
)
    requires
        rounds::<A>(),
        base <= 0xffff_ffff,
        cutoff.is_usable_ratio(),
        base * unit() <= 2 * HIDDEN * cutoff.units(),
        is_stretched::<A>(base, cutoff, wanted),
    ensures
        wanted > 0 ==> (wanted - 1) * cutoff.units() < base * unit(),
        base * unit() < (wanted + 1) * cutoff.units(),
        forall|x: Double|
            #[trigger] x.is_finite() && x.units() * cutoff.units() == base * unit() * unit()
                ==> base * unit() <= wanted * cutoff.units(),
{
    reveal(rounds);
    lemma_reach();
    let one = unit();
    let c = cutoff.units();
    let (count, stretched) = choose|count: Double, stretched: Double|
        {
            &&& call_ensures(A::of_count, (base as u64,), count)
            &&& #[trigger] call_ensures(A::quotient, (count, cutoff), stretched)
            &&& wanted == stretched.ceiling()
        };
    lemma_whole_is_exact(count, base as int);
    let n = base * one * one;
    assert(n == (base * one) * one && 0 <= n && n <= 2 * HIDDEN * one * c) by (nonlinear_arith)
        requires
            n == base * one * one,
            base >= 0,
            base * one <= 2 * HIDDEN * c,
            one > 0,
    ;
    assert(n <= reach() * c) by (nonlinear_arith)
        requires
            n <= 2 * HIDDEN * one * c,
            reach() == pow2(1016) * one,
            pow2(1016) >= 2 * HIDDEN,
            one > 0,
            c > 0,
    ;
    assert(is_rounding(stretched, n, c));
    lemma_ceiling_of(stretched, n, c);
    let t = wanted as int;
    assert(t > 0 ==> (t - 1) * c < base * one) by (nonlinear_arith)
        requires
            t > 0 ==> (t - 1) * (one * c) < n,
            n == base * one * one,
            one > 0,
    ;
    assert(base * one < (t + 1) * c) by (nonlinear_arith)
        requires
            n < (t + 1) * (one * c),
            n == base * one * one,
            one > 0,
    ;
    assert forall|x: Double| #[trigger]
        x.is_finite() && x.units() * cutoff.units() == base * unit() * unit() implies base * unit()
        <= wanted * cutoff.units() by {
        assert(base * one <= t * c) by (nonlinear_arith)
            requires
                n <= t * (one * c),
                n == base * one * one,
                one > 0,
        ;
    }
}

/// A kernel has as many taps on either side as keep its sixteen lobes under the window, within
/// its limits: no fewer than sixteen, no more than 256, and between them the quotient of sixteen
/// by the cutoff, rounded up and never a whole tap off.
pub proof fn law_kernel_keeps_its_lobes<A: Arithmetic>(cutoff: Double, half_taps: usize)
    requires
        rounds::<A>(),
        cutoff.is_usable_ratio(),
        cutoff.units() >= min_positive_units(),
        16 * unit() <= 2 * HIDDEN * cutoff.units(),
        taps_for::<A>(cutoff, half_taps),
    ensures
        16 <= half_taps <= 256,
        half_taps > 16 ==> (half_taps - 1) * cutoff.units() < 16 * unit(),
        half_taps < 256 ==> 16 * unit() < (half_taps + 1) * cutoff.units(),
{
    let c = cutoff.units();
    let wanted = choose|wanted: u64|
        is_stretched::<A>(HALF_TAPS, cutoff.raised_to_min_positive(), wanted) && half_taps
            == #[trigger] limited_taps(wanted);
    law_taps_grow_as_the_cutoff_falls::<A>(HALF_TAPS, cutoff, wanted);
    let t = half_taps as int;
    assert(t > 16 ==> (t - 1) * c < 16 * unit()) by (nonlinear_arith)
        requires
            t > 16 ==> t <= wanted,
            wanted > 0 ==> (wanted - 1) * c < 16 * unit(),
            c > 0,
    ;
    assert(t < 256 ==> 16 * unit() < (t + 1) * c) by (nonlinear_arith)
        requires
            t < 256 ==> wanted <= t,
            16 * unit() < (wanted + 1) * c,
            c > 0,
    ;
}

/// The lower the cutoff, the longer the kernel, up to 256 taps on either side, which every cutoff
/// from a sixteenth down has, as far as the quotient is a number.
pub proof fn law_low_cutoffs_have_the_longest_kernel<A: Arithmetic>(
    cutoff: Double,
    half_taps: usize,
)
    requires
        rounds::<A>(),
        cutoff.is_finite(),
        pow2(62) <= cutoff.units(),
        16 * cutoff.units() <= unit(),
        taps_for::<A>(cutoff, half_taps),
    ensures
        half_taps == 256,
{
    reveal(rounds);
    lemma_reach();
    lemma2_to64();
    let one = unit();
    let d = cutoff.units();
    law_raised_is_the_larger(cutoff);
    lemma_pow2_strictly_increases(52, 62);
    let wanted = choose|wanted: u64|
        is_stretched::<A>(HALF_TAPS, cutoff.raised_to_min_positive(), wanted) && half_taps
            == #[trigger] limited_taps(wanted);
    let (count, stretched) = choose|count: Double, stretched: Double|
        {
            &&& call_ensures(A::of_count, (HALF_TAPS as u64,), count)
            &&& #[trigger] call_ensures(A::quotient, (count, cutoff), stretched)
            &&& wanted == stretched.ceiling()
        };
    lemma_whole_is_exact(count, 16);
    let n = count.units() * one;
    lemma_pow2_adds(1016, 62);
    lemma_pow2_adds(1074, 4);
    assert(pow2(1078) == 16 * one);
    assert(0 <= n <= reach() * d) by (nonlinear_arith)
        requires
            n == (16 * one) * one,
            one > 0,
            reach() == pow2(1016) * one,
            pow2(1016) * pow2(62) == 16 * one,
            d >= pow2(62),
            pow2(1016) > 0,
    ;
    assert(is_rounding(stretched, n, d));
    let x = lemma_whole_number(256);
    assert(x.units() * d <= n) by (nonlinear_arith)
        requires
            x.units() == 256 * one,
            n == (16 * one) * one,
            16 * d <= one,
            one > 0,
    ;
    assert(x.is_finite());
    assert(256 * one <= stretched.units());
    law_ceiling_is_the_least_above(stretched);
    if stretched.units() <= u64::MAX * one {
        assert(stretched.ceiling() >= 256) by (nonlinear_arith)
            requires
                256 * one <= stretched.ceiling() * one,
                one > 0,
        ;
    }
}

/// Cutoffs that differ are more than `1e-9` apart; cutoffs that do not differ are no further
/// apart than that, to the last number.
pub proof fn law_cutoffs_differ_by_more_than_the_bound<A: Arithmetic>(
    a: Double,
    b: Double,
    differ: bool,
)
    requires
        rounds::<A>(),
        a.is_finite(),
        b.is_finite(),
        0 <= a.units() <= reach(),
        0 <= b.units() <= reach(),
        cutoffs_compared::<A>(a, b, differ),
    ensures
        differ ==> distance(a.units(), b.units()) > value_of(SAME_CUTOFF),
        forall|x: Double|
            #[trigger] x.is_finite() && x.units() > value_of(SAME_CUTOFF) && !differ
                ==> distance(a.units(), b.units()) < x.units(),
{
    reveal(rounds);
    let bound = Double { bits: SAME_CUTOFF };
    let d = choose|difference: Double|
        {
            &&& #[trigger] call_ensures(A::difference, (a, b), difference)
            &&& differ == difference.is_beyond(Double { bits: SAME_CUTOFF })
        };
    let n = a.units() - b.units();
    assert(is_rounding(d, n, 1));
    let below = lemma_opposite(bound);
    assert(bound.is_finite());
    if differ && distance(a.units(), b.units()) <= bound.units() {
        assert(below.units() * 1 <= n <= bound.units() * 1);
    }
    assert forall|x: Double| #[trigger]
        x.is_finite() && x.units() > value_of(SAME_CUTOFF)
            && !differ implies distance(a.units(), b.units()) < x.units() by {
        let y = lemma_opposite(x);
        if n >= x.units() {
            assert(x.units() * 1 <= n);
        }
        if n <= -x.units() {
            assert(n <= y.units() * 1);
        }
    }
}

/// Ratios that agree are less than `1e-12` apart; ratios that do not agree are no closer than
/// that, to the last number.
pub proof fn law_ratios_agree_within_the_bound<A: Arithmetic>(a: Double, b: Double, agree: bool)
    requires
        rounds::<A>(),
        a.is_finite(),
        b.is_finite(),
        0 <= a.units() <= reach(),
        0 <= b.units() <= reach(),
        ratios_compared::<A>(a, b, agree),
    ensures
        agree ==> distance(a.units(), b.units()) < value_of(SAME_RATIO),
        forall|x: Double|
            #[trigger] x.is_finite() && 0 <= x.units() < value_of(SAME_RATIO)
                && !agree ==> distance(a.units(), b.units()) > x.units(),
{
    reveal(rounds);
    let bound = Double { bits: SAME_RATIO };
    let d = choose|difference: Double|
        {
            &&& #[trigger] call_ensures(A::difference, (a, b), difference)
            &&& agree == difference.is_within(Double { bits: SAME_RATIO })
        };
    let n = a.units() - b.units();
    assert(is_rounding(d, n, 1));
    let below = lemma_opposite(bound);
    assert(bound.is_finite());
    if agree && n >= bound.units() {
        assert(bound.units() * 1 <= n);
    }
    if agree && n <= -bound.units() {
        assert(n <= below.units() * 1);
    }
    assert forall|x: Double| #[trigger]
        x.is_finite() && 0 <= x.units() < value_of(SAME_RATIO)
            && !agree implies distance(a.units(), b.units()) > x.units() by {
        let y = lemma_opposite(x);
        if distance(a.units(), b.units()) <= x.units() {
            assert(y.units() * 1 <= n <= x.units() * 1);
        }
    }
}

/// The bounds of a ratio whose steps are certain to be finite: from `2^-900` to `2^900`.
pub open spec fn is_ordinary(ratio: Double) -> bool {
    ratio.is_finite() && pow2(174) <= ratio.units() <= pow2(1974)
}

/// What a step off by `e1` and a sum off by `e2` come to.
proof fn lemma_step_error(n: int, p: int, s: int, r: int, one: int, f: int)
    requires
        f > 0,
        r > 0,
        p >= 0,
        s >= 0,
        distance(s * r, one * one) * f <= one * one + r * f,
        distance(n, p + s) * f <= p + s + f,
    ensures
        distance((n - p) * r, one * one) * f <= p * r + 3 * (one * one) + 3 * f * r,
{
    let q = one * one;
    let e1 = distance(s * r, q);
    let e2 = distance(n, p + s);
    assert(q >= 0) by (nonlinear_arith)
        requires
            q == one * one,
    ;
    assert((n - p) * r == s * r + (n - p - s) * r) by (nonlinear_arith);
    assert(distance((n - p) * r, q) <= e1 + e2 * r) by (nonlinear_arith)
        requires
            (n - p) * r == s * r + (n - p - s) * r,
            e1 == s * r - q && s * r >= q || e1 == q - s * r && q >= s * r,
            e2 == n - (p + s) && n >= p + s || e2 == (p + s) - n && p + s >= n,
            distance((n - p) * r, q) == (n - p) * r - q || distance((n - p) * r, q) == q - (n - p)
                * r,
            r > 0,
    ;
    let g = distance((n - p) * r, q);
    assert(g * f <= e1 * f + (e2 * f) * r) by (nonlinear_arith)
        requires
            g <= e1 + e2 * r,
            f > 0,
    ;
    assert((e2 * f) * r <= (p + s + f) * r) by (nonlinear_arith)
        requires
            e2 * f <= p + s + f,
            r > 0,
    ;
    assert((p + s + f) * r == p * r + s * r + f * r) by (nonlinear_arith);
    assert(e1 <= q + r) by (nonlinear_arith)
        requires
            e1 * f <= q + r * f,
            f >= 1,
            q >= 0,
            e1 >= 0,
    ;
    assert(s * r <= 2 * q + r);
    assert(r * f == f * r && 3 * f * r == 3 * (f * r) && r <= f * r) by (nonlinear_arith)
        requires
            f >= 1,
            r > 0,
    ;
}

/// The next output frame lies a step of `1 / ratio` on, to within the rounding of the step and of
/// the sum; and exactly there, where both are numbers.
pub proof fn law_step_is_the_inverse_ratio<A: Arithmetic>(
    position: Double,
    ratio: Double,
    next: Double,
)
    requires
        rounds::<A>(),
        is_ordinary(ratio),
        position.is_finite(),
        0 <= position.units() <= pow2(2000),
        advanced::<A>(position, ratio, next),
    ensures
        next.is_finite(),
        position.units() <= next.units(),
        distance((next.units() - position.units()) * ratio.units(), unit() * unit()) * fine()
            <= position.units() * ratio.units() + 3 * (unit() * unit()) + 3 * fine()
            * ratio.units(),
        forall|x: Double, y: Double|
            #[trigger] x.is_finite() && #[trigger] y.is_finite() && x.units() * ratio.units()
                == unit() * unit() && y.units() == position.units() + x.units() ==> next.units()
                == y.units(),
{
    lemma_reach();
    let one = unit();
    let r = ratio.units();
    let p = position.units();
    let f = fine();
    let step = {
        reveal(advanced);
        choose|step: Double|
            {
                &&& #[trigger] call_ensures(A::quotient, (Double { bits: ONE }, ratio), step)
                &&& call_ensures(A::sum, (position, step), next)
            }
    };
    reveal(advanced);
    reveal(rounds);
    lemma_one_units();
    assert(Double { bits: ONE }.units() == one && Double { bits: ONE }.is_finite());
    lemma_pow2_pos(174);
    lemma_pow2_adds(1074, 1074);
    lemma_pow2_adds(1974, 174);
    lemma_pow2_strictly_increases(174, 1974);
    lemma_pow2_strictly_increases(1975, 2000);
    lemma_pow2_adds(1974, 1);
    lemma2_to64();
    lemma_pow2_adds(2000, 1);
    lemma_pow2_strictly_increases(2001, 2090);
    assert(one * one == pow2(1974) * pow2(174));
    assert(one * one <= reach() * r) by (nonlinear_arith)
        requires
            one * one == pow2(1974) * pow2(174),
            reach() >= pow2(1974),
            r >= pow2(174),
            pow2(1974) > 0,
            pow2(174) > 0,
    ;
    assert(one * one >= 0) by (nonlinear_arith);
    assert(is_rounding(step, one * one, r));
    lemma_rounding_is_near(step, one * one, r);
    let s = step.units();
    // The step is above zero, and not too large.
    let zero = lemma_whole_number(0);
    assert(zero.units() * r <= one * one) by (nonlinear_arith)
        requires
            zero.units() == 0 * one,
            one * one >= 0,
    ;
    assert(s >= 0);
    let far = lemma_number(2, 1974);
    assert(one * one <= far.units() * r) by (nonlinear_arith)
        requires
            far.units() == 2 * pow2(1974),
            one * one == pow2(1974) * pow2(174),
            r >= pow2(174),
            pow2(1974) > 0,
            pow2(174) > 0,
    ;
    assert(s <= 2 * pow2(1974));
    assert(p + s <= reach());
    assert(is_rounding(next, p + s, 1));
    lemma_rounding_is_near(next, p + s, 1);
    assert(p * 1 <= p + s);
    lemma_step_error(next.units(), p, s, r, one, f);
    assert forall|x: Double, y: Double| #[trigger]
        x.is_finite() && #[trigger] y.is_finite() && x.units() * ratio.units() == unit() * unit()
            && y.units() == position.units() + x.units() implies next.units() == y.units() by {
        lemma_rounding_is_exact(step, x, one * one, r);
        lemma_rounding_is_exact(next, y, p + s, 1);
    }
}

/// One step more of drift.
proof fn lemma_drift(n: int, p: int, r: int, q: int, f: int, k: int)
    requires
        q > 0,
        r > 0,
        p >= 0,
        0 <= k < 0x200_0000,
        f == 0x10_0000_0000_0000,
        3 * f * r <= q,
        distance((n - p) * r, q) * f <= p * r + 3 * q + 3 * f * r,
        distance(p * r, k * q) * f <= k * (k + 8) * q,
    ensures
        distance(n * r, (k + 1) * q) * f <= (k + 1) * (k + 9) * q,
        n * r <= 2 * (k + 1) * q,
{
    let e = distance(p * r, k * q);
    let g = distance((n - p) * r, q);
    let d = distance(n * r, (k + 1) * q);
    assert(n * r == p * r + (n - p) * r && (k + 1) * q == k * q + q) by (nonlinear_arith);
    assert(d <= e + g);
    assert(k * (k + 8) < f) by (nonlinear_arith)
        requires
            0 <= k < 0x200_0000,
            f == 0x10_0000_0000_0000,
    ;
    assert(e <= q) by (nonlinear_arith)
        requires
            e * f <= k * (k + 8) * q,
            k * (k + 8) < f,
            q > 0,
            f > 0,
            e >= 0,
    ;
    assert(p * r <= k * q + q);
    assert(d * f <= e * f + g * f) by (nonlinear_arith)
        requires
            d <= e + g,
            f > 0,
    ;
    assert(k * (k + 8) * q + k * q + 5 * q <= (k + 1) * (k + 9) * q) by (nonlinear_arith)
        requires
            k >= 0,
            q > 0,
    ;
    assert((k + 1) * (k + 9) <= f) by (nonlinear_arith)
        requires
            0 <= k < 0x200_0000,
            f == 0x10_0000_0000_0000,
    ;
    assert(d <= q) by (nonlinear_arith)
        requires
            d * f <= (k + 1) * (k + 9) * q,
            (k + 1) * (k + 9) <= f,
            q > 0,
            f > 0,
            d >= 0,
    ;
    assert(q <= (k + 1) * q && 2 * (k + 1) * q == 2 * ((k + 1) * q)) by (nonlinear_arith)
        requires
            k >= 0,
            q > 0,
    ;
}

/// Output keeps time with the input: frame `k` of a stream lies at `k / ratio` input frames from
/// its start, to within what the rounding of `k` steps can add up to.
pub proof fn law_positions_keep_time<A: Arithmetic>(positions: Seq<Double>, ratio: Double, k: int)
    requires
        rounds::<A>(),
        is_ordinary(ratio),
        spaced::<A>(positions, ratio),
        0 <= k < positions.len(),
        k <= 0x200_0000,
        positions[0].bits == 0,
    ensures
        positions[k].is_finite(),
        0 <= positions[k].units() <= pow2(2000),
        distance(positions[k].units() * ratio.units(), k * (unit() * unit())) * fine() <= k * (k
            + 8) * (unit() * unit()),
        k > 0 ==> positions[k - 1].units() <= positions[k].units(),
    decreases k,
{
    lemma_reach();
    let one = unit();
    let q = one * one;
    let r = ratio.units();
    let f = fine();
    lemma_pow2_pos(174);
    lemma_pow2_pos(2000);
    if k == 0 {
        let z = positions[0].units();
        lemma2_to64();
        assert(z == 0);
        assert(z * r == 0 && k * q == 0 && k * (k + 8) * q == 0) by (nonlinear_arith)
            requires
                z == 0,
                k == 0,
        ;
    } else {
        law_positions_keep_time::<A>(positions, ratio, k - 1);
        let here = positions[k - 1];
        let next = positions[k];
        assert(advanced::<A>(positions[k - 1], ratio, positions[k - 1 + 1]));
        law_step_is_the_inverse_ratio::<A>(here, ratio, next);
        lemma_pow2_adds(1074, 1074);
        lemma_pow2_adds(54, 1974);
        lemma_pow2_adds(52, 2);
        lemma2_to64();
        lemma_pow2_strictly_increases(2028, 2148);
        assert(3 * f * r <= q) by (nonlinear_arith)
            requires
                f == pow2(52),
                pow2(54) == pow2(52) * 4,
                pow2(2028) == pow2(54) * pow2(1974),
                r <= pow2(1974),
                r > 0,
                q > pow2(2028),
                pow2(52) > 0,
        ;
        lemma_drift(next.units(), here.units(), r, q, f, k - 1);
        assert((k - 1 + 1) * (k - 1 + 9) * q == k * (k + 8) * q);
        assert((k - 1 + 1) * q == k * q);
        // Not too far.
        lemma_pow2_adds(26, 1974);
        lemma_pow2_adds(1974, 174);
        let n = next.units();
        assert(n <= pow2(2000)) by (nonlinear_arith)
            requires
                n * r <= 2 * (k - 1 + 1) * q,
                k <= 0x200_0000,
                k > 0,
                pow2(26) == 0x400_0000,
                pow2(2000) == pow2(26) * pow2(1974),
                q == pow2(1974) * pow2(174),
                r >= pow2(174),
                pow2(174) > 0,
                pow2(1974) > 0,
                n >= 0,
        ;
    }
}

/// How long a stream is: one that was read to its end, from position zero on, made about `ratio`
/// frames for each frame of input, no more than two off the product of both.
pub proof fn law_stream_is_as_long_as_ratio_times_input<A: Arithmetic>(
    positions: Seq<Double>,
    ratio: Double,
    frames: int,
)
    requires
        rounds::<A>(),
        is_ordinary(ratio),
        spaced::<A>(positions, ratio),
        0 < positions.len() <= 0x200_0000,
        positions[0].bits == 0,
        0 <= frames < i64::MAX,
        positions.len() > 1 ==> positions[positions.len() - 2].frame() < frames,
        positions.last().frame() >= frames,
    ensures
        (positions.len() - 3) * unit() < ratio.units() * frames,
        ratio.units() * frames <= positions.len() * unit(),
{
    lemma_reach();
    let one = unit();
    let q = one * one;
    let r = ratio.units();
    let f = fine();
    let n = positions.len() - 1;
    lemma_pow2_pos(174);
    assert(q > 0 && q == one * one) by (nonlinear_arith)
        requires
            q == one * one,
            one > 0,
    ;
    law_positions_keep_time::<A>(positions, ratio, n);
    let last = positions[n];
    let u = last.units();
    lemma_frame_of(last);
    assert(frames * one <= u) by (nonlinear_arith)
        requires
            last.frame() * one <= u,
            frames <= last.frame(),
            one > 0,
    ;
    assert(n * (n + 8) <= f) by (nonlinear_arith)
        requires
            0 <= n < 0x200_0000,
            f == 0x10_0000_0000_0000,
    ;
    let e = distance(u * r, n * q);
    assert(e <= q) by (nonlinear_arith)
        requires
            e * f <= n * (n + 8) * q,
            n * (n + 8) <= f,
            q > 0,
            f > 0,
            e >= 0,
    ;
    assert(r * frames <= (n + 1) * one) by (nonlinear_arith)
        requires
            frames * one <= u,
            u * r <= n * q + q,
            q == one * one,
            one > 0,
            r > 0,
    ;
    if n > 0 {
        law_positions_keep_time::<A>(positions, ratio, n - 1);
        let before = positions[n - 1];
        let w = before.units();
        lemma_frame_of(before);
        assert(w < frames * one) by (nonlinear_arith)
            requires
                w < (before.frame() + 1) * one,
                before.frame() + 1 <= frames,
                one > 0,
        ;
        let g = distance(w * r, (n - 1) * q);
        assert((n - 1) * (n - 1 + 8) <= f) by (nonlinear_arith)
            requires
                1 <= n < 0x200_0000,
                f == 0x10_0000_0000_0000,
        ;
        assert(g <= q) by (nonlinear_arith)
            requires
                g * f <= (n - 1) * (n - 1 + 8) * q,
                (n - 1) * (n - 1 + 8) <= f,
                q > 0,
                f > 0,
                g >= 0,
        ;
        assert((n - 2) * one < r * frames) by (nonlinear_arith)
            requires
                w < frames * one,
                w * r >= (n - 1) * q - q,
                q == one * one,
                one > 0,
                r > 0,
        ;
    } else {
        assert((n - 2) * one < 0 && r * frames >= 0) by (nonlinear_arith)
            requires
                n <= 0,
                one > 0,
                r > 0,
                frames >= 0,
        ;
    }
}

/// The frame of a position that is not below zero.
proof fn lemma_frame_of(position: Double)
    requires
        position.is_finite(),
        position.units() >= 0,
    ensures
        position.frame() * unit() <= position.units(),
        position.frame() < i64::MAX ==> position.units() < (position.frame() + 1) * unit(),
{
    lemma_reach();
    let one = unit();
    let u = position.units();
    let q = u / one;
    lemma_fundamental_div_mod(u, one);
    assert(q * one <= u < (q + 1) * one) by (nonlinear_arith)
        requires
            u == one * q + u % one,
            0 <= u % one < one,
    ;
    assert(q >= 0) by (nonlinear_arith)
        requires
            u < (q + 1) * one,
            u >= 0,
            one > 0,
    ;
    if q > i64::MAX {
        assert(i64::MAX * one <= q * one) by (nonlinear_arith)
            requires
                q > i64::MAX,
                one > 0,
        ;
    }
}

/// An arithmetic in which a larger exact result does not come out smaller.
pub open spec fn keeps_order<A: Arithmetic>() -> bool {
    &&& forall|m: u64, n: u64, x: Double, y: Double|
        m <= n && #[trigger] call_ensures(A::of_count, (m,), x) && #[trigger] call_ensures(
            A::of_count,
            (n,),
            y,
        ) ==> x.is_finite() && y.is_finite() && x.units() <= y.units()
    &&& forall|a: Double, b: Double, c: Double, d: Double, x: Double, y: Double|
        a.is_finite() && b.is_finite() && c.is_finite() && d.is_finite() && a.units() * b.units()
            <= c.units() * d.units() && #[trigger] call_ensures(
            A::product,
            (a, b),
            x,
        ) && #[trigger] call_ensures(A::product, (c, d), y) ==> x.units() <= y.units()
}

/// More input is never worth less output, whatever the counts.
pub proof fn law_more_input_is_worth_no_less<A: Arithmetic>(
    ratio: Double,
    fewer: u64,
    more: u64,
    owed1: u64,
    owed2: u64,
)
    requires
        keeps_order::<A>(),
        ratio.is_finite(),
        ratio.units() >= 0,
        fewer <= more,
        is_worth::<A>(ratio, fewer, owed1),
        is_worth::<A>(ratio, more, owed2),
        forall|count: Double, length: Double|
            #[trigger] call_ensures(A::product, (ratio, count), length) ==> length.is_finite(),
    ensures
        owed1 <= owed2,
{
    lemma_reach();
    let one = unit();
    let (c1, l1) = choose|count: Double, length: Double|
        {
            &&& call_ensures(A::of_count, (fewer,), count)
            &&& #[trigger] call_ensures(A::product, (ratio, count), length)
            &&& owed1 == length.ceiling()
        };
    let (c2, l2) = choose|count: Double, length: Double|
        {
            &&& call_ensures(A::of_count, (more,), count)
            &&& #[trigger] call_ensures(A::product, (ratio, count), length)
            &&& owed2 == length.ceiling()
        };
    let r = ratio.units();
    assert(c1.units() <= c2.units());
    assert(r * c1.units() <= r * c2.units()) by (nonlinear_arith)
        requires
            c1.units() <= c2.units(),
            r >= 0,
    ;
    assert(l1.units() <= l2.units());
    law_ceiling_is_the_least_above(l1);
    law_ceiling_is_the_least_above(l2);
    if owed1 > owed2 && l1.units() > 0 {
        let (x, y) = (l1.units(), l2.units());
        if owed1 < u64::MAX {
            assert(false) by (nonlinear_arith)
                requires
                    (owed1 - 1) * one < x,
                    x <= y,
                    y <= owed2 * one,
                    owed2 <= owed1 - 1,
                    one > 0,
            ;
        } else {
            lemma_ceiling_limited(l1, owed2 as int);
        }
    }
}

/// For every count that a counter holds the worth of input is ratio times frames, to within the
/// rounding of the count and of the product, and a frame.
pub proof fn law_worth_of_any_count<A: Arithmetic>(ratio: Double, frames: u64, owed: u64)
    requires
        rounds::<A>(),
        is_ordinary(ratio),
        ratio.units() * frames <= 0x4000_0000_0000_0000 * unit(),
        is_worth::<A>(ratio, frames, owed),
    ensures
        distance(owed * unit(), ratio.units() * frames) * fine() <= 4 * (ratio.units() * frames) + 2
            * (unit() * fine()),
{
    reveal(rounds);
    lemma_reach();
    lemma_pow2_pos(174);
    let one = unit();
    let f = fine();
    let r = ratio.units();
    let n = frames as int;
    let v = r * n;
    let (count, length) = choose|count: Double, length: Double|
        {
            &&& call_ensures(A::of_count, (frames,), count)
            &&& #[trigger] call_ensures(A::product, (ratio, count), length)
            &&& owed == length.ceiling()
        };
    assert(0 <= n * one <= reach() * 1) by (nonlinear_arith)
        requires
            0 <= n < 0x1_0000_0000_0000_0000,
            reach() == pow2(1016) * one,
            pow2(1016) >= 0x1_0000_0000_0000_0000,
            one > 0,
    ;
    lemma_rounding_is_near(count, n * one, 1);
    let c = count.units();
    let zero = lemma_whole_number(0);
    assert(zero.units() * 1 <= n * one);
    assert(c >= 0);
    if n == 0 {
        lemma_whole_is_exact(count, 0);
        assert(r * c == 0 && v == 0) by (nonlinear_arith)
            requires
                c == 0 * one,
                n == 0,
                v == r * n,
        ;
        assert(is_rounding(length, 0, one));
        lemma_rounding_is_exact(length, zero, 0, one);
        law_ceiling_is_the_least_above(length);
        assert(one * f >= 0) by (nonlinear_arith)
            requires
                one > 0,
                f > 0,
        ;
    } else {
        assert(one >= f) by (nonlinear_arith)
            requires
                one >= f * f,
                f >= 1,
        ;
        lemma_count_error(c, n, one, f, r);
        assert(0 <= r * c <= reach() * one) by (nonlinear_arith)
            requires
                r > 0,
                c >= 0,
                r * c <= 2 * (v * one),
                v <= 0x4000_0000_0000_0000 * one,
                reach() == pow2(1016) * one,
                pow2(1016) >= 0x1_0000_0000_0000_0000,
                one > 0,
        ;
        assert(is_rounding(length, r * c, one));
        lemma_rounding_is_near(length, r * c, one);
        let l = length.units();
        assert(zero.units() * one <= r * c);
        assert(l >= 0);
        law_ceiling_is_the_least_above(length);
        assert(l <= 0x9000_0000_0000_0000 * one) by {
            let top = lemma_number(0x12, (1074 + 59) as nat);
            lemma_pow2_adds(59, 1074);
            lemma_pow2_adds(27, 32);
            lemma2_to64();
            assert(r * c <= top.units() * one) by (nonlinear_arith)
                requires
                    r * c <= 2 * (v * one),
                    v <= 0x4000_0000_0000_0000 * one,
                    top.units() == 0x12 * pow2(1133),
                    pow2(1133) == 0x800_0000_0000_0000 * one,
                    one > 0,
            ;
            assert(l <= top.units());
        }
        let t = owed as int;
        if l > 0 {
            lemma_ceiling_limited(length, 0x9000_0000_0000_0000);
        }
        assert(l <= t * one && t * one < l + one) by (nonlinear_arith)
            requires
                l > 0 ==> (t - 1) * one < l <= t * one,
                l <= 0 ==> t == 0,
                l >= 0,
                one > 0,
        ;
        lemma_worth_error(l, t, c, n, one, f, r);
    }
}

proof fn lemma_count_error(c: int, n: int, one: int, f: int, r: int)
    requires
        n > 0,
        one >= f,
        f >= 0x10_0000_0000_0000,
        r > 0,
        c >= 0,
        distance(c, n * one) * f <= n * one + f,
    ensures
        r * c <= 2 * (r * n * one),
        distance(r * c, r * n * one) * f <= 2 * (r * n * one),
{
    let x = n * one;
    let e = distance(c, x);
    assert(x >= one) by (nonlinear_arith)
        requires
            x == n * one,
            n >= 1,
            one > 0,
    ;
    assert(e * f <= 2 * x);
    assert(e <= x) by (nonlinear_arith)
        requires
            e * f <= 2 * x,
            f >= 2,
            e >= 0,
    ;
    let y = r * n * one;
    assert(y == r * x) by (nonlinear_arith)
        requires
            y == r * n * one,
            x == n * one,
    ;
    assert(r * c <= 2 * y && distance(r * c, y) == r * e) by (nonlinear_arith)
        requires
            y == r * x,
            e == c - x && c >= x || e == x - c && x >= c,
            e <= x,
            r > 0,
            distance(r * c, y) == r * c - y && r * c >= y || distance(r * c, y) == y - r * c && y
                >= r * c,
    ;
    assert((r * e) * f <= 2 * y) by (nonlinear_arith)
        requires
            e * f <= 2 * x,
            y == r * x,
            r > 0,
    ;
}

proof fn lemma_worth_error(l: int, t: int, c: int, n: int, one: int, f: int, r: int)
    requires
        n > 0,
        one >= f * f,
        f >= 0x10_0000_0000_0000,
        r > 0,
        c >= 0,
        distance(r * c, r * n * one) * f <= 2 * (r * n * one),
        r * c <= 2 * (r * n * one),
        distance(l * one, r * c) * f <= distance(r * c, 0) + one * f,
        l <= t * one < l + one,
    ensures
        distance(t * one, r * n) * f <= 4 * (r * n) + 2 * (one * f),
{
    let v = r * n;
    assert(v >= 1 && r * n * one == v * one) by (nonlinear_arith)
        requires
            v == r * n,
            r >= 1,
            n >= 1,
    ;
    assert(r * c >= 0) by (nonlinear_arith)
        requires
            r > 0,
            c >= 0,
    ;
    let e = distance(l * one, v * one);
    assert(e * f <= 4 * (v * one) + one * f) by (nonlinear_arith)
        requires
            e <= distance(l * one, r * c) + distance(r * c, v * one),
            distance(r * c, v * one) * f <= 2 * (v * one),
            distance(l * one, r * c) * f <= r * c + one * f,
            r * c <= 2 * (v * one),
            f > 0,
    ;
    let g = distance(l, v);
    assert(e == g * one) by (nonlinear_arith)
        requires
            e == l * one - v * one && l * one >= v * one || e == v * one - l * one && v * one >= l
                * one,
            g == l - v && l >= v || g == v - l && v >= l,
            one > 0,
    ;
    assert(g * f <= 4 * v + f) by (nonlinear_arith)
        requires
            (g * one) * f <= 4 * (v * one) + one * f,
            one > 0,
    ;
    let d = distance(t * one, v);
    assert(d <= g + one);
    assert(d * f <= g * f + one * f) by (nonlinear_arith)
        requires
            d <= g + one,
            f > 0,
    ;
    assert(f <= one * f) by (nonlinear_arith)
        requires
            one >= 1,
            f > 0,
    ;
}

} // verus!
