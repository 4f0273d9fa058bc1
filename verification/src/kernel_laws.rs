//! What the kernels of the sinc resampler are, as numbers: a sinc that the cutoff stretches, under
//! a Blackman window, scaled to a gain of one.

use vstd::prelude::*;
use vstd::arithmetic::power2::lemma2_to64;
use vstd::arithmetic::power2::lemma_pow2_adds;
use vstd::arithmetic::power2::lemma_pow2_pos;
use vstd::arithmetic::power2::lemma_pow2_strictly_increases;
use vstd::arithmetic::power2::pow2;

use crate::arithmetic::Arithmetic;
use crate::double::lemma_one_units;
use crate::double::Double;
use crate::double::HIDDEN;
use crate::double::ONE;
use crate::formulas::cutoffs_compared;
use crate::formulas::is_blackman;
use crate::formulas::is_distance;
use crate::formulas::is_sinc;
use crate::formulas::is_tap;
use crate::formulas::is_window_angle;
use crate::formulas::EIGHT_HUNDREDTHS;
use crate::formulas::FORTY_TWO_HUNDREDTHS;
use crate::formulas::HALF;
use crate::formulas::PI;
use crate::formulas::SAME_CUTOFF;
use crate::formulas::SAME_RATIO;
use crate::formulas::SINC_PEAK;
use crate::formulas::TAU;
use crate::formulas::TWO;
use crate::rounding::distance;
use crate::rounding::fine;
use crate::rounding::is_rounding;
use crate::rounding::lemma_near_reduced;
use crate::rounding::lemma_number;
use crate::rounding::lemma_opposite;
use crate::rounding::lemma_rounding_is_exact;
use crate::rounding::lemma_rounding_is_near;
use crate::rounding::lemma_rounding_of_fraction;
use crate::rounding::lemma_whole_is_exact;
use crate::rounding::lemma_whole_number;
use crate::rounding::near;
use crate::rounding::reach;
use crate::rounding::rounds;
use crate::rounding::unit;
use crate::rubato_backend::CUTOFF;
use crate::rubato_backend::MAX_RELATIVE_RATIO;
use crate::sinc::is_kernel;
use crate::sinc::is_table;
use crate::sinc::kernel_of;
use crate::sinc::kernel_rounded;
use crate::sinc::kernel_scaled;
use crate::sinc::kernel_taps;
use crate::sinc::made_with;
use crate::sinc::table_ensured;
use crate::sinc::Filtered;
use crate::value_laws::lemma_reach;
use crate::value_laws::value_of;

verus! {

/// The value of a normal pattern.
proof fn lemma_value(bits: u64, e: nat, j: nat)
    requires
        bits as int / (HIDDEN as int) == e + 1,
        bits < 0x7ff0_0000_0000_0000,
        e + j == 1074,
    ensures
        (Double { bits }).is_finite(),
        value_of(bits) == (HIDDEN + bits as int % (HIDDEN as int)) * pow2(e),
        unit() == pow2(e) * pow2(j),
        pow2(e) > 0,
{
    lemma_pow2_pos(e);
    lemma_pow2_adds(e, j);
    let x = Double { bits };
    assert(x.magnitude() == bits);
    assert(x.magnitude() / (HIDDEN as nat) == e + 1);
}

/// The constants of the formulas are the numbers next to those they are named after.
pub proof fn law_constants_are_what_they_say()
    ensures
        3141592653589793 * unit() <= value_of(PI) * 1000000000000000 < 3141592653589794 * unit(),
        value_of(TAU) == 2 * value_of(PI),
        value_of(TWO) == 2 * unit(),
        2 * value_of(HALF) == unit(),
        value_of(MAX_RELATIVE_RATIO) == 8 * unit(),
        distance(value_of(FORTY_TWO_HUNDREDTHS) * 100, 42 * unit()) * fine() <= 100 * unit(),
        distance(value_of(EIGHT_HUNDREDTHS) * 100, 8 * unit()) * fine() <= 100 * unit(),
        distance(value_of(CUTOFF) * 100, 95 * unit()) * fine() <= 100 * unit(),
        distance(value_of(SAME_CUTOFF) * 1000000000, unit()) * fine() <= unit(),
        distance(value_of(SAME_RATIO) * 1000000000000, unit()) * fine() <= unit(),
        SINC_PEAK == SAME_RATIO,
{
    lemma2_to64();
    lemma_pow2_adds(20, 32);
    lemma_pow2_adds(19, 32);
    lemma_pow2_adds(18, 32);
    lemma_pow2_adds(17, 32);
    lemma_pow2_adds(22, 32);
    lemma_pow2_adds(24, 32);
    lemma_pow2_adds(50, 32);
    lemma_pow2_adds(64, 28);
    lemma_pow2_adds(21, 32);
    lemma_value(PI, 1023, 51);
    lemma_pi(pow2(1023) as int, unit());
    lemma_value(TAU, 1024, 50);
    lemma_pow2_adds(1023, 1);
    assert(value_of(TAU) == 2 * value_of(PI)) by (nonlinear_arith)
        requires
            value_of(TAU) == 7074237752028440 * pow2(1024),
            value_of(PI) == 7074237752028440 * pow2(1023),
            pow2(1024) == 2 * pow2(1023),
    ;
    lemma_value(TWO, 1023, 51);
    lemma_decimal(TWO, 4503599627370496, 1023, 0x8_0000_0000_0000, 1, 2, 0);
    lemma_value(HALF, 1021, 53);
    lemma_decimal(HALF, 4503599627370496, 1021, 0x20_0000_0000_0000, 2, 1, 0);
    lemma_value(MAX_RELATIVE_RATIO, 1025, 49);
    lemma_decimal(MAX_RELATIVE_RATIO, 4503599627370496, 1025, 0x2_0000_0000_0000, 1, 8, 0);
    lemma_value(FORTY_TWO_HUNDREDTHS, 1020, 54);
    lemma_decimal(
        FORTY_TWO_HUNDREDTHS,
        7566047373982433,
        1020,
        0x40_0000_0000_0000,
        100,
        42,
        100,
    );
    lemma_value(EIGHT_HUNDREDTHS, 1018, 56);
    lemma_decimal(EIGHT_HUNDREDTHS, 5764607523034235, 1018, 0x100_0000_0000_0000, 100, 8, 100);
    lemma_value(CUTOFF, 1021, 53);
    lemma_decimal(CUTOFF, 8556839292003942, 1021, 0x20_0000_0000_0000, 100, 95, 100);
    lemma_value(SAME_CUTOFF, 992, 82);
    lemma_decimal(
        SAME_CUTOFF,
        4835703278458517,
        992,
        0x4_0000_0000_0000_0000_0000int,
        1000000000,
        1,
        1,
    );
    lemma_value(SAME_RATIO, 982, 92);
    lemma_decimal(
        SAME_RATIO,
        4951760157141521,
        982,
        0x1000_0000_0000_0000_0000_0000int,
        1000000000000,
        1,
        1,
    );
}

/// A pattern is `target / scale`, to within `slack` parts in `2^52` of that.
proof fn lemma_decimal(
    bits: u64,
    m: int,
    e: nat,
    width: int,
    scale: int,
    target: int,
    slack: int,
)
    requires
        value_of(bits) == m * pow2(e),
        unit() == pow2(e) * width,
        pow2(e) > 0,
        distance(m * scale, target * width) * fine() <= slack * width,
    ensures
        distance(value_of(bits) * scale, target * unit()) * fine() <= slack * unit(),
        slack == 0 ==> value_of(bits) * scale == target * unit(),
{
    let p = pow2(e) as int;
    let g = distance(m * scale, target * width);
    assert((m * p) * scale == (m * scale) * p && target * (p * width) == (target * width) * p)
        by (nonlinear_arith);
    assert(distance((m * scale) * p, (target * width) * p) == g * p) by (nonlinear_arith)
        requires
            p > 0,
            g == m * scale - target * width && m * scale >= target * width || g == target * width
                - m * scale && target * width >= m * scale,
            distance((m * scale) * p, (target * width) * p) == (m * scale) * p - (target * width)
                * p && (m * scale) * p >= (target * width) * p || distance(
                (m * scale) * p,
                (target * width) * p,
            ) == (target * width) * p - (m * scale) * p && (target * width) * p >= (m * scale)
                * p,
    ;
    assert((g * p) * fine() <= slack * (p * width)) by (nonlinear_arith)
        requires
            g * fine() <= slack * width,
            p > 0,
    ;
    if slack == 0 {
        assert(g == 0) by (nonlinear_arith)
            requires
                g * fine() <= 0 * width,
                g >= 0,
                fine() > 0,
        ;
        assert(g * p == 0) by (nonlinear_arith)
            requires
                g == 0,
        ;
    }
}

proof fn lemma_pi(p: int, one: int)
    requires
        p > 0,
        one == p * 2251799813685248,
    ensures
        3141592653589793 * one <= (7074237752028440 * p) * 1000000000000000 < 3141592653589794
            * one,
{
}

/// How far tap `k` lies from an output position at sub-phase `phase / 512`, in parts of 512 of a
/// frame.
pub open spec fn parts_away(half_taps: int, phase: int, k: int) -> int {
    phase + 512 * (half_taps - 1 - k)
}

/// There is a number for every count of parts of a frame.
proof fn lemma_parts(n: int) -> (x: Double)
    requires
        distance(n, 0) < 2 * HIDDEN,
    ensures
        x.is_finite(),
        x.units() * 512 == n * unit(),
{
    lemma2_to64();
    lemma_pow2_adds(1065, 9);
    let m = distance(n, 0);
    let x = lemma_number(m as nat, 1065);
    let y = lemma_opposite(x);
    let p = pow2(1065) as int;
    assert((m * p) * 512 == m * (p * 512)) by (nonlinear_arith);
    assert((-(m * p)) * 512 == (-m) * (p * 512)) by (nonlinear_arith);
    if n >= 0 {
        x
    } else {
        y
    }
}

/// Where a rounded value is parts of a frame, it is those parts.
proof fn lemma_parts_are_exact(r: Double, n: int, d: int, parts: int)
    requires
        d > 0,
        distance(parts, 0) < 2 * HIDDEN,
        is_rounding(r, n, d),
        n * 512 == parts * unit() * d,
    ensures
        r.units() * 512 == parts * unit(),
{
    let x = lemma_parts(parts);
    assert(x.units() * d == n) by (nonlinear_arith)
        requires
            x.units() * 512 == parts * unit(),
            n * 512 == parts * unit() * d,
    ;
    lemma_rounding_is_exact(r, x, n, d);
}

/// The distance from an output position to a tap is exact: the phase, and the frames between.
pub proof fn law_distance_is_exact<A: Arithmetic>(
    half_taps: u64,
    phase: u64,
    k: u64,
    away: Double,
)
    requires
        rounds::<A>(),
        half_taps <= 0xffff_ffff,
        phase <= 512,
        k <= 0xffff_ffff,
        is_distance::<A>(half_taps, phase, 512, k, away),
    ensures
        away.is_finite(),
        away.units() * 512 == parts_away(half_taps as int, phase as int, k as int) * unit(),
{
    reveal(rounds);
    lemma_reach();
    lemma_one_units();
    let one = unit();
    let (p, n, fraction, h, back, far, tap) = choose|
        p: Double,
        n: Double,
        fraction: Double,
        h: Double,
        back: Double,
        far: Double,
        tap: Double,
    |
        {
            &&& call_ensures(A::of_count, (phase,), p)
            &&& call_ensures(A::of_count, (512u64,), n)
            &&& #[trigger] call_ensures(A::quotient, (p, n), fraction)
            &&& call_ensures(A::of_count, (half_taps,), h)
            &&& #[trigger] call_ensures(A::difference, (h, Double { bits: ONE }), back)
            &&& #[trigger] call_ensures(A::sum, (fraction, back), far)
            &&& call_ensures(A::of_count, (k,), tap)
            &&& #[trigger] call_ensures(A::difference, (far, tap), away)
        };
    lemma_whole_is_exact(p, phase as int);
    lemma_whole_is_exact(n, 512);
    lemma_whole_is_exact(h, half_taps as int);
    lemma_whole_is_exact(tap, k as int);
    assert((Double { bits: ONE }).units() == one);
    let big = 0x1_0000_0000 * one;
    assert(4 * big <= reach() && big > 0) by (nonlinear_arith)
        requires
            big == 0x1_0000_0000 * one,
            reach() == pow2(1016) * one,
            pow2(1016) >= 0x1_0000_0000_0000_0000,
            one > 0,
    ;
    // The fraction.
    let a = phase * one * one;
    assert(0 <= a <= reach() * (512 * one) && a == (phase * one) * one && a * 512 == phase * one * (
    512 * one)) by (nonlinear_arith)
        requires
            a == phase * one * one,
            0 <= phase <= 512,
            reach() >= one,
            one > 0,
    ;
    assert(is_rounding(fraction, a, 512 * one));
    lemma_parts_are_exact(fraction, a, 512 * one, phase as int);
    // The frames in front of the position.
    let b = half_taps * one - one;
    assert(b == (half_taps - 1) * one && -one <= b <= big) by (nonlinear_arith)
        requires
            b == half_taps * one - one,
            0 <= half_taps < 0x1_0000_0000,
            big == 0x1_0000_0000 * one,
            one > 0,
    ;
    lemma_whole_is_exact(back, half_taps - 1);
    // Both, and less the tap.
    let c = fraction.units() + b;
    let parts = phase + 512 * (half_taps - 1);
    assert(0 <= fraction.units() <= one) by (nonlinear_arith)
        requires
            fraction.units() * 512 == phase * one,
            0 <= phase <= 512,
            one > 0,
    ;
    assert(parts * one == phase * one + 512 * ((half_taps - 1) * one)) by (nonlinear_arith)
        requires
            parts == phase + 512 * (half_taps - 1),
    ;
    assert(c * 512 == parts * one * 1);
    assert(is_rounding(far, c, 1));
    lemma_parts_are_exact(far, c, 1, parts);
    let g = far.units() - k * one;
    let rest = parts - 512 * k;
    assert(rest * one == parts * one - 512 * (k * one)) by (nonlinear_arith)
        requires
            rest == parts - 512 * k,
    ;
    assert(0 <= k * one <= big) by (nonlinear_arith)
        requires
            0 <= k < 0x1_0000_0000,
            big == 0x1_0000_0000 * one,
            one > 0,
    ;
    assert(g * 512 == rest * one * 1);
    assert(is_rounding(away, g, 1));
    lemma_parts_are_exact(away, g, 1, rest);
}

/// Sines and cosines are finite, and no further from zero than one.
pub open spec fn waves<A: Arithmetic>() -> bool {
    &&& forall|a: Double, x: Double| #[trigger]
        call_ensures(A::sine, (a,), x) ==> x.is_finite() && distance(x.units(), 0) <= unit()
    &&& forall|a: Double, x: Double| #[trigger]
        call_ensures(A::cosine, (a,), x) ==> x.is_finite() && distance(x.units(), 0) <= unit()
}

/// `lobe` is the sinc function of `x`: one at the peak, and elsewhere the sine of pi times `x`
/// divided by pi times `x`, to within the rounding.
pub open spec fn is_lobe<A: Arithmetic>(x: Double, lobe: Double) -> bool {
    if distance(x.units(), 0) < value_of(SAME_RATIO) {
        lobe.is_finite() && lobe.units() == unit()
    } else {
        exists|angle: Double, wave: Double|
            {
                &&& near(angle, value_of(PI) * x.units(), unit())
                &&& distance(angle.units(), 0) >= distance(x.units(), 0)
                &&& #[trigger] call_ensures(A::sine, (angle,), wave)
                &&& lobe.is_finite()
                &&& distance(lobe.units(), 0) <= pow2(1200)
                &&& distance(lobe.units() * angle.units(), wave.units() * unit()) * fine()
                    <= distance(wave.units() * unit(), 0) + distance(angle.units(), 0) * fine()
                &&& wave.units() == 0 ==> lobe.units() == 0
            }
    }
}

/// A sinc value is not too large to be multiplied.
proof fn lemma_lobe_limit(l: int, m: int, d: int)
    requires
        d >= pow2(982),
        distance(m, 0) <= unit() * unit(),
        distance(l * d, m) * fine() <= distance(m, 0) + d * fine(),
    ensures
        distance(l, 0) <= pow2(1200),
{
    lemma_reach();
    lemma_pow2_pos(982);
    lemma_pow2_adds(1074, 1074);
    lemma_pow2_adds(1166, 982);
    lemma_pow2_adds(1166, 2);
    lemma_pow2_strictly_increases(1168, 1200);
    lemma2_to64();
    lemma_pow2_pos(1166);
    let f = fine();
    let q = unit() * unit();
    let p = pow2(1166) as int;
    let a = distance(l, 0);
    assert(distance(l * d, m) <= q + d) by (nonlinear_arith)
        requires
            distance(l * d, m) * f <= q + d * f,
            f >= 1,
            q >= 0,
            d > 0,
            distance(l * d, m) >= 0,
    ;
    assert(a * d <= 2 * q + d) by (nonlinear_arith)
        requires
            distance(l * d, m) <= q + d,
            distance(l * d, m) >= l * d - m,
            distance(l * d, m) >= m - l * d,
            -q <= m <= q,
            a == l || a == -l,
    ;
    assert(a <= 4 * p) by (nonlinear_arith)
        requires
            a * d <= 2 * q + d,
            q == p * pow2(982),
            d >= pow2(982),
            pow2(982) > 0,
            p >= 1,
            a >= 0,
    ;
}

/// The sinc function is what it is called.
pub proof fn law_sinc_is_sine_over_angle<A: Arithmetic>(x: Double, lobe: Double)
    requires
        rounds::<A>(),
        waves::<A>(),
        x.is_finite(),
        distance(x.units(), 0) <= 0x1_0000_0000 * unit(),
        is_sinc::<A>(x, lobe),
    ensures
        is_lobe::<A>(x, lobe),
{
    lemma_reach();
    lemma_one_units();
    law_constants_are_what_they_say();
    let one = unit();
    let peak = Double { bits: SINC_PEAK };
    if distance(x.units(), 0) < value_of(SAME_RATIO) {
        assert(x.is_within(peak));
        assert(lobe == Double { bits: ONE });
    } else {
        assert(!x.is_within(peak));
        let (angle, wave) = choose|angle: Double, wave: Double|
            {
                &&& call_ensures(A::product, (Double { bits: PI }, x), angle)
                &&& #[trigger] call_ensures(A::sine, (angle,), wave)
                &&& call_ensures(A::quotient, (wave, angle), lobe)
            };
        let pi = value_of(PI);
        let u = x.units();
        let n = pi * u;
        lemma_value(PI, 1023, 51);
        assert(one <= pi <= 4 * one);
        assert(distance(n, 0) <= reach() * one) by (nonlinear_arith)
            requires
                n == pi * u,
                one <= pi <= 4 * one,
                distance(u, 0) <= 0x1_0000_0000 * one,
                distance(u, 0) == u && u >= 0 || distance(u, 0) == -u && u <= 0,
                distance(n, 0) == n || distance(n, 0) == -n,
                reach() == pow2(1016) * one,
                pow2(1016) >= 0x1_0000_0000_0000_0000,
                one > 0,
        ;
        assert(is_rounding(angle, n, one)) by {
            reveal(rounds);
        }
        lemma_rounding_is_near(angle, n, one);
        // The angle is no closer to zero than the argument, which is a number.
        let v = angle.units();
        if u >= 0 {
            assert(x.units() * one <= n) by (nonlinear_arith)
                requires
                    n == pi * u,
                    pi >= one,
                    u >= 0,
                    x.units() == u,
            ;
            assert(u <= v);
        } else {
            assert(n <= x.units() * one) by (nonlinear_arith)
                requires
                    n == pi * u,
                    pi >= one,
                    u < 0,
                    x.units() == u,
            ;
            assert(v <= u);
        }
        let d = distance(v, 0);
        lemma_value(SAME_RATIO, 982, 92);
        lemma_pow2_adds(982, 92);
        lemma2_to64();
        lemma_pow2_adds(64, 28);
        lemma_pow2_strictly_increases(100, 982);
        lemma_pow2_strictly_increases(92, 1016);
        lemma_pow2_adds(50, 50);
        let w = wave.units();
        assert(d >= pow2(982)) by (nonlinear_arith)
            requires
                d >= value_of(SAME_RATIO),
                value_of(SAME_RATIO) == 4951760157141521 * pow2(982),
                pow2(982) > 0,
        ;
        assert(distance(w * one, 0) <= reach() * d) by (nonlinear_arith)
            requires
                distance(w, 0) <= one,
                distance(w, 0) == w && w >= 0 || distance(w, 0) == -w && w <= 0,
                distance(w * one, 0) == w * one || distance(w * one, 0) == -(w * one),
                reach() == pow2(1016) * one,
                pow2(1016) >= 0x1_0000_0000_0000_0000,
                one == pow2(982) * pow2(92),
                pow2(92) == 0x1_0000_0000_0000_0000 * 0x1000_0000,
                pow2(1016) >= pow2(92),
                d >= pow2(982),
                pow2(982) > 0,
        ;
        let m = if v > 0 {
            w * one
        } else {
            -(w * one)
        };
        assert(is_rounding(lobe, m, d)) by {
            reveal(rounds);
        }
        lemma_rounding_is_near(lobe, m, d);
        let l = lobe.units();
        assert(distance(l, 0) <= pow2(1200)) by {
            assert(distance(m, 0) <= one * one) by (nonlinear_arith)
                requires
                    distance(w, 0) <= one,
                    distance(w, 0) == w && w >= 0 || distance(w, 0) == -w && w <= 0,
                    m == w * one || m == -(w * one),
                    distance(m, 0) == m || distance(m, 0) == -m,
                    one > 0,
            ;
            lemma_lobe_limit(l, m, d);
        }
        assert(l * v == l * d || l * v == -(l * d)) by (nonlinear_arith)
            requires
                d == v || d == -v,
        ;
        assert(v < 0 ==> l * v == -(l * d)) by (nonlinear_arith)
            requires
                v < 0 ==> d == -v,
        ;
        if w == 0 {
            let zero = lemma_whole_number(0);
            assert(zero.units() * d == m) by (nonlinear_arith)
                requires
                    zero.units() == 0 * one,
                    w == 0,
                    m == w * one || m == -(w * one),
            ;
            lemma_rounding_is_exact(lobe, zero, m, d);
        }
    }
}

/// There is a number that is twice a number.
proof fn lemma_twice(x: Double) -> (y: Double)
    requires
        x.is_finite(),
        distance(x.units(), 0) <= pow2(2000),
    ensures
        y.is_finite(),
        y.units() == 2 * x.units(),
{
    lemma2_to64();
    let h = HIDDEN as nat;
    let e = x.magnitude() / h;
    let f = x.magnitude() % h;
    let y = if e == 0 {
        let y = lemma_number(2 * f, 0);
        assert(y.units() == 2 * f);
        y
    } else {
        let s = h + f;
        if e > 2040 {
            lemma_pow2_strictly_increases(2000, (e - 1) as nat);
            assert(s * pow2((e - 1) as nat) > pow2(2000)) by (nonlinear_arith)
                requires
                    s >= 1,
                    pow2((e - 1) as nat) > pow2(2000),
            ;
        }
        let y = lemma_number(s, e);
        lemma_pow2_adds((e - 1) as nat, 1);
        assert(s * pow2(e) == 2 * (s * pow2((e - 1) as nat))) by (nonlinear_arith)
            requires
                pow2(e) == pow2((e - 1) as nat) * 2,
        ;
        y
    };
    if x.is_negative() {
        lemma_opposite(y)
    } else {
        y
    }
}

/// The turn of tap `k` of `taps` is the whole circle times `k / (taps - 1)`, to within the
/// rounding.
pub proof fn law_window_turns_once<A: Arithmetic>(k: u64, taps: u64, angle: Double)
    requires
        rounds::<A>(),
        1 < taps <= 0xffff_ffff,
        k < taps,
        is_window_angle::<A>(k, taps, angle),
    ensures
        angle.is_finite(),
        0 <= angle.units() <= 16 * unit(),
        distance(angle.units() * (taps - 1), value_of(TAU) * k) * fine() <= 3 * (value_of(TAU) * k)
            + 3 * ((taps - 1) * fine()),
{
    reveal(rounds);
    lemma_reach();
    law_constants_are_what_they_say();
    lemma_value(TAU, 1024, 50);
    let one = unit();
    let f = fine();
    let tau = value_of(TAU);
    let j = k as int;
    let d = taps - 1;
    let (n, m, turn) = choose|n: Double, m: Double, turn: Double|
        {
            &&& call_ensures(A::of_count, (k,), n)
            &&& call_ensures(A::of_count, ((taps - 1) as u64,), m)
            &&& #[trigger] call_ensures(A::product, (Double { bits: TAU }, n), turn)
            &&& #[trigger] call_ensures(A::quotient, (turn, m), angle)
        };
    lemma_whole_is_exact(n, j);
    lemma_whole_is_exact(m, d);
    assert(6 * one <= tau <= 7 * one);
    let a = tau * j;
    assert(tau * (j * one) == a * one && 0 <= a <= 0x8_0000_0000 * one && a * one <= reach() * one
        && a <= tau * d) by (nonlinear_arith)
        requires
            a == tau * j,
            0 <= j <= d < 0x1_0000_0000,
            6 * one <= tau <= 7 * one,
            reach() == pow2(1016) * one,
            pow2(1016) >= 0x1_0000_0000_0000_0000,
            one > 0,
    ;
    assert(is_rounding(turn, a * one, one));
    lemma_rounding_is_near(turn, a * one, one);
    lemma_near_reduced(turn, a, 1, one);
    let t = turn.units();
    let zero = lemma_whole_number(0);
    assert(zero.units() * one <= a * one) by (nonlinear_arith)
        requires
            zero.units() == 0 * one,
            a >= 0,
            one > 0,
    ;
    assert(t >= 0);
    assert(t <= 2 * a + 1) by (nonlinear_arith)
        requires
            distance(t, a) * f <= a + 1 * f,
            distance(t, a) >= t - a,
            f >= 1,
            a >= 0,
    ;
    assert(d * one > 0 && t * one <= reach() * (d * one)) by (nonlinear_arith)
        requires
            t <= 0x10_0000_0001 * one,
            d >= 1,
            one > 0,
            reach() == pow2(1016) * one,
            pow2(1016) >= 0x1_0000_0000_0000_0000,
    ;
    assert(is_rounding(angle, t * one, d * one));
    lemma_rounding_is_near(angle, t * one, d * one);
    lemma_near_reduced(angle, t, d, one);
    let u = angle.units();
    assert(zero.units() * (d * one) <= t * one) by (nonlinear_arith)
        requires
            zero.units() == 0 * one,
            t >= 0,
            one > 0,
    ;
    assert(u >= 0);
    let limit = lemma_whole_number(16);
    assert(t * one <= limit.units() * (d * one)) by (nonlinear_arith)
        requires
            limit.units() == 16 * one,
            t <= 2 * a + 1,
            a <= tau * d,
            tau <= 7 * one,
            d >= 1,
            one >= 1,
    ;
    let e = distance(u * d, a);
    assert(e <= distance(u * d, t) + distance(t, a));
    assert(e * f <= distance(u * d, t) * f + distance(t, a) * f) by (nonlinear_arith)
        requires
            e <= distance(u * d, t) + distance(t, a),
            f > 0,
    ;
    assert(f <= d * f) by (nonlinear_arith)
        requires
            d >= 1,
            f > 0,
    ;
}

/// `weight` is the Blackman window at an angle, `0.42 - 0.5 * cos(angle) + 0.08 * cos(2 * angle)`,
/// to within the rounding.
pub open spec fn is_weight<A: Arithmetic>(angle: Double, weight: Double) -> bool {
    exists|doubled: Double, once: Double, twice: Double|
        {
            &&& doubled.is_finite()
            &&& doubled.units() == 2 * angle.units()
            &&& #[trigger] call_ensures(A::cosine, (angle,), once)
            &&& #[trigger] call_ensures(A::cosine, (doubled,), twice)
            &&& weight.is_finite()
            &&& distance(weight.units(), 0) <= 4 * unit()
            &&& distance(
                weight.units() * unit(),
                value_of(FORTY_TWO_HUNDREDTHS) * unit() - value_of(HALF) * once.units() + value_of(
                    EIGHT_HUNDREDTHS,
                ) * twice.units(),
            ) * fine() <= 16 * (unit() * unit())
        }
}

/// A rounded product of numbers that are no larger than one.
proof fn lemma_small_product(r: Double, a: int, b: int)
    requires
        0 <= a <= unit(),
        distance(b, 0) <= unit(),
        is_rounding(r, a * b, unit()),
    ensures
        distance(r.units(), 0) <= unit(),
        distance(r.units() * unit(), a * b) * fine() <= 2 * (unit() * unit()),
{
    lemma_reach();
    let one = unit();
    let f = fine();
    let n = a * b;
    assert(distance(n, 0) <= one * one && one * one <= reach() * one) by (nonlinear_arith)
        requires
            n == a * b,
            0 <= a <= one,
            distance(b, 0) <= one,
            distance(b, 0) == b && b >= 0 || distance(b, 0) == -b && b <= 0,
            distance(n, 0) == n || distance(n, 0) == -n,
            reach() == pow2(1016) * one,
            pow2(1016) >= 1,
            one > 0,
    ;
    lemma_rounding_is_near(r, n, one);
    let top = lemma_whole_number(1);
    let low = lemma_whole_number(-1);
    assert(top.units() * one == one * one && low.units() * one == -(one * one)) by (nonlinear_arith)
        requires
            top.units() == 1 * one,
            low.units() == (-1) * one,
    ;
    assert(one * f <= one * one) by (nonlinear_arith)
        requires
            one >= f * f,
            f >= 1,
    ;
}

/// A rounded sum of numbers that are no larger than `limit` frames.
proof fn lemma_small_sum(r: Double, n: int, limit: int)
    requires
        distance(n, 0) <= limit * unit(),
        0 <= limit <= 8,
        is_rounding(r, n, 1),
    ensures
        distance(r.units(), 0) <= limit * unit(),
        distance(r.units(), n) * fine() <= (limit + 1) * unit(),
{
    lemma_reach();
    let one = unit();
    let f = fine();
    assert(limit * one <= reach() * 1 && f <= one) by (nonlinear_arith)
        requires
            0 <= limit <= 8,
            reach() == pow2(1016) * one,
            pow2(1016) >= 0x1_0000_0000_0000_0000,
            one >= f * f,
            f >= 1,
    ;
    lemma_rounding_is_near(r, n, 1);
    let top = lemma_whole_number(limit);
    let low = lemma_whole_number(-limit);
    assert((-limit) * one == -(limit * one) && (limit + 1) * one == limit * one + one)
        by (nonlinear_arith);
}

/// The window is what it is called.
pub proof fn law_window_is_blackman<A: Arithmetic>(angle: Double, weight: Double)
    requires
        rounds::<A>(),
        waves::<A>(),
        angle.is_finite(),
        0 <= angle.units() <= 16 * unit(),
        is_blackman::<A>(angle, weight),
    ensures
        is_weight::<A>(angle, weight),
{
    lemma_reach();
    law_constants_are_what_they_say();
    lemma_value(HALF, 1021, 53);
    lemma_value(TWO, 1023, 51);
    lemma_value(FORTY_TWO_HUNDREDTHS, 1020, 54);
    lemma_value(EIGHT_HUNDREDTHS, 1018, 56);
    let one = unit();
    let f = fine();
    let (once, twice, first, second, doubled, falling) = choose|
        once: Double,
        twice: Double,
        first: Double,
        second: Double,
        doubled: Double,
        falling: Double,
    |
        {
            &&& call_ensures(A::cosine, (angle,), once)
            &&& #[trigger] call_ensures(A::product, (Double { bits: HALF }, once), first)
            &&& #[trigger] call_ensures(
                A::difference,
                (Double { bits: FORTY_TWO_HUNDREDTHS }, first),
                falling,
            )
            &&& call_ensures(A::product, (Double { bits: TWO }, angle), doubled)
            &&& #[trigger] call_ensures(A::cosine, (doubled,), twice)
            &&& #[trigger] call_ensures(
                A::product,
                (Double { bits: EIGHT_HUNDREDTHS }, twice),
                second,
            )
            &&& call_ensures(A::sum, (falling, second), weight)
        };
    let (h, c42, c08) = (value_of(HALF), value_of(FORTY_TWO_HUNDREDTHS), value_of(EIGHT_HUNDREDTHS));
    lemma_hundredths(c42, 42);
    lemma_hundredths(c08, 8);
    let (c1, c2) = (once.units(), twice.units());
    assert(distance(c1, 0) <= one && distance(c2, 0) <= one);
    // Twice the angle is a number.
    lemma_pow2_strictly_increases(1100, 2000);
    lemma_pow2_adds(1074, 26);
    lemma2_to64();
    let u = angle.units();
    assert(u <= pow2(2000)) by (nonlinear_arith)
        requires
            u <= 16 * one,
            pow2(1100) == one * 0x400_0000,
            pow2(2000) > pow2(1100),
            one > 0,
    ;
    let y = lemma_twice(angle);
    assert((2 * one) * u == y.units() * one && 0 <= (2 * one) * u <= reach() * one)
        by (nonlinear_arith)
        requires
            y.units() == 2 * u,
            0 <= u <= 16 * one,
            reach() == pow2(1016) * one,
            pow2(1016) >= 0x1_0000_0000_0000_0000,
            one > 0,
    ;
    assert(is_rounding(doubled, (2 * one) * u, one)) by {
        reveal(rounds);
    }
    lemma_rounding_is_exact(doubled, y, (2 * one) * u, one);
    // The two cosine terms.
    assert(distance(h * c1, 0) <= reach() * one && distance(c08 * c2, 0) <= reach() * one)
        by (nonlinear_arith)
        requires
            0 <= h <= one,
            0 <= c08 <= one,
            distance(c1, 0) <= one,
            distance(c2, 0) <= one,
            distance(c1, 0) == c1 && c1 >= 0 || distance(c1, 0) == -c1 && c1 <= 0,
            distance(c2, 0) == c2 && c2 >= 0 || distance(c2, 0) == -c2 && c2 <= 0,
            distance(h * c1, 0) == h * c1 || distance(h * c1, 0) == -(h * c1),
            distance(c08 * c2, 0) == c08 * c2 || distance(c08 * c2, 0) == -(c08 * c2),
            reach() == pow2(1016) * one,
            pow2(1016) >= 1,
            one > 0,
    ;
    assert(is_rounding(first, h * c1, one) && is_rounding(second, c08 * c2, one)) by {
        reveal(rounds);
    }
    lemma_small_product(first, h, c1);
    lemma_small_product(second, c08, c2);
    // The sums.
    let (a, b) = (first.units(), second.units());
    assert(4 * one <= reach()) by (nonlinear_arith)
        requires
            reach() == pow2(1016) * one,
            pow2(1016) >= 4,
            one > 0,
    ;
    assert(is_rounding(falling, c42 - a, 1)) by {
        reveal(rounds);
    }
    lemma_small_sum(falling, c42 - a, 2);
    let g = falling.units();
    assert(is_rounding(weight, g + b, 1)) by {
        reveal(rounds);
    }
    lemma_small_sum(weight, g + b, 3);
    let w = weight.units();
    lemma_weight_error(w, g, a, b, c42, h * c1, c08 * c2, one, f);
}

proof fn lemma_hundredths(c: int, n: int)
    requires
        distance(c * 100, n * unit()) * fine() <= 100 * unit(),
        0 <= n <= 42,
        n >= 8,
    ensures
        0 <= c <= unit(),
{
    lemma_reach();
    let one = unit();
    let f = fine();
    let d = distance(c * 100, n * one);
    assert(d <= one) by (nonlinear_arith)
        requires
            d * f <= 100 * one,
            f >= 100,
            d >= 0,
            one > 0,
    ;
    assert(8 * one <= n * one <= 42 * one) by (nonlinear_arith)
        requires
            8 <= n <= 42,
            one > 0,
    ;
}

proof fn lemma_weight_error(
    w: int,
    g: int,
    a: int,
    b: int,
    c: int,
    x: int,
    y: int,
    one: int,
    f: int,
)
    requires
        one > 0,
        f > 0,
        distance(a * one, x) * f <= 2 * (one * one),
        distance(b * one, y) * f <= 2 * (one * one),
        distance(g, c - a) * f <= 3 * one,
        distance(w, g + b) * f <= 4 * one,
    ensures
        distance(w * one, c * one - x + y) * f <= 16 * (one * one),
{
    let e = distance(w * one, c * one - x + y);
    let e1 = distance(a * one, x);
    let e2 = distance(b * one, y);
    let e3 = distance(g, c - a);
    let e4 = distance(w, g + b);
    assert(w * one == (w - g - b) * one + (g - c + a) * one + c * one - a * one + b * one)
        by (nonlinear_arith);
    assert((w - g - b) * one <= e4 * one && -((w - g - b) * one) <= e4 * one) by (nonlinear_arith)
        requires
            w - g - b <= e4,
            -(w - g - b) <= e4,
            one > 0,
    ;
    assert((g - c + a) * one <= e3 * one && -((g - c + a) * one) <= e3 * one) by (nonlinear_arith)
        requires
            g - c + a <= e3,
            -(g - c + a) <= e3,
            one > 0,
    ;
    assert(e <= e1 + e2 + e3 * one + e4 * one);
    assert(e * f <= e1 * f + e2 * f + (e3 * f) * one + (e4 * f) * one) by (nonlinear_arith)
        requires
            e <= e1 + e2 + e3 * one + e4 * one,
            f > 0,
    ;
    assert((e3 * f) * one <= 3 * (one * one) && (e4 * f) * one <= 4 * (one * one))
        by (nonlinear_arith)
        requires
            e3 * f <= 3 * one,
            e4 * f <= 4 * one,
            one > 0,
    ;
}

/// `tap` is tap `k` of a kernel of `2 * half_taps` taps, at sub-phase `phase / 512`, before it is
/// scaled: the sinc function of the cutoff times the distance to the tap, under the window.
pub open spec fn is_windowed_sinc<A: Arithmetic>(
    cutoff: int,
    half_taps: int,
    phase: int,
    k: int,
    tap: Double,
) -> bool {
    exists|x: Double, lobe: Double, angle: Double, weight: Double|
        {
            &&& is_rounding(x, cutoff * parts_away(half_taps, phase, k), 512)
            &&& #[trigger] is_lobe::<A>(x, lobe)
            &&& angle.is_finite()
            &&& distance(angle.units() * (2 * half_taps - 1), value_of(TAU) * k) * fine() <= 3 * (
            value_of(TAU) * k) + 3 * ((2 * half_taps - 1) * fine())
            &&& #[trigger] is_weight::<A>(angle, weight)
            &&& near(tap, weight.units() * lobe.units(), unit())
            &&& lobe.units() == 0 ==> tap.units() == 0
        }
}

/// A tap is the sinc function of cutoff times distance, under the window.
pub proof fn law_tap_is_a_windowed_sinc<A: Arithmetic>(
    cutoff: Double,
    half_taps: usize,
    phase: usize,
    k: usize,
    tap: Double,
)
    requires
        rounds::<A>(),
        waves::<A>(),
        cutoff.is_finite(),
        0 < cutoff.units() <= unit(),
        0 < half_taps <= 256,
        phase < 512,
        k < 2 * half_taps,
        is_tap::<A>(cutoff, half_taps, phase, 512, k, tap),
    ensures
        is_windowed_sinc::<A>(
            cutoff.units(),
            half_taps as int,
            phase as int,
            k as int,
            tap,
        ),
{
    lemma_reach();
    let one = unit();
    let taps = (2 * half_taps) as u64;
    let (away, angle, weight, x, lobe) = {
        reveal(is_tap);
        choose|away: Double, angle: Double, weight: Double, x: Double, lobe: Double|
            {
                &&& #[trigger] is_distance::<A>(
                    half_taps as u64,
                    phase as u64,
                    512,
                    k as u64,
                    away,
                )
                &&& is_window_angle::<A>(k as u64, taps, angle)
                &&& #[trigger] is_blackman::<A>(angle, weight)
                &&& call_ensures(A::product, (cutoff, away), x)
                &&& #[trigger] is_sinc::<A>(x, lobe)
                &&& call_ensures(A::product, (weight, lobe), tap)
            }
    };
    reveal(is_tap);
    law_distance_is_exact::<A>(half_taps as u64, phase as u64, k as u64, away);
    law_window_turns_once::<A>(k as u64, taps, angle);
    law_window_is_blackman::<A>(angle, weight);
    // The argument.
    let c = cutoff.units();
    let a = away.units();
    let parts = parts_away(half_taps as int, phase as int, k as int);
    assert(-0x2_0200 <= parts <= 0x2_0200);
    let n = c * a;
    assert(n * 512 == (c * parts) * one) by (nonlinear_arith)
        requires
            n == c * a,
            a * 512 == parts * one,
    ;
    assert(distance(n, 0) <= 257 * one * one && 257 * one * one <= reach() * one)
        by (nonlinear_arith)
        requires
            n * 512 == (c * parts) * one,
            0 < c <= one,
            -0x2_0200 <= parts <= 0x2_0200,
            distance(n, 0) == n || distance(n, 0) == -n,
            reach() == pow2(1016) * one,
            pow2(1016) >= 0x1_0000_0000_0000_0000,
            one > 0,
    ;
    assert(is_rounding(x, n, one)) by {
        reveal(rounds);
    }
    lemma_rounding_of_fraction(x, n, one, c * parts, 512);
    let top = lemma_whole_number(257);
    let low = lemma_whole_number(-257);
    assert(top.units() * one == 257 * one * one && low.units() * one == -(257 * one * one))
        by (nonlinear_arith)
        requires
            top.units() == 257 * one,
            low.units() == (-257) * one,
    ;
    assert(distance(x.units(), 0) <= 0x1_0000_0000 * one);
    law_sinc_is_sine_over_angle::<A>(x, lobe);
    // The product.
    let (w, l) = (weight.units(), lobe.units());
    lemma_pow2_adds(1074, 2);
    lemma2_to64();
    lemma_pow2_strictly_increases(1074, 1200);
    lemma_pow2_adds(1076, 1200);
    lemma_pow2_adds(2090, 1074);
    lemma_pow2_strictly_increases(2276, 3164);
    assert(distance(w * l, 0) <= reach() * one) by (nonlinear_arith)
        requires
            distance(w, 0) <= pow2(1076),
            distance(l, 0) <= pow2(1200),
            distance(w, 0) == w && w >= 0 || distance(w, 0) == -w && w <= 0,
            distance(l, 0) == l && l >= 0 || distance(l, 0) == -l && l <= 0,
            distance(w * l, 0) == w * l || distance(w * l, 0) == -(w * l),
            pow2(2276) == pow2(1076) * pow2(1200),
            reach() * one == pow2(3164),
            pow2(2276) < pow2(3164),
    ;
    assert(is_rounding(tap, w * l, one)) by {
        reveal(rounds);
    }
    lemma_rounding_is_near(tap, w * l, one);
    if l == 0 {
        let zero = lemma_whole_number(0);
        assert(zero.units() * one == w * l) by (nonlinear_arith)
            requires
                zero.units() == 0 * one,
                l == 0,
        ;
        lemma_rounding_is_exact(tap, zero, w * l, one);
    }
    assert(is_lobe::<A>(x, lobe) && is_weight::<A>(angle, weight));
}

/// A row of a table: the taps of a windowed sinc, each rounded to a sample, and all of them scaled
/// by one gain, or none.
pub open spec fn is_row<A: Arithmetic>(
    cutoff: int,
    half_taps: int,
    phase: int,
    row: Seq<A::Sample>,
) -> bool {
    exists|taps: Seq<Double>, rounded: Seq<A::Sample>|
        {
            &&& row.len() == 2 * half_taps
            &&& #[trigger] are_windowed_sincs::<A>(cutoff, half_taps, phase, taps)
            &&& #[trigger] kernel_rounded::<A>(taps, rounded)
            &&& is_scaled::<A>(taps, rounded, row)
        }
}

/// All taps of a kernel.
pub open spec fn are_windowed_sincs<A: Arithmetic>(
    cutoff: int,
    half_taps: int,
    phase: int,
    taps: Seq<Double>,
) -> bool {
    &&& taps.len() == 2 * half_taps
    &&& forall|k: int|
        0 <= k < taps.len() ==> is_windowed_sinc::<A>(
            cutoff,
            half_taps,
            phase,
            k,
            #[trigger] taps[k],
        )
}

/// The samples are scaled by the inverse of the sum of the taps, to within the rounding.
pub open spec fn is_scaled<A: Arithmetic>(
    taps: Seq<Double>,
    rounded: Seq<A::Sample>,
    row: Seq<A::Sample>,
) -> bool {
    exists|sums: Seq<Double>| #[trigger] adds_up::<A>(sums, taps) && kernel_scaled::<A>(
        rounded,
        sums.last(),
        row,
    )
}

/// The running sums of the taps.
pub open spec fn adds_up<A: Arithmetic>(sums: Seq<Double>, taps: Seq<Double>) -> bool {
    &&& sums.len() == taps.len() + 1
    &&& sums[0].bits == 0
    &&& forall|k: int|
        0 <= k < taps.len() ==> call_ensures(A::sum, (sums[k], #[trigger] taps[k]), sums[k + 1])
}

/// Every kernel in a table for a cutoff is the windowed sinc that this cutoff stretches, whatever
/// the number of taps: in row `phase`, tap `k` comes of the sinc function of the cutoff times
/// `phase / 512 + half_taps - 1 - k`.
pub proof fn law_table_holds_stretched_sincs<A: Arithmetic>(
    table: Seq<A::Sample>,
    cutoff: Double,
    half_taps: usize,
    phase: int,
)
    requires
        rounds::<A>(),
        waves::<A>(),
        cutoff.is_finite(),
        0 < cutoff.units() <= unit(),
        0 < half_taps <= 256,
        0 <= phase < 512,
        is_table::<A>(table, cutoff, half_taps),
    ensures
        table.len() == 1024 * half_taps,
        is_row::<A>(
            cutoff.units(),
            half_taps as int,
            phase,
            table.subrange(phase * (2 * half_taps), phase * (2 * half_taps) + 2 * half_taps),
        ),
{
    let h = half_taps as int;
    let row = kernel_of(table, h, phase);
    let w = 2 * h;
    assert(0 <= phase * w && (phase + 1) * w == phase * w + w && phase * w + w <= 512 * w)
        by (nonlinear_arith)
        requires
            w > 0,
            0 <= phase < 512,
    ;
    assert(is_kernel::<A>(row, cutoff, half_taps, phase as usize));
    let (taps, sums, rounded) = choose|
        taps: Seq<Double>,
        sums: Seq<Double>,
        rounded: Seq<A::Sample>,
    |
        {
            &&& taps.len() == 2 * half_taps
            &&& #[trigger] kernel_taps::<A>(taps, sums, cutoff, half_taps, phase as usize)
            &&& #[trigger] kernel_rounded::<A>(taps, rounded)
            &&& kernel_scaled::<A>(rounded, sums.last(), row)
        };
    assert forall|k: int| 0 <= k < taps.len() implies is_windowed_sinc::<A>(
        cutoff.units(),
        h,
        phase,
        k,
        #[trigger] taps[k],
    ) by {
        law_tap_is_a_windowed_sinc::<A>(
            cutoff,
            half_taps,
            phase as usize,
            k as usize,
            taps[k],
        );
    }
    assert(are_windowed_sincs::<A>(cutoff.units(), h, phase, taps));
    assert(adds_up::<A>(sums, taps));
    assert(is_scaled::<A>(taps, rounded, row));
    assert(row == table.subrange(phase * w, phase * w + w));
}

/// The table of a resampler follows its ratio: every kernel of a new resampler is a windowed sinc
/// stretched by the ratio where that is below one, and not stretched else.
pub proof fn law_kernels_follow_the_ratio<A: Arithmetic>(
    made: Filtered<A::Sample>,
    ratio: Double,
    channels: usize,
    phase: int,
)
    requires
        rounds::<A>(),
        waves::<A>(),
        made_with::<A>(made, ratio, channels),
        0 <= phase < 512,
    ensures
        is_row::<A>(
            if made.stream.ratio.units() <= unit() {
                made.stream.ratio.units()
            } else {
                unit()
            },
            made.half_taps as int,
            phase,
            made.table.subrange(
                phase * (2 * made.half_taps),
                phase * (2 * made.half_taps) + 2 * made.half_taps,
            ),
        ),
{
    lemma_one_units();
    lemma_reach();
    let cutoff = made.stream.ratio.limited_to_one();
    law_table_holds_stretched_sincs::<A>(made.table, cutoff, made.half_taps, phase);
}

/// A table that is built anew for a ratio follows it, too.
pub proof fn law_rebuilt_kernels_follow_the_ratio<A: Arithmetic>(
    before: Filtered<A::Sample>,
    after: Filtered<A::Sample>,
    phase: int,
)
    requires
        rounds::<A>(),
        waves::<A>(),
        before.valid(),
        table_ensured::<A>(before, after),
        !cutoffs_compared::<A>(
            before.stream.ratio.limited_to_one(),
            before.table_cutoff,
            false,
        ),
        0 <= phase < 512,
    ensures
        is_row::<A>(
            if before.stream.ratio.units() <= unit() {
                before.stream.ratio.units()
            } else {
                unit()
            },
            after.half_taps as int,
            phase,
            after.table.subrange(
                phase * (2 * after.half_taps),
                phase * (2 * after.half_taps) + 2 * after.half_taps,
            ),
        ),
{
    lemma_one_units();
    lemma_reach();
    let cutoff = before.stream.ratio.limited_to_one();
    law_table_holds_stretched_sincs::<A>(after.table, cutoff, after.half_taps, phase);
}

/// The zeros of the sinc function are where the cutoff puts them: a tap whose distance times the
/// cutoff is a whole number of frames, and not none, is nothing, where the sine is nothing at
/// whole multiples of pi.
pub proof fn law_taps_are_nothing_at_the_zeros<A: Arithmetic>(
    cutoff: Double,
    half_taps: usize,
    phase: usize,
    k: usize,
    n: int,
    tap: Double,
)
    requires
        rounds::<A>(),
        waves::<A>(),
        cutoff.is_finite(),
        0 < cutoff.units() <= unit(),
        0 < half_taps <= 256,
        phase < 512,
        k < 2 * half_taps,
        n != 0,
        cutoff.units() * parts_away(half_taps as int, phase as int, k as int) == n * 512 * unit(),
        is_tap::<A>(cutoff, half_taps, phase, 512, k, tap),
        forall|angle: Double, wave: Double|
            near(angle, value_of(PI) * (n * unit()), unit()) && #[trigger] call_ensures(
                A::sine,
                (angle,),
                wave,
            ) ==> wave.units() == 0,
    ensures
        tap.units() == 0,
{
    lemma_reach();
    law_constants_are_what_they_say();
    let one = unit();
    let c = cutoff.units();
    let parts = parts_away(half_taps as int, phase as int, k as int);
    law_tap_is_a_windowed_sinc::<A>(cutoff, half_taps, phase, k, tap);
    let (x, lobe, angle, weight) = choose|
        x: Double,
        lobe: Double,
        angle: Double,
        weight: Double,
    |
        {
            &&& is_rounding(x, c * parts, 512)
            &&& #[trigger] is_lobe::<A>(x, lobe)
            &&& angle.is_finite()
            &&& distance(angle.units() * (2 * half_taps - 1), value_of(TAU) * k) * fine() <= 3 * (
            value_of(TAU) * k) + 3 * ((2 * half_taps - 1) * fine())
            &&& #[trigger] is_weight::<A>(angle, weight)
            &&& near(tap, weight.units() * lobe.units(), unit())
            &&& lobe.units() == 0 ==> tap.units() == 0
        };
    assert(distance(n, 0) <= 2 * HIDDEN) by (nonlinear_arith)
        requires
            c * parts == n * 512 * one,
            0 < c <= one,
            -0x2_0200 <= parts <= 0x2_0200,
            distance(n, 0) == n || distance(n, 0) == -n,
            one > 0,
            HIDDEN == 0x10_0000_0000_0000,
    ;
    let whole = lemma_whole_number(n);
    assert(whole.units() * 512 == c * parts) by (nonlinear_arith)
        requires
            whole.units() == n * one,
            c * parts == n * 512 * one,
    ;
    lemma_rounding_is_exact(x, whole, c * parts, 512);
    assert(distance(x.units(), 0) >= one) by (nonlinear_arith)
        requires
            x.units() == n * one,
            n != 0,
            one > 0,
            distance(x.units(), 0) == x.units() || distance(x.units(), 0) == -x.units(),
            distance(x.units(), 0) >= 0,
    ;
    lemma_value(SAME_RATIO, 982, 92);
    lemma2_to64();
    lemma_pow2_adds(64, 28);
    assert(value_of(SAME_RATIO) < one) by (nonlinear_arith)
        requires
            value_of(SAME_RATIO) == 4951760157141521 * pow2(982),
            one == pow2(982) * pow2(92),
            pow2(92) > 4951760157141521,
            pow2(982) > 0,
    ;
}

} // verus!
