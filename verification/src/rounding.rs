//! What a floating-point unit does to a result: it rounds it to a number next to it.
//!
//! The laws on values rest on that and on nothing else. An arithmetic [`rounds`] where no number
//! lies between the exact result of an operation and the result it gives, as every rounding mode
//! of binary64 has it. So a result that is a number comes out as it is, and any other comes out
//! [`near`] it.

use vstd::prelude::*;
use vstd::arithmetic::div_mod::lemma_div_denominator;
use vstd::arithmetic::div_mod::lemma_fundamental_div_mod;
use vstd::arithmetic::div_mod::lemma_fundamental_div_mod_converse;
use vstd::arithmetic::power2::lemma2_to64;
use vstd::arithmetic::power2::lemma_pow2_adds;
use vstd::arithmetic::power2::lemma_pow2_pos;
use vstd::arithmetic::power2::lemma_pow2_strictly_increases;
use vstd::arithmetic::power2::pow2;

use crate::arithmetic::Arithmetic;
use crate::double::Double;
use crate::double::HIDDEN;
use crate::double::INFINITY;
use crate::double::SIGN;

verus! {

/// The value of `1.0`, in units of the smallest number.
pub open spec fn unit() -> int {
    pow2(1074) as int
}

/// `2^52`: a number differs from what it was rounded from by less than a part in as many.
pub open spec fn fine() -> int {
    HIDDEN as int
}

/// The values of which a result is certain to be finite reach as far as this, in units of the
/// smallest number.
pub open spec fn reach() -> int {
    pow2(2090) as int
}

pub open spec fn distance(a: int, b: int) -> int {
    if a <= b {
        b - a
    } else {
        a - b
    }
}

/// `result` is what `n / d` units are rounded to: a finite number, with no number between it and
/// the exact value.
pub open spec fn is_rounding(result: Double, n: int, d: int) -> bool {
    &&& result.is_finite()
    &&& forall|x: Double| #[trigger]
        x.is_finite() && x.units() * d <= n ==> x.units() <= result.units()
    &&& forall|x: Double| #[trigger]
        x.is_finite() && n <= x.units() * d ==> result.units() <= x.units()
}

/// `result` is `n / d` units to within a part in `2^52`, and a unit of the smallest number.
pub open spec fn near(result: Double, n: int, d: int) -> bool {
    &&& result.is_finite()
    &&& distance(result.units() * d, n) * fine() <= distance(n, 0) + d * fine()
}

/// An arithmetic whose operations round, as long as their exact results are within reach.
#[verifier::opaque]
pub open spec fn rounds<A: Arithmetic>() -> bool {
    &&& forall|a: Double, b: Double, r: Double|
        a.is_finite() && b.is_finite() && distance(a.units() + b.units(), 0) <= reach()
            && #[trigger] call_ensures(A::sum, (a, b), r) ==> is_rounding(
            r,
            a.units() + b.units(),
            1,
        )
    &&& forall|a: Double, b: Double, r: Double|
        a.is_finite() && b.is_finite() && distance(a.units() - b.units(), 0) <= reach()
            && #[trigger] call_ensures(A::difference, (a, b), r) ==> is_rounding(
            r,
            a.units() - b.units(),
            1,
        )
    &&& forall|a: Double, b: Double, r: Double|
        a.is_finite() && b.is_finite() && distance(a.units() * b.units(), 0) <= reach() * unit()
            && #[trigger] call_ensures(A::product, (a, b), r) ==> is_rounding(
            r,
            a.units() * b.units(),
            unit(),
        )
    &&& forall|a: Double, b: Double, r: Double|
        a.is_finite() && b.is_finite() && b.units() != 0 && distance(a.units() * unit(), 0)
            <= reach() * distance(b.units(), 0) && #[trigger] call_ensures(
            A::quotient,
            (a, b),
            r,
        ) ==> is_rounding(
            r,
            if b.units() > 0 {
                a.units() * unit()
            } else {
                -(a.units() * unit())
            },
            distance(b.units(), 0),
        )
    &&& forall|n: u64, r: Double| #[trigger]
        call_ensures(A::of_count, (n,), r) ==> is_rounding(r, n * unit(), 1)
    &&& forall|n: i64, r: Double| #[trigger]
        call_ensures(A::of_frame, (n,), r) ==> is_rounding(r, n * unit(), 1)
}

/// There is a number for every significand of 53 bits and every exponent.
pub proof fn lemma_number(m: nat, e: nat) -> (x: Double)
    requires
        m < 2 * HIDDEN,
        e <= 2045,
    ensures
        x.is_finite(),
        !x.is_negative(),
        x.units() == m * pow2(e),
    decreases e,
{
    if m >= HIDDEN {
        let bits = ((e + 1) * HIDDEN + (m - HIDDEN)) as int;
        assert(bits < INFINITY);
        lemma_fundamental_div_mod_converse(
            bits,
            HIDDEN as int,
            (e + 1) as int,
            m - HIDDEN,
        );
        let x = Double { bits: bits as u64 };
        assert(x.magnitude() == bits);
        x
    } else if e == 0 {
        lemma2_to64();
        let x = Double { bits: m as u64 };
        lemma_fundamental_div_mod_converse(m as int, HIDDEN as int, 0, m as int);
        assert(x.magnitude() == m);
        assert(m * pow2(e) == m);
        x
    } else {
        let x = lemma_number(2 * m, (e - 1) as nat);
        lemma2_to64();
        lemma_pow2_adds(1, (e - 1) as nat);
        assert((2 * m) * pow2((e - 1) as nat) == m * pow2(e)) by (nonlinear_arith)
            requires
                pow2(e) == 2 * pow2((e - 1) as nat),
        ;
        x
    }
}

/// With a number there is the one below zero.
pub proof fn lemma_opposite(x: Double) -> (y: Double)
    requires
        x.is_finite(),
    ensures
        y.is_finite(),
        y.units() == -x.units(),
{
    if x.is_negative() {
        Double { bits: (x.bits - SIGN) as u64 }
    } else {
        Double { bits: (x.bits + SIGN) as u64 }
    }
}

/// The exponent at which a value has 53 bits or less.
proof fn lemma_exponent(u: nat, e: nat) -> (found: nat)
    requires
        e > 0 ==> u as int / pow2(e) as int >= HIDDEN,
    ensures
        u as int / pow2(found) as int <= 2 * HIDDEN - 1,
        found > 0 ==> u as int / pow2(found) as int >= HIDDEN,
    decreases u as int / pow2(e) as int,
{
    lemma_pow2_pos(e);
    let m = u as int / pow2(e) as int;
    if m < 2 * HIDDEN {
        e
    } else {
        lemma_pow2_adds(e, 1);
        lemma2_to64();
        lemma_pow2_pos(e + 1);
        lemma_div_denominator(u as int, pow2(e) as int, 2);
        lemma_fundamental_div_mod(m, 2);
        lemma_exponent(u, e + 1)
    }
}

/// Every value within reach lies between two numbers that are next to each other.
pub proof fn lemma_neighbours(u: nat) -> (pair: (Double, Double))
    requires
        u <= reach(),
    ensures
        pair.0.is_finite(),
        pair.1.is_finite(),
        0 <= pair.0.units() <= u < pair.1.units(),
        (pair.1.units() - pair.0.units()) * fine() <= u + fine(),
{
    lemma2_to64();
    assert(pow2(0) == 1);
    let e = lemma_exponent(u, 0);
    lemma_pow2_pos(e);
    let p = pow2(e) as int;
    let m = u as int / p;
    lemma_fundamental_div_mod(u as int, p);
    assert(m >= 0) by (nonlinear_arith)
        requires
            u == p * m + u as int % p,
            0 <= u as int % p < p,
            u >= 0,
            p > 0,
    ;
    if e > 2040 {
        lemma_pow2_strictly_increases(2040, e);
        lemma_pow2_adds(2040, 52);
        lemma_pow2_adds(20, 32);
        lemma_pow2_strictly_increases(2090, 2092);
        assert(u >= HIDDEN * p) by (nonlinear_arith)
            requires
                u == p * m + u as int % p,
                0 <= u as int % p,
                m >= HIDDEN,
                p > 0,
        ;
        assert(HIDDEN * p >= HIDDEN * pow2(2040)) by (nonlinear_arith)
            requires
                p >= pow2(2040),
        ;
        assert(HIDDEN * pow2(2040) == pow2(2092)) by (nonlinear_arith)
            requires
                pow2(2092) == pow2(2040) * pow2(52),
                pow2(52) == HIDDEN,
        ;
        assert(false);
    }
    let lo = lemma_number(m as nat, e);
    assert(m * p == p * m && (m + 1) * p == p * m + p) by (nonlinear_arith);
    let hi = if m + 1 < 2 * HIDDEN {
        lemma_number((m + 1) as nat, e)
    } else {
        lemma_pow2_adds(e, 1);
        let hi = lemma_number(HIDDEN as nat, e + 1);
        assert(HIDDEN * pow2(e + 1) == (2 * HIDDEN) * p) by (nonlinear_arith)
            requires
                pow2(e + 1) == p * 2,
        ;
        hi
    };
    assert(hi.units() == (m + 1) * p);
    if e > 0 {
        assert(p * HIDDEN <= p * m) by (nonlinear_arith)
            requires
                m >= HIDDEN,
                p > 0,
        ;
    }
    (lo, hi)
}

/// What is rounded comes out near.
pub proof fn lemma_rounding_is_near(r: Double, n: int, d: int)
    requires
        d > 0,
        distance(n, 0) <= reach() * d,
        is_rounding(r, n, d),
    ensures
        near(r, n, d),
{
    let a = distance(n, 0);
    let u = a / d;
    lemma_fundamental_div_mod(a, d);
    assert(0 <= u <= reach()) by (nonlinear_arith)
        requires
            a == d * u + a % d,
            0 <= a % d < d,
            0 <= a <= reach() * d,
            d > 0,
    ;
    let (lo, hi) = lemma_neighbours(u as nat);
    let l = lo.units();
    let h = hi.units();
    assert(l * d <= a <= h * d) by (nonlinear_arith)
        requires
            l <= u,
            u + 1 <= h,
            a == d * u + a % d,
            0 <= a % d < d,
            d > 0,
    ;
    let x = r.units();
    if n >= 0 {
        assert(l <= x <= h);
        lemma_between(l, h, u, x, a, d);
    } else {
        let low = lemma_opposite(hi);
        let high = lemma_opposite(lo);
        assert((-h) * d == -(h * d) && (-l) * d == -(l * d)) by (nonlinear_arith);
        assert(-h <= x <= -l);
        lemma_between(l, h, u, -x, a, d);
        assert((-x) * d == -(x * d)) by (nonlinear_arith);
    }
}

proof fn lemma_between(l: int, h: int, u: int, x: int, a: int, d: int)
    requires
        d > 0,
        l <= x <= h,
        l * d <= a <= h * d,
        (h - l) * fine() <= u + fine(),
        u * d <= a || a == d * u + a % d && a % d >= 0,
    ensures
        distance(x * d, a) * fine() <= a + d * fine(),
{
    let f = fine();
    assert(u * d <= a) by (nonlinear_arith)
        requires
            u * d <= a || a == d * u + a % d && a % d >= 0,
    ;
    assert(distance(x * d, a) <= (h - l) * d) by (nonlinear_arith)
        requires
            distance(x * d, a) == x * d - a || distance(x * d, a) == a - x * d,
            l <= x <= h,
            l * d <= a <= h * d,
            d > 0,
    ;
    let g = distance(x * d, a);
    assert(g * f <= ((h - l) * d) * f) by (nonlinear_arith)
        requires
            g <= (h - l) * d,
            f > 0,
    ;
    assert(((h - l) * d) * f == ((h - l) * f) * d) by (nonlinear_arith);
    assert(((h - l) * f) * d <= (u + f) * d) by (nonlinear_arith)
        requires
            (h - l) * f <= u + f,
            d > 0,
    ;
    assert((u + f) * d == u * d + d * f) by (nonlinear_arith);
}

/// What is a number comes out as it is.
pub proof fn lemma_rounding_is_exact(r: Double, x: Double, n: int, d: int)
    requires
        x.is_finite(),
        x.units() * d == n,
        is_rounding(r, n, d),
    ensures
        r.units() == x.units(),
{
}

/// There is a number for every whole number of 53 bits.
pub proof fn lemma_whole_number(n: int) -> (x: Double)
    requires
        distance(n, 0) <= 2 * HIDDEN,
    ensures
        x.is_finite(),
        x.units() == n * unit(),
{
    let m = distance(n, 0);
    let x = if m < 2 * HIDDEN {
        lemma_number(m as nat, 1074)
    } else {
        lemma2_to64();
        lemma_pow2_adds(1, 1074);
        let x = lemma_number(HIDDEN as nat, 1075);
        assert(HIDDEN * pow2(1075) == (2 * HIDDEN) * pow2(1074)) by (nonlinear_arith)
            requires
                pow2(1075) == 2 * pow2(1074),
        ;
        x
    };
    if n >= 0 {
        x
    } else {
        let y = lemma_opposite(x);
        assert(-(m * unit()) == (-m) * unit()) by (nonlinear_arith);
        y
    }
}

/// A whole number of 53 bits comes out as it is.
pub proof fn lemma_whole_is_exact(r: Double, n: int)
    requires
        distance(n, 0) <= 2 * HIDDEN,
        is_rounding(r, n * unit(), 1),
    ensures
        r.units() == n * unit(),
{
    let x = lemma_whole_number(n);
    lemma_rounding_is_exact(r, x, n * unit(), 1);
}

/// What is exact for every multiple of a fraction is exact for the fraction.
pub proof fn lemma_near_reduced(r: Double, n: int, d: int, factor: int)
    requires
        factor > 0,
        d > 0,
        near(r, n * factor, d * factor),
    ensures
        near(r, n, d),
{
    let x = r.units();
    let f = fine();
    assert(x * (d * factor) == (x * d) * factor) by (nonlinear_arith);
    let g = distance(x * d, n);
    assert(distance((x * d) * factor, n * factor) == g * factor) by (nonlinear_arith)
        requires
            factor > 0,
            g == x * d - n && x * d >= n || g == n - x * d && n >= x * d,
            distance((x * d) * factor, n * factor) == (x * d) * factor - n * factor && (x * d)
                * factor >= n * factor || distance((x * d) * factor, n * factor) == n * factor - (x
                * d) * factor && n * factor >= (x * d) * factor,
    ;
    let a = distance(n, 0);
    assert(distance(n * factor, 0) == a * factor) by (nonlinear_arith)
        requires
            factor > 0,
            a == n && n >= 0 || a == -n && n <= 0,
            distance(n * factor, 0) == n * factor && n * factor >= 0 || distance(n * factor, 0)
                == -(n * factor) && n * factor <= 0,
    ;
    assert(g * f <= a + d * f) by (nonlinear_arith)
        requires
            (g * factor) * f <= a * factor + (d * factor) * f,
            factor > 0,
    ;
}

/// A value may be given by any fraction.
pub proof fn lemma_rounding_of_fraction(r: Double, n: int, d: int, n2: int, d2: int)
    requires
        d > 0,
        d2 > 0,
        n * d2 == n2 * d,
        is_rounding(r, n, d),
    ensures
        is_rounding(r, n2, d2),
{
    assert forall|x: Double| #[trigger] x.is_finite() && x.units() * d2 <= n2 implies x.units()
        <= r.units() by {
        let u = x.units();
        assert(u * d <= n) by (nonlinear_arith)
            requires
                u * d2 <= n2,
                n * d2 == n2 * d,
                d > 0,
                d2 > 0,
        ;
    }
    assert forall|x: Double| #[trigger] x.is_finite() && n2 <= x.units() * d2 implies r.units()
        <= x.units() by {
        let u = x.units();
        assert(n <= u * d) by (nonlinear_arith)
            requires
                n2 <= u * d2,
                n * d2 == n2 * d,
                d > 0,
                d2 > 0,
        ;
    }
}

} // verus!
