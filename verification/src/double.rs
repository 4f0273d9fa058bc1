//! Binary64 numbers held by their bit pattern.
//!
//! Ratios and read positions are double-precision numbers. What the resamplers decide from
//! them (is a ratio usable, which input frame does a position fall in) needs no
//! floating-point unit: it is read off the bit pattern here, and proved against the exact
//! value that the pattern stands for.

use vstd::prelude::*;
use vstd::arithmetic::div_mod::lemma_div_is_ordered;
use vstd::arithmetic::div_mod::lemma_fundamental_div_mod;
use vstd::arithmetic::div_mod::lemma_fundamental_div_mod_converse;
use vstd::arithmetic::power2::lemma2_to64;
use vstd::arithmetic::power2::lemma_pow2_adds;
use vstd::arithmetic::power2::lemma_pow2_pos;
use vstd::arithmetic::power2::lemma_pow2_strictly_increases;
use vstd::arithmetic::power2::pow2;
use vstd::bits::lemma_u64_shl_is_mul;

verus! {

/// The sign bit; what lies below it is the magnitude.
pub const SIGN: u64 = 0x8000_0000_0000_0000;

/// Bit pattern of positive infinity; a larger magnitude is a NaN.
pub const INFINITY: u64 = 0x7ff0_0000_0000_0000;

/// Bit pattern of the smallest positive normal number.
pub const MIN_POSITIVE: u64 = 0x0010_0000_0000_0000;

/// Bit pattern of `1.0`.
pub const ONE: u64 = 0x3ff0_0000_0000_0000;

/// Weight of the lowest exponent bit, and of the hidden leading significand bit.
pub const HIDDEN: u64 = 0x0010_0000_0000_0000;

/// The exact value of a finite non-negative pattern, counted in units of the smallest
/// positive subnormal number (`2^-1074`), of which every finite number is a multiple.
pub open spec fn magnitude_units(magnitude: nat) -> nat {
    let exponent = magnitude / (HIDDEN as nat);
    let fraction = magnitude % (HIDDEN as nat);
    if exponent == 0 {
        fraction
    } else {
        (HIDDEN as nat + fraction) * pow2((exponent - 1) as nat)
    }
}

/// The smallest positive normal number, in units of the smallest subnormal number.
pub open spec fn min_positive_units() -> nat {
    magnitude_units(MIN_POSITIVE as nat)
}

/// `x` limited to the range of an `i64`.
pub open spec fn saturate(x: int) -> int {
    if x < i64::MIN {
        i64::MIN as int
    } else if x > i64::MAX {
        i64::MAX as int
    } else {
        x
    }
}

/// `x` limited to the range of a `u64`, from above.
pub open spec fn limited_count(x: int) -> int {
    if x > u64::MAX {
        u64::MAX as int
    } else {
        x
    }
}

/// A binary64 number, by its bit pattern.
#[derive(Debug, Clone, Copy, PartialEq, Eq, Structural)]
pub struct Double {
    pub bits: u64,
}

impl Double {
    pub open spec fn is_negative(self) -> bool {
        self.bits >= SIGN
    }

    pub open spec fn magnitude(self) -> nat {
        if self.is_negative() {
            (self.bits - SIGN) as nat
        } else {
            self.bits as nat
        }
    }

    pub open spec fn is_nan(self) -> bool {
        self.magnitude() > INFINITY
    }

    pub open spec fn is_finite(self) -> bool {
        self.magnitude() < INFINITY
    }

    /// The exact value of a finite number, in units of `2^-1074`.
    pub open spec fn units(self) -> int
        recommends
            self.is_finite(),
    {
        if self.is_negative() {
            -magnitude_units(self.magnitude())
        } else {
            magnitude_units(self.magnitude()) as int
        }
    }

    /// A number that a conversion ratio may be: finite and above zero.
    pub open spec fn is_usable_ratio(self) -> bool {
        self.is_finite() && self.units() > 0
    }

    /// Whether the number is further from zero than `bound`.
    pub open spec fn is_beyond(self, bound: Self) -> bool {
        &&& !self.is_nan()
        &&& self.is_finite() ==> self.units() > bound.units() || -self.units() > bound.units()
    }

    /// Whether the number is closer to zero than `bound`.
    pub open spec fn is_within(self, bound: Self) -> bool {
        self.is_finite() && -bound.units() < self.units() < bound.units()
    }

    /// The number rounded up to a count: the least whole number that is not below it, limited
    /// to the range of a `u64`; zero for a NaN and for what lies below zero.
    pub open spec fn ceiling(self) -> int {
        if self.is_nan() || self.is_negative() {
            0
        } else if !self.is_finite() {
            u64::MAX as int
        } else {
            limited_count((self.units() + pow2(1074) - 1) / (pow2(1074) as int))
        }
    }

    /// The number rounded to the nearest count, from a half on upwards, limited to the range
    /// of a `u64`; zero for a NaN and for what lies below zero.
    pub open spec fn rounded(self) -> int {
        if self.is_nan() || self.is_negative() {
            0
        } else if !self.is_finite() {
            u64::MAX as int
        } else {
            limited_count((2 * self.units() + pow2(1074)) / (2 * pow2(1074) as int))
        }
    }

    /// The larger of the number and the smallest positive normal number; that number itself for
    /// a NaN.
    pub open spec fn raised_to_min_positive(self) -> Self {
        if self.is_nan() || (self.is_finite() && self.units() < min_positive_units()) || (
        !self.is_finite() && self.is_negative()) {
            Double { bits: MIN_POSITIVE }
        } else {
            self
        }
    }

    /// The smaller of the number and `1.0`.
    pub open spec fn limited_to_one(self) -> Self
        recommends
            self.is_usable_ratio(),
    {
        if self.units() <= pow2(1074) {
            self
        } else {
            Double { bits: ONE }
        }
    }

    /// The input frame that a position falls in: the value rounded down to a whole number,
    /// limited to the range of an `i64`; frame `0` for a NaN.
    pub open spec fn frame(self) -> int {
        if self.is_nan() {
            0
        } else if !self.is_finite() {
            if self.is_negative() {
                i64::MIN as int
            } else {
                i64::MAX as int
            }
        } else {
            saturate(self.units() / (pow2(1074) as int))
        }
    }
}

/// Rounding down what lies below zero: one less than the rounded magnitude, unless that is
/// exact.
proof fn lemma_negative_quotient(x: int, d: int)
    requires
        d > 0,
    ensures
        (-x) / d == if x % d == 0 {
            -(x / d)
        } else {
            -(x / d) - 1
        },
{
    let q = x / d;
    let r = x % d;
    lemma_fundamental_div_mod(x, d);
    if r == 0 {
        assert(-x == (-q) * d + 0) by (nonlinear_arith)
            requires
                x == d * q + r,
                r == 0,
        ;
        lemma_fundamental_div_mod_converse(-x, d, -q, 0);
    } else {
        assert(-x == (-q - 1) * d + (d - r)) by (nonlinear_arith)
            requires
                x == d * q + r,
        ;
        lemma_fundamental_div_mod_converse(-x, d, -q - 1, d - r);
    }
}

/// A larger magnitude pattern stands for a larger value.
pub proof fn lemma_magnitude_order(a: nat, b: nat)
    requires
        a < b,
    ensures
        magnitude_units(a) < magnitude_units(b),
{
    let h = HIDDEN as nat;
    let (ea, fa) = (a / h, a % h);
    let (eb, fb) = (b / h, b % h);
    lemma_fundamental_div_mod(a as int, h as int);
    lemma_fundamental_div_mod(b as int, h as int);
    lemma2_to64();
    assert(ea <= eb);
    if eb > 0 {
        lemma_pow2_pos((eb - 1) as nat);
        let wb = pow2((eb - 1) as nat) as int;
        if ea == eb {
            assert((h + fa) * wb < (h + fb) * wb) by (nonlinear_arith)
                requires
                    fa < fb,
                    wb > 0,
            ;
        } else if ea == 0 {
            assert((h + fb) * wb >= h) by (nonlinear_arith)
                requires
                    wb >= 1,
                    fb >= 0,
                    h > 0,
            ;
        } else {
            let wa = pow2((ea - 1) as nat) as int;
            lemma_pow2_pos((ea - 1) as nat);
            lemma_pow2_adds((ea - 1) as nat, 1);
            if ea < eb - 1 {
                lemma_pow2_strictly_increases(ea, (eb - 1) as nat);
            }
            assert(2 * wa <= wb);
            assert((h + fa) * wa < (h + fb) * wb) by (nonlinear_arith)
                requires
                    0 <= fa < h,
                    fb >= 0,
                    2 * wa <= wb,
                    wa > 0,
            ;
        }
    }
}

/// Magnitudes compare as the values that they stand for.
proof fn lemma_magnitudes(a: nat, b: nat)
    ensures
        a < b <==> magnitude_units(a) < magnitude_units(b),
        a > b <==> magnitude_units(a) > magnitude_units(b),
{
    if a < b {
        lemma_magnitude_order(a, b);
    } else if a > b {
        lemma_magnitude_order(b, a);
    }
}

/// The value of a number with fraction bits.
pub proof fn lemma_fraction(significand: nat, level: nat)
    requires
        1 <= level < 1075,
    ensures
        ({
            let units = (significand * pow2((level - 1) as nat)) as int;
            let one = pow2(1074) as int;
            let d = pow2((1075 - level) as nat) as int;
            let rest = significand as int % d;
            &&& units / one == significand as int / d
            &&& units % one == 0 <==> rest == 0
            &&& 2 * (units % one) >= one <==> 2 * rest >= d
        }),
{
    let s = significand as int;
    let a = pow2((level - 1) as nat) as int;
    let d = pow2((1075 - level) as nat) as int;
    let one = pow2(1074) as int;
    lemma_pow2_pos((level - 1) as nat);
    lemma_pow2_pos((1075 - level) as nat);
    lemma_pow2_adds((level - 1) as nat, (1075 - level) as nat);
    assert(one == a * d);
    let q = s / d;
    let r = s % d;
    lemma_fundamental_div_mod(s, d);
    assert(s * a == q * one + r * a) by (nonlinear_arith)
        requires
            s == d * q + r,
            one == a * d,
    ;
    assert(0 <= r * a < one) by (nonlinear_arith)
        requires
            0 <= r < d,
            a > 0,
            one == a * d,
    ;
    lemma_fundamental_div_mod_converse(s * a, one, q, r * a);
    assert(r * a == 0 <==> r == 0) by (nonlinear_arith)
        requires
            a > 0,
    ;
    assert(2 * (r * a) >= one <==> 2 * r >= d) by (nonlinear_arith)
        requires
            a > 0,
            one == a * d,
    ;
}

/// The value of a number with no fraction bits.
proof fn lemma_whole(significand: nat, level: nat)
    requires
        significand < 2 * HIDDEN,
        1075 <= level,
    ensures
        ({
            let units = (significand * pow2((level - 1) as nat)) as int;
            let one = pow2(1074) as int;
            let whole = significand * pow2((level - 1075) as nat);
            &&& units / one == whole
            &&& units % one == 0
            &&& level < 1087 ==> whole <= u64::MAX && (significand as u64) << ((level
                - 1075) as u64) == whole
            &&& level >= 1087 && significand >= HIDDEN ==> whole > u64::MAX
        }),
{
    lemma2_to64();
    let k = (level - 1075) as nat;
    let one = pow2(1074) as int;
    let w = pow2(k) as int;
    let whole = significand * w;
    lemma_pow2_adds(1074, k);
    assert(1074 + k == level - 1);
    lemma_pow2_pos(1074);
    lemma_pow2_pos(k);
    assert(significand * (one * w) == whole * one + 0) by (nonlinear_arith)
        requires
            whole == significand * w,
    ;
    lemma_fundamental_div_mod_converse(significand * (one * w), one, whole, 0);
    if level < 1087 {
        if k < 11 {
            lemma_pow2_strictly_increases(k, 11);
        }
        assert(whole <= u64::MAX) by (nonlinear_arith)
            requires
                whole == significand * w,
                0 <= significand < 0x0020_0000_0000_0000,
                0 <= w <= 0x800,
        ;
        lemma_u64_shl_is_mul(significand as u64, k as u64);
    } else {
        if k > 12 {
            lemma_pow2_strictly_increases(12, k);
        }
        if significand >= HIDDEN {
            assert(whole > u64::MAX) by (nonlinear_arith)
                requires
                    whole == significand * w,
                    significand >= 0x0010_0000_0000_0000,
                    w >= 0x1000,
            ;
        }
    }
}

/// The next whole number is reached by rounding up or, from the half on, by rounding.
proof fn lemma_rounding(units: int, one: int)
    requires
        units >= 0,
        one > 0,
    ensures
        (units + one - 1) / one == units / one + if units % one == 0 {
            0int
        } else {
            1
        },
        (2 * units + one) / (2 * one) == units / one + if 2 * (units % one) >= one {
            1int
        } else {
            0
        },
{
    let q = units / one;
    let r = units % one;
    lemma_fundamental_div_mod(units, one);
    assert(units == q * one + r) by (nonlinear_arith)
        requires
            units == one * q + r,
    ;
    if r == 0 {
        lemma_fundamental_div_mod_converse(units + one - 1, one, q, one - 1);
    } else {
        assert(units + one - 1 == (q + 1) * one + (r - 1)) by (nonlinear_arith)
            requires
                units == q * one + r,
        ;
        lemma_fundamental_div_mod_converse(units + one - 1, one, q + 1, r - 1);
    }
    if 2 * r >= one {
        assert(2 * units + one == (q + 1) * (2 * one) + (2 * r - one)) by (nonlinear_arith)
            requires
                units == q * one + r,
        ;
        lemma_fundamental_div_mod_converse(2 * units + one, 2 * one, q + 1, 2 * r - one);
    } else {
        assert(2 * units + one == q * (2 * one) + (2 * r + one)) by (nonlinear_arith)
            requires
                units == q * one + r,
        ;
        lemma_fundamental_div_mod_converse(2 * units + one, 2 * one, q, 2 * r + one);
    }
}

/// The value of `1.0` in units of the smallest subnormal number.
pub proof fn lemma_one_units()
    ensures
        magnitude_units(ONE as nat) == pow2(1074),
        pow2(1074) > 0,
{
    lemma2_to64();
    lemma_pow2_adds(32, 20);
    lemma_pow2_adds(52, 1022);
    lemma_pow2_pos(1074);
}

impl Double {
    pub fn zero() -> (result: Self)
        ensures
            result.bits == 0,
            result.is_finite(),
            result.units() == 0,
    {
        Double { bits: 0 }
    }

    pub fn one() -> (result: Self)
        ensures
            result.bits == ONE,
            result.is_usable_ratio(),
            result.units() == pow2(1074),
    {
        proof {
            lemma_one_units();
        }
        Double { bits: ONE }
    }

    /// Tells whether this is a finite number above zero.
    pub fn usable_ratio(self) -> (result: bool)
        ensures
            result == self.is_usable_ratio(),
    {
        proof {
            if 0 < self.magnitude() {
                lemma_magnitude_order(0, self.magnitude());
            }
        }
        0 < self.bits && self.bits < INFINITY
    }

    /// The larger of a number and the smallest positive normal number; that number itself
    /// for a NaN.
    pub fn at_least_min_positive(self) -> (result: Self)
        ensures
            result == self.raised_to_min_positive(),
            self.is_finite() ==> result.is_usable_ratio(),
    {
        proof {
            lemma_magnitude_order(0, MIN_POSITIVE as nat);
            if self.magnitude() < MIN_POSITIVE {
                lemma_magnitude_order(self.magnitude(), MIN_POSITIVE as nat);
            } else if self.magnitude() > MIN_POSITIVE {
                lemma_magnitude_order(MIN_POSITIVE as nat, self.magnitude());
            }
        }
        if MIN_POSITIVE < self.bits && self.bits <= INFINITY {
            self
        } else {
            Double { bits: MIN_POSITIVE }
        }
    }

    /// The smaller of a usable ratio and `1.0`.
    pub fn at_most_one(self) -> (result: Self)
        requires
            self.is_usable_ratio(),
        ensures
            result.is_usable_ratio(),
            result == self.limited_to_one(),
    {
        proof {
            lemma_one_units();
            if self.magnitude() < ONE {
                lemma_magnitude_order(self.magnitude(), ONE as nat);
            } else if self.magnitude() > ONE {
                lemma_magnitude_order(ONE as nat, self.magnitude());
            }
        }
        if self.bits < ONE {
            self
        } else {
            Double { bits: ONE }
        }
    }

    /// Tells whether the number is further from zero than `bound`.
    pub fn beyond(self, bound: Self) -> (result: bool)
        requires
            bound.is_finite(),
            !bound.is_negative(),
        ensures
            result == self.is_beyond(bound),
    {
        proof {
            lemma_magnitudes(self.magnitude(), bound.magnitude());
        }
        let magnitude: u64 = if self.bits >= SIGN {
            self.bits - SIGN
        } else {
            self.bits
        };
        bound.bits < magnitude && magnitude <= INFINITY
    }

    /// Tells whether the number is closer to zero than `bound`.
    pub fn within(self, bound: Self) -> (result: bool)
        requires
            bound.is_finite(),
            !bound.is_negative(),
        ensures
            result == self.is_within(bound),
    {
        proof {
            lemma_magnitudes(self.magnitude(), bound.magnitude());
        }
        let magnitude: u64 = if self.bits >= SIGN {
            self.bits - SIGN
        } else {
            self.bits
        };
        magnitude < bound.bits
    }

    /// Splits the magnitude of a finite number at the binary point: the whole number, limited
    /// to the range of a `u64`, whether nothing is behind the point, and whether a half or
    /// more is.
    fn split(self) -> (result: (u64, bool, bool))
        requires
            self.is_finite(),
        ensures
            ({
                let one = pow2(1074) as int;
                let whole = magnitude_units(self.magnitude()) as int / one;
                let rest = magnitude_units(self.magnitude()) as int % one;
                &&& result.0 == limited_count(whole)
                &&& whole <= u64::MAX ==> {
                    &&& result.1 == (rest == 0)
                    &&& result.2 == (2 * rest >= one)
                }
            }),
    {
        let magnitude: u64 = if self.bits >= SIGN {
            self.bits - SIGN
        } else {
            self.bits
        };
        let exponent: u64 = magnitude / HIDDEN;
        let fraction: u64 = magnitude % HIDDEN;
        // The value is `significand * 2^(level - 1075)`.
        let level: u64 = if exponent == 0 {
            1
        } else {
            exponent
        };
        let significand: u64 = if exponent == 0 {
            fraction
        } else {
            HIDDEN + fraction
        };
        proof {
            lemma2_to64();
            lemma_pow2_pos(1074);
            assert(magnitude_units(magnitude as nat) == significand * pow2((level - 1) as nat)) by {
                if exponent == 0 {
                    assert(significand * 1 == significand);
                }
            }
        }
        if level >= 1075 {
            proof {
                lemma_whole(significand as nat, level as nat);
            }
            if level >= 1087 {
                (u64::MAX, true, false)
            } else {
                (significand << (level - 1075), true, false)
            }
        } else {
            let shift: u64 = 1075 - level;
            proof {
                lemma_fraction(significand as nat, level as nat);
                if shift >= 64 {
                    if shift > 64 {
                        lemma_pow2_strictly_increases(64, shift as nat);
                    }
                    lemma_fundamental_div_mod_converse(
                        significand as int,
                        pow2(shift as nat) as int,
                        0,
                        significand as int,
                    );
                } else {
                    lemma_pow2_strictly_increases(shift as nat, 64);
                    lemma_u64_shl_is_mul(1, shift);
                    lemma_pow2_pos(shift as nat);
                    lemma_pow2_adds(1, (shift - 1) as nat);
                }
            }
            if shift >= 64 {
                (0, significand == 0, false)
            } else {
                let d: u64 = 1u64 << shift;
                let rest: u64 = significand % d;
                (significand / d, rest == 0, rest >= d / 2)
            }
        }
    }

    /// The input frame that a position falls in; see [`Double::frame`].
    pub fn to_frame(self) -> (result: i64)
        ensures
            result == self.frame(),
    {
        let negative = self.bits >= SIGN;
        let magnitude: u64 = if negative {
            self.bits - SIGN
        } else {
            self.bits
        };
        if magnitude > INFINITY {
            return 0;
        }
        if magnitude == INFINITY {
            return if negative {
                i64::MIN
            } else {
                i64::MAX
            };
        }
        let (whole, exact, _) = self.split();
        proof {
            lemma_pow2_pos(1074);
            lemma_negative_quotient(magnitude_units(self.magnitude()) as int, pow2(1074) as int);
        }
        if whole > i64::MAX as u64 {
            if negative {
                i64::MIN
            } else {
                i64::MAX
            }
        } else if !negative {
            whole as i64
        } else if exact {
            -(whole as i64)
        } else {
            -(whole as i64) - 1
        }
    }

    /// The number rounded up to a count; see [`Double::ceiling`].
    pub fn to_ceiling(self) -> (result: u64)
        ensures
            result == self.ceiling(),
    {
        if self.bits >= SIGN || self.bits > INFINITY {
            return 0;
        }
        if self.bits == INFINITY {
            return u64::MAX;
        }
        let (whole, exact, _) = self.split();
        proof {
            lemma_pow2_pos(1074);
            lemma_rounding(self.units(), pow2(1074) as int);
        }
        if exact {
            whole
        } else {
            whole.saturating_add(1)
        }
    }

    /// The number rounded to the nearest count; see [`Double::rounded`].
    pub fn to_rounded(self) -> (result: u64)
        ensures
            result == self.rounded(),
    {
        if self.bits >= SIGN || self.bits > INFINITY {
            return 0;
        }
        if self.bits == INFINITY {
            return u64::MAX;
        }
        let (whole, _, half) = self.split();
        proof {
            lemma_pow2_pos(1074);
            lemma_rounding(self.units(), pow2(1074) as int);
        }
        if half {
            whole.saturating_add(1)
        } else {
            whole
        }
    }
}

/// A later position falls in no earlier frame.
pub proof fn law_frames_follow_positions(a: Double, b: Double)
    requires
        a.is_finite(),
        b.is_finite(),
        a.units() <= b.units(),
    ensures
        a.frame() <= b.frame(),
{
    lemma_pow2_pos(1074);
    lemma_div_is_ordered(a.units(), b.units(), pow2(1074) as int);
}

/// A position lies in the frame it falls in: at its start or behind it, and before the next.
pub proof fn law_position_lies_in_its_frame(position: Double)
    requires
        position.is_finite(),
        i64::MIN < position.frame() < i64::MAX,
    ensures
        position.frame() * pow2(1074) <= position.units() < (position.frame() + 1) * pow2(1074),
{
    lemma_pow2_pos(1074);
    let one = pow2(1074) as int;
    let q = position.units() / one;
    lemma_fundamental_div_mod(position.units(), one);
    assert(q * one <= position.units() < (q + 1) * one) by (nonlinear_arith)
        requires
            position.units() == one * q + position.units() % one,
            0 <= position.units() % one < one,
    ;
}

/// No ratio from `1.0` up lowers the cutoff.
pub proof fn law_upsampling_keeps_the_band(ratio: Double)
    requires
        ratio.is_usable_ratio(),
        ratio.units() >= pow2(1074),
    ensures
        ratio.limited_to_one() == (Double { bits: ONE }),
{
    lemma_one_units();
    if ratio.is_negative() {
        assert(magnitude_units(ratio.magnitude()) >= 0);
    } else if ratio.magnitude() < ONE {
        lemma_magnitude_order(ratio.magnitude(), ONE as nat);
    } else if ratio.magnitude() > ONE {
        lemma_magnitude_order(ONE as nat, ratio.magnitude());
    }
}

/// What a pattern stands for, counted up from nothing: zero is zero, and each pattern is further
/// on than the one before it by the weight of its last bit, which doubles with the exponent.
pub proof fn law_patterns_count_up(magnitude: nat)
    ensures
        magnitude_units(0) == 0,
        magnitude_units(magnitude + 1) == magnitude_units(magnitude) + pow2(
            (if magnitude < 2 * HIDDEN {
                0nat
            } else {
                (magnitude / (HIDDEN as nat) - 1) as nat
            }),
        ),
{
    let h = HIDDEN as nat;
    let e = magnitude / h;
    let f = magnitude % h;
    lemma_fundamental_div_mod(magnitude as int, h as int);
    lemma2_to64();
    if f + 1 < h {
        lemma_fundamental_div_mod_converse(
            (magnitude + 1) as int,
            h as int,
            e as int,
            (f + 1) as int,
        );
        if e > 0 {
            let w = pow2((e - 1) as nat);
            assert((h + (f + 1)) * w == (h + f) * w + w) by (nonlinear_arith);
        }
    } else {
        lemma_fundamental_div_mod_converse((magnitude + 1) as int, h as int, (e + 1) as int, 0);
        if e > 0 {
            let w = pow2((e - 1) as nat);
            lemma_pow2_adds((e - 1) as nat, 1);
            assert((h + 0) * (w * 2) == (h + f) * w + w) by (nonlinear_arith)
                requires
                    f + 1 == h,
            ;
        }
    }
}

/// A number rounded up is the least whole number that is not below it, as far as a count goes;
/// nothing is counted below zero, and nothing of what is no number.
pub proof fn law_ceiling_is_the_least_above(x: Double)
    ensures
        x.is_nan() ==> x.ceiling() == 0,
        x.is_finite() && x.units() <= 0 ==> x.ceiling() == 0,
        x.is_finite() && 0 < x.units() <= u64::MAX * pow2(1074) ==> {
            &&& (x.ceiling() - 1) * pow2(1074) < x.units()
            &&& x.units() <= x.ceiling() * pow2(1074)
        },
        x.is_finite() && x.units() > u64::MAX * pow2(1074) ==> x.ceiling() == u64::MAX,
        x.magnitude() == INFINITY ==> x.ceiling() == if x.bits == INFINITY {
            u64::MAX as int
        } else {
            0
        },
{
    lemma_pow2_pos(1074);
    let one = pow2(1074) as int;
    if x.is_finite() {
        let u = x.units();
        if u > 0 {
            let q = (u + one - 1) / one;
            lemma_fundamental_div_mod(u + one - 1, one);
            assert((q - 1) * one < u <= q * one) by (nonlinear_arith)
                requires
                    u + one - 1 == one * q + (u + one - 1) % one,
                    0 <= (u + one - 1) % one < one,
            ;
            if q > u64::MAX {
                assert(u64::MAX * one <= (q - 1) * one) by (nonlinear_arith)
                    requires
                        u64::MAX <= q - 1,
                        one > 0,
                ;
            } else {
                assert(q * one <= u64::MAX * one) by (nonlinear_arith)
                    requires
                        q <= u64::MAX,
                        one > 0,
                ;
            }
        } else if !x.is_negative() {
            lemma_fundamental_div_mod_converse(one - 1, one, 0, one - 1);
        }
    }
}

/// A number rounded to a count is no further than a half from it, and the larger of two counts
/// that are as close, as far as a count goes.
pub proof fn law_rounded_is_the_nearest(x: Double)
    ensures
        x.is_nan() ==> x.rounded() == 0,
        x.is_finite() && x.units() <= 0 ==> x.rounded() == 0,
        x.is_finite() && 0 < x.units() && 2 * x.units() < (2 * u64::MAX + 1) * pow2(1074) ==> {
            &&& (2 * x.rounded() - 1) * pow2(1074) <= 2 * x.units()
            &&& 2 * x.units() < (2 * x.rounded() + 1) * pow2(1074)
        },
        x.is_finite() && 2 * x.units() >= (2 * u64::MAX + 1) * pow2(1074) ==> x.rounded()
            == u64::MAX,
        x.magnitude() == INFINITY ==> x.rounded() == if x.bits == INFINITY {
            u64::MAX as int
        } else {
            0
        },
{
    lemma_pow2_pos(1074);
    let one = pow2(1074) as int;
    if x.is_finite() {
        let u = x.units();
        if u > 0 {
            let q = (2 * u + one) / (2 * one);
            lemma_fundamental_div_mod(2 * u + one, 2 * one);
            assert((2 * q - 1) * one <= 2 * u < (2 * q + 1) * one) by (nonlinear_arith)
                requires
                    2 * u + one == (2 * one) * q + (2 * u + one) % (2 * one),
                    0 <= (2 * u + one) % (2 * one) < 2 * one,
            ;
            if q > u64::MAX {
                assert((2 * u64::MAX + 1) * one <= (2 * q - 1) * one) by (nonlinear_arith)
                    requires
                        u64::MAX <= q - 1,
                        one > 0,
                ;
            } else {
                assert((2 * q + 1) * one <= (2 * u64::MAX + 1) * one) by (nonlinear_arith)
                    requires
                        q <= u64::MAX,
                        one > 0,
                ;
            }
        } else {
            assert((2 * u64::MAX + 1) * one > 0) by (nonlinear_arith)
                requires
                    one > 0,
            ;
            if !x.is_negative() {
                lemma_fundamental_div_mod_converse(one, 2 * one, 0, one);
            }
        }
    }
}

/// Every position has its frame, as far as a frame index goes: the last whole frame that is not
/// behind it, and the first or the last index for what lies further out.
pub proof fn law_every_position_has_its_frame(position: Double)
    ensures
        position.is_nan() ==> position.frame() == 0,
        position.is_finite() && i64::MIN * pow2(1074) <= position.units() < (i64::MAX + 1) * pow2(
            1074,
        ) ==> {
            &&& position.frame() * pow2(1074) <= position.units()
            &&& position.units() < (position.frame() + 1) * pow2(1074)
        },
        position.is_finite() && position.units() >= (i64::MAX + 1) * pow2(1074)
            ==> position.frame() == i64::MAX,
        position.is_finite() && position.units() < i64::MIN * pow2(1074) ==> position.frame()
            == i64::MIN,
        position.magnitude() == INFINITY ==> position.frame() == if position.bits == INFINITY {
            i64::MAX as int
        } else {
            i64::MIN as int
        },
{
    lemma_pow2_pos(1074);
    let one = pow2(1074) as int;
    if position.is_finite() {
        let u = position.units();
        let q = u / one;
        lemma_fundamental_div_mod(u, one);
        assert(q * one <= u < (q + 1) * one) by (nonlinear_arith)
            requires
                u == one * q + u % one,
                0 <= u % one < one,
        ;
        if q > i64::MAX {
            assert((i64::MAX + 1) * one <= q * one) by (nonlinear_arith)
                requires
                    i64::MAX + 1 <= q,
                    one > 0,
            ;
        } else if q < i64::MIN {
            assert((q + 1) * one <= i64::MIN * one) by (nonlinear_arith)
                requires
                    q + 1 <= i64::MIN,
                    one > 0,
            ;
        } else {
            assert(i64::MIN * one <= q * one && (q + 1) * one <= (i64::MAX + 1) * one)
                by (nonlinear_arith)
                requires
                    i64::MIN <= q <= i64::MAX,
                    one > 0,
            ;
        }
    }
}

/// The value of the smallest positive normal number: `2^52` units.
pub proof fn lemma_min_positive_units()
    ensures
        min_positive_units() == pow2(52),
        (Double { bits: MIN_POSITIVE }).units() == pow2(52),
        (Double { bits: MIN_POSITIVE }).is_finite(),
{
    lemma2_to64();
    lemma_pow2_adds(32, 20);
    let h = HIDDEN as nat;
    assert(h / h == 1 && h % h == 0);
    assert((h + 0) * pow2(0) == h);
}

/// A number that is raised is the larger of itself and `2^-1022`.
pub proof fn law_raised_is_the_larger(x: Double)
    ensures
        x.is_finite() && x.units() >= pow2(52) ==> x.raised_to_min_positive() == x,
        x.is_finite() && x.units() < pow2(52) ==> {
            &&& x.raised_to_min_positive().is_finite()
            &&& x.raised_to_min_positive().units() == pow2(52)
        },
        x.is_nan() || x.bits == SIGN + INFINITY ==> {
            &&& x.raised_to_min_positive().is_finite()
            &&& x.raised_to_min_positive().units() == pow2(52)
        },
        x.bits == INFINITY ==> x.raised_to_min_positive() == x,
{
    lemma_min_positive_units();
}

/// A number is beyond a bound exactly where the bound is within the number, on either side of
/// zero; no number is beyond infinity or within nothing, and what is no number is neither.
pub proof fn law_beyond_and_within_are_opposites(x: Double, bound: Double)
    requires
        bound.is_finite(),
        !bound.is_negative(),
    ensures
        x.is_nan() ==> !x.is_beyond(bound) && !x.is_within(bound),
        x.magnitude() == INFINITY ==> x.is_beyond(bound) && !x.is_within(bound),
        x.is_finite() ==> {
            &&& x.is_beyond(bound) <==> bound.magnitude() < x.magnitude()
            &&& x.is_within(bound) <==> x.magnitude() < bound.magnitude()
        },
{
    lemma_magnitudes(x.magnitude(), bound.magnitude());
}

/// The cutoff of a ratio is the ratio or one, and no larger than either.
pub proof fn law_cutoff_is_the_smaller(ratio: Double)
    requires
        ratio.is_usable_ratio(),
    ensures
        ratio.limited_to_one().units() <= ratio.units(),
        ratio.limited_to_one().units() <= pow2(1074),
        ratio.limited_to_one().units() == ratio.units() || ratio.limited_to_one().units() == pow2(
            1074,
        ),
{
    lemma_one_units();
}

} // verus!
