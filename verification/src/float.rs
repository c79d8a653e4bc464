//! Floating-point numbers held by their IEEE 754 bit patterns, and the
//! operations on them that quantization needs, carried out on integers.

use crate::rounding;
use crate::rounding::{DOUBLE_LIMIT, SINGLE_LIMIT};
use vstd::arithmetic::power2::*;
use vstd::prelude::*;

verus! {

/// The sign bit of a single-precision pattern.
pub const SIGN_BIT: u32 = 0x8000_0000;

/// The magnitude pattern of a single-precision infinity; larger ones are not numbers.
pub const SINGLE_INFINITY: u32 = 0x7F80_0000;

/// Half of [`SINGLE_LIMIT`]: the number of patterns that share one exponent.
pub const SINGLE_STEP: u64 = 0x80_0000;

/// Half of [`DOUBLE_LIMIT`]: the number of patterns that share one exponent.
pub const DOUBLE_STEP: u64 = 0x10_0000_0000_0000;

/// The magnitude pattern of a double-precision infinity; larger ones are not numbers.
pub const DOUBLE_INFINITY: u64 = 0x7FF0_0000_0000_0000;

/// Where magnitudes are cut off once no result depends on their exact size.
pub const MAGNITUDE_CAP: u64 = 0x100_0000_0000;

/// What a floating-point pattern stands for. A finite number is a multiple of
/// the smallest positive number of its format, and `units` is that multiple.
pub enum Value {
    NotANumber,
    Infinite { negative: bool },
    Finite { negative: bool, units: nat },
}

/// The multiple of the smallest positive number that a magnitude pattern stands
/// for, where `step` patterns share one exponent.
pub open spec fn pattern_units(pattern: nat, step: nat) -> nat {
    if pattern < step {
        pattern
    } else {
        (step + pattern % step) * pow2((pattern / step - 1) as nat)
    }
}

/// The number one, in units of the smallest positive single-precision number.
pub open spec fn single_one() -> nat {
    pow2(149)
}

/// The first magnitude beyond the finite single-precision numbers, in units.
pub open spec fn single_overflow() -> nat {
    pow2(277)
}

/// The number one, in units of the smallest positive double-precision number.
pub open spec fn double_one() -> nat {
    pow2(1074)
}

/// The single-precision value of a magnitude that is representable or too large.
pub open spec fn single_value(negative: bool, units: nat) -> Value {
    if units >= single_overflow() {
        Value::Infinite { negative }
    } else {
        Value::Finite { negative, units }
    }
}

/// A single-precision number (IEEE 754 binary32), held by its bit pattern.
#[derive(Debug, Clone, Copy, PartialEq, Eq, Structural)]
pub struct Binary32 {
    pub bits: u32,
}

/// A double-precision number (IEEE 754 binary64), held by its bit pattern.
#[derive(Debug, Clone, Copy, PartialEq, Eq, Structural)]
pub struct Binary64 {
    pub bits: u64,
}

impl View for Binary32 {
    type V = Value;

    open spec fn view(&self) -> Value {
        let magnitude = self.bits as nat % SIGN_BIT as nat;
        let negative = self.bits >= SIGN_BIT;
        if magnitude > SINGLE_INFINITY {
            Value::NotANumber
        } else if magnitude == SINGLE_INFINITY {
            Value::Infinite { negative }
        } else {
            Value::Finite { negative, units: pattern_units(magnitude, SINGLE_STEP as nat) }
        }
    }
}

impl View for Binary64 {
    type V = Value;

    open spec fn view(&self) -> Value {
        let magnitude = self.bits as nat % 0x8000_0000_0000_0000;
        let negative = self.bits >= 0x8000_0000_0000_0000u64;
        if magnitude > DOUBLE_INFINITY {
            Value::NotANumber
        } else if magnitude == DOUBLE_INFINITY {
            Value::Infinite { negative }
        } else {
            Value::Finite { negative, units: pattern_units(magnitude, DOUBLE_STEP as nat) }
        }
    }
}

/// The single-precision quotient: the exact quotient rounded to the nearest
/// representable number, with the usual results for zeros, infinities and values
/// that are not numbers.
pub open spec fn quotient(a: Value, b: Value) -> Value {
    match (a, b) {
        (Value::NotANumber, _) => Value::NotANumber,
        (_, Value::NotANumber) => Value::NotANumber,
        (Value::Infinite { .. }, Value::Infinite { .. }) => Value::NotANumber,
        (
            Value::Infinite { negative: s },
            Value::Finite { negative: t, .. },
        ) => Value::Infinite { negative: s != t },
        (
            Value::Finite { negative: s, .. },
            Value::Infinite { negative: t },
        ) => Value::Finite { negative: s != t, units: 0 },
        (
            Value::Finite { negative: s, units: u },
            Value::Finite { negative: t, units: v },
        ) => if v > 0 {
            single_value(s != t, rounding::round_to(SINGLE_LIMIT as nat, u * single_one(), v))
        } else if u > 0 {
            Value::Infinite { negative: s != t }
        } else {
            Value::NotANumber
        },
    }
}

/// The integer nearest to a single-precision magnitude, halves away from zero.
pub open spec fn rounded(units: nat) -> nat {
    (2 * units + single_one()) / (2 * single_one())
}

/// The integer part of a single-precision magnitude.
pub open spec fn truncated(units: nat) -> nat {
    units / single_one()
}

/// The value rounded to an integer, halves away from zero, and held between
/// `-low` and `high`; zero for what is not a number.
pub open spec fn rounded_within(value: Value, low: nat, high: nat) -> int {
    match value {
        Value::NotANumber => 0,
        Value::Infinite { negative } => if negative {
            -low
        } else {
            high as int
        },
        Value::Finite { negative, units } => if negative {
            -vstd::math::min(rounded(units) as int, low as int)
        } else {
            vstd::math::min(rounded(units) as int, high as int)
        },
    }
}

/// How far from zero a single-precision value lies, in units; an infinity counts
/// as the first magnitude beyond the finite ones, and what is not a number as zero.
pub open spec fn reach(value: Value) -> nat {
    match value {
        Value::NotANumber => 0,
        Value::Infinite { .. } => single_overflow(),
        Value::Finite { units, .. } => units,
    }
}

/// A pattern made of a significand count and an exponent stands for their product.
proof fn lemma_packed_units(step: nat, count: nat, exponent: nat)
    requires
        step > 0,
        count <= 2 * step,
        exponent > 0 ==> count >= step,
    ensures
        pattern_units(count + exponent * step, step) == count * pow2(exponent),
{
    let pattern = count + exponent * step;
    lemma2_to64();
    if count < step {
        assert(exponent == 0);
    } else if count < 2 * step {
        assert(pattern == (exponent + 1) * step + (count - step)) by (nonlinear_arith)
            requires
                pattern == count + exponent * step,
        ;
        vstd::arithmetic::div_mod::lemma_fundamental_div_mod_converse(
            pattern as int,
            step as int,
            (exponent + 1) as int,
            count - step,
        );
        assert(pattern >= step) by (nonlinear_arith)
            requires
                pattern == (exponent + 1) * step + (count - step),
                count >= step,
        ;
    } else {
        assert(pattern == (exponent + 2) * step + 0) by (nonlinear_arith)
            requires
                pattern == count + exponent * step,
                count == 2 * step,
        ;
        vstd::arithmetic::div_mod::lemma_fundamental_div_mod_converse(
            pattern as int,
            step as int,
            (exponent + 2) as int,
            0,
        );
        assert(pattern >= step) by (nonlinear_arith)
            requires
                pattern == (exponent + 2) * step + 0,
        ;
        lemma_pow2_unfold(exponent + 1);
        assert(step * (2 * pow2(exponent)) == count * pow2(exponent)) by (nonlinear_arith)
            requires
                count == 2 * step,
        ;
    }
}

/// Splits the units of a pattern into significand and power of two.
pub(crate) proof fn lemma_split_units(pattern: nat, step: nat)
    requires
        step > 0,
    ensures
        pattern < step ==> pattern / step == 0 && pattern % step == pattern,
        pattern >= step ==> pattern / step >= 1,
        pattern % step < step,
        pattern_units(pattern, step) < step * pow2(pattern / step),
        pattern >= step ==> pattern_units(pattern, step) >= step * pow2(
            (pattern / step - 1) as nat,
        ),
{
    lemma2_to64();
    let field = pattern / step;
    let low = pattern % step;
    vstd::arithmetic::div_mod::lemma_fundamental_div_mod(pattern as int, step as int);
    if pattern < step {
        assert(field == 0) by (nonlinear_arith)
            requires
                pattern < step,
                field == pattern / step,
        ;
        vstd::arithmetic::div_mod::lemma_small_mod(pattern, step);
        assert(step * pow2(0) == step);
    } else {
        assert(field >= 1) by (nonlinear_arith)
            requires
                pattern == step * field + low,
                low < step,
                pattern >= step,
        ;
        lemma_pow2_unfold(field);
        lemma_pow2_pos((field - 1) as nat);
        let p = pow2((field - 1) as nat);
        assert((step + low) * p < step * (2 * p)) by (nonlinear_arith)
            requires
                low < step,
                p > 0,
        ;
        assert((step + low) * p >= step * p) by (nonlinear_arith)
            requires
                p > 0,
        ;
    }
}

/// Larger patterns stand for larger magnitudes.
pub(crate) proof fn lemma_patterns_ordered(a: nat, b: nat, step: nat)
    requires
        step > 0,
        a < b,
    ensures
        pattern_units(a, step) < pattern_units(b, step),
{
    lemma_split_units(a, step);
    lemma_split_units(b, step);
    vstd::arithmetic::div_mod::lemma_fundamental_div_mod(a as int, step as int);
    vstd::arithmetic::div_mod::lemma_fundamental_div_mod(b as int, step as int);
    let fa = a / step;
    let fb = b / step;
    vstd::arithmetic::div_mod::lemma_div_is_ordered(a as int, b as int, step as int);
    if fa < fb {
        let less = (fb - 1) as nat;
        if fa < less {
            lemma_pow2_strictly_increases(fa, less);
        }
        assert(step * pow2(fa) <= step * pow2(less)) by (nonlinear_arith)
            requires
                pow2(fa) <= pow2(less),
        ;
    } else if fa >= 1 {
        let p = pow2((fa - 1) as nat);
        lemma_pow2_pos((fa - 1) as nat);
        let la = a % step;
        let lb = b % step;
        assert((step + la) * p < (step + lb) * p) by (nonlinear_arith)
            requires
                la < lb,
                p > 0,
        ;
    }
}

/// The pattern of the first magnitude beyond the finite ones marks where units
/// overflow.
proof fn lemma_overflow_pattern(pattern: nat, step: nat, top: nat)
    requires
        step > 0,
        top > 0,
    ensures
        pattern_units(top * step, step) == step * pow2((top - 1) as nat),
        pattern < top * step <==> pattern_units(pattern, step) < step * pow2((top - 1) as nat),
{
    lemma_packed_units(step, step, (top - 1) as nat);
    assert(step + (top - 1) * step == top * step) by (nonlinear_arith);
    if pattern < top * step {
        lemma_patterns_ordered(pattern, top * step, step);
    } else if pattern > top * step {
        lemma_patterns_ordered(top * step, pattern, step);
    }
}

/// The units at which single-precision magnitudes overflow.
pub(crate) proof fn lemma_single_overflow()
    ensures
        SINGLE_STEP * pow2(254) == single_overflow(),
        pattern_units(SINGLE_INFINITY as nat, SINGLE_STEP as nat) == single_overflow(),
{
    lemma2_to64();
    lemma_pow2_adds(23, 254);
    lemma_overflow_pattern(0, SINGLE_STEP as nat, 255);
}

/// Two to a small power.
fn power_of_two(exponent: u32) -> (result: u64)
    requires
        exponent < 64,
    ensures
        result == pow2(exponent as nat),
{
    proof {
        lemma2_to64();
        lemma2_to64_rest();
    }
    let mut result: u64 = 1;
    let mut i: u32 = 0;
    while i < exponent
        invariant
            i <= exponent < 64,
            result == pow2(i as nat),
        decreases exponent - i,
    {
        proof {
            lemma2_to64();
            lemma2_to64_rest();
            lemma_pow2_unfold((i + 1) as nat);
            if i + 1 < 63 {
                lemma_pow2_strictly_increases((i + 1) as nat, 63);
            }
        }
        result = 2 * result;
        i = i + 1;
    }
    result
}

impl Binary32 {
    /// Whether the pattern stands for a number that is neither infinite nor
    /// outside the numbers.
    pub open spec fn finite(self) -> bool {
        (self.bits as nat % SIGN_BIT as nat) < SINGLE_INFINITY
    }

    /// The units of a finite number.
    pub open spec fn units(self) -> nat {
        pattern_units(self.bits as nat % SIGN_BIT as nat, SINGLE_STEP as nat)
    }

    /// The number with a given bit pattern.
    pub fn from_bits(bits: u32) -> (result: Self)
        ensures
            result.bits == bits,
    {
        Binary32 { bits }
    }

    /// The number one.
    pub fn one() -> (result: Self)
        ensures
            result@ == (Value::Finite { negative: false, units: single_one() }),
    {
        proof {
            lemma2_to64();
            lemma_packed_units(SINGLE_STEP as nat, SINGLE_STEP as nat, 126);
            lemma_pow2_adds(23, 126);
        }
        Binary32 { bits: 0x3F80_0000 }
    }

    /// The largest level of the four-bit width, as a number.
    pub fn seven() -> (result: Self)
        ensures
            result@ == (Value::Finite { negative: false, units: 7 * single_one() }),
    {
        proof {
            lemma2_to64();
            lemma_packed_units(SINGLE_STEP as nat, 7 * 0x20_0000, 128);
            lemma_pow2_adds(21, 128);
        }
        Binary32 { bits: 0x40E0_0000 }
    }

    /// The largest level of the eight-bit width, as a number.
    pub fn one_hundred_twenty_seven() -> (result: Self)
        ensures
            result@ == (Value::Finite { negative: false, units: 127 * single_one() }),
    {
        proof {
            lemma2_to64();
            lemma_packed_units(SINGLE_STEP as nat, 127 * 0x2_0000, 132);
            lemma_pow2_adds(17, 132);
        }
        Binary32 { bits: 0x42FE_0000 }
    }

    /// Significand and exponent of a finite number.
    fn parts(self) -> (result: (u32, u32))
        requires
            self.finite(),
        ensures
            self.units() == result.0 * pow2(result.1 as nat),
            result.0 < SINGLE_LIMIT,
            result.1 <= 253,
            result.1 > 0 ==> result.0 >= SINGLE_STEP,
            result.0 == 0 <==> self.units() == 0,
    {
        let magnitude: u32 = self.bits % SIGN_BIT;
        proof {
            lemma2_to64();
            lemma_split_units(magnitude as nat, SINGLE_STEP as nat);
        }
        if magnitude < SINGLE_STEP as u32 {
            assert(magnitude * pow2(0) == magnitude);
            (magnitude, 0)
        } else {
            let field: u32 = magnitude / SINGLE_STEP as u32;
            proof {
                let p = pow2((field - 1) as nat);
                lemma_pow2_pos((field - 1) as nat);
                assert(SINGLE_STEP * p > 0) by (nonlinear_arith)
                    requires
                        p > 0,
                ;
            }
            (SINGLE_STEP as u32 + magnitude % SINGLE_STEP as u32, field - 1)
        }
    }

    /// The quotient of two numbers, rounded to the nearest representable number.
    #[verifier::rlimit(40)]
    pub fn divide(self, divisor: Self) -> (result: Self)
        ensures
            result@ == quotient(self@, divisor@),
    {
        let a: u32 = self.bits % SIGN_BIT;
        let b: u32 = divisor.bits % SIGN_BIT;
        let negative: bool = (self.bits >= SIGN_BIT) != (divisor.bits >= SIGN_BIT);
        let sign: u32 = if negative {
            SIGN_BIT
        } else {
            0
        };
        proof {
            if a > 0 {
                lemma_patterns_ordered(0, a as nat, SINGLE_STEP as nat);
            }
            if b > 0 {
                lemma_patterns_ordered(0, b as nat, SINGLE_STEP as nat);
            }
        }
        if a > SINGLE_INFINITY || b > SINGLE_INFINITY || (a == SINGLE_INFINITY && b
            == SINGLE_INFINITY) || (a == 0 && b == 0) {
            Binary32 { bits: 0x7FC0_0000 }
        } else if a == SINGLE_INFINITY || b == 0 {
            Binary32 { bits: sign + SINGLE_INFINITY }
        } else if b == SINGLE_INFINITY || a == 0 {
            proof {
                if a == 0 && b < SINGLE_INFINITY {
                    lemma_round_zero(SINGLE_LIMIT as nat, divisor.units());
                    lemma_pow2_pos(277);
                    assert(self.units() * single_one() == 0) by (nonlinear_arith)
                        requires
                            self.units() == 0,
                    ;
                    assert(quotient(self@, divisor@) == (Value::Finite { negative, units: 0 }));
                }
            }
            Binary32 { bits: sign }
        } else {
            let (sa, ea) = self.parts();
            let (sb, eb) = divisor.parts();
            let shift: i32 = ea as i32 - eb as i32 + 149;
            let (count, exponent) = rounding::round_ratio(
                SINGLE_LIMIT,
                sa as u128,
                sb as u128,
                shift,
            );
            let pattern: u64 = count as u64 + exponent as u64 * SINGLE_STEP;
            proof {
                lemma_quotient_shift(sa as nat, ea as nat, sb as nat, eb as nat, shift as int);
                lemma_packed_units(SINGLE_STEP as nat, count as nat, exponent as nat);
                lemma_overflow_pattern(pattern as nat, SINGLE_STEP as nat, 255);
                lemma_single_overflow();
                assert(quotient(self@, divisor@) == single_value(
                    negative,
                    count as nat * pow2(exponent as nat),
                ));
            }
            if pattern >= SINGLE_INFINITY as u64 {
                Binary32 { bits: sign + SINGLE_INFINITY }
            } else {
                Binary32 { bits: sign + pattern as u32 }
            }
        }
    }
}

impl Binary32 {
    /// The nearest integer to the magnitude of a finite number, halves away from
    /// zero, cut off at [`MAGNITUDE_CAP`].
    fn rounded_magnitude(self) -> (result: u64)
        requires
            self.finite(),
        ensures
            result == vstd::math::min(rounded(self.units()) as int, MAGNITUDE_CAP as int),
    {
        let (significand, exponent) = self.parts();
        if exponent >= 149 {
            proof {
                lemma_whole_magnitude(significand as nat, exponent as nat);
            }
            self.whole_magnitude(significand, exponent)
        } else {
            let down: u32 = 149 - exponent;
            proof {
                lemma_part_magnitude(significand as nat, exponent as nat);
                lemma2_to64();
                if down > 26 {
                    lemma_pow2_strictly_increases(26, down as nat);
                }
            }
            if down >= 26 {
                proof {
                    let p = pow2(down as nat);
                    assert((2 * significand + p) / (2 * p) as int == 0) by (nonlinear_arith)
                        requires
                            2 * significand < p,
                    ;
                }
                0
            } else {
                let half: u64 = power_of_two(down);
                proof {
                    if down < 26 {
                        lemma_pow2_strictly_increases(down as nat, 26);
                    }
                    let total = 2 * significand + half;
                    assert(total / (2 * half) as int <= total) by (nonlinear_arith)
                        requires
                            half > 0,
                            total >= 0,
                    ;
                }
                (2 * significand as u64 + half) / (2 * half)
            }
        }
    }

    /// The integer part of the magnitude of a finite number, cut off at
    /// [`MAGNITUDE_CAP`].
    pub(crate) fn truncated_magnitude(self) -> (result: u64)
        requires
            self.finite(),
        ensures
            result == vstd::math::min(truncated(self.units()) as int, MAGNITUDE_CAP as int),
    {
        let (significand, exponent) = self.parts();
        if exponent >= 149 {
            proof {
                lemma_whole_magnitude(significand as nat, exponent as nat);
            }
            self.whole_magnitude(significand, exponent)
        } else {
            let down: u32 = 149 - exponent;
            proof {
                lemma_part_magnitude(significand as nat, exponent as nat);
                lemma2_to64();
                if down > 26 {
                    lemma_pow2_strictly_increases(26, down as nat);
                }
            }
            if down >= 26 {
                proof {
                    let p = pow2(down as nat);
                    assert(significand as int / p as int == 0) by (nonlinear_arith)
                        requires
                            significand < p,
                    ;
                }
                0
            } else {
                let whole: u64 = power_of_two(down);
                proof {
                    assert(significand as int / whole as int <= significand) by (nonlinear_arith)
                        requires
                            whole > 0,
                            significand >= 0,
                    ;
                }
                significand as u64 / whole
            }
        }
    }

    /// The magnitude of a number that is an integer by its exponent, cut off at
    /// [`MAGNITUDE_CAP`].
    fn whole_magnitude(self, significand: u32, exponent: u32) -> (result: u64)
        requires
            149 <= exponent <= 253,
            SINGLE_STEP <= significand < SINGLE_LIMIT,
        ensures
            result == vstd::math::min(
                significand * pow2((exponent - 149) as nat),
                MAGNITUDE_CAP as int,
            ),
    {
        let up: u32 = exponent - 149;
        proof {
            lemma2_to64();
            lemma2_to64_rest();
            if up > 39 {
                lemma_pow2_strictly_increases(39, up as nat);
            } else if up < 39 {
                lemma_pow2_strictly_increases(up as nat, 39);
            }
        }
        if up >= 39 {
            proof {
                let p = pow2(up as nat);
                assert(significand * p >= MAGNITUDE_CAP) by (nonlinear_arith)
                    requires
                        significand >= 0x80_0000,
                        p >= 0x80_0000_0000,
                        MAGNITUDE_CAP == 0x100_0000_0000u64,
                ;
            }
            MAGNITUDE_CAP
        } else {
            let factor: u64 = power_of_two(up);
            proof {
                assert(significand * factor < 0x8000_0000_0000_0000) by (nonlinear_arith)
                    requires
                        significand < 0x100_0000,
                        factor <= 0x80_0000_0000,
                ;
            }
            let whole: u64 = significand as u64 * factor;
            if whole < MAGNITUDE_CAP {
                whole
            } else {
                MAGNITUDE_CAP
            }
        }
    }

    /// The number rounded to an integer, halves away from zero, and held between
    /// `-low` and `high`; zero for what is not a number.
    pub fn round_within(self, low: u64, high: u64) -> (result: i64)
        requires
            low <= MAGNITUDE_CAP,
            high <= MAGNITUDE_CAP,
        ensures
            result == rounded_within(self@, low as nat, high as nat),
    {
        let magnitude: u32 = self.bits % SIGN_BIT;
        let bound: u64 = if self.bits >= SIGN_BIT {
            low
        } else {
            high
        };
        if magnitude > SINGLE_INFINITY {
            return 0;
        }
        let mut held: u64 = bound;
        if magnitude < SINGLE_INFINITY {
            let nearest: u64 = self.rounded_magnitude();
            if nearest < bound {
                held = nearest;
            }
        }
        if self.bits >= SIGN_BIT {
            -(held as i64)
        } else {
            held as i64
        }
    }
}

/// A magnitude with a large exponent is an integer.
proof fn lemma_whole_magnitude(significand: nat, exponent: nat)
    requires
        exponent >= 149,
    ensures
        rounded(significand * pow2(exponent)) == significand * pow2((exponent - 149) as nat),
        truncated(significand * pow2(exponent)) == significand * pow2((exponent - 149) as nat),
{
    let one = single_one();
    let whole = significand * pow2((exponent - 149) as nat);
    lemma_pow2_adds((exponent - 149) as nat, 149);
    lemma_pow2_pos(149);
    assert(significand * pow2(exponent) == whole * one) by (nonlinear_arith)
        requires
            pow2(exponent) == pow2((exponent - 149) as nat) * one,
            whole == significand * pow2((exponent - 149) as nat),
    ;
    assert(2 * (whole * one) + one == whole * (2 * one) + one) by (nonlinear_arith);
    vstd::arithmetic::div_mod::lemma_fundamental_div_mod_converse(
        (2 * (whole * one) + one) as int,
        (2 * one) as int,
        whole as int,
        one as int,
    );
    vstd::arithmetic::div_mod::lemma_fundamental_div_mod_converse(
        (whole * one) as int,
        one as int,
        whole as int,
        0,
    );
}

/// A magnitude with a small exponent, as a ratio of small numbers.
proof fn lemma_part_magnitude(significand: nat, exponent: nat)
    requires
        exponent < 149,
    ensures
        rounded(significand * pow2(exponent)) == (2 * significand + pow2((149 - exponent) as nat))
            / (2 * pow2((149 - exponent) as nat)),
        truncated(significand * pow2(exponent)) == significand / pow2((149 - exponent) as nat),
{
    let one = single_one();
    let p = pow2((149 - exponent) as nat);
    let q = pow2(exponent);
    lemma_pow2_adds((149 - exponent) as nat, exponent);
    lemma_pow2_pos((149 - exponent) as nat);
    lemma_pow2_pos(exponent);
    assert(2 * (significand * q) + p * q == q * (2 * significand + p)) by (nonlinear_arith);
    assert(2 * (p * q) == q * (2 * p)) by (nonlinear_arith);
    lemma_cancel_factor(2 * significand + p, 2 * p, q);
    assert(significand * q == q * significand) by (nonlinear_arith);
    assert(p * q == q * p) by (nonlinear_arith);
    lemma_cancel_factor(significand, p, q);
}

/// A common factor does not change an integer quotient.
proof fn lemma_cancel_factor(num: nat, den: nat, factor: nat)
    requires
        den > 0,
        factor > 0,
    ensures
        (factor * num) / (factor * den) == num / den,
{
    vstd::arithmetic::div_mod::lemma_div_denominator(
        (factor * num) as int,
        factor as int,
        den as int,
    );
    vstd::arithmetic::div_mod::lemma_div_multiples_vanish(num as int, factor as int);
}

/// Zero rounds to zero.
pub(crate) proof fn lemma_round_zero(limit: nat, den: nat)
    requires
        limit > 0,
        den > 0,
    ensures
        rounding::round_to(limit, 0, den) == 0,
{
    assert(0 < limit * den) by (nonlinear_arith)
        requires
            limit > 0,
            den > 0,
    ;
    vstd::arithmetic::div_mod::lemma_small_mod(0, den);
    vstd::arithmetic::div_mod::lemma_div_basics_1(den as int);
    assert(rounding::spacing(limit, 0, den) == 1);
    assert(den * 1 == den);
    assert(rounding::nearest_even(0, den) == 0);
}

/// The quotient of two split magnitudes as a ratio of their significands and a
/// single power of two.
proof fn lemma_quotient_shift(sa: nat, ea: nat, sb: nat, eb: nat, shift: int)
    requires
        sb > 0,
        shift == ea - eb + 149,
    ensures
        rounding::round_to(
            SINGLE_LIMIT as nat,
            (sa * pow2(ea)) * single_one(),
            sb * pow2(eb),
        ) == rounding::round_to(
            SINGLE_LIMIT as nat,
            rounding::shifted_num(sa, shift),
            rounding::shifted_den(sb, shift),
        ),
{
    let num = rounding::shifted_num(sa, shift);
    let den = rounding::shifted_den(sb, shift);
    let whole = pow2(ea + 149);
    lemma_pow2_adds(ea, 149);
    assert((sa * pow2(ea)) * single_one() == sa * whole) by (nonlinear_arith)
        requires
            whole == pow2(ea) * single_one(),
    ;
    if shift >= 0 {
        let p = pow2(shift as nat);
        let factor = pow2(eb);
        lemma_pow2_adds(shift as nat, eb);
        lemma_pow2_pos(eb);
        assert(sa * whole == (sa * p) * factor) by (nonlinear_arith)
            requires
                whole == p * factor,
        ;
        rounding::law_rounding_ignores_common_factor(SINGLE_LIMIT as nat, num, den, factor);
    } else {
        let down = (-shift) as nat;
        let p = pow2(down);
        lemma_pow2_adds(down, ea + 149);
        lemma_pow2_pos(ea + 149);
        lemma_pow2_pos(down);
        assert(sb * p > 0) by (nonlinear_arith)
            requires
                sb > 0,
                p > 0,
        ;
        assert(sb * pow2(eb) == (sb * p) * whole) by (nonlinear_arith)
            requires
                pow2(eb) == p * whole,
        ;
        rounding::law_rounding_ignores_common_factor(SINGLE_LIMIT as nat, num, den, whole);
    }
}

/// The double-precision quotient of two counts: each is rounded to the nearest
/// double-precision number, and so is the quotient of the two.
pub open spec fn count_ratio(a: nat, b: nat) -> Value {
    Value::Finite {
        negative: false,
        units: rounding::round_to(
            DOUBLE_LIMIT as nat,
            rounding::nearest_double(a) * double_one(),
            rounding::nearest_double(b),
        ),
    }
}

impl Binary64 {
    /// The quotient of two counts.
    #[verifier::rlimit(40)]
    pub fn ratio(a: u64, b: u64) -> (result: Self)
        requires
            b > 0,
        ensures
            result@ == count_ratio(a as nat, b as nat),
    {
        let x: u128 = rounding::double_of(a);
        let y: u128 = rounding::double_of(b);
        if x == 0 {
            proof {
                lemma_round_zero(DOUBLE_LIMIT as nat, y as nat);
                assert(x as nat * double_one() == 0) by (nonlinear_arith)
                    requires
                        x == 0,
                ;
            }
            return Binary64 { bits: 0 };
        }
        let (count, exponent) = rounding::round_ratio(DOUBLE_LIMIT, x, y, 1074);
        proof {
            let num = x as nat * double_one();
            let unit = pow2(exponent as nat);
            lemma2_to64();
            rounding::lemma_spacing_bracket(DOUBLE_LIMIT as nat, num, y as nat);
            lemma_pow2_pos(exponent as nat);
            if exponent > 1200 {
                lemma_pow2_strictly_increases(0, exponent as nat);
                lemma_pow2_strictly_increases(1200, exponent as nat);
                lemma_pow2_adds(64, 1074);
                lemma_pow2_unfold(1139);
                lemma_pow2_strictly_increases(1139, 1200);
                assert(num <= pow2(1138)) by (nonlinear_arith)
                    requires
                        num == x * double_one(),
                        x <= pow2(64),
                        pow2(1138) == pow2(64) * double_one(),
                ;
                assert(unit <= 2 * num) by (nonlinear_arith)
                    requires
                        2 * num >= DOUBLE_LIMIT as nat * (y as nat * unit),
                        DOUBLE_LIMIT as nat >= 1,
                        y >= 1,
                ;
                assert(false);
            }
            lemma_packed_units(DOUBLE_STEP as nat, count as nat, exponent as nat);
        }
        Binary64 { bits: count as u64 + exponent as u64 * DOUBLE_STEP }
    }
}

/// The largest distance from zero among some numbers, in units.
pub open spec fn peak(values: Seq<Binary32>) -> nat
    decreases values.len(),
{
    if values.len() == 0 {
        0
    } else {
        let before = peak(values.drop_last());
        let last = reach(values.last()@);
        if before < last {
            last
        } else {
            before
        }
    }
}

/// A magnitude pattern is zero exactly where its reach is, and an infinite one has
/// a large integer part.
pub(crate) proof fn lemma_peak_pattern(value: Binary32, units: nat)
    requires
        value.bits <= SINGLE_INFINITY,
        reach(value@) == units,
    ensures
        value.bits > 0 <==> units > 0,
        value.bits < SINGLE_INFINITY ==> value.units() == units,
        value.bits == SINGLE_INFINITY ==> truncated(units) >= MAGNITUDE_CAP,
{
    lemma_single_overflow();
    if value.bits > 0 {
        lemma_patterns_ordered(0, value.bits as nat, SINGLE_STEP as nat);
    }
    if value.bits == SINGLE_INFINITY {
        lemma2_to64();
        lemma2_to64_rest();
        lemma_pow2_pos(149);
        lemma_pow2_adds(128, 149);
        lemma_pow2_strictly_increases(40, 128);
        vstd::arithmetic::div_mod::lemma_div_multiples_vanish(pow2(128) as int, pow2(149) as int);
        assert(pow2(149) * pow2(128) == pow2(128) * pow2(149)) by (nonlinear_arith);
    }
}

/// The largest magnitude among some numbers.
pub fn largest_magnitude(values: &[Binary32]) -> (result: Binary32)
    ensures
        result@ == single_value(false, peak(values@)),
        result.bits <= SINGLE_INFINITY,
        reach(result@) == peak(values@),
{
    let mut top: u32 = 0;
    let mut i: usize = 0;
    while i < values.len()
        invariant
            i <= values.len(),
            top <= SINGLE_INFINITY,
            pattern_units(top as nat, SINGLE_STEP as nat) == peak(values@.take(i as int)),
        decreases values.len() - i,
    {
        let magnitude: u32 = values[i].bits % SIGN_BIT;
        proof {
            lemma_single_overflow();
            let more = values@.take(i + 1);
            assert(more.drop_last() =~= values@.take(i as int));
            assert(more.last() == values@[i as int]);
            if magnitude < top {
                lemma_patterns_ordered(magnitude as nat, top as nat, SINGLE_STEP as nat);
            } else if magnitude > top {
                lemma_patterns_ordered(top as nat, magnitude as nat, SINGLE_STEP as nat);
            }
        }
        if magnitude <= SINGLE_INFINITY && magnitude > top {
            top = magnitude;
        }
        i = i + 1;
    }
    proof {
        assert(values@.take(values.len() as int) =~= values@);
        lemma_single_overflow();
        if top < SINGLE_INFINITY {
            lemma_patterns_ordered(top as nat, SINGLE_INFINITY as nat, SINGLE_STEP as nat);
        }
    }
    Binary32 { bits: top }
}

/// No number lies further from zero than the peak, and some number of a sequence
/// with a positive peak lies that far.
pub proof fn law_peak_bounds(values: Seq<Binary32>)
    ensures
        forall|i: int|
            0 <= i < values.len() ==> reach((#[trigger] values[i])@) <= peak(values),
        peak(values) > 0 ==> exists|i: int|
            0 <= i < values.len() && reach((#[trigger] values[i])@) == peak(values),
    decreases values.len(),
{
    if values.len() > 0 {
        let fewer = values.drop_last();
        law_peak_bounds(fewer);
        assert forall|i: int| 0 <= i < values.len() implies reach((#[trigger] values[i])@) <= peak(
            values,
        ) by {
            if i < fewer.len() {
                assert(fewer[i] == values[i]);
            }
        }
        if peak(values) > 0 {
            if peak(values) == reach(values.last()@) {
                assert(reach(values[values.len() - 1]@) == peak(values));
            } else {
                let i = choose|i: int|
                    0 <= i < fewer.len() && reach((#[trigger] fewer[i])@) == peak(fewer);
                assert(reach(values[i]@) == peak(values));
            }
        }
    }
}

/// The units of a finite pattern are representable: an integer of at most 24
/// digits times a power of two.
pub(crate) proof fn lemma_units_representable(value: Binary32) -> (result: (nat, nat))
    requires
        value.finite(),
    ensures
        value.units() == result.0 * pow2(result.1),
        result.0 < SINGLE_LIMIT,
        value.units() < single_overflow(),
{
    let magnitude = value.bits as nat % SIGN_BIT as nat;
    lemma_split_units(magnitude, SINGLE_STEP as nat);
    lemma_single_overflow();
    lemma_patterns_ordered(magnitude, SINGLE_INFINITY as nat, SINGLE_STEP as nat);
    lemma2_to64();
    if magnitude < SINGLE_STEP {
        assert(magnitude * pow2(0) == magnitude);
        (magnitude, 0)
    } else {
        (
            SINGLE_STEP as nat + magnitude % SINGLE_STEP as nat,
            (magnitude / SINGLE_STEP as nat - 1) as nat,
        )
    }
}

/// The value with the opposite sign.
pub open spec fn negated(value: Value) -> Value {
    match value {
        Value::NotANumber => Value::NotANumber,
        Value::Infinite { negative } => Value::Infinite { negative: !negative },
        Value::Finite { negative, units } => Value::Finite { negative: !negative, units },
    }
}

/// A number divided by one is the number.
pub proof fn law_quotient_by_one(value: Binary32)
    ensures
        quotient(value@, Value::Finite { negative: false, units: single_one() }) == value@,
{
    lemma_pow2_pos(149);
    if value.finite() {
        let (count, exponent) = lemma_units_representable(value);
        rounding::law_representable_unchanged(SINGLE_LIMIT as nat, count, exponent);
        rounding::law_rounding_ignores_common_factor(
            SINGLE_LIMIT as nat,
            value.units(),
            1,
            single_one(),
        );
        assert(1 * single_one() == single_one());
    }
}

/// A finite number other than zero divided by itself is one.
pub proof fn law_quotient_by_itself(units: nat)
    requires
        0 < units < single_overflow(),
    ensures
        quotient(
            Value::Finite { negative: false, units },
            Value::Finite { negative: false, units },
        ) == (Value::Finite { negative: false, units: single_one() }),
{
    lemma_pow2_strictly_increases(149, 277);
    rounding::law_rounding_ignores_common_factor(SINGLE_LIMIT as nat, single_one(), 1, units);
    rounding::law_representable_unchanged(SINGLE_LIMIT as nat, 1, 149);
    assert(units * single_one() == single_one() * units) by (nonlinear_arith);
    assert(1 * single_one() == single_one());
    assert(1 * units == units);
}

/// Rounding a number of the opposite sign gives the opposite integer.
pub proof fn law_rounding_is_symmetric(value: Value, bound: nat)
    ensures
        rounded_within(negated(value), bound, bound) == -rounded_within(value, bound, bound),
{
}

/// A quotient has the opposite sign where the dividend has.
pub proof fn law_quotient_is_symmetric(a: Value, b: Value)
    ensures
        quotient(negated(a), b) == negated(quotient(a, b)),
{
}

/// The quotient of zero rounds to zero, whatever it is divided by.
pub proof fn law_zero_quotient_rounds_to_zero(negative: bool, b: Value, low: nat, high: nat)
    ensures
        rounded_within(quotient(Value::Finite { negative, units: 0 }, b), low, high) == 0,
{
    lemma_pow2_pos(149);
    lemma_pow2_pos(277);
    let one = single_one();
    assert(one / (2 * one) == 0) by (nonlinear_arith)
        requires
            one > 0,
    ;
    assert(rounded(0) == 0);
    if let Value::Finite { units, .. } = b {
        if units > 0 {
            lemma_round_zero(SINGLE_LIMIT as nat, units);
            assert(0 * one == 0);
        }
    }
}

/// A count over itself is one, and a count over at most half of it is at least two.
pub proof fn law_count_ratio(a: nat, b: nat)
    requires
        b > 0,
    ensures
        a == b ==> count_ratio(a, b) == (Value::Finite { negative: false, units: double_one() }),
        a >= 2 * b ==> count_ratio(a, b)->Finite_units >= 2 * double_one(),
{
    let limit = DOUBLE_LIMIT as nat;
    let x = rounding::nearest_double(a);
    let y = rounding::nearest_double(b);
    assert(y >= 1) by {
        rounding::lemma_double_ordered(1, b);
    }
    if a == b {
        rounding::law_rounding_ignores_common_factor(limit, double_one(), 1, y);
        rounding::law_representable_unchanged(limit, 1, 1074);
        assert(y * double_one() == double_one() * y) by (nonlinear_arith);
        assert(1 * double_one() == double_one());
        assert(1 * y == y);
    }
    if a >= 2 * b {
        rounding::lemma_double_of_twice(b);
        rounding::lemma_double_ordered(2 * b, a);
        lemma_pow2_unfold(1075);
        assert(x * double_one() >= (1 * pow2(1075)) * y) by (nonlinear_arith)
            requires
                x >= 2 * y,
                pow2(1075) == 2 * double_one(),
        ;
        rounding::lemma_round_at_least(limit, x * double_one(), y, 1, 1075);
    }
}

/// Two patterns that stand for the same number are the same pattern.
pub proof fn law_value_determines_pattern(a: Binary32, b: Binary32)
    requires
        a@ == b@,
        a@ != Value::NotANumber,
    ensures
        a.bits == b.bits,
{
    let x = a.bits as nat % SIGN_BIT as nat;
    let y = b.bits as nat % SIGN_BIT as nat;
    if x < y {
        lemma_patterns_ordered(x, y, SINGLE_STEP as nat);
    } else if y < x {
        lemma_patterns_ordered(y, x, SINGLE_STEP as nat);
    }
}

/// Two double-precision patterns that stand for the same number are the same pattern.
pub proof fn law_double_determines_pattern(a: Binary64, b: Binary64)
    requires
        a@ == b@,
        a@ != Value::NotANumber,
    ensures
        a.bits == b.bits,
{
    let x = a.bits as nat % 0x8000_0000_0000_0000;
    let y = b.bits as nat % 0x8000_0000_0000_0000;
    if x < y {
        lemma_patterns_ordered(x, y, DOUBLE_STEP as nat);
    } else if y < x {
        lemma_patterns_ordered(y, x, DOUBLE_STEP as nat);
    }
}

/// The value of a single-precision pattern by its fields: a sign, eight bits of
/// exponent and 23 bits of fraction. Numbers with exponent zero have no leading one;
/// the largest exponent is for infinities and what is not a number.
pub proof fn law_value_by_fields(value: Binary32, exponent: nat, fraction: nat)
    requires
        value.bits % 0x8000_0000 == exponent * 0x80_0000 + fraction,
        fraction < 0x80_0000,
    ensures
        exponent == 0 ==> value@ == (Value::Finite {
            negative: value.bits >= 0x8000_0000,
            units: fraction,
        }),
        0 < exponent < 255 ==> value@ == (Value::Finite {
            negative: value.bits >= 0x8000_0000,
            units: (0x80_0000 + fraction) * pow2((exponent - 1) as nat),
        }),
        exponent == 255 && fraction == 0 ==> value@ == (Value::Infinite {
            negative: value.bits >= 0x8000_0000,
        }),
        exponent == 255 && fraction > 0 ==> value@ == Value::NotANumber,
        value.finite() <==> exponent < 255,
        value.finite() ==> value@ == (Value::Finite {
            negative: value.bits >= 0x8000_0000,
            units: value.units(),
        }),
{
}

/// The value of a double-precision pattern by its fields: a sign, eleven bits of
/// exponent and 52 bits of fraction.
pub proof fn law_double_by_fields(value: Binary64, exponent: nat, fraction: nat)
    requires
        value.bits % 0x8000_0000_0000_0000 == exponent * 0x10_0000_0000_0000 + fraction,
        fraction < 0x10_0000_0000_0000,
    ensures
        exponent == 0 ==> value@ == (Value::Finite {
            negative: value.bits >= 0x8000_0000_0000_0000u64,
            units: fraction,
        }),
        0 < exponent < 2047 ==> value@ == (Value::Finite {
            negative: value.bits >= 0x8000_0000_0000_0000u64,
            units: (0x10_0000_0000_0000 + fraction) * pow2((exponent - 1) as nat),
        }),
        exponent == 2047 && fraction == 0 ==> value@ == (Value::Infinite {
            negative: value.bits >= 0x8000_0000_0000_0000u64,
        }),
        exponent == 2047 && fraction > 0 ==> value@ == Value::NotANumber,
{
}

/// A magnitude rounds to the integer that it lies nearest to, and to the larger one
/// half-way between two; its integer part is the last integer that is not above it.
pub proof fn law_nearest_integer(units: nat, n: nat)
    ensures
        2 * units >= (2 * n - 1) * pow2(149) && 2 * units < (2 * n + 1) * pow2(149) <==> rounded(
            units,
        ) == n,
        units >= n * pow2(149) && units < (n + 1) * pow2(149) <==> truncated(units) == n,
{
    let one = pow2(149);
    let sum = (2 * units + one) as int;
    let twice = (2 * one) as int;
    lemma_pow2_pos(149);
    vstd::arithmetic::div_mod::lemma_fundamental_div_mod(sum, twice);
    vstd::arithmetic::div_mod::lemma_fundamental_div_mod(units as int, one as int);
    let r = rounded(units);
    let rest = sum % twice;
    assert(2 * units >= (2 * n - 1) * one && 2 * units < (2 * n + 1) * one <==> r == n)
        by (nonlinear_arith)
        requires
            2 * units + one == (2 * one) * r + rest,
            0 <= rest < 2 * one,
            one > 0,
    ;
    let t = truncated(units);
    let left = units as int % one as int;
    assert(units >= n * one && units < (n + 1) * one <==> t == n) by (nonlinear_arith)
        requires
            units == one * t + left,
            0 <= left < one,
            one > 0,
    ;
}

/// A rounded value keeps its sign and is held by the bound of its side; what is not a
/// number counts as zero and an infinity as the bound of its side.
pub proof fn law_rounding_is_held(units: nat, low: nat, high: nat)
    ensures
        rounded_within(Value::NotANumber, low, high) == 0,
        rounded_within(Value::Infinite { negative: false }, low, high) == high,
        rounded_within(Value::Infinite { negative: true }, low, high) == -low,
        rounded_within(Value::Finite { negative: false, units }, low, high) == vstd::math::min(
            rounded(units) as int,
            high as int,
        ),
        rounded_within(Value::Finite { negative: true, units }, low, high) == vstd::math::max(
            -rounded(units),
            -low,
        ),
{
}

/// The quotient of finite numbers is the exact quotient rounded to single precision,
/// and infinite from 2^128 on; its sign is negative where the signs differ.
pub proof fn law_finite_quotient(s: bool, u: nat, t: bool, v: nat)
    requires
        v > 0,
    ensures
        ({
            let ratio = rounding::round_to(0x100_0000, u * pow2(149), v);
            let result = quotient(
                Value::Finite { negative: s, units: u },
                Value::Finite { negative: t, units: v },
            );
            &&& ratio < pow2(277) ==> result == (Value::Finite { negative: s != t, units: ratio })
            &&& ratio >= pow2(277) ==> result == (Value::Infinite { negative: s != t })
        }),
{
}

/// The quotients that are not ratios: what is not a number stays none, zero over zero
/// and an infinity over an infinity are not numbers, an infinity over a finite number
/// and a number over zero are infinite, and a finite number over an infinity is zero.
pub proof fn law_special_quotients(a: Value, s: bool, u: nat, t: bool, v: nat)
    ensures
        quotient(Value::NotANumber, a) == Value::NotANumber,
        quotient(a, Value::NotANumber) == Value::NotANumber,
        quotient(Value::Infinite { negative: s }, Value::Infinite { negative: t })
            == Value::NotANumber,
        quotient(
            Value::Finite { negative: s, units: 0 },
            Value::Finite { negative: t, units: 0 },
        ) == Value::NotANumber,
        u > 0 ==> quotient(
            Value::Finite { negative: s, units: u },
            Value::Finite { negative: t, units: 0 },
        ) == (Value::Infinite { negative: s != t }),
        quotient(Value::Infinite { negative: s }, Value::Finite { negative: t, units: v }) == (
        Value::Infinite { negative: s != t }),
        quotient(Value::Finite { negative: s, units: u }, Value::Infinite { negative: t }) == (
        Value::Finite { negative: s != t, units: 0 }),
{
}

/// A finite number reaches as far as its units, an infinity as far as 2^128, and what
/// is not a number nowhere.
pub proof fn law_reach(negative: bool, units: nat)
    ensures
        reach(Value::Finite { negative, units }) == units,
        reach(Value::Infinite { negative }) == pow2(277),
        reach(Value::NotANumber) == 0,
        peak(seq![]) == 0,
{
}

/// The ratio of two counts: each rounded to double precision, and so is the quotient;
/// counts of at most 53 digits are taken as they are.
pub proof fn law_count_ratio_is_rounded(a: nat, b: nat)
    ensures
        count_ratio(a, b) == (Value::Finite {
            negative: false,
            units: rounding::round_to(
                0x20_0000_0000_0000,
                rounding::round_to(0x20_0000_0000_0000, a, 1) * pow2(1074),
                rounding::round_to(0x20_0000_0000_0000, b, 1),
            ),
        }),
        a < 0x20_0000_0000_0000 && b < 0x20_0000_0000_0000 ==> count_ratio(a, b) == (
        Value::Finite {
            negative: false,
            units: rounding::round_to(0x20_0000_0000_0000, a * pow2(1074), b),
        }),
{
    rounding::law_three_halves(a);
    rounding::law_three_halves(b);
}

} // verus!
