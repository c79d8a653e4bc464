//! Rounding of exact ratios to a limited number of significant binary digits.

use vstd::arithmetic::power2::*;
use vstd::prelude::*;

verus! {

/// First integer that needs more than the 24 significant digits of the
/// single-precision format.
pub const SINGLE_LIMIT: u64 = 0x100_0000;

/// First integer that needs more than the 53 significant digits of the
/// double-precision format.
pub const DOUBLE_LIMIT: u64 = 0x20_0000_0000_0000;

/// The integer nearest to `num / den`; of two equally near ones, the even one.
pub open spec fn nearest_even(num: nat, den: nat) -> nat
    recommends
        den > 0,
{
    let below = num / den;
    let rest = num % den;
    if 2 * rest < den {
        below
    } else if 2 * rest > den {
        below + 1
    } else {
        below + below % 2
    }
}

/// The distance between neighbouring representable numbers around `num / den`,
/// where the representable numbers are the integers below `limit` times a power
/// of two: the least power of two `u` for which `num / den < limit * u`.
pub open spec fn spacing(limit: nat, num: nat, den: nat) -> nat
    decreases num / den,
    when limit > 0 && den > 0
{
    if num < limit * den {
        1
    } else {
        proof {
            lemma_halved_ratio(limit, num, den);
        }
        2 * spacing(limit, num, 2 * den)
    }
}

/// `num / den` rounded to the nearest representable number, ties to the even
/// multiple of the spacing.
pub open spec fn round_to(limit: nat, num: nat, den: nat) -> nat
    recommends
        limit > 0,
        den > 0,
{
    let unit = spacing(limit, num, den);
    nearest_even(num, den * unit) * unit
}

/// Doubling the denominator of a ratio of at least one makes its integer part smaller.
pub proof fn lemma_halved_ratio(limit: nat, num: nat, den: nat)
    requires
        limit > 0,
        den > 0,
        num >= limit * den,
    ensures
        num / (2 * den) < num / den,
{
    assert(num >= den) by (nonlinear_arith)
        requires
            limit > 0,
            num >= limit * den,
    ;
    vstd::arithmetic::div_mod::lemma_div_denominator(num as int, den as int, 2);
    assert(den * 2 == 2 * den);
    assert(num / den >= 1) by (nonlinear_arith)
        requires
            num >= den,
            den > 0,
    ;
}

/// A common factor of numerator and denominator does not change the nearest integer.
pub(crate) proof fn lemma_nearest_even_scaled(num: nat, den: nat, factor: nat)
    requires
        den > 0,
        factor > 0,
    ensures
        nearest_even(num * factor, den * factor) == nearest_even(num, den),
{
    let below = num / den;
    let rest = num % den;
    vstd::arithmetic::div_mod::lemma_fundamental_div_mod(num as int, den as int);
    assert(num * factor == below * (den * factor) + rest * factor) by (nonlinear_arith)
        requires
            num == den * below + rest,
    ;
    assert(0 <= rest * factor < den * factor) by (nonlinear_arith)
        requires
            0 <= rest < den,
            factor > 0,
    ;
    vstd::arithmetic::div_mod::lemma_fundamental_div_mod_converse(
        (num * factor) as int,
        (den * factor) as int,
        below as int,
        (rest * factor) as int,
    );
    assert(2 * (rest * factor) < den * factor <==> 2 * rest < den) by (nonlinear_arith)
        requires
            factor > 0,
    ;
    assert(2 * (rest * factor) > den * factor <==> 2 * rest > den) by (nonlinear_arith)
        requires
            factor > 0,
    ;
}

/// The spacing is the power of two that brackets the ratio.
pub(crate) proof fn lemma_spacing_is(limit: nat, num: nat, den: nat, exponent: nat)
    requires
        limit > 0,
        den > 0,
        num < limit * (den * pow2(exponent)),
        exponent > 0 ==> num >= limit * (den * pow2((exponent - 1) as nat)),
    ensures
        spacing(limit, num, den) == pow2(exponent),
    decreases exponent,
{
    lemma2_to64();
    if exponent == 0 {
        assert(den * pow2(0) == den);
    } else {
        let less = (exponent - 1) as nat;
        lemma_pow2_unfold(exponent);
        lemma_pow2_pos(less);
        assert(num >= limit * den) by (nonlinear_arith)
            requires
                num >= limit * (den * pow2(less)),
                pow2(less) >= 1,
        ;
        assert(den * pow2(exponent) == (2 * den) * pow2(less)) by (nonlinear_arith)
            requires
                pow2(exponent) == 2 * pow2(less),
        ;
        if less > 0 {
            let least = (less - 1) as nat;
            lemma_pow2_unfold(less);
            assert(den * pow2(less) == (2 * den) * pow2(least)) by (nonlinear_arith)
                requires
                    pow2(less) == 2 * pow2(least),
            ;
        }
        lemma_spacing_is(limit, num, 2 * den, less);
    }
}

/// A common factor of numerator and denominator does not change the spacing.
pub(crate) proof fn lemma_spacing_scaled(limit: nat, num: nat, den: nat, factor: nat)
    requires
        limit > 0,
        den > 0,
        factor > 0,
    ensures
        spacing(limit, num * factor, den * factor) == spacing(limit, num, den),
    decreases num / den,
{
    assert(den * factor > 0) by (nonlinear_arith)
        requires
            den > 0,
            factor > 0,
    ;
    assert(num * factor < limit * (den * factor) <==> num < limit * den) by (nonlinear_arith)
        requires
            factor > 0,
    ;
    if num >= limit * den {
        lemma_halved_ratio(limit, num, den);
        lemma_spacing_scaled(limit, num, 2 * den, factor);
        assert((2 * den) * factor == 2 * (den * factor)) by (nonlinear_arith);
    }
}

/// The spacing is positive.
pub(crate) proof fn lemma_spacing_positive(limit: nat, num: nat, den: nat)
    requires
        limit > 0,
        den > 0,
    ensures
        spacing(limit, num, den) >= 1,
    decreases num / den,
{
    if num >= limit * den {
        lemma_halved_ratio(limit, num, den);
        lemma_spacing_positive(limit, num, 2 * den);
    }
}

/// Rounding depends on the ratio alone: a common factor of numerator and
/// denominator does not change the result.
pub proof fn law_rounding_ignores_common_factor(limit: nat, num: nat, den: nat, factor: nat)
    requires
        limit > 0,
        den > 0,
        factor > 0,
    ensures
        round_to(limit, num * factor, den * factor) == round_to(limit, num, den),
{
    lemma_spacing_scaled(limit, num, den, factor);
    lemma_spacing_positive(limit, num, den);
    let unit = spacing(limit, num, den);
    assert((den * factor) * unit == (den * unit) * factor) by (nonlinear_arith);
    assert(den * unit > 0) by (nonlinear_arith)
        requires
            den > 0,
            unit >= 1,
    ;
    lemma_nearest_even_scaled(num, den * unit, factor);
}

/// `num / den` rounded to an integer, ties to even.
fn divide_to_even(num: u128, den: u128) -> (result: u128)
    requires
        0 < den < 0x1000_0000_0000_0000_0000_0000_0000_0000,
        num < 0x1000_0000_0000_0000_0000_0000_0000_0000,
    ensures
        result == nearest_even(num as nat, den as nat),
{
    let below: u128 = num / den;
    let rest: u128 = num % den;
    proof {
        assert(below <= num) by (nonlinear_arith)
            requires
                below == num / den,
                den > 0,
        ;
    }
    if 2 * rest < den {
        below
    } else if 2 * rest > den {
        below + 1
    } else {
        below + below % 2
    }
}

/// Rounding to an integer stays between integers that bracket the ratio.
pub(crate) proof fn lemma_nearest_even_bounds(num: nat, den: nat, limit: nat)
    requires
        den > 0,
    ensures
        num <= den * limit ==> nearest_even(num, den) <= limit,
        num >= den * limit ==> nearest_even(num, den) >= limit,
        2 * num >= den * limit && limit % 2 == 0 ==> 2 * nearest_even(num, den) >= limit,
{
    let below = num / den;
    let rest = num % den;
    vstd::arithmetic::div_mod::lemma_fundamental_div_mod(num as int, den as int);
    if num <= den * limit {
        assert(below < limit || (below == limit && rest == 0)) by (nonlinear_arith)
            requires
                num == den * below + rest,
                num <= den * limit,
                0 <= rest < den,
        ;
    }
    if num >= den * limit {
        assert(below >= limit) by (nonlinear_arith)
            requires
                num == den * below + rest,
                num >= den * limit,
                0 <= rest < den,
        ;
    }
    if 2 * num >= den * limit && limit % 2 == 0 {
        let half = limit / 2;
        assert(below >= half) by (nonlinear_arith)
            requires
                num == den * below + rest,
                2 * num >= den * limit,
                limit == 2 * half,
                0 <= rest < den,
        ;
    }
}

/// The numerator of `a * 2^shift / b`.
pub open spec fn shifted_num(a: nat, shift: int) -> nat {
    if shift >= 0 {
        a * pow2(shift as nat)
    } else {
        a
    }
}

/// The denominator of `a * 2^shift / b`.
pub open spec fn shifted_den(b: nat, shift: int) -> nat {
    if shift >= 0 {
        b
    } else {
        b * pow2((-shift) as nat)
    }
}

/// Rounds `a * 2^shift / b`: the pair `(count, exponent)` stands for
/// `count * 2^exponent`.
#[verifier::rlimit(40)]
pub(crate) fn round_ratio(limit: u64, a: u128, b: u128, shift: i32) -> (result: (u128, u32))
    requires
        0 < limit <= DOUBLE_LIMIT,
        limit % 2 == 0,
        0 < a < 0x4_0000_0000_0000_0000,
        0 < b < 0x4_0000_0000_0000_0000,
        -100_000 < shift < 100_000,
    ensures
        ({
            let num = shifted_num(a as nat, shift as int);
            let den = shifted_den(b as nat, shift as int);
            &&& den > 0
            &&& spacing(limit as nat, num, den) == pow2(result.1 as nat)
            &&& result.0 == nearest_even(num, den * pow2(result.1 as nat))
            &&& result.0 <= limit
            &&& result.1 > 0 ==> 2 * result.0 >= limit
            &&& result.1 < 200_000
        }),
{
    let ghost num = shifted_num(a as nat, shift as int);
    let ghost den = shifted_den(b as nat, shift as int);
    let width: u128 = limit as u128;
    let mut x: u128 = a;
    let mut y: u128 = b;
    let mut exponent: u32 = 0;
    let ghost mut factor: nat = 1;
    proof {
        lemma2_to64();
    }
    if shift >= 0 {
        let mut s: i32 = 0;
        assert(b * width <= 0x4_0000_0000_0000_0000 * DOUBLE_LIMIT) by (nonlinear_arith)
            requires
                b < 0x4_0000_0000_0000_0000,
                width <= DOUBLE_LIMIT,
        ;
        while s < shift && 2 * x < b * width
            invariant
                0 <= s <= shift,
                shift < 100_000,
                x == a * pow2(s as nat),
                x > 0,
                s > 0 ==> x < b * width,
                0 < a < 0x4_0000_0000_0000_0000,
                x < 0x4_0000_0000_0000_0000 || x < b * width,
                b * width <= 0x4_0000_0000_0000_0000 * DOUBLE_LIMIT,
            decreases shift - s,
        {
            proof {
                lemma_pow2_unfold((s + 1) as nat);
                assert(2 * (a * pow2(s as nat)) == a * (2 * pow2(s as nat))) by (nonlinear_arith);
            }
            x = 2 * x;
            s = s + 1;
        }
        exponent = (shift - s) as u32;
        proof {
            factor = pow2(exponent as nat);
            lemma_pow2_adds(s as nat, exponent as nat);
            assert(num == x * factor) by (nonlinear_arith)
                requires
                    num == a * pow2(shift as nat),
                    x == a * pow2(s as nat),
                    pow2(shift as nat) == pow2(s as nat) * factor,
            ;
        }
    } else {
        let down: u32 = (-shift) as u32;
        let mut j: u32 = 0;
        while j < down && y <= 2 * a
            invariant
                j <= down,
                y == b * pow2(j as nat),
                0 < b < 0x4_0000_0000_0000_0000,
                0 < a < 0x4_0000_0000_0000_0000,
                0 < y < 0x40_0000_0000_0000_0000,
            decreases down - j,
        {
            proof {
                lemma_pow2_unfold((j + 1) as nat);
                assert(2 * (b * pow2(j as nat)) == b * (2 * pow2(j as nat))) by (nonlinear_arith);
            }
            y = 2 * y;
            j = j + 1;
        }
        if j < down {
            proof {
                let left = (down - j) as nat;
                lemma_pow2_adds(j as nat, left);
                lemma_pow2_pos(left);
                assert(den == y * pow2(left)) by (nonlinear_arith)
                    requires
                        den == b * pow2(down as nat),
                        y == b * pow2(j as nat),
                        pow2(down as nat) == pow2(j as nat) * pow2(left),
                ;
                assert(den > 2 * a) by (nonlinear_arith)
                    requires
                        den == y * pow2(left),
                        pow2(left) >= 1,
                        y > 2 * a,
                ;
                assert(den * pow2(0) == den);
                assert(num < limit * den) by (nonlinear_arith)
                    requires
                        num == a,
                        den > 2 * a,
                        limit >= 1,
                ;
                assert(num / den == 0 && num % den == num) by (nonlinear_arith)
                    requires
                        num < den,
                ;
            }
            return (0, 0);
        }
        assert(num == x * factor) by {
            assert(a * 1 == a);
        }
    }
    let ghost start: nat = exponent as nat;
    proof {
        assert(y * width <= 0x40_0000_0000_0000_0000 * DOUBLE_LIMIT) by (nonlinear_arith)
            requires
                y < 0x40_0000_0000_0000_0000,
                width <= DOUBLE_LIMIT,
        ;
        assert(y * 1 == y);
    }
    while x >= y * width
        invariant
            0 < width <= DOUBLE_LIMIT,
            0 < x < 0x100_0000_0000_0000_0000_0000_0000_0000,
            0 < y,
            y * width <= 0x40_0000_0000_0000_0000 * DOUBLE_LIMIT || y * width <= 2 * x,
            start <= exponent < start + 128,
            start <= 100_000,
            y >= pow2((exponent - start) as nat),
            den * pow2(exponent as nat) == y * factor,
            exponent > 0 ==> 2 * x >= y * width,
        decreases (if x >= y { x - y + 1 } else { 0 }),
    {
        proof {
            let j = (exponent - start) as nat;
            assert(y <= x) by (nonlinear_arith)
                requires
                    x >= y * width,
                    width >= 1,
            ;
            if j >= 120 {
                lemma2_to64();
                lemma2_to64_rest();
                lemma_pow2_adds(60, 60);
                if j > 120 {
                    lemma_pow2_strictly_increases(120, j);
                }
                assert(false);
            }
            lemma_pow2_unfold(j + 1);
            lemma_pow2_unfold((exponent + 1) as nat);
            assert(den * (2 * pow2(exponent as nat)) == 2 * (den * pow2(exponent as nat)))
                by (nonlinear_arith);
            assert(2 * (y * factor) == (2 * y) * factor) by (nonlinear_arith);
            assert(2 * (y * width) == (2 * y) * width) by (nonlinear_arith);
        }
        y = 2 * y;
        exponent = exponent + 1;
    }
    proof {
        assert(y * width >= y) by (nonlinear_arith)
            requires
                width >= 1,
        ;
        lemma_pow2_pos(start);
        assert(x * factor < limit * (y * factor)) by (nonlinear_arith)
            requires
                x < y * width,
                width == limit,
                factor > 0,
        ;
        assert(den > 0) by {
            if shift < 0 {
                lemma_pow2_pos((-shift) as nat);
                assert(b * pow2((-shift) as nat) > 0) by (nonlinear_arith)
                    requires
                        b > 0,
                        pow2((-shift) as nat) > 0,
                ;
            }
        }
        if exponent > 0 {
            let less = (exponent - 1) as nat;
            lemma_pow2_unfold(exponent as nat);
            assert(x * factor >= limit * (den * pow2(less))) by (nonlinear_arith)
                requires
                    2 * x >= y * width,
                    width == limit,
                    den * pow2(exponent as nat) == y * factor,
                    pow2(exponent as nat) == 2 * pow2(less),
            ;
        }
        lemma_spacing_is(limit as nat, num, den, exponent as nat);
        lemma_nearest_even_scaled(x as nat, y as nat, factor);
        lemma_nearest_even_bounds(x as nat, y as nat, limit as nat);
    }
    let count: u128 = divide_to_even(x, y);
    (count, exponent)
}

/// The spacing brackets the ratio from both sides.
pub(crate) proof fn lemma_spacing_bracket(limit: nat, num: nat, den: nat)
    requires
        limit > 0,
        den > 0,
    ensures
        num < limit * (den * spacing(limit, num, den)),
        spacing(limit, num, den) > 1 ==> 2 * num >= limit * (den * spacing(limit, num, den)),
    decreases num / den,
{
    if num < limit * den {
        assert(den * 1 == den);
    } else {
        lemma_halved_ratio(limit, num, den);
        lemma_spacing_bracket(limit, num, 2 * den);
        lemma_spacing_positive(limit, num, 2 * den);
        let half = spacing(limit, num, 2 * den);
        assert((2 * den) * half == den * (2 * half)) by (nonlinear_arith);
        if half == 1 {
            assert(limit * (2 * den) == 2 * (limit * den)) by (nonlinear_arith);
        }
    }
}

/// The double-precision number nearest to an integer: the integer itself where
/// its digits fit, and the rounded one elsewhere.
pub open spec fn nearest_double(n: nat) -> nat {
    if n < DOUBLE_LIMIT {
        n
    } else {
        round_to(DOUBLE_LIMIT as nat, n, 1)
    }
}

/// The integer part of the double-precision product of an integer and one and a half.
pub open spec fn three_halves(n: nat) -> nat {
    nearest_double(3 * nearest_double(n)) / 2
}

/// The double-precision number nearest to an integer.
#[verifier::rlimit(40)]
fn round_integer(n: u128) -> (result: u128)
    requires
        n < 0x4_0000_0000_0000_0000,
    ensures
        result == nearest_double(n as nat),
        n < 0x1_0000_0000_0000_0000 ==> result <= 0x1_0000_0000_0000_0000,
        result < 0x8_0000_0000_0000_0000,
        n > 0 ==> result > 0,
{
    if n < DOUBLE_LIMIT as u128 {
        return n;
    }
    let (count, exponent) = round_ratio(DOUBLE_LIMIT, n, 1, 0);
    let mut result: u128 = count;
    let mut i: u32 = 0;
    proof {
        lemma2_to64();
        lemma2_to64_rest();
        assert(n * pow2(0) == n) by (nonlinear_arith)
            requires
                pow2(0) == 1,
        ;
        assert(shifted_num(n as nat, 0) == n);
        lemma_spacing_bracket(DOUBLE_LIMIT as nat, n as nat, 1);
        if exponent > 0 {
            lemma_pow2_strictly_increases(0, exponent as nat);
            let unit = pow2(exponent as nat);
            assert(2 * n >= 0x20_0000_0000_0000 * unit) by (nonlinear_arith)
                requires
                    2 * n >= DOUBLE_LIMIT as nat * (1 * unit),
                    DOUBLE_LIMIT == 0x20_0000_0000_0000u64,
            ;
        }
        if exponent > 14 {
            lemma_pow2_strictly_increases(14, exponent as nat);
        }
        if exponent > 12 {
            lemma_pow2_strictly_increases(12, exponent as nat);
        } else if exponent < 11 {
            lemma_pow2_strictly_increases(exponent as nat, 11);
        }
        assert(count * pow2(0) == count);
    }
    while i < exponent
        invariant
            i <= exponent <= 14,
            count <= DOUBLE_LIMIT,
            result == count * pow2(i as nat),
            result <= DOUBLE_LIMIT * pow2(i as nat),
            result > 0,
            pow2(i as nat) <= 0x4000,
        decreases exponent - i,
    {
        proof {
            lemma2_to64();
            lemma_pow2_unfold((i + 1) as nat);
            if i + 1 < 14 {
                lemma_pow2_strictly_increases((i + 1) as nat, 14);
            }
            assert(2 * (count * pow2(i as nat)) == count * (2 * pow2(i as nat)))
                by (nonlinear_arith);
        }
        result = 2 * result;
        i = i + 1;
    }
    result
}

/// The double-precision number nearest to a count, as an integer.
pub(crate) fn double_of(n: u64) -> (result: u128)
    ensures
        result == nearest_double(n as nat),
        result <= 0x1_0000_0000_0000_0000,
        n > 0 ==> result > 0,
{
    round_integer(n as u128)
}

/// The double-precision product of a count and one and a half, cut to an integer.
pub(crate) fn half_again(n: u64) -> (result: u128)
    ensures
        result == three_halves(n as nat),
        result < 0x4_0000_0000_0000_0000,
{
    let whole: u128 = double_of(n);
    round_integer(3 * whole) / 2
}

/// Rounding an integer that double precision holds exactly would not change it,
/// so the nearest double-precision number is the rounded integer everywhere.
pub proof fn law_nearest_double_is_rounding(n: nat)
    ensures
        nearest_double(n) == round_to(DOUBLE_LIMIT as nat, n, 1),
{
    if n < DOUBLE_LIMIT {
        assert(spacing(DOUBLE_LIMIT as nat, n, 1) == 1);
        assert(n / 1 == n && n % 1 == 0);
    }
}

/// Rounding is off by at most half of the spacing.
pub proof fn law_rounding_is_nearest(limit: nat, num: nat, den: nat)
    requires
        limit > 0,
        den > 0,
    ensures
        2 * (round_to(limit, num, den) * den - num) <= den * spacing(limit, num, den),
        2 * (num - round_to(limit, num, den) * den) <= den * spacing(limit, num, den),
{
    let unit = spacing(limit, num, den);
    lemma_spacing_positive(limit, num, den);
    let whole = den * unit;
    assert(whole > 0) by (nonlinear_arith)
        requires
            whole == den * unit,
            den > 0,
            unit >= 1,
    ;
    let below = num / whole;
    let rest = num % whole;
    vstd::arithmetic::div_mod::lemma_fundamental_div_mod(num as int, whole as int);
    let count = nearest_even(num, whole);
    assert((count * unit) * den == count * whole) by (nonlinear_arith)
        requires
            whole == den * unit,
    ;
    assert(count == below || count == below + 1);
    assert(whole * (below + 1) == whole * below + whole) by (nonlinear_arith);
    assert(count * whole == whole * count) by (nonlinear_arith);
}

/// A ratio that is an integer below the limit times a power of two is not changed
/// by rounding.
pub proof fn law_representable_unchanged(limit: nat, count: nat, exponent: nat)
    requires
        count < limit,
    ensures
        round_to(limit, count * pow2(exponent), 1) == count * pow2(exponent),
{
    let num = count * pow2(exponent);
    lemma_pow2_pos(exponent);
    assert(num < limit * (1 * pow2(exponent))) by (nonlinear_arith)
        requires
            num == count * pow2(exponent),
            count < limit,
            pow2(exponent) > 0,
    ;
    let f = lemma_spacing_exponent(limit, num, 1, exponent);
    let unit = pow2(f);
    let more = count * pow2((exponent - f) as nat);
    lemma_pow2_adds((exponent - f) as nat, f);
    lemma_pow2_pos(f);
    assert(num == more * unit) by (nonlinear_arith)
        requires
            num == count * pow2(exponent),
            pow2(exponent) == pow2((exponent - f) as nat) * unit,
            more == count * pow2((exponent - f) as nat),
    ;
    vstd::arithmetic::div_mod::lemma_fundamental_div_mod_converse(
        num as int,
        unit as int,
        more as int,
        0,
    );
    assert(1 * unit == unit);
}

/// The spacing is a power of two, no larger than one that brackets the ratio.
pub(crate) proof fn lemma_spacing_exponent(
    limit: nat,
    num: nat,
    den: nat,
    exponent: nat,
) -> (result: nat)
    requires
        limit > 0,
        den > 0,
        num < limit * (den * pow2(exponent)),
    ensures
        result <= exponent,
        spacing(limit, num, den) == pow2(result),
    decreases exponent,
{
    lemma2_to64();
    if num < limit * den {
        0
    } else {
        if exponent == 0 {
            assert(den * pow2(0) == den);
        }
        let less = (exponent - 1) as nat;
        lemma_pow2_unfold(exponent);
        assert(den * pow2(exponent) == (2 * den) * pow2(less)) by (nonlinear_arith)
            requires
                pow2(exponent) == 2 * pow2(less),
        ;
        let half = lemma_spacing_exponent(limit, num, 2 * den, less);
        lemma_pow2_unfold(half + 1);
        half + 1
    }
}

/// The spacing of a larger ratio is the same or at least twice as large.
proof fn lemma_spacing_ordered(limit: nat, a: nat, b: nat, den: nat)
    requires
        limit > 0,
        den > 0,
        a <= b,
    ensures
        spacing(limit, a, den) == spacing(limit, b, den) || 2 * spacing(limit, a, den) <= spacing(
            limit,
            b,
            den,
        ),
    decreases a / den,
{
    if a < limit * den {
        if b >= limit * den {
            lemma_halved_ratio(limit, b, den);
            lemma_spacing_positive(limit, b, 2 * den);
        }
    } else {
        lemma_halved_ratio(limit, a, den);
        lemma_halved_ratio(limit, b, den);
        lemma_spacing_ordered(limit, a, b, 2 * den);
    }
}

/// Of two ratios with the same denominator, the larger one is not rounded to a
/// smaller number.
pub proof fn law_rounding_keeps_order(limit: nat, a: nat, b: nat, den: nat)
    requires
        limit > 0,
        limit % 2 == 0,
        den > 0,
        a <= b,
    ensures
        round_to(limit, a, den) <= round_to(limit, b, den),
{
    let ua = spacing(limit, a, den);
    let ub = spacing(limit, b, den);
    lemma_spacing_ordered(limit, a, b, den);
    lemma_spacing_positive(limit, a, den);
    lemma_spacing_positive(limit, b, den);
    lemma_spacing_bracket(limit, a, den);
    lemma_spacing_bracket(limit, b, den);
    let da = den * ua;
    let db = den * ub;
    assert(da > 0 && db > 0) by (nonlinear_arith)
        requires
            da == den * ua,
            db == den * ub,
            den > 0,
            ua >= 1,
            ub >= 1,
    ;
    let ka = nearest_even(a, da);
    let kb = nearest_even(b, db);
    if ua == ub {
        lemma_nearest_even_ordered(a, b, da);
        assert(ka * ua <= kb * ub) by (nonlinear_arith)
            requires
                ka <= kb,
                ua == ub,
        ;
    } else {
        assert(limit * da == da * limit) by (nonlinear_arith);
        assert(limit * db == db * limit) by (nonlinear_arith);
        lemma_nearest_even_bounds(a, da, limit);
        lemma_nearest_even_bounds(b, db, limit);
        assert(ka * ua <= kb * ub) by (nonlinear_arith)
            requires
                ka <= limit,
                2 * kb >= limit,
                2 * ua <= ub,
        ;
    }
}

/// Rounding to an integer keeps the order.
proof fn lemma_nearest_even_ordered(a: nat, b: nat, den: nat)
    requires
        den > 0,
        a <= b,
    ensures
        nearest_even(a, den) <= nearest_even(b, den),
{
    vstd::arithmetic::div_mod::lemma_fundamental_div_mod(a as int, den as int);
    vstd::arithmetic::div_mod::lemma_fundamental_div_mod(b as int, den as int);
    let ka = a / den;
    let kb = b / den;
    vstd::arithmetic::div_mod::lemma_div_is_ordered(a as int, b as int, den as int);
    if ka < kb {
    } else {
        assert(ka == kb);
        assert(a % den <= b % den);
    }
}

/// A ratio of at least some representable integer is rounded to at least that integer.
pub(crate) proof fn lemma_round_at_least(
    limit: nat,
    num: nat,
    den: nat,
    count: nat,
    exponent: nat,
)
    requires
        limit > 0,
        limit % 2 == 0,
        den > 0,
        count < limit,
        num >= (count * pow2(exponent)) * den,
    ensures
        round_to(limit, num, den) >= count * pow2(exponent),
{
    let least = count * pow2(exponent);
    law_rounding_keeps_order(limit, least * den, num, den);
    law_rounding_ignores_common_factor(limit, least, 1, den);
    law_representable_unchanged(limit, count, exponent);
    assert(1 * den == den);
}

/// Twice an integer rounds to twice the number that the integer rounds to.
pub(crate) proof fn lemma_double_of_twice(n: nat)
    ensures
        nearest_double(2 * n) == 2 * nearest_double(n),
{
    let limit = DOUBLE_LIMIT as nat;
    if 2 * n >= DOUBLE_LIMIT {
        law_nearest_double_is_rounding(n);
        lemma_spacing_scaled(limit, n, 1, 2);
        lemma_spacing_positive(limit, n, 1);
        let unit = spacing(limit, n, 1);
        assert(n * 2 == 2 * n);
        assert(limit * 1 == limit);
        assert(spacing(limit, 2 * n, 1) == 2 * unit);
        lemma_nearest_even_scaled(n, unit, 2);
        let count = nearest_even(n, unit);
        assert(1 * (2 * unit) == unit * 2);
        assert(1 * unit == unit);
        assert(count * (2 * unit) == 2 * (count * unit)) by (nonlinear_arith);
    }
}

/// A larger integer does not round to a smaller double-precision number.
pub(crate) proof fn lemma_double_ordered(a: nat, b: nat)
    requires
        a <= b,
    ensures
        nearest_double(a) <= nearest_double(b),
{
    law_nearest_double_is_rounding(a);
    law_nearest_double_is_rounding(b);
    law_rounding_keeps_order(DOUBLE_LIMIT as nat, a, b, 1);
}

/// The integer that a ratio lies nearest to is the rounded one; half-way between
/// two integers it is the even one of them.
pub proof fn law_nearest_even(num: nat, den: nat, k: nat)
    requires
        den > 0,
    ensures
        2 * num < (2 * k + 1) * den && (2 * k - 1) * den < 2 * num ==> nearest_even(num, den) == k,
        2 * num == (2 * k + 1) * den ==> nearest_even(num, den) % 2 == 0 && (nearest_even(num, den)
            == k || nearest_even(num, den) == k + 1),
{
    let below = num / den;
    let rest = num % den;
    vstd::arithmetic::div_mod::lemma_fundamental_div_mod(num as int, den as int);
    if 2 * num < (2 * k + 1) * den && (2 * k - 1) * den < 2 * num {
        assert((below == k && 2 * rest < den) || (below + 1 == k && 2 * rest > den))
            by (nonlinear_arith)
            requires
                num == den * below + rest,
                0 <= rest < den,
                2 * num < (2 * k + 1) * den,
                (2 * k - 1) * den < 2 * num,
        ;
    }
    if 2 * num == (2 * k + 1) * den {
        assert(below == k && 2 * rest == den) by (nonlinear_arith)
            requires
                num == den * below + rest,
                0 <= rest < den,
                2 * num == (2 * k + 1) * den,
        ;
    }
}

/// The spacing is the power of two that brackets the ratio: the ratio is below
/// `limit` spacings, and not below half as many unless the spacing is one.
pub proof fn law_spacing_brackets(limit: nat, num: nat, den: nat)
    requires
        limit > 0,
        den > 0,
    ensures
        exists|exponent: nat| spacing(limit, num, den) == #[trigger] pow2(exponent),
        num < limit * (den * spacing(limit, num, den)),
        spacing(limit, num, den) > 1 ==> 2 * num >= limit * (den * spacing(limit, num, den)),
    decreases num / den,
{
    lemma2_to64();
    lemma_spacing_bracket(limit, num, den);
    if num < limit * den {
        assert(spacing(limit, num, den) == pow2(0));
    } else {
        lemma_halved_ratio(limit, num, den);
        law_spacing_brackets(limit, num, 2 * den);
        let less = choose|exponent: nat|
            spacing(limit, num, 2 * den) == #[trigger] pow2(exponent);
        lemma_pow2_unfold(less + 1);
        assert(spacing(limit, num, den) == pow2(less + 1));
    }
}

/// A representable number beyond half of the limit, in spacings, is a multiple of
/// the spacing.
proof fn lemma_on_grid(limit: nat, count: nat, exponent: nat, f: nat)
    requires
        limit > 0,
        count < limit,
        2 * (count * pow2(exponent)) >= limit * pow2(f),
    ensures
        (count * pow2(exponent)) % pow2(f) == 0,
{
    lemma_pow2_pos(f);
    lemma_pow2_pos(exponent);
    if exponent < f {
        if exponent + 1 < f {
            lemma_pow2_strictly_increases(exponent + 1, f);
        }
        lemma_pow2_unfold(exponent + 1);
        assert(false) by (nonlinear_arith)
            requires
                2 * (count * pow2(exponent)) >= limit * pow2(f),
                2 * pow2(exponent) <= pow2(f),
                count < limit,
                pow2(exponent) > 0,
        ;
    }
    let more = count * pow2((exponent - f) as nat);
    lemma_pow2_adds((exponent - f) as nat, f);
    assert(count * pow2(exponent) == more * pow2(f)) by (nonlinear_arith)
        requires
            pow2(exponent) == pow2((exponent - f) as nat) * pow2(f),
            more == count * pow2((exponent - f) as nat),
    ;
    vstd::arithmetic::div_mod::lemma_fundamental_div_mod_converse(
        (count * pow2(exponent)) as int,
        pow2(f) as int,
        more as int,
        0,
    );
}

/// No representable number lies nearer to the ratio than the rounded one.
pub proof fn law_no_representable_is_nearer(
    limit: nat,
    num: nat,
    den: nat,
    count: nat,
    exponent: nat,
)
    requires
        limit > 0,
        limit % 2 == 0,
        den > 0,
        count < limit,
    ensures
        ({
            let found = round_to(limit, num, den) * den;
            let other = (count * pow2(exponent)) * den;
            vstd::math::abs(found - num) <= vstd::math::abs(other - num)
        }),
{
    let c = count * pow2(exponent);
    let unit = spacing(limit, num, den);
    let k = nearest_even(num, den * unit);
    let r = round_to(limit, num, den);
    law_spacing_brackets(limit, num, den);
    let f = choose|e: nat| spacing(limit, num, den) == #[trigger] pow2(e);
    lemma_pow2_pos(f);
    law_rounding_is_nearest(limit, num, den);
    law_rounding_ignores_common_factor(limit, c, 1, den);
    law_representable_unchanged(limit, count, exponent);
    assert(1 * den == den);
    assert(k * unit == r);
    if c * den <= num {
        law_rounding_keeps_order(limit, c * den, num, den);
        assert(c <= r);
        if r * den > num {
            assert(c < r) by (nonlinear_arith)
                requires
                    c * den <= num,
                    r * den > num,
                    den > 0,
            ;
            if unit > 1 {
                assert(2 * r > limit * unit) by (nonlinear_arith)
                    requires
                        2 * num >= limit * (den * unit),
                        r * den > num,
                        den > 0,
                ;
                assert(2 * k > limit) by (nonlinear_arith)
                    requires
                        k * unit == r,
                        2 * r > limit * unit,
                        unit > 0,
                ;
            }
            lemma_grid_step_down(limit, c, count, exponent, f, k);
            assert(r * den - num <= num - c * den) by (nonlinear_arith)
                requires
                    c + unit <= r,
                    2 * (r * den - num) <= den * unit,
                    den > 0,
            ;
        } else {
            assert(c * den <= r * den) by (nonlinear_arith)
                requires
                    c <= r,
            ;
        }
    } else {
        law_rounding_keeps_order(limit, num, c * den, den);
        assert(r <= c);
        if r * den < num {
            assert(r < c) by (nonlinear_arith)
                requires
                    c * den > num,
                    r * den < num,
                    den > 0,
            ;
            if unit > 1 {
                assert(2 * c >= limit * unit) by (nonlinear_arith)
                    requires
                        2 * num >= limit * (den * unit),
                        c * den > num,
                        den > 0,
                ;
            }
            lemma_grid_step_up(limit, c, count, exponent, f, k);
            assert(num - r * den <= c * den - num) by (nonlinear_arith)
                requires
                    r + unit <= c,
                    2 * (num - r * den) <= den * unit,
                    den > 0,
            ;
        } else {
            assert(c * den >= r * den) by (nonlinear_arith)
                requires
                    c >= r,
            ;
        }
    }
}

/// A representable number below a grid point lies at least a step below it.
proof fn lemma_grid_step_down(limit: nat, c: nat, count: nat, exponent: nat, f: nat, k: nat)
    requires
        limit > 0,
        count < limit,
        c == count * pow2(exponent),
        c < k * pow2(f),
        pow2(f) > 1 ==> 2 * (k - 1) >= limit,
    ensures
        c + pow2(f) <= k * pow2(f),
{
    let unit = pow2(f);
    lemma_pow2_pos(f);
    assert(k >= 1) by (nonlinear_arith)
        requires
            c < k * unit,
            c >= 0,
    ;
    let less = (k - 1) as nat;
    assert(k * unit == less * unit + unit) by (nonlinear_arith)
        requires
            less == k - 1,
    ;
    if unit == 1 {
        assert(less * unit == less) by (nonlinear_arith)
            requires
                unit == 1,
        ;
    } else if c > less * unit {
        assert(2 * c >= limit * unit) by (nonlinear_arith)
            requires
                c > less * unit,
                2 * less >= limit,
        ;
        lemma_on_grid(limit, count, exponent, f);
        vstd::arithmetic::div_mod::lemma_fundamental_div_mod(c as int, unit as int);
        let m = c as int / unit as int;
        assert(less < m && m < k) by (nonlinear_arith)
            requires
                c == unit * m,
                c > less * unit,
                c < k * unit,
                unit > 0,
        ;
    }
}

/// A representable number above a grid point lies at least a step above it.
proof fn lemma_grid_step_up(limit: nat, c: nat, count: nat, exponent: nat, f: nat, k: nat)
    requires
        limit > 0,
        count < limit,
        c == count * pow2(exponent),
        c > k * pow2(f),
        pow2(f) > 1 ==> 2 * c >= limit * pow2(f),
    ensures
        c >= k * pow2(f) + pow2(f),
{
    let unit = pow2(f);
    lemma_pow2_pos(f);
    if unit > 1 {
        lemma_on_grid(limit, count, exponent, f);
        vstd::arithmetic::div_mod::lemma_fundamental_div_mod(c as int, unit as int);
        let m = c as int / unit as int;
        assert(m >= k + 1) by (nonlinear_arith)
            requires
                c == unit * m,
                c > k * unit,
                unit > 0,
        ;
        assert(c >= k * unit + unit) by (nonlinear_arith)
            requires
                c == unit * m,
                m >= k + 1,
                unit > 0,
        ;
    } else {
        assert(k * unit == k) by (nonlinear_arith)
            requires
                unit == 1,
        ;
    }
}

/// One and a half times a count, cut to an integer: exact where three times the
/// count has at most 53 digits, and elsewhere the product of the rounded count,
/// rounded again.
pub proof fn law_three_halves(n: nat)
    ensures
        3 * n < 0x20_0000_0000_0000 ==> three_halves(n) == 3 * n / 2,
        n < 0x20_0000_0000_0000 ==> nearest_double(n) == n,
        nearest_double(n) == round_to(0x20_0000_0000_0000, n, 1),
        three_halves(n) == round_to(
            0x20_0000_0000_0000,
            3 * round_to(0x20_0000_0000_0000, n, 1),
            1,
        ) / 2,
{
    law_nearest_double_is_rounding(n);
    law_nearest_double_is_rounding(3 * nearest_double(n));
}

/// More weights never take fewer cycles.
pub proof fn law_three_halves_keeps_order(a: nat, b: nat)
    requires
        a <= b,
    ensures
        three_halves(a) <= three_halves(b),
{
    lemma_double_ordered(a, b);
    lemma_double_ordered(3 * nearest_double(a), 3 * nearest_double(b));
}

/// A ratio rounds to the multiple of the spacing that it lies nearest to, and to the
/// even one of two multiples half-way between them.
pub proof fn law_rounds_to_multiple(limit: nat, num: nat, den: nat, k: nat)
    requires
        limit > 0,
        den > 0,
    ensures
        ({
            let unit = spacing(limit, num, den);
            let step = den * unit;
            &&& (2 * k - 1) * step < 2 * num && 2 * num < (2 * k + 1) * step ==> round_to(
                limit,
                num,
                den,
            ) == k * unit
            &&& 2 * num == (2 * k + 1) * step && k % 2 == 0 ==> round_to(limit, num, den) == k
                * unit
            &&& 2 * num == (2 * k + 1) * step && k % 2 == 1 ==> round_to(limit, num, den) == (k
                + 1) * unit
        }),
{
    let unit = spacing(limit, num, den);
    lemma_spacing_positive(limit, num, den);
    assert(den * unit > 0) by (nonlinear_arith)
        requires
            den > 0,
            unit >= 1,
    ;
    law_nearest_even(num, den * unit, k);
}

} // verus!
