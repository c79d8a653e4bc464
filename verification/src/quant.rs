//! Quantization of weights and biases to small integers, and their packing.

use crate::float;
use crate::float::{Binary32, Binary64, Value};
use crate::rounding;
use crate::rounding::SINGLE_LIMIT;
use vstd::arithmetic::power2::*;
use vstd::prelude::*;

verus! {

/// A quantized weight tensor
#[derive(Debug, Clone)]
pub struct QuantTensor {
    pub name: String,
    pub original_bits: u32,
    pub quant_bits: u32,
    pub original_size_bytes: usize,
    pub quant_size_bytes: usize,
    pub compression_ratio: Binary64,
    pub scale: Binary32,
    pub zero_point: i32,
    /// Packed quantized data
    pub data: Vec<u8>,
}

/// Whether `bits` is one of the widths that weights are packed to.
pub open spec fn packable(bits: u32) -> bool {
    bits == 4 || bits == 8 || bits == 16
}

/// The number that the peak weight is mapped to: the largest level of an integer
/// width, and the peak itself for the 16-bit width.
pub open spec fn full_scale(weights: Seq<Binary32>, bits: u32) -> Value {
    if bits == 4 {
        Value::Finite { negative: false, units: 7 * float::single_one() }
    } else if bits == 8 {
        Value::Finite { negative: false, units: 127 * float::single_one() }
    } else {
        float::single_value(false, float::peak(weights))
    }
}

/// The weight that one level stands for: the peak weight over the full scale, or
/// one where no weight differs from zero.
pub open spec fn scale_of(weights: Seq<Binary32>, bits: u32) -> Value {
    if float::peak(weights) > 0 {
        float::quotient(
            float::single_value(false, float::peak(weights)),
            full_scale(weights, bits),
        )
    } else {
        Value::Finite { negative: false, units: float::single_one() }
    }
}

/// The largest magnitude of a level.
pub open spec fn level_bound(weights: Seq<Binary32>, bits: u32) -> nat {
    if bits == 4 {
        7
    } else if bits == 8 {
        127
    } else {
        float::truncated(float::peak(weights))
    }
}

/// The level of one weight: its quotient by the scale, rounded to an integer and
/// held within the bound and within 32 bits.
pub open spec fn level_of(weight: Value, scale: Value, bound: nat) -> int {
    float::rounded_within(
        float::quotient(weight, scale),
        vstd::math::min(bound as int, 0x8000_0000) as nat,
        vstd::math::min(bound as int, 0x7FFF_FFFF) as nat,
    )
}

/// The levels of the weights, in order.
pub open spec fn levels_of(weights: Seq<Binary32>, bits: u32) -> Seq<int> {
    weights.map_values(
        |weight: Binary32|
            level_of(weight@, scale_of(weights, bits), level_bound(weights, bits)),
    )
}

/// The level of one bias: its quotient by the scale of the weights, rounded to an
/// integer and held within 16 bits.
pub open spec fn bias_level(bias: Value, scale: Value) -> int {
    float::rounded_within(float::quotient(bias, scale), 0x8000, 0x7FFF)
}

/// The levels of the biases, in order.
pub open spec fn bias_levels(biases: Seq<Binary32>, scale: Value) -> Seq<int> {
    biases.map_values(|bias: Binary32| bias_level(bias@, scale))
}

/// The low four bits of a level; zero past the end.
pub open spec fn nibble(levels: Seq<int>, i: int) -> int {
    if i < levels.len() {
        levels[i] % 16
    } else {
        0
    }
}

/// The low or the high byte of the low sixteen bits of a level.
pub open spec fn half_of(level: int, low: bool) -> u8 {
    if low {
        (level % 256) as u8
    } else {
        (level / 256 % 256) as u8
    }
}

/// Levels packed to their low `bits` bits, the first in the low bits of the
/// first byte.
pub open spec fn packed(levels: Seq<int>, bits: u32) -> Seq<u8> {
    if bits == 4 {
        Seq::new(
            (levels.len() + 1) / 2,
            |i: int| (nibble(levels, 2 * i) + 16 * nibble(levels, 2 * i + 1)) as u8,
        )
    } else if bits == 8 {
        Seq::new(levels.len(), |i: int| (levels[i] % 256) as u8)
    } else {
        Seq::new(
            2 * levels.len(),
            |i: int|
                half_of(levels[i / 2], i % 2 == 0),
        )
    }
}

/// The integers in a sequence of machine integers.
pub open spec fn as_ints(levels: Seq<i32>) -> Seq<int> {
    levels.map_values(|level: i32| level as int)
}

/// The two's complement pattern of a level.
fn wrapped(level: i32) -> (result: u32)
    ensures
        result == level as int % 0x1_0000_0000,
{
    if level < 0 {
        (level as i64 + 0x1_0000_0000) as u32
    } else {
        level as u32
    }
}

/// Packs levels to four bits, two in a byte.
#[verifier::rlimit(40)]
fn pack_nibbles(levels: &[i32]) -> (result: Vec<u8>)
    ensures
        result@ == packed(as_ints(levels@), 4),
{
    let ghost ints = as_ints(levels@);
    let mut result: Vec<u8> = Vec::new();
    let mut pending: u8 = 0;
    let mut i: usize = 0;
    while i < levels.len()
        invariant
            ints == as_ints(levels@),
            i <= levels.len(),
            result@.len() == i / 2,
            pending < 16,
            i % 2 == 1 ==> pending == nibble(ints, i - 1),
            forall|j: int|
                0 <= j < result@.len() ==> #[trigger] result@[j] == nibble(ints, 2 * j) + 16
                    * nibble(ints, 2 * j + 1),
        decreases levels.len() - i,
    {
        let field: u8 = (wrapped(levels[i]) % 16) as u8;
        assert(field == nibble(ints, i as int));
        if i % 2 == 0 {
            pending = field;
        } else {
            result.push(pending + 16 * field);
        }
        i = i + 1;
    }
    if i % 2 == 1 {
        result.push(pending);
    }
    assert(result@ =~= packed(ints, 4));
    result
}

/// Packs levels to one byte each.
#[verifier::rlimit(40)]
fn pack_bytes(levels: &[i32]) -> (result: Vec<u8>)
    ensures
        result@ == packed(as_ints(levels@), 8),
{
    let ghost ints = as_ints(levels@);
    let mut result: Vec<u8> = Vec::new();
    let mut i: usize = 0;
    while i < levels.len()
        invariant
            ints == as_ints(levels@),
            i <= levels.len(),
            result@.len() == i,
            forall|j: int| 0 <= j < i ==> #[trigger] result@[j] == ints[j] % 256,
        decreases levels.len() - i,
    {
        result.push((wrapped(levels[i]) % 256) as u8);
        i = i + 1;
    }
    assert(result@ =~= packed(ints, 8));
    result
}

/// Packs levels to two bytes each, the low byte first.
#[verifier::rlimit(40)]
fn pack_pairs(levels: &[i32]) -> (result: Vec<u8>)
    ensures
        result@ == packed(as_ints(levels@), 16),
{
    let ghost ints = as_ints(levels@);
    let mut result: Vec<u8> = Vec::new();
    let mut i: usize = 0;
    while i < levels.len()
        invariant
            ints == as_ints(levels@),
            i <= levels.len(),
            result@.len() == 2 * i,
            forall|j: int|
                0 <= j < 2 * i ==> #[trigger] result@[j] == half_of(ints[j / 2], j % 2 == 0),
        decreases levels.len() - i,
    {
        let pattern: u32 = wrapped(levels[i]);
        let low: u8 = (pattern % 256) as u8;
        let high: u8 = (pattern / 256 % 256) as u8;
        assert(low == half_of(ints[i as int], true));
        assert(high == half_of(ints[i as int], false));
        result.push(low);
        result.push(high);
        i = i + 1;
    }
    assert(result@ =~= packed(ints, 16));
    result
}

/// Packs levels to their low `bits` bits.
pub fn pack_levels(levels: &[i32], bits: u32) -> (result: Vec<u8>)
    requires
        packable(bits),
    ensures
        result@ == packed(as_ints(levels@), bits),
        bits == 4 ==> result@.len() == (levels@.len() + 1) / 2,
        bits == 8 ==> result@.len() == levels@.len(),
        bits == 16 ==> result@.len() == 2 * levels@.len(),
        forall|i: int|
            0 <= i < levels@.len() ==> {
                let level = #[trigger] levels@[i] as int;
                &&& bits == 4 && i % 2 == 0 ==> result@[i / 2] as int % 16 == level % 16
                &&& bits == 4 && i % 2 == 1 ==> result@[i / 2] as int / 16 == level % 16
                &&& bits == 8 ==> result@[i] as int == level % 256
                &&& bits == 16 ==> result@[2 * i] + 256 * result@[2 * i + 1] == level % 65536
            },
{
    proof {
        let ints = as_ints(levels@);
        assert forall|i: int| 0 <= i < levels@.len() implies {
            let level = #[trigger] levels@[i] as int;
            &&& i % 2 == 0 ==> packed(ints, 4)[i / 2] as int % 16 == level % 16
            &&& i % 2 == 1 ==> packed(ints, 4)[i / 2] as int / 16 == level % 16
            &&& packed(ints, 8)[i] as int == level % 256
            &&& packed(ints, 16)[2 * i] + 256 * packed(ints, 16)[2 * i + 1] == level % 65536
        } by {
            law_packed_bytes(ints, i);
        }
    }
    match bits {
        4 => pack_nibbles(levels),
        8 => pack_bytes(levels),
        _ => pack_pairs(levels),
    }
}

/// The scale of some weights and their levels.
#[verifier::rlimit(40)]
pub fn quantize_weights(weights: &[Binary32], bits: u32) -> (result: (Binary32, Vec<i32>))
    requires
        packable(bits),
    ensures
        result.0@ == scale_of(weights@, bits),
        as_ints(result.1@) == levels_of(weights@, bits),
        result.1@.len() == weights@.len(),
        forall|i: int|
            0 <= i < weights@.len() ==> #[trigger] result.1@[i] == levels_of(weights@, bits)[i],
{
    let top: Binary32 = float::largest_magnitude(weights);
    let full: Binary32 = match bits {
        4 => Binary32::seven(),
        8 => Binary32::one_hundred_twenty_seven(),
        _ => top,
    };
    let scale: Binary32 = if top.bits > 0 {
        top.divide(full)
    } else {
        Binary32::one()
    };
    let bound: u64 = match bits {
        4 => 7,
        8 => 127,
        _ => if top.bits < float::SINGLE_INFINITY {
            top.truncated_magnitude()
        } else {
            float::MAGNITUDE_CAP
        },
    };
    let low: u64 = if bound < 0x8000_0000 {
        bound
    } else {
        0x8000_0000
    };
    let high: u64 = if bound < 0x7FFF_FFFF {
        bound
    } else {
        0x7FFF_FFFF
    };
    let mut levels: Vec<i32> = Vec::new();
    let mut i: usize = 0;
    proof {
        float::lemma_peak_pattern(top, float::peak(weights@));
    }
    while i < weights.len()
        invariant
            i <= weights.len(),
            levels@.len() == i,
            scale@ == scale_of(weights@, bits),
            low == vstd::math::min(level_bound(weights@, bits) as int, 0x8000_0000),
            high == vstd::math::min(level_bound(weights@, bits) as int, 0x7FFF_FFFF),
            forall|j: int|
                0 <= j < i ==> #[trigger] levels@[j] == levels_of(weights@, bits)[j],
        decreases weights.len() - i,
    {
        let ratio: Binary32 = weights[i].divide(scale);
        let level: i64 = ratio.round_within(low, high);
        levels.push(level as i32);
        i = i + 1;
    }
    assert(as_ints(levels@) =~= levels_of(weights@, bits));
    (scale, levels)
}

/// Quantizes biases by the scale of the weights and packs them to two bytes each.
pub fn pack_biases(biases: &[Binary32], scale: Binary32) -> (result: Vec<u8>)
    ensures
        result@ == packed(bias_levels(biases@, scale@), 16),
{
    let mut levels: Vec<i32> = Vec::new();
    let mut i: usize = 0;
    while i < biases.len()
        invariant
            i <= biases.len(),
            levels@.len() == i,
            forall|j: int|
                0 <= j < i ==> #[trigger] levels@[j] == bias_levels(biases@, scale@)[j],
        decreases biases.len() - i,
    {
        let level: i64 = biases[i].divide(scale).round_within(0x8000, 0x7FFF);
        levels.push(level as i32);
        i = i + 1;
    }
    assert(as_ints(levels@) =~= bias_levels(biases@, scale@));
    pack_levels(levels.as_slice(), 16)
}

/// The signed number that a field of a given span holds in two's complement.
pub open spec fn signed(field: int, span: int) -> int {
    if 2 * field >= span {
        field - span
    } else {
        field
    }
}

/// The level at position `i` of packed data.
pub open spec fn unpacked(data: Seq<u8>, bits: u32, i: int) -> int {
    if bits == 4 {
        signed(
            if i % 2 == 0 {
                data[i / 2] as int % 16
            } else {
                data[i / 2] as int / 16
            },
            16,
        )
    } else if bits == 8 {
        signed(data[i] as int, 256)
    } else {
        signed(data[2 * i] + 256 * data[2 * i + 1], 65536)
    }
}

/// Unpacking gives back every packed level that fits the width.
pub proof fn law_unpacking_gives_back(levels: Seq<int>, bits: u32, i: int)
    requires
        packable(bits),
        0 <= i < levels.len(),
        bits == 4 ==> -8 <= levels[i] <= 7,
        bits == 8 ==> -128 <= levels[i] <= 127,
        bits == 16 ==> -32768 <= levels[i] <= 32767,
    ensures
        unpacked(packed(levels, bits), bits, i) == levels[i],
{
    if bits == 4 {
        let pair = i / 2;
        let byte = packed(levels, 4)[pair];
        assert(byte == nibble(levels, 2 * pair) + 16 * nibble(levels, 2 * pair + 1));
    } else if bits == 8 {
        assert(packed(levels, 8)[i] == levels[i] % 256);
    } else {
        assert(packed(levels, 16)[2 * i] == levels[i] % 256);
        assert(packed(levels, 16)[2 * i + 1] == levels[i] / 256 % 256);
    }
}

/// Every level stays within its width: from -7 to 7 for four bits, from -127 to 127
/// for eight, and within 32 bits for sixteen.
pub proof fn law_levels_bounded(weights: Seq<Binary32>, bits: u32, i: int)
    requires
        packable(bits),
        0 <= i < weights.len(),
    ensures
        bits == 4 ==> -7 <= levels_of(weights, bits)[i] <= 7,
        bits == 8 ==> -127 <= levels_of(weights, bits)[i] <= 127,
        i32::MIN <= levels_of(weights, bits)[i] <= i32::MAX,
{
}

/// The levels of weights packed to four or eight bits can be read back from the
/// packed data.
pub proof fn law_packed_weights_read_back(weights: Seq<Binary32>, bits: u32, i: int)
    requires
        bits == 4 || bits == 8,
        0 <= i < weights.len(),
    ensures
        unpacked(packed(levels_of(weights, bits), bits), bits, i) == levels_of(weights, bits)[i],
{
    law_levels_bounded(weights, bits, i);
    law_unpacking_gives_back(levels_of(weights, bits), bits, i);
}

/// The levels of biases can be read back from the packed data.
pub proof fn law_packed_biases_read_back(biases: Seq<Binary32>, scale: Value, i: int)
    requires
        0 <= i < biases.len(),
    ensures
        unpacked(packed(bias_levels(biases, scale), 16), 16, i) == bias_levels(biases, scale)[i],
{
    law_unpacking_gives_back(bias_levels(biases, scale), 16, i);
}

/// Opposite weights take opposite levels.
pub proof fn law_levels_are_symmetric(weight: Value, scale: Value, bound: nat)
    requires
        bound <= i32::MAX,
    ensures
        level_of(float::negated(weight), scale, bound) == -level_of(weight, scale, bound),
{
    float::law_quotient_is_symmetric(weight, scale);
    float::law_rounding_is_symmetric(float::quotient(weight, scale), bound);
}

/// A weight of zero takes level zero, so weights without a peak take scale one and
/// level zero throughout.
pub proof fn law_zero_weights_take_level_zero(weights: Seq<Binary32>, bits: u32, i: int)
    requires
        0 <= i < weights.len(),
        float::reach(weights[i]@) == 0,
    ensures
        levels_of(weights, bits)[i] == 0,
        float::peak(weights) == 0 ==> scale_of(weights, bits) == (Value::Finite {
            negative: false,
            units: float::single_one(),
        }),
{
    lemma_pow2_pos(277);
    if let Value::Finite { negative, .. } = weights[i]@ {
        float::law_zero_quotient_rounds_to_zero(
            negative,
            scale_of(weights, bits),
            vstd::math::min(level_bound(weights, bits) as int, 0x8000_0000) as nat,
            vstd::math::min(level_bound(weights, bits) as int, 0x7FFF_FFFF) as nat,
        );
    }
}

/// With sixteen bits and a finite peak the scale is one, and each level is the
/// weight rounded to an integer, held within the integer part of the peak and
/// within 32 bits.
pub proof fn law_sixteen_bit_levels_are_rounded_weights(weights: Seq<Binary32>, i: int)
    requires
        0 <= i < weights.len(),
        float::peak(weights) < float::single_overflow(),
    ensures
        scale_of(weights, 16) == (Value::Finite { negative: false, units: float::single_one() }),
        levels_of(weights, 16)[i] == float::rounded_within(
            weights[i]@,
            vstd::math::min(float::truncated(float::peak(weights)) as int, 0x8000_0000) as nat,
            vstd::math::min(float::truncated(float::peak(weights)) as int, 0x7FFF_FFFF) as nat,
        ),
{
    if float::peak(weights) > 0 {
        float::law_quotient_by_itself(float::peak(weights));
    }
    float::law_quotient_by_one(weights[i]);
}

/// The scale of an integer width, for a finite peak that is not tiny: a positive
/// finite number, off by at most half a spacing from the exact one.
proof fn lemma_scale_close(weights: Seq<Binary32>, bits: u32) -> (scale: nat)
    requires
        bits == 4 || bits == 8,
        127 <= float::peak(weights) < float::single_overflow(),
    ensures
        scale_of(weights, bits) == (Value::Finite { negative: false, units: scale }),
        scale >= 1,
        ({
            let p = float::peak(weights);
            let top = level_bound(weights, bits);
            let unit = rounding::spacing(SINGLE_LIMIT as nat, p, top);
            &&& unit >= 1
            &&& unit > 1 ==> 2 * p >= SINGLE_LIMIT as nat * (top * unit)
            &&& 2 * (scale * top - p) <= top * unit
            &&& 2 * (p - scale * top) <= top * unit
        }),
{
    let p = float::peak(weights);
    let top = level_bound(weights, bits);
    let one = float::single_one();
    let limit = SINGLE_LIMIT as nat;
    lemma_pow2_pos(149);
    lemma2_to64();
    float::law_peak_bounds(weights);
    let k = choose|k: int|
        0 <= k < weights.len() && float::reach((#[trigger] weights[k])@) == float::peak(weights);
    let (count, exponent) = float::lemma_units_representable(weights[k]);
    let scale = rounding::round_to(limit, p, top);
    rounding::law_rounding_ignores_common_factor(limit, p, top, one);
    assert((1 * pow2(0)) * top == top);
    rounding::lemma_round_at_least(limit, p, top, 1, 0);
    assert(p <= p * top) by (nonlinear_arith)
        requires
            top >= 1,
    ;
    rounding::law_rounding_keeps_order(limit, p, p * top, top);
    rounding::law_rounding_ignores_common_factor(limit, p, 1, top);
    assert(1 * top == top);
    rounding::law_representable_unchanged(limit, count, exponent);
    rounding::law_rounding_is_nearest(limit, p, top);
    rounding::lemma_spacing_positive(limit, p, top);
    rounding::lemma_spacing_bracket(limit, p, top);
    scale
}

/// A weight at the peak takes the largest level of an integer width. This leaves
/// out infinite peaks, which take level zero, and peaks below 16066 times the
/// smallest positive number, where the scale may have too few digits.
pub proof fn law_peak_takes_top_level(weights: Seq<Binary32>, bits: u32, i: int)
    requires
        bits == 4 || bits == 8,
        0 <= i < weights.len(),
        float::reach(weights[i]@) == float::peak(weights),
        16066 <= float::peak(weights) < float::single_overflow(),
    ensures
        levels_of(weights, bits)[i] == if weights[i].bits < float::SIGN_BIT {
            level_bound(weights, bits) as int
        } else {
            -level_bound(weights, bits)
        },
{
    let p = float::peak(weights);
    let top = level_bound(weights, bits);
    let one = float::single_one();
    let limit = SINGLE_LIMIT as nat;
    lemma_pow2_pos(149);
    lemma_pow2_unfold(149);
    let s = lemma_scale_close(weights, bits);
    let unit = rounding::spacing(limit, p, top);
    let half_levels = (2 * top - 1) as nat;
    // The scale exceeds the exact one by so little that the peak stays above the
    // last half level.
    assert(half_levels * (top * unit) <= 2 * p) by {
        if unit > 1 {
            assert(half_levels * (top * unit) <= limit * (top * unit)) by (nonlinear_arith)
                requires
                    half_levels <= limit,
                    top * unit >= 0,
            ;
        } else {
            assert(top * unit == top);
            assert(half_levels * top == 13 * 7 || half_levels * top == 253 * 127);
        }
    }
    assert(half_levels * s <= 2 * p) by (nonlinear_arith)
        requires
            half_levels * (top * unit) <= 2 * p,
            2 * (s * top - p) <= top * unit,
            half_levels == 2 * top - 1,
            top >= 1,
    ;
    assert(p * one >= (half_levels * pow2(148)) * s) by (nonlinear_arith)
        requires
            half_levels * s <= 2 * p,
            one == 2 * pow2(148),
    ;
    rounding::lemma_round_at_least(limit, p * one, s, half_levels, 148);
    let q = rounding::round_to(limit, p * one, s);
    assert(2 * q + one >= top * (2 * one)) by (nonlinear_arith)
        requires
            q >= half_levels * pow2(148),
            one == 2 * pow2(148),
            half_levels == 2 * top - 1,
    ;
    assert(float::rounded(q) >= top) by (nonlinear_arith)
        requires
            2 * q + one >= top * (2 * one),
            one > 0,
            float::rounded(q) == (2 * q + one) / (2 * one),
    ;
}

/// The magnitude of a level.
pub open spec fn level_magnitude(level: int) -> nat {
    if level < 0 {
        (-level) as nat
    } else {
        level as nat
    }
}

/// The peak is at most a quarter of a scale above the largest level.
proof fn lemma_peak_below_next_quarter(p: nat, s: nat, top: nat, unit: nat)
    requires
        top == 7 || top == 127,
        p >= 0x1_0000,
        unit >= 1,
        unit > 1 ==> 2 * p >= SINGLE_LIMIT as nat * (top * unit),
        2 * (s * top - p) <= top * unit,
        2 * (p - s * top) <= top * unit,
    ensures
        4 * p <= (4 * top + 1) * s,
{
    if unit > 1 {
        assert(0x100_0000 * (p - s * top) <= p) by (nonlinear_arith)
            requires
                2 * p >= SINGLE_LIMIT as nat * (top * unit),
                SINGLE_LIMIT == 0x100_0000u64,
                2 * (p - s * top) <= top * unit,
        ;
    } else {
        assert(top * unit == top);
    }
    if top == 7 {
        assert(s * top == 7 * s);
        assert((4 * top + 1) * s == 29 * s);
    } else {
        assert(s * top == 127 * s);
        assert((4 * top + 1) * s == 509 * s);
    }
}

/// The quotient of a weight is off by little from the exact one.
proof fn lemma_quotient_close(w: nat, s: nat)
    requires
        s >= 1,
        w < 128 * s,
    ensures
        ({
            let q = rounding::round_to(SINGLE_LIMIT as nat, w * float::single_one(), s);
            &&& 2 * (q * s - w * float::single_one()) <= s * pow2(132)
            &&& 2 * (w * float::single_one() - q * s) <= s * pow2(132)
        }),
{
    let limit = SINGLE_LIMIT as nat;
    let one = float::single_one();
    let fine = pow2(132);
    lemma2_to64();
    lemma_pow2_adds(17, 132);
    lemma_pow2_pos(132);
    assert(w * one < limit * (s * fine)) by (nonlinear_arith)
        requires
            w < 128 * s,
            one == 0x2_0000 * fine,
            limit == 0x100_0000,
            fine > 0,
    ;
    let f = rounding::lemma_spacing_exponent(limit, w * one, s, 132);
    if f < 132 {
        lemma_pow2_strictly_increases(f, 132);
    }
    rounding::law_rounding_is_nearest(limit, w * one, s);
    assert(s * pow2(f) <= s * fine) by (nonlinear_arith)
        requires
            pow2(f) <= fine,
    ;
}

/// The nearest integer to a magnitude lies within a half of it.
proof fn lemma_rounded_close(q: nat)
    ensures
        2 * (float::rounded(q) * float::single_one()) <= 2 * q + float::single_one(),
        2 * (float::rounded(q) * float::single_one()) > 2 * q - float::single_one(),
{
    let one = float::single_one();
    let r = float::rounded(q);
    lemma_pow2_pos(149);
    vstd::arithmetic::div_mod::lemma_fundamental_div_mod((2 * q + one) as int, (2 * one) as int);
    assert((2 * one) * r == 2 * (r * one)) by (nonlinear_arith);
}

/// The errors of the quotient and of the nearest integer add up.
proof fn lemma_error_adds_up(w: nat, s: nat, q: nat, r: nat)
    requires
        2 * (q * s - w * float::single_one()) <= s * pow2(132),
        2 * (w * float::single_one() - q * s) <= s * pow2(132),
        2 * (r * float::single_one()) <= 2 * q + float::single_one(),
        2 * (r * float::single_one()) > 2 * q - float::single_one(),
    ensures
        0x4_0000 * (r * s - w) <= 0x2_0001 * s,
        0x4_0000 * (w - r * s) <= 0x2_0001 * s,
{
    let one = float::single_one();
    let fine = pow2(132);
    lemma2_to64();
    lemma_pow2_adds(17, 132);
    lemma_pow2_pos(132);
    let above = r * s - w;
    assert(2 * (r * one) * s <= (2 * q + one) * s) by (nonlinear_arith)
        requires
            2 * (r * one) <= 2 * q + one,
    ;
    assert(2 * (r * one) * s >= (2 * q - one) * s) by (nonlinear_arith)
        requires
            2 * (r * one) > 2 * q - one,
    ;
    assert(2 * (above * one) <= s * fine + one * s) by (nonlinear_arith)
        requires
            2 * (r * one) * s <= (2 * q + one) * s,
            2 * (q * s - w * one) <= s * fine,
            above == r * s - w,
    ;
    assert(2 * (above * one) >= -(s * fine + one * s)) by (nonlinear_arith)
        requires
            2 * (r * one) * s >= (2 * q - one) * s,
            2 * (w * one - q * s) <= s * fine,
            above == r * s - w,
    ;
    assert(0x4_0000 * above <= 0x2_0001 * s) by (nonlinear_arith)
        requires
            2 * (above * one) <= s * fine + one * s,
            one == 0x2_0000 * fine,
            fine > 0,
    ;
    assert(0x4_0000 * above >= -(0x2_0001 * s)) by (nonlinear_arith)
        requires
            2 * (above * one) >= -(s * fine + one * s),
            one == 0x2_0000 * fine,
            fine > 0,
    ;
}

/// A weight that is at most a quarter of a scale above the largest level is rounded
/// to at most that level.
proof fn lemma_level_not_held(w: nat, s: nat, q: nat, top: nat)
    requires
        top == 7 || top == 127,
        s >= 1,
        4 * w <= (4 * top + 1) * s,
        2 * (q * s - w * float::single_one()) <= s * pow2(132),
    ensures
        q < float::single_overflow(),
        float::rounded(q) <= top,
{
    let one = float::single_one();
    let fine = pow2(132);
    lemma2_to64();
    lemma_pow2_adds(17, 132);
    lemma_pow2_adds(8, 149);
    lemma_pow2_pos(132);
    lemma_pow2_strictly_increases(157, 277);
    assert(4 * (q * s) <= ((4 * top + 1) * one + 2 * fine) * s) by (nonlinear_arith)
        requires
            4 * w <= (4 * top + 1) * s,
            2 * (q * s - w * one) <= s * fine,
            one > 0,
    ;
    assert(4 * q <= (4 * top + 1) * one + 2 * fine) by (nonlinear_arith)
        requires
            4 * (q * s) <= ((4 * top + 1) * one + 2 * fine) * s,
            s >= 1,
    ;
    let r = float::rounded(q);
    lemma_rounded_close(q);
    if top == 7 {
        assert((4 * top + 1) * one == 29 * one);
    } else {
        assert((4 * top + 1) * one == 509 * one);
    }
    assert(r <= top) by (nonlinear_arith)
        requires
            2 * (r * one) <= 2 * q + one,
            4 * q <= (4 * top + 1) * one + 2 * fine,
            one == 0x2_0000 * fine,
            fine > 0,
    ;
}

/// In an integer width, a level times the scale lies within half a scale of the
/// weight, but for a relative error of 2^-17 of that half. This leaves out infinite
/// weights and peaks, and peaks below 2^16 times the smallest positive number, where
/// the scale may have too few digits.
pub proof fn law_levels_stand_for_weights(weights: Seq<Binary32>, bits: u32, i: int)
    requires
        bits == 4 || bits == 8,
        0 <= i < weights.len(),
        weights[i].finite(),
        0x1_0000 <= float::peak(weights) < float::single_overflow(),
    ensures
        scale_of(weights, bits) is Finite,
        ({
            let weight = weights[i].units();
            let scale = scale_of(weights, bits)->Finite_units;
            let level = level_magnitude(levels_of(weights, bits)[i]);
            &&& 0x4_0000 * (level * scale - weight) <= 0x2_0001 * scale
            &&& 0x4_0000 * (weight - level * scale) <= 0x2_0001 * scale
        }),
{
    let p = float::peak(weights);
    let top = level_bound(weights, bits);
    let one = float::single_one();
    let limit = SINGLE_LIMIT as nat;
    let s = lemma_scale_close(weights, bits);
    let unit = rounding::spacing(limit, p, top);
    let w = weights[i].units();
    float::law_peak_bounds(weights);
    assert(float::reach(weights[i]@) == w);
    assert(w <= p);
    lemma_peak_below_next_quarter(p, s, top, unit);
    if top == 7 {
        assert((4 * top + 1) * s == 29 * s);
    } else {
        assert((4 * top + 1) * s == 509 * s);
    }
    let q = rounding::round_to(limit, w * one, s);
    lemma_quotient_close(w, s);
    lemma_rounded_close(q);
    lemma_error_adds_up(w, s, q, float::rounded(q));
    lemma_level_not_held(w, s, q, top);
}

/// How levels lie in packed bytes. In four bits a byte holds two levels, the first
/// in its low half; the high half past the last level is zero. In eight bits a byte
/// holds one level. In sixteen bits two bytes hold one, the low byte first. Levels
/// are held modulo the span of the width.
pub proof fn law_packed_bytes(levels: Seq<int>, i: int)
    requires
        0 <= i < levels.len(),
    ensures
        packed(levels, 4).len() == (levels.len() + 1) / 2,
        packed(levels, 8).len() == levels.len(),
        packed(levels, 16).len() == 2 * levels.len(),
        i % 2 == 0 ==> packed(levels, 4)[i / 2] as int % 16 == levels[i] % 16,
        i % 2 == 1 ==> packed(levels, 4)[i / 2] as int / 16 == levels[i] % 16,
        i % 2 == 0 && i == levels.len() - 1 ==> packed(levels, 4)[i / 2] as int / 16 == 0,
        packed(levels, 8)[i] as int == levels[i] % 256,
        packed(levels, 16)[2 * i] + 256 * packed(levels, 16)[2 * i + 1] == levels[i] % 65536,
{
    let pair = i / 2;
    let byte = packed(levels, 4)[pair];
    assert(byte == nibble(levels, 2 * pair) + 16 * nibble(levels, 2 * pair + 1));
    assert(packed(levels, 16)[2 * i] == levels[i] % 256);
    assert(packed(levels, 16)[2 * i + 1] == levels[i] / 256 % 256);
}

/// No levels take no bytes.
pub proof fn law_nothing_packs_to_nothing(bits: u32)
    ensures
        packed(seq![], bits) == Seq::<u8>::empty(),
{
}

/// What unpacking reads: a half byte, a byte or two bytes, as a signed number.
pub proof fn law_unpacked_fields(data: Seq<u8>, i: int)
    requires
        0 <= i,
    ensures
        -8 <= unpacked(data, 4, i) <= 7,
        -128 <= unpacked(data, 8, i) <= 127,
        -32768 <= unpacked(data, 16, i) <= 32767,
        i % 2 == 0 ==> unpacked(data, 4, i) % 16 == data[i / 2] as int % 16,
        i % 2 == 1 ==> unpacked(data, 4, i) % 16 == data[i / 2] as int / 16,
        unpacked(data, 8, i) % 256 == data[i] as int,
        unpacked(data, 16, i) % 65536 == data[2 * i] + 256 * data[2 * i + 1],
{
}

/// The scale of weights with a finite peak: the peak over seven for four bits and
/// over 127 for eight, rounded to single precision, and one for sixteen. It is one
/// for every width where no weight differs from zero.
pub proof fn law_scale_divides_peak(weights: Seq<Binary32>)
    requires
        float::peak(weights) < pow2(277),
    ensures
        float::peak(weights) > 0 ==> scale_of(weights, 4) == (Value::Finite {
            negative: false,
            units: rounding::round_to(0x100_0000, float::peak(weights), 7),
        }),
        float::peak(weights) > 0 ==> scale_of(weights, 8) == (Value::Finite {
            negative: false,
            units: rounding::round_to(0x100_0000, float::peak(weights), 127),
        }),
        scale_of(weights, 16) == (Value::Finite { negative: false, units: pow2(149) }),
        float::peak(weights) == 0 ==> scale_of(weights, 4) == scale_of(weights, 16),
        float::peak(weights) == 0 ==> scale_of(weights, 8) == scale_of(weights, 16),
{
    let p = float::peak(weights);
    if p > 0 {
        float::law_quotient_by_itself(p);
        lemma_scale_is(weights, 7);
        lemma_scale_is(weights, 127);
    }
}

/// A finite peak over a small integer, as a quotient of numbers and as a ratio.
proof fn lemma_scale_is(weights: Seq<Binary32>, top: nat)
    requires
        0 < float::peak(weights) < float::single_overflow(),
        0 < top,
    ensures
        float::quotient(
            float::single_value(false, float::peak(weights)),
            Value::Finite { negative: false, units: top * float::single_one() },
        ) == (Value::Finite {
            negative: false,
            units: rounding::round_to(SINGLE_LIMIT as nat, float::peak(weights), top),
        }),
{
    let p = float::peak(weights);
    let one = float::single_one();
    let limit = SINGLE_LIMIT as nat;
    lemma_pow2_pos(149);
    float::law_peak_bounds(weights);
    let k = choose|k: int|
        0 <= k < weights.len() && float::reach((#[trigger] weights[k])@) == float::peak(weights);
    let (count, exponent) = float::lemma_units_representable(weights[k]);
    rounding::law_rounding_ignores_common_factor(limit, p, top, one);
    assert(p <= p * top) by (nonlinear_arith)
        requires
            top >= 1,
    ;
    rounding::law_rounding_keeps_order(limit, p, p * top, top);
    rounding::law_rounding_ignores_common_factor(limit, p, 1, top);
    assert(1 * top == top);
    rounding::law_representable_unchanged(limit, count, exponent);
    assert(top * one > 0) by (nonlinear_arith)
        requires
            top > 0,
            one > 0,
    ;
}

/// An infinite weight makes the scale of an integer width infinite, and that of
/// sixteen bits no number.
pub proof fn law_scale_of_infinite_peak(weights: Seq<Binary32>)
    requires
        float::peak(weights) >= pow2(277),
    ensures
        scale_of(weights, 4) == (Value::Infinite { negative: false }),
        scale_of(weights, 8) == (Value::Infinite { negative: false }),
        scale_of(weights, 16) == Value::NotANumber,
{
    lemma_pow2_pos(277);
}

/// The level of a weight is its quotient by the scale, rounded, and held within
/// seven for four bits, within 127 for eight, and within the integer part of the
/// peak and 32 bits for sixteen.
pub proof fn law_levels_are_rounded_quotients(weights: Seq<Binary32>, i: int)
    requires
        0 <= i < weights.len(),
    ensures
        levels_of(weights, 4).len() == weights.len(),
        levels_of(weights, 8).len() == weights.len(),
        levels_of(weights, 16).len() == weights.len(),
        levels_of(weights, 4)[i] == float::rounded_within(
            float::quotient(weights[i]@, scale_of(weights, 4)),
            7,
            7,
        ),
        levels_of(weights, 8)[i] == float::rounded_within(
            float::quotient(weights[i]@, scale_of(weights, 8)),
            127,
            127,
        ),
        levels_of(weights, 16)[i] == float::rounded_within(
            float::quotient(weights[i]@, scale_of(weights, 16)),
            vstd::math::min(
                (float::peak(weights) / pow2(149)) as int,
                0x8000_0000,
            ) as nat,
            vstd::math::min(
                (float::peak(weights) / pow2(149)) as int,
                0x7FFF_FFFF,
            ) as nat,
        ),
{
}

/// The level of a bias is its quotient by the scale, rounded, and held within what
/// sixteen bits hold.
pub proof fn law_bias_levels_are_rounded_quotients(biases: Seq<Binary32>, scale: Value, i: int)
    requires
        0 <= i < biases.len(),
    ensures
        bias_levels(biases, scale).len() == biases.len(),
        bias_levels(biases, scale)[i] == float::rounded_within(
            float::quotient(biases[i]@, scale),
            32768,
            32767,
        ),
        -32768 <= bias_levels(biases, scale)[i] <= 32767,
{
}

/// A level is not negative for a positive weight and a positive scale, and not
/// positive for a negative weight.
pub proof fn law_levels_keep_the_sign(weight: Binary32, scale: Value, bound: nat)
    requires
        scale matches Value::Finite { negative, .. } ==> !negative,
        scale matches Value::Infinite { negative } ==> !negative,
    ensures
        weight.bits < 0x8000_0000 ==> level_of(weight@, scale, bound) >= 0,
        weight.bits < 0x8000_0000 ==> bias_level(weight@, scale) >= 0,
        weight.bits >= 0x8000_0000 ==> level_of(weight@, scale, bound) <= 0,
        weight.bits >= 0x8000_0000 ==> bias_level(weight@, scale) <= 0,
{
}

/// The quotient of a bias within 16 bits is off by little from the exact one.
proof fn lemma_bias_quotient_close(b: nat, s: nat)
    requires
        s >= 1,
        b < 0x8000 * s,
    ensures
        ({
            let q = rounding::round_to(SINGLE_LIMIT as nat, b * float::single_one(), s);
            &&& 2 * (q * s - b * float::single_one()) <= s * pow2(140)
            &&& 2 * (b * float::single_one() - q * s) <= s * pow2(140)
        }),
{
    let limit = SINGLE_LIMIT as nat;
    let one = float::single_one();
    let fine = pow2(140);
    lemma2_to64();
    lemma_pow2_adds(9, 140);
    lemma_pow2_pos(140);
    assert(b * one < limit * (s * fine)) by (nonlinear_arith)
        requires
            b < 0x8000 * s,
            one == 0x200 * fine,
            limit == 0x100_0000,
            fine > 0,
    ;
    let f = rounding::lemma_spacing_exponent(limit, b * one, s, 140);
    if f < 140 {
        lemma_pow2_strictly_increases(f, 140);
    }
    rounding::law_rounding_is_nearest(limit, b * one, s);
    assert(s * pow2(f) <= s * fine) by (nonlinear_arith)
        requires
            pow2(f) <= fine,
    ;
}

/// The errors of a bias's quotient and of the nearest integer add up.
proof fn lemma_bias_error_adds_up(b: nat, s: nat, q: nat, r: nat)
    requires
        2 * (q * s - b * float::single_one()) <= s * pow2(140),
        2 * (b * float::single_one() - q * s) <= s * pow2(140),
        2 * (r * float::single_one()) <= 2 * q + float::single_one(),
        2 * (r * float::single_one()) > 2 * q - float::single_one(),
    ensures
        0x400 * (r * s - b) <= 0x201 * s,
        0x400 * (b - r * s) <= 0x201 * s,
{
    let one = float::single_one();
    let fine = pow2(140);
    lemma2_to64();
    lemma_pow2_adds(9, 140);
    lemma_pow2_pos(140);
    let above = r * s - b;
    assert(2 * (r * one) * s <= (2 * q + one) * s) by (nonlinear_arith)
        requires
            2 * (r * one) <= 2 * q + one,
    ;
    assert(2 * (r * one) * s >= (2 * q - one) * s) by (nonlinear_arith)
        requires
            2 * (r * one) > 2 * q - one,
    ;
    assert(2 * (above * one) <= s * fine + one * s) by (nonlinear_arith)
        requires
            2 * (r * one) * s <= (2 * q + one) * s,
            2 * (q * s - b * one) <= s * fine,
            above == r * s - b,
    ;
    assert(2 * (above * one) >= -(s * fine + one * s)) by (nonlinear_arith)
        requires
            2 * (r * one) * s >= (2 * q - one) * s,
            2 * (b * one - q * s) <= s * fine,
            above == r * s - b,
    ;
    assert(0x400 * above <= 0x201 * s) by (nonlinear_arith)
        requires
            2 * (above * one) <= s * fine + one * s,
            one == 0x200 * fine,
            fine > 0,
    ;
    assert(0x400 * above >= -(0x201 * s)) by (nonlinear_arith)
        requires
            2 * (above * one) >= -(s * fine + one * s),
            one == 0x200 * fine,
            fine > 0,
    ;
}

/// A bias level times the scale lies within half a scale of the bias, but for a
/// relative error of 2^-9 of that half. This holds for any finite positive scale,
/// of finite biases of at most 32767 scales: their levels need not be held back.
pub proof fn law_bias_levels_stand_for_biases(bias: Binary32, scale: nat)
    requires
        bias.finite(),
        scale >= 1,
        bias.units() <= 32767 * scale,
    ensures
        ({
            let value = Value::Finite { negative: false, units: scale };
            let level = bias_level(bias@, value);
            let exact = if bias.bits < 0x8000_0000 {
                bias.units() as int
            } else {
                -bias.units()
            };
            &&& 0x400 * (level * scale - exact) <= 0x201 * scale
            &&& 0x400 * (exact - level * scale) <= 0x201 * scale
        }),
{
    let b = bias.units();
    let s = scale;
    let one = float::single_one();
    let limit = SINGLE_LIMIT as nat;
    let q = rounding::round_to(limit, b * one, s);
    let r = float::rounded(q);
    lemma_bias_quotient_close(b, s);
    lemma_rounded_close(q);
    lemma_bias_error_adds_up(b, s, q, r);
    assert(r <= 32767 && q < float::single_overflow()) by {
        let fine = pow2(140);
        lemma2_to64();
        lemma_pow2_adds(9, 140);
        lemma_pow2_pos(140);
        lemma_pow2_adds(15, 149);
        lemma_pow2_strictly_increases(164, 277);
        assert(b * one <= (32767 * one) * s) by (nonlinear_arith)
            requires
                b <= 32767 * s,
        ;
        assert(2 * q <= 65534 * one + fine) by (nonlinear_arith)
            requires
                2 * (q * s - b * one) <= s * fine,
                b * one <= (32767 * one) * s,
                s >= 1,
        ;
        assert(r <= 32767) by (nonlinear_arith)
            requires
                2 * (r * one) <= 2 * q + one,
                2 * q <= 65534 * one + fine,
                one == 0x200 * fine,
                fine > 0,
        ;
    }
    let value = Value::Finite { negative: false, units: s };
    let level = bias_level(bias@, value);
    if bias.bits < 0x8000_0000 {
        assert(level == r);
    } else {
        assert(level == -r);
        assert((-r) * s == -(r * s)) by (nonlinear_arith);
    }
}

} // verus!
