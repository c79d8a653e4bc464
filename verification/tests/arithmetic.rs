use neural_compiler::rounding::SINGLE_LIMIT;
use neural_compiler::{Binary32, Binary64};

struct Stream {
    state: u64,
}

impl Stream {
    fn next(&mut self) -> u64 {
        self.state = self.state.wrapping_mul(6364136223846793005).wrapping_add(1442695040888963407);
        (self.state >> 33) ^ (self.state << 31)
    }
}

fn single(value: f32) -> Binary32 {
    Binary32::from_bits(value.to_bits())
}

fn assert_divides(a: f32, b: f32) {
    let expected = a / b;
    let found = f32::from_bits(single(a).divide(single(b)).bits);
    if expected.is_nan() {
        assert!(found.is_nan(), "{:?} / {:?}", a, b);
    } else {
        assert_eq!(found.to_bits(), expected.to_bits(), "{:?} / {:?}", a, b);
    }
}

fn special_values() -> Vec<f32> {
    vec![
        0.0,
        -0.0,
        1.0,
        -1.0,
        7.0,
        127.0,
        0.1,
        2.5,
        -2.5,
        f32::MIN_POSITIVE,
        f32::from_bits(1),
        f32::from_bits(0x007F_FFFF),
        f32::MAX,
        f32::MIN,
        f32::INFINITY,
        f32::NEG_INFINITY,
        f32::NAN,
        1.0e-40,
        3.0e38,
        8388608.0,
        16777216.0,
        0.49999997,
    ]
}

#[test]
fn division_of_special_values() {
    for a in special_values() {
        for b in special_values() {
            assert_divides(a, b);
        }
    }
}

#[test]
fn division_of_many_patterns() {
    let mut stream = Stream { state: 7 };
    for _ in 0..100_000 {
        let a = f32::from_bits(stream.next() as u32);
        let b = f32::from_bits(stream.next() as u32);
        assert_divides(a, b);
    }
}

#[test]
fn division_of_close_magnitudes() {
    let mut stream = Stream { state: 11 };
    for _ in 0..100_000 {
        let a = f32::from_bits(0x3F00_0000 + (stream.next() as u32) % 0x0200_0000);
        let b = f32::from_bits(0x3F00_0000 + (stream.next() as u32) % 0x0200_0000);
        assert_divides(a, b);
        assert_divides(-a, b);
    }
}

#[test]
fn division_into_the_subnormal_range() {
    let mut stream = Stream { state: 13 };
    for _ in 0..50_000 {
        let a = f32::from_bits((stream.next() as u32) % 0x0180_0000);
        let b = f32::from_bits(0x3F80_0000 + (stream.next() as u32) % 0x0400_0000);
        assert_divides(a, b);
    }
}

#[test]
fn rounding_within_bounds() {
    let mut stream = Stream { state: 17 };
    let mut values = special_values();
    for _ in 0..50_000 {
        values.push(f32::from_bits(stream.next() as u32));
        values.push((stream.next() % 4_000_000) as f32 / 8.0 - 200_000.0);
    }
    for value in values {
        let expected = value.round().clamp(-32768.0, 32767.0) as i16;
        assert_eq!(single(value).round_within(32768, 32767), expected as i64, "{:?}", value);
        let expected = value.round().clamp(-7.0, 7.0) as i32;
        assert_eq!(single(value).round_within(7, 7), expected as i64, "{:?}", value);
    }
}

#[test]
fn halves_round_away_from_zero() {
    assert_eq!(single(2.5).round_within(127, 127), 3);
    assert_eq!(single(-2.5).round_within(127, 127), -3);
    assert_eq!(single(0.49999997).round_within(127, 127), 0);
    assert_eq!(single(f32::NAN).round_within(127, 127), 0);
    assert_eq!(single(f32::NEG_INFINITY).round_within(5, 9), -5);
    assert_eq!(single(f32::INFINITY).round_within(5, 9), 9);
}

#[test]
fn ratios_of_counts() {
    let mut stream = Stream { state: 19 };
    for _ in 0..50_000 {
        let a = stream.next() >> (stream.next() % 64);
        let b = (stream.next() >> (stream.next() % 64)).max(1);
        let expected = a as f64 / b as f64;
        assert_eq!(Binary64::ratio(a, b).bits, expected.to_bits(), "{} / {}", a, b);
    }
    assert_eq!(Binary64::ratio(u64::MAX, 1).bits, (u64::MAX as f64).to_bits());
    assert_eq!(Binary64::ratio(0, 3).bits, 0);
    assert_eq!(Binary64::ratio(9, 2).bits, 4.5f64.to_bits());
}

#[test]
fn named_numbers() {
    assert_eq!(Binary32::one().bits, 1.0f32.to_bits());
    assert_eq!(Binary32::seven().bits, 7.0f32.to_bits());
    assert_eq!(Binary32::one_hundred_twenty_seven().bits, 127.0f32.to_bits());
    assert_eq!(SINGLE_LIMIT, 1 << 24);
}
