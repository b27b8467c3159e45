//! Single-precision arithmetic on bit patterns against the machine's own.
use kd_index::single::{exceeds_quarter, exceeds_seven_tenths};
use kd_index::Single;

fn single(x: f32) -> Single {
    Single { bits: x.to_bits() }
}

fn number(s: Single) -> f32 {
    f32::from_bits(s.bits)
}

/// A small generator of well spread patterns.
struct Patterns {
    state: u64,
}

impl Patterns {
    fn next(&mut self) -> u64 {
        self.state = self.state.wrapping_mul(6364136223846793005).wrapping_add(1442695040888963407);
        let x = self.state ^ (self.state >> 29);
        x.wrapping_mul(0x9e37_79b9_7f4a_7c15) >> 8 ^ x
    }
}

fn check_pair(a: f32, b: f32) {
    let (x, y) = (single(a), single(b));
    assert_eq!(x.lt(y), a < b, "{} < {}", a, b);
    assert_eq!(x.le(y), a <= b, "{} <= {}", a, b);
    let gap = number(x.abs_diff(y));
    let expected = (a - b).abs();
    if expected.is_nan() {
        assert!(gap.is_nan(), "|{} - {}|", a, b);
    } else {
        assert_eq!(gap.to_bits(), expected.to_bits(), "|{} - {}|", a, b);
    }
}

#[test]
fn order_and_difference_of_special_numbers() {
    let special = [
        0.0,
        -0.0,
        1.0,
        -1.0,
        0.1,
        0.7,
        f32::MIN_POSITIVE,
        -f32::MIN_POSITIVE,
        f32::from_bits(1),
        f32::from_bits(0x007f_ffff),
        f32::from_bits(0x0080_0001),
        f32::MAX,
        f32::MIN,
        f32::INFINITY,
        f32::NEG_INFINITY,
        f32::NAN,
        -f32::NAN,
        16777216.0,
        16777215.0,
        8388608.5,
    ];
    for a in special {
        for b in special {
            check_pair(a, b);
        }
    }
}

#[test]
fn order_and_difference_of_many_patterns() {
    let mut patterns = Patterns { state: 7 };
    for _ in 0..200_000 {
        let bits = patterns.next();
        let a = f32::from_bits(bits as u32);
        let b = f32::from_bits(patterns.next() as u32);
        check_pair(a, b);
        // Exponents that lie close together, where the rounding is decided.
        let near = (bits as u32).wrapping_add((patterns.next() as u32) & 0x0fff_ffff);
        check_pair(a, f32::from_bits(near));
        check_pair(a, -f32::from_bits(near));
    }
}

#[test]
fn difference_is_exact_where_it_fits() {
    assert_eq!(number(single(5.0).abs_diff(single(2.0))), 3.0);
    assert_eq!(number(single(-1.5).abs_diff(single(2.25))), 3.75);
    assert_eq!(number(single(0.1).abs_diff(single(0.1))), 0.0);
}

#[test]
fn difference_overflows_to_infinity() {
    assert_eq!(number(single(f32::MAX).abs_diff(single(f32::MIN))), f32::INFINITY);
    assert_eq!(single(f32::INFINITY).abs_diff(single(1.0)).bits, f32::INFINITY.to_bits());
    assert!(single(f32::INFINITY).abs_diff(single(f32::INFINITY)).is_nan());
}

#[test]
fn a_nan_is_neither_below_nor_above() {
    let nan = single(f32::NAN);
    assert!(nan.is_nan());
    assert!(!single(1.0).is_nan());
    assert!(!nan.lt(single(1.0)));
    assert!(!single(1.0).lt(nan));
    assert!(!nan.le(nan));
}

#[test]
fn zeros_compare_equal() {
    assert!(single(-0.0).le(single(0.0)));
    assert!(single(0.0).le(single(-0.0)));
    assert!(!single(-0.0).lt(single(0.0)));
}

#[test]
fn going_further_does_not_shrink_the_difference() {
    let q = single(0.3);
    let mut last = single(0.0);
    for i in 0..1000 {
        let gap = q.abs_diff(single(0.3 + i as f32 * 0.37));
        assert!(last.le(gap));
        last = gap;
    }
}

fn native_seven_tenths(part: usize, whole: usize) -> bool {
    part as f32 > 0.7f32 * whole as f32
}

fn native_quarter(part: usize, whole: usize) -> bool {
    part as f32 / whole as f32 > 0.25f32
}

#[test]
fn shares_of_small_counts() {
    for whole in 0..400usize {
        for part in 0..=whole {
            assert_eq!(exceeds_seven_tenths(part, whole), native_seven_tenths(part, whole));
            if whole > 0 {
                assert_eq!(exceeds_quarter(part, whole), native_quarter(part, whole));
            }
        }
    }
    assert!(!exceeds_seven_tenths(7, 10));
    assert!(exceeds_seven_tenths(8, 10));
    assert!(!exceeds_seven_tenths(2, 3));
    assert!(!exceeds_quarter(1, 4));
    assert!(exceeds_quarter(2, 7));
}

#[test]
fn shares_near_the_thresholds_of_large_counts() {
    let mut patterns = Patterns { state: 11 };
    for round in 0..60_000u64 {
        let whole = ((patterns.next() | 1) >> (round % 64)) as usize;
        let seven = (whole as u128 * 7 / 10) as usize;
        for part in seven.saturating_sub(3)..=seven.saturating_add(3) {
            assert_eq!(exceeds_seven_tenths(part, whole), native_seven_tenths(part, whole));
        }
        // The next single-precision number, up and down.
        let nearby = [seven / 257 * 256, seven + (seven >> 24), seven - (seven >> 24)];
        for part in nearby {
            assert_eq!(exceeds_seven_tenths(part, whole), native_seven_tenths(part, whole));
        }
        if whole > 0 {
            let quarter = whole / 4;
            for part in quarter.saturating_sub(2)..=quarter + 2 {
                assert_eq!(exceeds_quarter(part, whole), native_quarter(part, whole));
            }
            for shift in [24, 25, 26] {
                let part = quarter + (quarter >> shift);
                assert_eq!(exceeds_quarter(part, whole), native_quarter(part, whole));
            }
            assert_eq!(exceeds_quarter(1, whole), native_quarter(1, whole));
            assert_eq!(exceeds_quarter(usize::MAX, whole), native_quarter(usize::MAX, whole));
        }
    }
}

#[test]
fn rounding_decides_between_large_counts() {
    // Both counts round to the same number, so neither exceeds its share.
    let whole = 1usize << 40;
    let part = whole / 4 + 1;
    assert!(part * 4 > whole);
    assert!(!exceeds_quarter(part, whole));
    assert_eq!(exceeds_quarter(part, whole), native_quarter(part, whole));
}

#[test]
fn shares_are_those_of_whole_numbers() {
    for whole in (1..5_000).chain(999_000..1_000_001).chain(2_097_000..2_097_153usize) {
        let seven = whole * 7 / 10;
        for part in seven.saturating_sub(2)..seven + 3 {
            assert_eq!(exceeds_seven_tenths(part, whole), 10 * part > 7 * whole);
        }
    }
    for whole in (1..5_000).chain(16_777_000..16_777_216usize) {
        let quarter = whole / 4;
        for part in quarter.saturating_sub(2)..quarter + 3 {
            assert_eq!(exceeds_quarter(part, whole), 4 * part > whole);
        }
        assert!(exceeds_quarter(usize::MAX, whole));
    }
}
