use turbovec::binary32::Binary32;
use turbovec::quantize::{max_abs, quantize, quantize_row, query_gain, score_scale};

fn b(x: f32) -> Binary32 {
    Binary32::from_bits(x.to_bits())
}

fn f(x: Binary32) -> f32 {
    f32::from_bits(x.to_bits())
}

fn same(got: Binary32, want: f32) -> bool {
    if want.is_nan() {
        got.is_nan()
    } else {
        got.to_bits() == want.to_bits()
    }
}

fn next(s: &mut u64) -> u32 {
    *s = s
        .wrapping_mul(6_364_136_223_846_793_005)
        .wrapping_add(1_442_695_040_888_963_407);
    (*s >> 32) as u32
}

const SPECIAL: [f32; 22] = [
    0.0,
    -0.0,
    1.0,
    -1.0,
    0.5,
    127.0,
    -127.0,
    1e-12,
    3.0,
    1.0e-45,
    -1.0e-45,
    1.1754942e-38,
    1.1754944e-38,
    3.4028235e38,
    -3.4028235e38,
    1.7014118e38,
    16777216.0,
    16777217.0,
    f32::INFINITY,
    f32::NEG_INFINITY,
    f32::NAN,
    0.33333334,
];

fn check(x: f32, y: f32) {
    assert!(same(b(x).times(b(y)), x * y), "{x:e} * {y:e}");
    assert!(same(b(x).over(b(y)), x / y), "{x:e} / {y:e}");
    assert!(same(b(x).plus(b(y)), x + y), "{x:e} + {y:e}");
    assert_eq!(b(x).is_less(b(y)), x < y, "{x:e} < {y:e}");
}

#[test]
fn arithmetic_on_special_values() {
    for x in SPECIAL {
        for y in SPECIAL {
            check(x, y);
        }
    }
}

#[test]
fn arithmetic_on_all_kinds_of_bit_patterns() {
    let mut s: u64 = 17;
    for _ in 0..200_000 {
        let x = f32::from_bits(next(&mut s));
        let y = f32::from_bits(next(&mut s));
        check(x, y);
    }
}

#[test]
fn arithmetic_on_numbers_of_like_size() {
    let mut s: u64 = 23;
    for _ in 0..200_000 {
        // Exponents within 48 of each other, so that sums round and cancel.
        let x = f32::from_bits((next(&mut s) & 0x807f_ffff) | (100 << 23));
        let e = 76 + next(&mut s) % 49;
        let y = f32::from_bits((next(&mut s) & 0x807f_ffff) | (e << 23));
        check(x, y);
        check(y, x);
    }
}

#[test]
fn arithmetic_on_subnormal_results() {
    let mut s: u64 = 29;
    for _ in 0..100_000 {
        let x = f32::from_bits((next(&mut s) & 0x807f_ffff) | ((next(&mut s) % 70) << 23));
        let y = f32::from_bits((next(&mut s) & 0x807f_ffff) | ((next(&mut s) % 130) << 23));
        check(x, y);
    }
}

#[test]
fn integers_round_to_nearest_even() {
    let mut s: u64 = 31;
    for i in [0, 1, -1, 16_777_217, 16_777_219, -16_777_217, i32::MAX, i32::MIN] {
        assert_eq!(Binary32::from_i32(i).to_bits(), (i as f32).to_bits());
    }
    for _ in 0..100_000 {
        let i = next(&mut s) as i32;
        assert_eq!(Binary32::from_i32(i).to_bits(), (i as f32).to_bits());
    }
    assert_eq!(f(Binary32::from_i32(16_777_217)), 16_777_216.0);
}

#[test]
fn absolute_value_clears_the_sign() {
    assert_eq!(f(b(-2.5).abs()), 2.5);
    assert_eq!(b(-0.0).abs().to_bits(), 0);
    assert!(b(f32::NAN).abs().is_nan());
}

fn reference_level(x: f32) -> i8 {
    x.round().clamp(-127.0, 127.0) as i8
}

#[test]
fn quantize_rounds_halves_away_and_clamps() {
    assert_eq!(quantize(b(0.5)), 1);
    assert_eq!(quantize(b(-0.5)), -1);
    assert_eq!(quantize(b(2.5)), 3);
    assert_eq!(quantize(b(0.49999997)), 0);
    assert_eq!(quantize(b(126.5)), 127);
    assert_eq!(quantize(b(1e30)), 127);
    assert_eq!(quantize(b(-128.0)), -127);
    assert_eq!(quantize(b(f32::INFINITY)), 127);
    assert_eq!(quantize(b(f32::NEG_INFINITY)), -127);
    assert_eq!(quantize(b(f32::NAN)), 0);
    let mut s: u64 = 37;
    for _ in 0..100_000 {
        let any = f32::from_bits(next(&mut s));
        assert_eq!(quantize(b(any)), reference_level(any), "{any:e}");
        let near = (next(&mut s) as i32 as f32) / 8_388_608.0;
        assert_eq!(quantize(b(near)), reference_level(near), "{near:e}");
    }
}

#[test]
fn gain_takes_the_largest_coordinate_to_the_top_level() {
    let row = [b(0.25), b(-0.5), b(f32::NAN), b(0.125)];
    assert_eq!(f(max_abs(&row)), 0.5);
    assert_eq!(f(query_gain(&row)), 254.0);
    assert_eq!(quantize_row(&row), vec![64, -127, 0, 32]);
    assert_eq!(f(score_scale(query_gain(&row))), 1.0 / (254.0f32 * 127.0));
}

#[test]
fn gain_of_a_negligible_row_is_zero() {
    let row = [b(1e-12), b(-1e-13), b(0.0)];
    assert_eq!(query_gain(&row).to_bits(), 0);
    assert_eq!(score_scale(query_gain(&row)).to_bits(), 0);
    assert_eq!(quantize_row(&row), vec![0, 0, 0]);
    assert_eq!(max_abs(&[]).to_bits(), 0);
    let above = [b(1.0000001e-12), b(0.0)];
    assert_eq!(f(query_gain(&above)), 127.0 / 1.0000001e-12f32);
}

#[test]
fn levels_are_symmetric_and_never_below_minus_127() {
    let mut s: u64 = 41;
    for _ in 0..10_000 {
        let x = f32::from_bits(next(&mut s));
        let level = quantize(b(x));
        assert!((-127..=127).contains(&level));
        assert_eq!(quantize(b(-x)), -level);
    }
}

#[test]
fn levels_are_within_one_half() {
    let mut s: u64 = 43;
    for _ in 0..10_000 {
        let x = (next(&mut s) as i32 as f32) / 2_147_483_648.0 * 127.0;
        assert!((quantize(b(x)) as f64 - x as f64).abs() <= 0.5);
    }
}

#[test]
fn adding_zero_changes_nothing() {
    for x in [1.5f32, -3.25, 1e-40, f32::INFINITY, 3.4028235e38] {
        assert_eq!(b(x).plus(b(0.0)).to_bits(), x.to_bits());
    }
    assert_eq!(b(-0.0).plus(b(0.0)).to_bits(), 0);
}
