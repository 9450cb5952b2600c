use raycaster::fixed::{fp_div, fp_from_milli, fp_fract, fp_fract_any, fp_mul, FP_ONE};
use raycaster::trig::{atan2_fp, cos_fp, isqrt, sin_fp, FP_HALF_PI, FP_PI, FP_TAU};

#[test]
fn fp_one_is_two_to_sixteen() {
    assert_eq!(FP_ONE, 65536);
}

#[test]
fn fp_mul_truncates_toward_zero() {
    assert_eq!(fp_mul(65536, 65536), 65536);
    assert_eq!(fp_mul(32768, 32768), 16384);
    assert_eq!(fp_mul(-32768, 32768), -16384);
    assert_eq!(fp_mul(3, 3), 0);
    assert_eq!(fp_mul(-3, 3), 0);
}

#[test]
fn fp_div_truncates_toward_zero() {
    assert_eq!(fp_div(65536, 65536), 65536);
    assert_eq!(fp_div(32768, 65536), 32768);
    assert_eq!(fp_div(65536, -65536), -65536);
    assert_eq!(fp_div(-65536, -65536), 65536);
}

#[test]
fn fp_from_milli_builds_tile_units() {
    assert_eq!(fp_from_milli(1000), 65536);
    assert_eq!(fp_from_milli(1500), 98304);
    assert_eq!(fp_from_milli(1100), 72089);
    assert_eq!(fp_from_milli(0), 0);
}

#[test]
fn fp_fract_wraps_to_cell() {
    assert_eq!(fp_fract(98304), 32768);
    assert_eq!(fp_fract(65536), 0);
    assert_eq!(fp_fract_any(-1), 65535);
    assert_eq!(fp_fract_any(-65536), 0);
}

#[test]
fn sine_exact_at_quarter_turns() {
    assert_eq!(sin_fp(0), 0);
    assert_eq!(sin_fp(FP_HALF_PI), 65536);
    assert_eq!(sin_fp(FP_PI), 0);
    assert_eq!(sin_fp(FP_PI + FP_HALF_PI), -65536);
    assert_eq!(sin_fp(FP_TAU), 0);
}

#[test]
fn cosine_exact_at_quarter_turns() {
    assert_eq!(cos_fp(0), 65536);
    assert_eq!(cos_fp(FP_HALF_PI), 0);
    assert_eq!(cos_fp(FP_PI), -65536);
    assert_eq!(cos_fp(FP_TAU), 65536);
}

#[test]
fn sine_close_to_reference() {
    // sample across two turns and compare against the f64 library sine
    let mut a: i64 = -FP_TAU;
    while a <= FP_TAU {
        let expect = ((a as f64) / 65536.0).sin() * 65536.0;
        let got = sin_fp(a) as f64;
        assert!(
            (got - expect).abs() < 120.0,
            "sin at {} was {} expected {}",
            a,
            got,
            expect
        );
        a += 1234;
    }
}

#[test]
fn cosine_close_to_reference() {
    let mut a: i64 = -FP_TAU;
    while a <= FP_TAU {
        let expect = ((a as f64) / 65536.0).cos() * 65536.0;
        let got = cos_fp(a) as f64;
        assert!(
            (got - expect).abs() < 120.0,
            "cos at {} was {} expected {}",
            a,
            got,
            expect
        );
        a += 1234;
    }
}

#[test]
fn atan2_cardinal_directions() {
    assert_eq!(atan2_fp(0, 1000), 0);
    assert_eq!(atan2_fp(1000, 0), FP_HALF_PI);
    assert_eq!(atan2_fp(-1000, 0), -FP_HALF_PI);
    assert_eq!(atan2_fp(0, -1000), FP_PI);
}

#[test]
fn atan2_close_to_reference() {
    let pts: [(i64, i64); 8] = [
        (3, 4),
        (-3, 4),
        (3, -4),
        (-3, -4),
        (100, 7),
        (7, 100),
        (-100, 7),
        (1, 1),
    ];
    for (y, x) in pts.iter() {
        let expect = (*y as f64).atan2(*x as f64) * 65536.0;
        let got = atan2_fp(*y, *x) as f64;
        assert!(
            (got - expect).abs() < 400.0,
            "atan2({}, {}) was {} expected {}",
            y,
            x,
            got,
            expect
        );
    }
}

#[test]
fn isqrt_exact() {
    assert_eq!(isqrt(0), 0);
    assert_eq!(isqrt(1), 1);
    assert_eq!(isqrt(3), 1);
    assert_eq!(isqrt(4), 2);
    assert_eq!(isqrt(999999), 999);
    assert_eq!(isqrt(1000000), 1000);
    assert_eq!(isqrt(u64::MAX), 0xFFFF_FFFF);
}
