//! The fixed-point kernels.
use tamc::fixp::{exp_neg_q31, exp_q16, floor_div_i64, isqrt_u64, ln_q16, mul_q16, FIX_ONE};

#[test]
fn floor_division_rounds_toward_minus_infinity() {
    assert_eq!(floor_div_i64(7, 2), 3);
    assert_eq!(floor_div_i64(-7, 2), -4);
    assert_eq!(floor_div_i64(-8, 2), -4);
    assert_eq!(floor_div_i64(0, 5), 0);
}

#[test]
fn fixed_multiply_is_exact_on_integers() {
    // 3.0 * 2.5 = 7.5 in Q47.16.
    assert_eq!(mul_q16(3 * FIX_ONE, 2 * FIX_ONE + FIX_ONE / 2), 7 * FIX_ONE + FIX_ONE / 2);
    assert_eq!(mul_q16(-FIX_ONE, FIX_ONE), -FIX_ONE);
}

#[test]
fn integer_square_root_brackets_its_argument() {
    for x in [0u64, 1, 2, 3, 4, 15, 16, 17, 1 << 40, u64::MAX] {
        let r = isqrt_u64(x);
        assert!(r * r <= x);
        assert!((r as u128 + 1) * (r as u128 + 1) > x as u128);
    }
    assert_eq!(isqrt_u64(144), 12);
}

#[test]
fn exponential_and_logarithm_are_exact_at_one() {
    assert_eq!(exp_q16(0), FIX_ONE);
    assert_eq!(ln_q16(FIX_ONE), 0);
    assert_eq!(exp_neg_q31(0), 0x8000_0000);
}

#[test]
fn exponential_tracks_the_real_function() {
    // e^1 = 2.71828...: within a tenth of a percent in Q47.16.
    let e1 = exp_q16(FIX_ONE);
    let expect = (2.718281828f64 * 65536.0) as i64;
    assert!((e1 - expect).abs() < expect / 1000 + 2);
    // ln 2 = 0.69314...
    let l2 = ln_q16(2 * FIX_ONE);
    let expect = (0.693147f64 * 65536.0) as i64;
    assert!((l2 - expect).abs() < 8);
    // exp(-1) in Q31.
    let p = exp_neg_q31(FIX_ONE) as f64 / (1u64 << 31) as f64;
    assert!((p - (-1.0f64).exp()).abs() < 1e-4);
}
