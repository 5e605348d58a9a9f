use rays::fixed::{
    fx_add, fx_div, fx_from_usize, fx_max, fx_min, fx_mul, fx_sincos_turn, fx_sqrt, fx_sub,
    FX_EPS, FX_HALF, FX_ONE, FX_QUARTER, FX_TWO,
};

#[test]
fn mul_matches_plain_products() {
    // 1.0 * 1.0 == 1.0
    assert_eq!(fx_mul(FX_ONE, FX_ONE), FX_ONE);
    // 0.5 * 0.5 == 0.25
    assert_eq!(fx_mul(FX_HALF, FX_HALF), FX_ONE / 4);
    // 2.0 * -0.5 == -1.0
    assert_eq!(fx_mul(FX_TWO, -FX_HALF), -FX_ONE);
    // multiplication by zero vanishes
    assert_eq!(fx_mul(i64::MAX, 0), 0);
    // rounding is toward zero for both signs
    assert_eq!(fx_mul(3, 3), 0);
    assert_eq!(fx_mul(-3, 3), 0);
}

#[test]
fn mul_saturates_at_the_rails() {
    assert_eq!(fx_mul(i64::MAX, i64::MAX), i64::MAX);
    assert_eq!(fx_mul(i64::MAX, i64::MIN), i64::MIN);
    assert_eq!(fx_mul(i64::MIN, i64::MIN), i64::MAX);
}

#[test]
fn add_sub_saturate() {
    assert_eq!(fx_add(i64::MAX, FX_ONE), i64::MAX);
    assert_eq!(fx_sub(i64::MIN, FX_ONE), i64::MIN);
    assert_eq!(fx_add(FX_ONE, FX_ONE), FX_TWO);
    assert_eq!(fx_sub(FX_ONE, FX_TWO), -FX_ONE);
}

#[test]
fn div_basics_and_zero_sentinels() {
    assert_eq!(fx_div(FX_ONE, FX_TWO), FX_HALF);
    assert_eq!(fx_div(-FX_ONE, FX_TWO), -FX_HALF);
    assert_eq!(fx_div(FX_ONE, FX_ONE), FX_ONE);
    // a zero divisor acts like a signed infinity
    assert_eq!(fx_div(FX_ONE, 0), i64::MAX);
    assert_eq!(fx_div(-FX_ONE, 0), i64::MIN);
    assert_eq!(fx_div(0, 0), 0);
}

#[test]
fn sqrt_exact_on_perfect_squares() {
    assert_eq!(fx_sqrt(FX_ONE), FX_ONE);
    assert_eq!(fx_sqrt(FX_ONE / 4), FX_HALF);
    assert_eq!(fx_sqrt(4 * FX_ONE), FX_TWO);
    assert_eq!(fx_sqrt(0), 0);
    assert_eq!(fx_sqrt(-FX_ONE), 0);
    // sqrt(2) to within one raw step
    let r = fx_sqrt(FX_TWO);
    let expected = 6074000999i64; // floor(sqrt(2) * 2^32)
    assert!((r - expected).abs() <= 1, "sqrt(2) raw {r}");
}

#[test]
fn min_max_and_conversions() {
    assert_eq!(fx_min(3, -4), -4);
    assert_eq!(fx_max(3, -4), 3);
    assert_eq!(fx_from_usize(3), 3 * FX_ONE);
    assert_eq!(fx_from_usize(0), 0);
    assert!(FX_EPS > 0 && FX_EPS < FX_ONE / 1000);
}

#[test]
fn sincos_stays_on_the_unit_circle() {
    // quarter points of the turn
    let (c0, s0) = fx_sincos_turn(0);
    assert_eq!(s0, 0);
    assert!((c0 - FX_ONE).abs() <= 2);
    let (c1, s1) = fx_sincos_turn(FX_QUARTER);
    assert!(c1.abs() <= 2);
    assert!((s1 - FX_ONE).abs() <= 2);
    let (c2, s2) = fx_sincos_turn(FX_HALF);
    assert!((c2 + FX_ONE).abs() <= 2);
    assert!(s2.abs() <= 2);
    // a sweep never leaves the unit circle and tracks the real functions
    for k in 0..64u32 {
        let t = (k as i64) * (FX_ONE / 64);
        let (c, s) = fx_sincos_turn(t);
        let cc = c as i128 * c as i128;
        let ss = s as i128 * s as i128;
        let one2 = FX_ONE as i128 * FX_ONE as i128;
        assert!(cc + ss <= one2, "outside circle at step {k}");
        let angle = (k as f64) / 64.0 * std::f64::consts::TAU;
        let cf = c as f64 / FX_ONE as f64;
        let sf = s as f64 / FX_ONE as f64;
        assert!((cf - angle.cos()).abs() < 0.01, "cos off at step {k}: {cf}");
        assert!((sf - angle.sin()).abs() < 0.01, "sin off at step {k}: {sf}");
    }
}
