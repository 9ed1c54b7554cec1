// Tests of the fixed-point helpers: quotients round toward zero on
// every sign combination, as machine division does.

use raycaster3d::fixed::{fp_mul, trunc_div, FP_ONE};

#[test]
fn trunc_div_rounds_toward_zero() {
    assert_eq!(trunc_div(7, 2), 3);
    assert_eq!(trunc_div(-7, 2), -3);
    assert_eq!(trunc_div(7, -2), -3);
    assert_eq!(trunc_div(-7, -2), 3);
    assert_eq!(trunc_div(0, -5), 0);
    assert_eq!(trunc_div(6, 3), 2);
}

#[test]
fn fp_mul_scales_and_truncates() {
    assert_eq!(fp_mul(FP_ONE, 12345), 12345);
    assert_eq!(fp_mul(-FP_ONE, 5), -5);
    assert_eq!(fp_mul(32768, 3), 1);
    assert_eq!(fp_mul(-32768, 3), -1);
    assert_eq!(fp_mul(32768, 10 * FP_ONE), 5 * FP_ONE);
    assert_eq!(fp_mul(0, 999), 0);
}
