//! The fixed-point numeric kernel: integer square roots, floor division
//! and exact interpolation.

use curve_plot::num::{div_floor_i128, isqrt, mix_i64, InverseMix, Mix, Weight};

#[test]
fn isqrt_exact_and_floored() {
    assert_eq!(isqrt(0), 0);
    assert_eq!(isqrt(1), 1);
    assert_eq!(isqrt(15), 3);
    assert_eq!(isqrt(16), 4);
    assert_eq!(isqrt(12500), 111);
    assert_eq!(isqrt(u64::MAX), 0xffff_ffff);
}

#[test]
fn div_floor_rounds_towards_negative_infinity() {
    assert_eq!(div_floor_i128(7, 2), 3);
    assert_eq!(div_floor_i128(-7, 2), -4);
    assert_eq!(div_floor_i128(-8, 2), -4);
    assert_eq!(div_floor_i128(0, 5), 0);
}

#[test]
fn mix_interpolates_exactly() {
    let half = Weight { num: 1, den: 2 };
    assert_eq!(mix_i64(0, 10, half), 5);
    assert_eq!(mix_i64(10, 0, half), 5);
    assert_eq!(mix_i64(-10, 10, Weight { num: 3, den: 4 }), 5);
    assert_eq!(mix_i64(7, 7, Weight { num: 1, den: 3 }), 7);
    // Endpoints are hit exactly.
    assert_eq!(mix_i64(3, 9, Weight { num: 0, den: 5 }), 3);
    assert_eq!(mix_i64(3, 9, Weight { num: 5, den: 5 }), 9);
}

#[test]
fn inverse_mix_recovers_the_weight() {
    let w = 500i64.inverse_mix(0, 1000);
    assert_eq!(w, Weight { num: 500, den: 1000 });
    // A reversed interval folds back to the same fraction.
    let w2 = 500i64.inverse_mix(1000, 0);
    assert_eq!(w2, Weight { num: 500, den: 1000 });
    // Round trip through mix.
    let w3 = 250i64.inverse_mix(0, 1000);
    assert_eq!(0i64.mix(1000, w3), 250);
}
