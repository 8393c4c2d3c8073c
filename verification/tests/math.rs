use interpolation::math::{cos_quarter, exp2, isqrt, sin_quarter};
use interpolation::fixed::div_round;
use interpolation::Fixed;

const UNIT: i32 = 1 << 24;

#[test]
fn div_round_rounds_to_nearest_ties_away_from_zero() {
    assert_eq!(div_round(7, 2), 4);
    assert_eq!(div_round(-7, 2), -4);
    assert_eq!(div_round(5, 2), 3);
    assert_eq!(div_round(-5, 2), -3);
    assert_eq!(div_round(4, 3), 1);
    assert_eq!(div_round(5, 3), 2);
    assert_eq!(div_round(-4, 3), -1);
    assert_eq!(div_round(-5, 3), -2);
    assert_eq!(div_round(0, 9), 0);
    assert_eq!(div_round(1, 3), 0);
    assert_eq!(div_round(-1, 3), 0);
    assert_eq!(div_round(12, 4), 3);
    assert_eq!(div_round(-12, 4), -3);
    assert_eq!(div_round(1 << 125, 1), 1 << 125);
    assert_eq!(div_round(-(1 << 125), 1 << 125), -1);
}

#[test]
fn from_ratio_rounds_and_rejects() {
    assert_eq!(Fixed::from_ratio(1, 2), Some(Fixed { raw: 8388608 }));
    assert_eq!(Fixed::from_ratio(-1, 4), Some(Fixed { raw: -4194304 }));
    assert_eq!(Fixed::from_ratio(1, 10), Some(Fixed { raw: 1677722 }));
    assert_eq!(Fixed::from_ratio(3, 10), Some(Fixed { raw: 5033165 }));
    assert_eq!(Fixed::from_ratio(1, 3), Some(Fixed { raw: 5592405 }));
    assert_eq!(Fixed::from_ratio(2, 3), Some(Fixed { raw: 11184811 }));
    assert_eq!(Fixed::from_ratio(-2, 3), Some(Fixed { raw: -11184811 }));
    assert_eq!(Fixed::from_ratio(0, 7), Some(Fixed { raw: 0 }));
    assert_eq!(Fixed::from_ratio(1, 0), None);
    assert_eq!(Fixed::from_ratio(0, 0), None);
    assert_eq!(Fixed::from_ratio(128, 1), None);
    assert_eq!(Fixed::from_ratio(127, 1), Some(Fixed { raw: 127 * UNIT }));
    assert_eq!(Fixed::from_ratio(-128, 1), Some(Fixed { raw: i32::MIN }));
    assert_eq!(Fixed::from_ratio(-129, 1), None);
    assert_eq!(Fixed::from_ratio(i32::MAX, u32::MAX), Some(Fixed { raw: 8388608 }));
}

#[test]
fn fixed_constructors() {
    assert_eq!(Fixed::zero().raw, 0);
    assert_eq!(Fixed::one().raw, UNIT);
    assert_eq!(Fixed::from_int(3).raw, 3 * UNIT);
    assert_eq!(Fixed::from_int(-3).raw, -3 * UNIT);
    assert_eq!(Fixed::from_int(i8::MIN).raw, i32::MIN);
    assert_eq!(Fixed::from_int(i8::MAX).raw, 127 * UNIT);
}

#[test]
fn isqrt_floors() {
    assert_eq!(isqrt(0), 0);
    assert_eq!(isqrt(1), 1);
    assert_eq!(isqrt(2), 1);
    assert_eq!(isqrt(3), 1);
    assert_eq!(isqrt(4), 2);
    assert_eq!(isqrt(8), 2);
    assert_eq!(isqrt(9), 3);
    assert_eq!(isqrt(99), 9);
    assert_eq!(isqrt(100), 10);
    assert_eq!(isqrt(1 << 32), 1 << 16);
    assert_eq!(isqrt((1 << 32) - 1), (1 << 16) - 1);
    assert_eq!(isqrt(u64::MAX), (1 << 32) - 1);
    for n in 0..5000u64 {
        let r = isqrt(n);
        assert!(r * r <= n && n < (r + 1) * (r + 1));
    }
}

#[test]
fn sine_is_exact_at_quarter_turns() {
    for k in -7..7 {
        let turn = 4 * k * UNIT;
        assert_eq!(sin_quarter(Fixed { raw: turn }).raw, 0);
        assert_eq!(sin_quarter(Fixed { raw: turn + UNIT }).raw, UNIT);
        assert_eq!(sin_quarter(Fixed { raw: turn + 2 * UNIT }).raw, 0);
        assert_eq!(sin_quarter(Fixed { raw: turn + 3 * UNIT }).raw, -UNIT);
        assert_eq!(cos_quarter(Fixed { raw: turn }).raw, UNIT);
        assert_eq!(cos_quarter(Fixed { raw: turn + UNIT }).raw, 0);
        assert_eq!(cos_quarter(Fixed { raw: turn + 2 * UNIT }).raw, -UNIT);
        assert_eq!(cos_quarter(Fixed { raw: turn + 3 * UNIT }).raw, 0);
    }
}

#[test]
fn sine_follows_the_sine() {
    let mut worst = 0.0f64;
    for raw in (-20 * UNIT..=20 * UNIT).step_by(9973) {
        let got = sin_quarter(Fixed { raw }).raw as f64 / 16777216.0;
        let want = (raw as f64 / 16777216.0 * std::f64::consts::FRAC_PI_2).sin();
        worst = worst.max((got - want).abs());
        let got = cos_quarter(Fixed { raw }).raw as f64 / 16777216.0;
        let want = (raw as f64 / 16777216.0 * std::f64::consts::FRAC_PI_2).cos();
        worst = worst.max((got - want).abs());
    }
    // Just above half a raw step: the series adds next to nothing to the rounding.
    assert!(worst < 3.3e-8, "worst error {}", worst);
}

#[test]
fn sine_is_odd_periodic_and_bounded() {
    for raw in (0..=8 * UNIT).step_by(4099) {
        let s = sin_quarter(Fixed { raw }).raw;
        assert_eq!(sin_quarter(Fixed { raw: -raw }).raw, -s);
        assert_eq!(sin_quarter(Fixed { raw: raw + 4 * UNIT }).raw, s);
        assert!(-UNIT <= s && s <= UNIT);
    }
    assert_eq!(sin_quarter(Fixed { raw: i32::MIN }).raw, 0);
    assert_eq!(sin_quarter(Fixed { raw: i32::MAX }).raw, sin_quarter(Fixed { raw: -1 }).raw);
    assert_eq!(cos_quarter(Fixed { raw: i32::MAX }).raw, UNIT);
}

#[test]
fn sine_rises_through_the_first_quadrant() {
    let mut last = -1;
    for raw in (0..=UNIT).step_by(17) {
        let s = sin_quarter(Fixed { raw }).raw;
        assert!(s >= last, "falls at {}", raw);
        last = s;
    }
    for raw in UNIT / 2 - 1000..=UNIT / 2 + 1000 {
        assert!(sin_quarter(Fixed { raw }).raw >= sin_quarter(Fixed { raw: raw - 1 }).raw);
    }
    // One third of a quarter turn is thirty degrees.
    assert_eq!(sin_quarter(Fixed { raw: 5592405 }).raw, 8388608);
    // One half of a quarter turn is forty-five degrees: the square root of one half.
    assert_eq!(sin_quarter(Fixed { raw: UNIT / 2 }).raw, 11863283);
    assert_eq!(cos_quarter(Fixed { raw: UNIT / 2 }).raw, 11863283);
    // Far below one half the sine follows the line of slope pi / 2.
    assert_eq!(sin_quarter(Fixed { raw: 2 }).raw, 3);
    assert_eq!(sin_quarter(Fixed { raw: 1000 }).raw, 1571);
}

#[test]
fn exp2_is_exact_at_whole_exponents() {
    for k in 0..=6 {
        assert_eq!(exp2(Fixed { raw: k * UNIT }).raw, UNIT << k);
    }
    for k in 0..=24 {
        assert_eq!(exp2(Fixed { raw: -k * UNIT }).raw, UNIT >> k);
    }
    assert_eq!(exp2(Fixed { raw: -25 * UNIT }).raw, 1);
    assert_eq!(exp2(Fixed { raw: -26 * UNIT }).raw, 0);
    assert_eq!(exp2(Fixed { raw: -40 * UNIT }).raw, 0);
    assert_eq!(exp2(Fixed { raw: i32::MIN }).raw, 0);
    assert_eq!(exp2(Fixed { raw: 7 * UNIT - 1 }).raw, 2147483559);
}

#[test]
fn exp2_follows_the_power() {
    for raw in (-12 * UNIT..7 * UNIT).step_by(10007) {
        let got = exp2(Fixed { raw }).raw as f64 / 16777216.0;
        let want = 2f64.powf(raw as f64 / 16777216.0);
        let tolerance = 1.0e-9 * want + 0.51 / 16777216.0;
        assert!((got - want).abs() <= tolerance, "at {}: {} against {}", raw, got, want);
    }
    // The square root of two.
    assert_eq!(exp2(Fixed { raw: UNIT / 2 }).raw, 23726566);
    let mut last = 0;
    for raw in (-UNIT..=UNIT).step_by(13) {
        let e = exp2(Fixed { raw }).raw;
        assert!(e >= last, "falls at {}", raw);
        last = e;
    }
}
