use interpolation::ease::{
    back_in, back_in_out, back_out, bounce_in, bounce_in_out, bounce_out, circular_in,
    circular_in_out, circular_out, cubic_in, cubic_in_out, cubic_out, elastic_in, elastic_in_out,
    elastic_out, exponential_in, exponential_in_out, exponential_out, normalized, quadratic_in,
    quadratic_in_out, quadratic_out, quartic_in, quartic_in_out, quartic_out, quintic_in,
    quintic_in_out, quintic_out, sine_in, sine_in_out, sine_out,
};
use interpolation::{EaseFunction, Fixed};
use std::f64::consts::PI;

const ONE: i32 = 1 << 24;
const HALF: i32 = 1 << 23;

const ALL: [EaseFunction; 30] = [
    EaseFunction::QuadraticIn,
    EaseFunction::QuadraticOut,
    EaseFunction::QuadraticInOut,
    EaseFunction::CubicIn,
    EaseFunction::CubicOut,
    EaseFunction::CubicInOut,
    EaseFunction::QuarticIn,
    EaseFunction::QuarticOut,
    EaseFunction::QuarticInOut,
    EaseFunction::QuinticIn,
    EaseFunction::QuinticOut,
    EaseFunction::QuinticInOut,
    EaseFunction::SineIn,
    EaseFunction::SineOut,
    EaseFunction::SineInOut,
    EaseFunction::CircularIn,
    EaseFunction::CircularOut,
    EaseFunction::CircularInOut,
    EaseFunction::ExponentialIn,
    EaseFunction::ExponentialOut,
    EaseFunction::ExponentialInOut,
    EaseFunction::ElasticIn,
    EaseFunction::ElasticOut,
    EaseFunction::ElasticInOut,
    EaseFunction::BackIn,
    EaseFunction::BackOut,
    EaseFunction::BackInOut,
    EaseFunction::BounceIn,
    EaseFunction::BounceOut,
    EaseFunction::BounceInOut,
];

const NAMED: [fn(Fixed) -> Fixed; 30] = [
    quadratic_in,
    quadratic_out,
    quadratic_in_out,
    cubic_in,
    cubic_out,
    cubic_in_out,
    quartic_in,
    quartic_out,
    quartic_in_out,
    quintic_in,
    quintic_out,
    quintic_in_out,
    sine_in,
    sine_out,
    sine_in_out,
    circular_in,
    circular_out,
    circular_in_out,
    exponential_in,
    exponential_out,
    exponential_in_out,
    elastic_in,
    elastic_out,
    elastic_in_out,
    back_in,
    back_out,
    back_in_out,
    bounce_in,
    bounce_out,
    bounce_in_out,
];

fn fx(raw: i32) -> Fixed {
    Fixed { raw }
}

fn as_f64(x: Fixed) -> f64 {
    x.raw as f64 / 16777216.0
}

fn ref_bounce_out(p: f64) -> f64 {
    if p < 4.0 / 11.0 {
        (121.0 * p * p) / 16.0
    } else if p < 8.0 / 11.0 {
        (363.0 / 40.0 * p * p) - (99.0 / 10.0 * p) + 17.0 / 5.0
    } else if p < 9.0 / 10.0 {
        (4356.0 / 361.0 * p * p) - (35442.0 / 1805.0 * p) + 16061.0 / 1805.0
    } else {
        (54.0 / 5.0 * p * p) - (513.0 / 25.0 * p) + 268.0 / 25.0
    }
}

fn ref_bounce_in(p: f64) -> f64 {
    1.0 - ref_bounce_out(1.0 - p)
}

fn ref_back(f: f64) -> f64 {
    f * f * f - f * (f * PI).sin()
}

/// The curve in double precision, for a progress already in the unit interval.
fn reference(f: EaseFunction, p: f64) -> f64 {
    match f {
        EaseFunction::QuadraticIn => p * p,
        EaseFunction::QuadraticOut => -(p * (p - 2.0)),
        EaseFunction::QuadraticInOut => {
            if p < 0.5 {
                2.0 * p * p
            } else {
                -2.0 * p * p + 4.0 * p - 1.0
            }
        }
        EaseFunction::CubicIn => p * p * p,
        EaseFunction::CubicOut => (p - 1.0).powi(3) + 1.0,
        EaseFunction::CubicInOut => {
            if p < 0.5 {
                4.0 * p * p * p
            } else {
                0.5 * (2.0 * p - 2.0).powi(3) + 1.0
            }
        }
        EaseFunction::QuarticIn => p.powi(4),
        EaseFunction::QuarticOut => (p - 1.0).powi(3) * (1.0 - p) + 1.0,
        EaseFunction::QuarticInOut => {
            if p < 0.5 {
                8.0 * p.powi(4)
            } else {
                -8.0 * (p - 1.0).powi(4) + 1.0
            }
        }
        EaseFunction::QuinticIn => p.powi(5),
        EaseFunction::QuinticOut => (p - 1.0).powi(5) + 1.0,
        EaseFunction::QuinticInOut => {
            if p < 0.5 {
                16.0 * p.powi(5)
            } else {
                0.5 * (2.0 * p - 2.0).powi(5) + 1.0
            }
        }
        EaseFunction::SineIn => ((p - 1.0) * PI / 2.0).sin() + 1.0,
        EaseFunction::SineOut => (p * PI / 2.0).sin(),
        EaseFunction::SineInOut => 0.5 * (1.0 - (p * PI).cos()),
        EaseFunction::CircularIn => 1.0 - (1.0 - p * p).sqrt(),
        EaseFunction::CircularOut => ((2.0 - p) * p).sqrt(),
        EaseFunction::CircularInOut => {
            if p < 0.5 {
                0.5 * (1.0 - (1.0 - 4.0 * p * p).sqrt())
            } else {
                0.5 * ((-(2.0 * p - 3.0) * (2.0 * p - 1.0)).sqrt() + 1.0)
            }
        }
        EaseFunction::ExponentialIn => {
            if p == 0.0 {
                0.0
            } else {
                2f64.powf(10.0 * (p - 1.0))
            }
        }
        EaseFunction::ExponentialOut => {
            if p == 1.0 {
                1.0
            } else {
                1.0 - 2f64.powf(-10.0 * p)
            }
        }
        EaseFunction::ExponentialInOut => {
            if p == 0.0 || p == 1.0 {
                p
            } else if p < 0.5 {
                0.5 * 2f64.powf(20.0 * p - 10.0)
            } else {
                -0.5 * 2f64.powf(-20.0 * p + 10.0) + 1.0
            }
        }
        EaseFunction::ElasticIn => (13.0 * PI / 2.0 * p).sin() * 2f64.powf(10.0 * (p - 1.0)),
        EaseFunction::ElasticOut => {
            (-13.0 * PI / 2.0 * (p + 1.0)).sin() * 2f64.powf(-10.0 * p) + 1.0
        }
        EaseFunction::ElasticInOut => {
            if p < 0.5 {
                0.5 * (13.0 * PI / 2.0 * (2.0 * p)).sin() * 2f64.powf(10.0 * (2.0 * p - 1.0))
            } else {
                0.5 * ((-13.0 * PI / 2.0 * ((2.0 * p - 1.0) + 1.0)).sin()
                    * 2f64.powf(-10.0 * (2.0 * p - 1.0))
                    + 2.0)
            }
        }
        EaseFunction::BackIn => ref_back(p),
        EaseFunction::BackOut => 1.0 - ref_back(1.0 - p),
        EaseFunction::BackInOut => {
            if p < 0.5 {
                0.5 * ref_back(2.0 * p)
            } else {
                0.5 * (1.0 - ref_back(1.0 - (2.0 * p - 1.0))) + 0.5
            }
        }
        EaseFunction::BounceIn => ref_bounce_in(p),
        EaseFunction::BounceOut => ref_bounce_out(p),
        EaseFunction::BounceInOut => {
            if p < 0.5 {
                0.5 * ref_bounce_in(p * 2.0)
            } else {
                0.5 * ref_bounce_out(p * 2.0 - 1.0) + 0.5
            }
        }
    }
}

/// Whether the curve is algebraic, so that the only error is the final rounding.
fn algebraic(f: EaseFunction) -> bool {
    !matches!(
        f,
        EaseFunction::SineIn
            | EaseFunction::SineOut
            | EaseFunction::SineInOut
            | EaseFunction::ExponentialIn
            | EaseFunction::ExponentialOut
            | EaseFunction::ExponentialInOut
            | EaseFunction::ElasticIn
            | EaseFunction::ElasticOut
            | EaseFunction::ElasticInOut
            | EaseFunction::BackIn
            | EaseFunction::BackOut
            | EaseFunction::BackInOut
    )
}

#[test]
fn quadratic_and_cubic_scenario() {
    assert_eq!(quadratic_in(fx(HALF)), fx(ONE / 4));
    assert_eq!(quadratic_out(fx(HALF)), fx(3 * ONE / 4));
    assert_eq!(cubic_in_out(fx(ONE / 4)), fx(ONE / 16));
    assert_eq!(as_f64(quadratic_in(fx(HALF))), 0.25);
    assert_eq!(as_f64(quadratic_out(fx(HALF))), 0.75);
    assert_eq!(as_f64(cubic_in_out(fx(ONE / 4))), 0.0625);
}

#[test]
fn every_curve_starts_at_zero_and_ends_at_one() {
    for f in ALL {
        assert_eq!(f.calc(fx(0)), fx(0), "start of curve {:?}", f);
        assert_eq!(f.calc(fx(ONE)), fx(ONE), "end of curve {:?}", f);
    }
}

#[test]
fn exponential_special_cases_are_exact() {
    assert_eq!(exponential_in(fx(0)), fx(0));
    assert_eq!(exponential_in(fx(1)), fx(16384));
    assert_eq!(exponential_in(fx(ONE)), fx(ONE));
    assert_eq!(exponential_out(fx(ONE)), fx(ONE));
    assert_eq!(exponential_out(fx(0)), fx(0));
    assert_eq!(exponential_in_out(fx(0)), fx(0));
    assert_eq!(exponential_in_out(fx(1)), fx(8192));
    assert_eq!(exponential_in_out(fx(ONE)), fx(ONE));
}

#[test]
fn progress_outside_the_unit_interval_is_clamped() {
    for f in ALL {
        for raw in [i32::MIN, -ONE, -1] {
            assert_eq!(f.calc(fx(raw)), f.calc(fx(0)), "curve {:?} at {}", f, raw);
        }
        for raw in [ONE + 1, 2 * ONE, i32::MAX] {
            assert_eq!(f.calc(fx(raw)), f.calc(fx(ONE)), "curve {:?} at {}", f, raw);
        }
    }
    assert_eq!(normalized(fx(-5)), fx(0));
    assert_eq!(normalized(fx(ONE + 5)), fx(ONE));
    assert_eq!(normalized(fx(12345)), fx(12345));
    assert_eq!(normalized(fx(0)), fx(0));
    assert_eq!(normalized(fx(ONE)), fx(ONE));
}

#[test]
fn calc_dispatches_to_the_named_function() {
    for (f, named) in ALL.iter().zip(NAMED.iter()) {
        for raw in (-ONE / 4..=ONE + ONE / 4).step_by(24989) {
            assert_eq!(f.calc(fx(raw)), named(fx(raw)), "curve {:?} at {}", f, raw);
        }
    }
}

#[test]
fn every_curve_follows_its_formula() {
    for f in ALL {
        // One raw step where the only error is a rounding or a floored root,
        // one and a half where a series and a second rounding come in.
        let tolerance = if algebraic(f) { 1.0 / 16777216.0 } else { 1.5 / 16777216.0 };
        assert!(tolerance < 1.0e-7);
        for raw in (0..=ONE).step_by(251) {
            let got = as_f64(f.calc(fx(raw)));
            let want = reference(f, raw as f64 / 16777216.0);
            assert!(
                (got - want).abs() <= tolerance,
                "curve {:?} at {}: {} against {}",
                f,
                raw,
                got,
                want
            );
        }
    }
}

#[test]
fn in_out_curves_are_continuous_at_one_half() {
    let in_out = [
        EaseFunction::QuadraticInOut,
        EaseFunction::CubicInOut,
        EaseFunction::QuarticInOut,
        EaseFunction::QuinticInOut,
        EaseFunction::SineInOut,
        EaseFunction::CircularInOut,
        EaseFunction::ExponentialInOut,
        EaseFunction::ElasticInOut,
        EaseFunction::BackInOut,
        EaseFunction::BounceInOut,
    ];
    for f in in_out {
        let at = f.calc(fx(HALF)).raw;
        let below = f.calc(fx(HALF - 1)).raw;
        let above = f.calc(fx(HALF + 1)).raw;
        assert_eq!(at, HALF, "curve {:?}", f);
        // Next to one half the curve moves as far as its formula does, and no farther
        // than two raw steps beside it: the circular curve is steepest, with a
        // vertical tangent there.
        let p_below = (HALF - 1) as f64 / 16777216.0;
        let p_above = (HALF + 1) as f64 / 16777216.0;
        let fall = (0.5 - reference(f, p_below)) * 16777216.0;
        let rise = (reference(f, p_above) - 0.5) * 16777216.0;
        assert!(((at - below) as f64 - fall).abs() <= 2.0, "curve {:?} from {} to {}", f, below, at);
        assert!(((above - at) as f64 - rise).abs() <= 2.0, "curve {:?} from {} to {}", f, at, above);
        assert!(fall.abs() <= 4100.0 && rise.abs() <= 4100.0);
    }
}

#[test]
fn bounce_in_mirrors_bounce_out() {
    for raw in (0..=ONE).step_by(61) {
        assert_eq!(bounce_in(fx(raw)).raw, ONE - bounce_out(fx(ONE - raw)).raw);
    }
    assert_eq!(bounce_in(fx(ONE)).raw, ONE - bounce_out(fx(0)).raw);
}

#[test]
fn bounce_out_meets_at_its_breakpoints() {
    // The first raw values at or above 4/11, 8/11 and 9/10 of one.
    for raw in [6100806, 12201612, 15099495] {
        let before = bounce_out(fx(raw - 1)).raw;
        let after = bounce_out(fx(raw)).raw;
        assert!((after - before).abs() <= 4, "jump from {} to {} at {}", before, after, raw);
    }
    assert_eq!(bounce_out(fx(6100805)), fx(16777212));
    assert_eq!(bounce_out(fx(6100806)), fx(16777215));
    assert_eq!(bounce_out(fx(12201612)), fx(16777215));
    // 363/40 / 4 - 99/20 + 17/5 = 0.71875
    assert_eq!(bounce_out(fx(HALF)), fx(12058624));
    assert_eq!(bounce_out(fx(15938355)), fx(16324231));
}

#[test]
fn bounce_out_stays_above_seven_tenths_after_its_first_touch() {
    // The lowest point of the later arcs is 0.7, at 6/11.
    assert_eq!(bounce_out(fx(9151209)), fx(11744051));
    for raw in (6100806..=ONE).step_by(53) {
        let got = as_f64(bounce_out(fx(raw)));
        assert!(got >= 0.7 - 1.0e-6, "{} at {}", got, raw);
        assert!(10 * (bounce_out(fx(raw)).raw as i64) >= 7 * (ONE as i64) - 2);
    }
    for raw in 9151209 - 2000..=9151209 + 2000 {
        assert!(as_f64(bounce_out(fx(raw))) >= 0.7 - 1.0e-6);
    }
}

#[test]
fn sine_in_out_keeps_its_slope() {
    assert_eq!(sine_in_out(fx(HALF - 1)), fx(HALF - 1));
    assert_eq!(sine_in_out(fx(HALF + 1)), fx(HALF + 2));
    for raw in (0..=ONE).step_by(97).chain(HALF - 500..=HALF + 500) {
        let got = as_f64(sine_in_out(fx(raw)));
        let p = raw as f64 / 16777216.0;
        assert!((got - 0.5).abs() <= 1.6 * (p - 0.5).abs() + 1.0e-6, "{} at {}", got, raw);
    }
}

#[test]
fn exponential_in_out_keeps_its_slope() {
    for raw in (0..=ONE).step_by(97).chain(HALF - 500..=HALF + 500) {
        let got = as_f64(exponential_in_out(fx(raw)));
        let p = raw as f64 / 16777216.0;
        assert!((got - 0.5).abs() <= 7.0 * (p - 0.5).abs() + 1.0e-6, "{} at {}", got, raw);
    }
}

#[test]
fn curves_without_overshoot_stay_in_the_unit_interval() {
    for f in ALL {
        let overshoots = matches!(
            f,
            EaseFunction::ElasticIn
                | EaseFunction::ElasticOut
                | EaseFunction::ElasticInOut
                | EaseFunction::BackIn
                | EaseFunction::BackOut
                | EaseFunction::BackInOut
        );
        if overshoots {
            continue;
        }
        for raw in (0..=ONE).step_by(127) {
            let got = f.calc(fx(raw)).raw;
            assert!((0..=ONE).contains(&got), "curve {:?} at {} gives {}", f, raw, got);
        }
    }
}

#[test]
fn back_and_elastic_overshoot() {
    assert!(back_in(fx(ONE / 4)).raw < 0);
    assert!(back_out(fx(3 * ONE / 4)).raw > ONE);
    assert!(elastic_out(fx(ONE / 8)).raw > ONE);
    assert!(elastic_in(fx(7 * ONE / 8)).raw < 0);
}

#[test]
fn polynomial_curves_have_exact_values() {
    assert_eq!(quadratic_in(fx(ONE / 4)), fx(ONE / 16));
    assert_eq!(quadratic_in_out(fx(ONE / 4)), fx(ONE / 8));
    assert_eq!(quadratic_in_out(fx(3 * ONE / 4)), fx(7 * ONE / 8));
    assert_eq!(cubic_in(fx(HALF)), fx(ONE / 8));
    assert_eq!(cubic_out(fx(HALF)), fx(7 * ONE / 8));
    assert_eq!(cubic_in_out(fx(3 * ONE / 4)), fx(15 * ONE / 16));
    assert_eq!(quartic_in(fx(HALF)), fx(ONE / 16));
    assert_eq!(quartic_out(fx(HALF)), fx(15 * ONE / 16));
    assert_eq!(quartic_in_out(fx(ONE / 4)), fx(ONE / 32));
    assert_eq!(quartic_in_out(fx(3 * ONE / 4)), fx(31 * ONE / 32));
    assert_eq!(quintic_in(fx(HALF)), fx(ONE / 32));
    assert_eq!(quintic_out(fx(HALF)), fx(31 * ONE / 32));
    assert_eq!(quintic_in_out(fx(ONE / 4)), fx(ONE / 64));
    assert_eq!(quintic_in_out(fx(3 * ONE / 4)), fx(63 * ONE / 64));
    // One third squared is one ninth: 5592405^2 / 2^24 = 1864134.88..., rounded up.
    assert_eq!(quadratic_in(fx(5592405)), fx(1864135));
    // Three raw steps squared are far below one half of the last place.
    assert_eq!(quadratic_in(fx(3)), fx(0));
    // 4096 raw steps squared are exactly one raw step.
    assert_eq!(quadratic_in(fx(4096)), fx(1));
    // 2897^2 is above half a raw step and rounds up, 2896^2 is below and rounds down.
    assert_eq!(quadratic_in(fx(2897)), fx(1));
    assert_eq!(quadratic_in(fx(2896)), fx(0));
}

#[test]
fn circular_curves_have_exact_values() {
    // sqrt(1 - 0.6^2) = 0.8 and sqrt(1 - 0.8^2) = 0.6 on a 3-4-5 triangle scaled by 2^13.
    assert_eq!(circular_in(fx(0)), fx(0));
    assert_eq!(circular_in(fx(ONE)), fx(ONE));
    assert_eq!(circular_out(fx(ONE)), fx(ONE));
    assert_eq!(circular_in_out(fx(HALF)), fx(HALF));
    // sqrt(1 - 0.6^2) = 0.8, and 10066330 is the nearest raw value to 0.6.
    assert_eq!(circular_in(fx(10066330)), fx(3355444));
    // The square root of three quarters, floored.
    assert_eq!(circular_out(fx(HALF)), fx(14529495));
}

#[test]
fn every_curve_has_its_exact_values() {
    let points = [3160320, 4194304, 8388607, 12582912, 13906176];
    let table: [(EaseFunction, [i32; 5]); 30] = [
        (EaseFunction::QuadraticIn, [595309, 1048576, 4194303, 9437184, 11526449]),
        (EaseFunction::QuadraticOut, [5725331, 7340032, 12582911, 15728640, 16285903]),
        (EaseFunction::QuadraticInOut, [1190617, 2097152, 8388606, 14680064, 15794589]),
        (EaseFunction::CubicIn, [112138, 262144, 2097151, 7077888, 9553959]),
        (EaseFunction::CubicOut, [7807172, 9699328, 14680063, 16515072, 16693139]),
        (EaseFunction::CubicInOut, [448553, 1048576, 8388605, 15728640, 16440907]),
        (EaseFunction::QuarticIn, [21123, 65536, 1048576, 5308416, 7919016]),
        (EaseFunction::QuarticOut, [9496857, 11468800, 15728639, 16711680, 16762828]),
        (EaseFunction::QuarticInOut, [168987, 524288, 8388604, 16252928, 16662113]),
        (EaseFunction::QuinticIn, [3979, 16384, 524288, 3981312, 6563856]),
        (EaseFunction::QuinticOut, [10868256, 12795904, 16252928, 16760832, 16774754]),
        (EaseFunction::QuinticInOut, [63664, 262144, 8388603, 16515072, 16737821]),
        (EaseFunction::SineIn, [729090, 1277090, 4913932, 10356853, 12321512]),
        (EaseFunction::SineOut, [4892098, 6420363, 11863282, 15500126, 16174723]),
        (EaseFunction::SineInOut, [1426496, 2456967, 8388607, 14320250, 15593867]),
        (EaseFunction::CircularIn, [300343, 532747, 2247721, 5680131, 7391416]),
        (EaseFunction::CircularOut, [9800771, 11097085, 14529494, 16244469, 16529733]),
        (EaseFunction::CircularInOut, [618079, 1123861, 8384513, 15653356, 16270605]),
        (EaseFunction::ExponentialIn, [60460, 92682, 524288, 2965821, 5123601]),
        (EaseFunction::ExponentialOut, [12230787, 13811395, 16252928, 16684534, 16723567]),
        (EaseFunction::ExponentialInOut, [111555, 262144, 8388601, 16515072, 16689378]),
        (EaseFunction::ElasticIn, [-39179, -85627, -370727, 1134971, -4807878]),
        (EaseFunction::ElasticOut, [20239876, 15642245, 17147944, 16862843, 16795758]),
        (EaseFunction::ElasticInOut, [110115, -185364, 8388601, 16962580, 16720242]),
        (EaseFunction::BackIn, [-1650815, -2703677, -6291456, -1819574, 2432792]),
        (EaseFunction::BackOut, [15403222, 18596790, 23068672, 19480893, 18163360]),
        (EaseFunction::BackInOut, [-2477768, -3145728, 8388602, 19922944, 18966553]),
        (EaseFunction::BounceIn, [1509135, 690143, 4718593, 8847360, 13061659]),
        (EaseFunction::BounceOut, [4502022, 7929856, 12058625, 16087073, 15314263]),
        (EaseFunction::BounceInOut, [2055730, 2359296, 8388608, 14417920, 15220532]),
    ];
    for (f, values) in table {
        for (raw, want) in points.iter().zip(values.iter()) {
            assert_eq!(f.calc(fx(*raw)).raw, *want, "curve {:?} at {}", f, raw);
        }
    }
}

#[test]
fn every_ease_out_mirrors_its_ease_in() {
    let pairs = [
        (EaseFunction::QuadraticIn, EaseFunction::QuadraticOut, 1),
        (EaseFunction::CubicIn, EaseFunction::CubicOut, 1),
        (EaseFunction::QuarticIn, EaseFunction::QuarticOut, 1),
        (EaseFunction::QuinticIn, EaseFunction::QuinticOut, 1),
        (EaseFunction::SineIn, EaseFunction::SineOut, 0),
        (EaseFunction::CircularIn, EaseFunction::CircularOut, 0),
        (EaseFunction::ExponentialIn, EaseFunction::ExponentialOut, 0),
        (EaseFunction::ElasticIn, EaseFunction::ElasticOut, 0),
        (EaseFunction::BackIn, EaseFunction::BackOut, 1),
        (EaseFunction::BounceIn, EaseFunction::BounceOut, 0),
    ];
    for (ease_in, ease_out, slack) in pairs {
        for raw in (0..=ONE).step_by(1009) {
            let out = ease_out.calc(fx(raw)).raw;
            let mirrored = ONE - ease_in.calc(fx(ONE - raw)).raw;
            assert!((out - mirrored).abs() <= slack, "{:?} at {}: {} {}", ease_out, raw, out, mirrored);
        }
    }
    // At one thirty-second the fifth power is half a raw step: both sides round it
    // away from zero, and so they part by one step.
    assert_eq!(quintic_in(fx(1 << 19)), fx(1));
    assert_eq!(quintic_out(fx(ONE - (1 << 19))), fx(ONE));
}

#[test]
fn every_ease_in_out_mirrors_itself() {
    for f in ALL {
        let name = format!("{:?}", f);
        if !name.ends_with("InOut") {
            continue;
        }
        for raw in (0..=ONE).step_by(1013) {
            let sum = f.calc(fx(raw)).raw + f.calc(fx(ONE - raw)).raw;
            assert!((sum - ONE).abs() <= 1, "{} at {}: {}", name, raw, sum);
        }
    }
}
