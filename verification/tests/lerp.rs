use interpolation::{checked_lerp, lerp, Fixed, Lerp, Weight};

fn weight(num: i32, den: u32) -> Weight {
    Weight::from_ratio(num, den).unwrap()
}

fn fixed(num: i32, den: u32) -> Fixed {
    Fixed::from_ratio(num, den).unwrap()
}

#[test]
fn lerp_i8() {
    for x in 0..=10 {
        let w = weight(x as i32, 10);
        assert_eq!(lerp(&0i8, &10i8, &w), x);
    }

    for x in (0..=10).rev() {
        let w = weight((10 - x) as i32, 10);
        assert_eq!(lerp(&10i8, &0i8, &w), x);
    }

    for x in -10..0 {
        let w = weight((10 + x) as i32, 10);
        assert_eq!(lerp(&-10i8, &0i8, &w), x);
    }

    for x in (-10..0).rev() {
        let w = weight((0 - x) as i32, 10);
        assert_eq!(lerp(&0i8, &-10i8, &w), x);
    }
}

#[test]
fn lerp_i16() {
    for x in 0..=10 {
        let w = weight(x as i32, 10);
        assert_eq!(lerp(&0i16, &10i16, &w), x);
    }

    for x in (0..=10).rev() {
        let w = weight((10 - x) as i32, 10);
        assert_eq!(lerp(&10i16, &0i16, &w), x);
    }

    for x in -10..0 {
        let w = weight((10 + x) as i32, 10);
        assert_eq!(lerp(&-10i16, &0i16, &w), x);
    }

    for x in (-10..0).rev() {
        let w = weight((0 - x) as i32, 10);
        assert_eq!(lerp(&0i16, &-10i16, &w), x);
    }
}

#[test]
fn lerp_i32() {
    for x in 0..=10 {
        let w = weight(x as i32, 10);
        assert_eq!(lerp(&0i32, &10i32, &w), x);
    }

    for x in (0..=10).rev() {
        let w = weight((10 - x) as i32, 10);
        assert_eq!(lerp(&10i32, &0i32, &w), x);
    }

    for x in -10..0 {
        let w = weight((10 + x) as i32, 10);
        assert_eq!(lerp(&-10i32, &0i32, &w), x);
    }

    for x in (-10..0).rev() {
        let w = weight((0 - x) as i32, 10);
        assert_eq!(lerp(&0i32, &-10i32, &w), x);
    }
}

#[test]
fn lerp_i64() {
    for x in 0..=10 {
        let w = weight(x as i32, 10);
        assert_eq!(lerp(&0i64, &10i64, &w), x);
    }

    for x in (0..=10).rev() {
        let w = weight((10 - x) as i32, 10);
        assert_eq!(lerp(&10i64, &0i64, &w), x);
    }

    for x in -10..0 {
        let w = weight((10 + x) as i32, 10);
        assert_eq!(lerp(&-10i64, &0i64, &w), x);
    }

    for x in (-10..0).rev() {
        let w = weight((0 - x) as i32, 10);
        assert_eq!(lerp(&0i64, &-10i64, &w), x);
    }
}

#[test]
fn lerp_u8() {
    for x in 0..=10 {
        let w = weight(x as i32, 10);
        assert_eq!(lerp(&0u8, &10u8, &w), x);
    }

    for x in (0..=10).rev() {
        let w = weight((10 - x) as i32, 10);
        assert_eq!(lerp(&10u8, &0u8, &w), x);
    }
}

#[test]
fn lerp_u16() {
    for x in 0..=10 {
        let w = weight(x as i32, 10);
        assert_eq!(lerp(&0u16, &10u16, &w), x);
    }

    for x in (0..=10).rev() {
        let w = weight((10 - x) as i32, 10);
        assert_eq!(lerp(&10u16, &0u16, &w), x);
    }
}

#[test]
fn lerp_u32() {
    for x in 0..=10 {
        let w = weight(x as i32, 10);
        assert_eq!(lerp(&0u32, &10u32, &w), x);
    }

    for x in (0..=10).rev() {
        let w = weight((10 - x) as i32, 10);
        assert_eq!(lerp(&10u32, &0u32, &w), x);
    }
}

#[test]
fn lerp_u64() {
    for x in 0..=10 {
        let w = weight(x as i32, 10);
        assert_eq!(lerp(&0u64, &10u64, &w), x);
    }

    for x in (0..=10).rev() {
        let w = weight((10 - x) as i32, 10);
        assert_eq!(lerp(&10u64, &0u64, &w), x);
    }
}

#[test]
fn lerp_array_2() {
    for x in 0..=10 {
        let w = weight(x, 10);
        let pt = lerp(&[0, 0], &[10, 10], &w);
        assert_eq!(pt, [x, x]);
    }

    for x in (0..=10).rev() {
        let w = weight(10 - x, 10);
        let pt = lerp(&[10, 10], &[0, 0], &w);
        assert_eq!(pt, [x, x]);
    }
}

#[test]
fn lerp_array_3() {
    for x in 0..=10 {
        let w = weight(x, 10);
        let pt = lerp(&[0, 0, 0], &[10, 10, 10], &w);
        assert_eq!(pt, [x, x, x]);
    }

    for x in (0..=10).rev() {
        let w = weight(10 - x, 10);
        let pt = lerp(&[10, 10, 10], &[0, 0, 0], &w);
        assert_eq!(pt, [x, x, x]);
    }
}

#[test]
fn lerp_array_4() {
    for x in 0..=10 {
        let w = weight(x, 10);
        let pt = lerp(&[0, 0, 0, 0], &[10, 10, 10, 10], &w);
        assert_eq!(pt, [x, x, x, x]);
    }

    for x in (0..=10).rev() {
        let w = weight(10 - x, 10);
        let pt = lerp(&[10, 10, 10, 10], &[0, 0, 0, 0], &w);
        assert_eq!(pt, [x, x, x, x]);
    }
}

#[test]
fn lerp_array_5() {
    for x in 0..=10 {
        let w = weight(x, 10);
        let pt = lerp(&[0, 0, 0, 0, 0], &[10, 10, 10, 10, 10], &w);
        assert_eq!(pt, [x, x, x, x, x]);
    }

    for x in (0..=10).rev() {
        let w = weight(10 - x, 10);
        let pt = lerp(&[10, 10, 10, 10, 10], &[0, 0, 0, 0, 0], &w);
        assert_eq!(pt, [x, x, x, x, x]);
    }
}

#[test]
fn lerp_array_1_follows_its_item() {
    for x in 0..=10 {
        let w = weight(x, 10);
        assert_eq!(lerp(&[0i64], &[10i64], &w), [x as i64]);
    }
}

#[test]
fn lerp_fixed_scalars() {
    let a = Fixed::from_int(2);
    let b = Fixed::from_int(6);
    assert_eq!(lerp(&a, &b, &fixed(1, 4)), Fixed::from_int(3));
    assert_eq!(lerp(&b, &a, &fixed(1, 2)), Fixed::from_int(4));
    assert_eq!(lerp(&a, &b, &fixed(3, 2)), Fixed::from_int(8));
    assert_eq!(lerp(&a, &b, &fixed(-1, 2)), Fixed::from_int(0));
}

#[test]
fn lerp_equal_endpoints_is_a_fixed_point() {
    for raw in [i32::MIN, -70000, -1, 0, 1, 32768, 65536, 1 << 20, i32::MAX] {
        let f = Fixed { raw };
        let t = Weight::from_fixed(f);
        assert_eq!(lerp(&7i8, &7i8, &t), 7);
        assert_eq!(lerp(&-128i8, &-128i8, &t), -128);
        assert_eq!(lerp(&255u8, &255u8, &t), 255);
        assert_eq!(lerp(&u64::MAX, &u64::MAX, &t), u64::MAX);
        assert_eq!(lerp(&i64::MIN, &i64::MIN, &t), i64::MIN);
        assert_eq!(lerp(&Fixed { raw: 12345 }, &Fixed { raw: 12345 }, &f), Fixed { raw: 12345 });
        assert_eq!(lerp(&-5i32, &-5i32, &Weight { raw: t.raw + 12345 }), -5);
        assert_eq!(lerp(&[3u16, 9], &[3u16, 9], &t), [3, 9]);
    }
}

#[test]
fn lerp_weights_zero_and_one_give_the_endpoints() {
    let zero = Weight::zero();
    let one = Weight::one();
    assert_eq!(lerp(&-128i8, &127i8, &zero), -128);
    assert_eq!(lerp(&-128i8, &127i8, &one), 127);
    assert_eq!(lerp(&127i8, &-128i8, &one), -128);
    assert_eq!(lerp(&0u64, &u64::MAX, &one), u64::MAX);
    assert_eq!(lerp(&u64::MAX, &0u64, &one), 0);
    assert_eq!(lerp(&u64::MAX, &0u64, &zero), u64::MAX);
    assert_eq!(lerp(&i64::MIN, &i64::MAX, &one), i64::MAX);
    assert_eq!(lerp(&i64::MAX, &i64::MIN, &one), i64::MIN);
    assert_eq!(lerp(&i32::MIN, &i32::MAX, &zero), i32::MIN);
    let a = Fixed { raw: i32::MIN };
    let b = Fixed { raw: i32::MAX };
    assert_eq!(lerp(&a, &b, &Fixed::zero()), a);
    assert_eq!(lerp(&a, &b, &Fixed::one()), b);
    assert_eq!(lerp(&[1i16, -2, 3], &[-4i16, 5, -6], &zero), [1, -2, 3]);
    assert_eq!(lerp(&[1i16, -2, 3], &[-4i16, 5, -6], &one), [-4, 5, -6]);
}

#[test]
fn lerp_rounds_ties_away_from_zero() {
    let half = weight(1, 2);
    assert_eq!(lerp(&0i32, &1i32, &half), 1);
    assert_eq!(lerp(&0i32, &-1i32, &half), -1);
    assert_eq!(lerp(&0i32, &3i32, &half), 2);
    assert_eq!(lerp(&0i32, &-3i32, &half), -2);
    assert_eq!(lerp(&1u8, &0u8, &half), 0);
    assert_eq!(lerp(&0u8, &1u8, &half), 1);
    assert_eq!(lerp(&10u8, &7u8, &half), 8);
    assert_eq!(lerp(&0i32, &10i32, &weight(1, 4)), 3);
    assert_eq!(lerp(&0i32, &10i32, &weight(6, 25)), 2);
}

#[test]
fn lerp_extrapolates_outside_the_unit_interval() {
    assert_eq!(lerp(&0i32, &10i32, &Weight::from_int(2)), 20);
    assert_eq!(lerp(&0i32, &10i32, &Weight::from_int(-1)), -10);
    assert_eq!(lerp(&10u32, &20u32, &Weight::from_int(3)), 40);
    assert_eq!(lerp(&20u32, &10u32, &Weight::from_int(2)), 0);
    assert_eq!(lerp(&20u32, &10u32, &Weight::from_int(-1)), 30);
}

#[test]
fn lerp_unsigned_descends_without_underflow() {
    assert_eq!(lerp(&u64::MAX, &0u64, &weight(1, 2)), u64::MAX / 2);
    assert_eq!(lerp(&200u8, &100u8, &weight(1, 4)), 175);
    assert_eq!(lerp(&200u8, &100u8, &weight(3, 4)), 125);
}

#[test]
fn lerp_through_the_trait_method() {
    assert_eq!(Lerp::lerp(&4i16, &8, &weight(3, 4)), 7);
    assert_eq!(Lerp::lerp(&[0u8, 100], &[100, 0], &weight(1, 10)), [10, 90]);
}

#[test]
fn checked_lerp_tells_what_would_not_fit() {
    assert_eq!(checked_lerp(&0i32, &10i32, &weight(1, 4)), Some(3));
    assert_eq!(checked_lerp(&100u8, &200u8, &Weight::from_int(2)), None);
    assert_eq!(checked_lerp(&100u8, &200u8, &weight(3, 2)), Some(250));
    assert_eq!(checked_lerp(&100u8, &200u8, &weight(8, 5)), None);
    assert_eq!(checked_lerp(&100u8, &200u8, &Weight::from_int(-1)), Some(0));
    assert_eq!(checked_lerp(&100u8, &201u8, &Weight::from_int(-1)), None);
    assert_eq!(checked_lerp(&200u8, &100u8, &Weight::from_int(2)), Some(0));
    assert_eq!(checked_lerp(&200u8, &99u8, &Weight::from_int(2)), None);
    assert_eq!(checked_lerp(&i8::MAX, &i8::MIN, &Weight::from_int(2)), None);
    assert_eq!(checked_lerp(&i8::MAX, &i8::MIN, &Weight::one()), Some(i8::MIN));
    assert_eq!(checked_lerp(&0i8, &127i8, &weight(257, 256)), Some(127));
    assert_eq!(checked_lerp(&0i8, &127i8, &weight(129, 128)), None);
    assert_eq!(checked_lerp(&0u64, &u64::MAX, &Weight { raw: (1 << 56) + 1 }), None);
    assert_eq!(checked_lerp(&0u64, &u64::MAX, &Weight::one()), Some(u64::MAX));
    assert_eq!(checked_lerp(&i64::MIN, &i64::MAX, &Weight { raw: i64::MIN }), None);
    assert_eq!(checked_lerp(&i64::MIN, &i64::MAX, &Weight { raw: -1 }), None);
    assert_eq!(checked_lerp(&-7i64, &-7i64, &Weight { raw: i64::MAX }), Some(-7));
    let big = Fixed { raw: i32::MAX };
    let small = Fixed { raw: i32::MIN };
    assert_eq!(checked_lerp(&small, &big, &Fixed::from_int(2)), None);
    assert_eq!(checked_lerp(&small, &big, &Fixed::one()), Some(big));
    assert_eq!(checked_lerp(&[0u8, 100], &[10, 200], &Weight::from_int(2)), None);
    assert_eq!(checked_lerp(&[0u8, 100], &[10, 150], &Weight::from_int(2)), Some([20, 200]));
    assert_eq!(checked_lerp(&[0u8, 100, 7], &[10, 150, 7], &Weight::from_int(3)), Some([30, 250, 7]));
    assert_eq!(checked_lerp(&[0u8, 100, 7], &[10, 152, 7], &Weight::from_int(3)), None);
    assert_eq!(checked_lerp(&[1i16], &[2i16], &Weight::from_int(3)), Some([4]));
    assert_eq!(
        checked_lerp(&[0i8, 0, 0, 0], &[1, 2, 3, 4], &Weight::from_int(30)),
        Some([30, 60, 90, 120])
    );
    assert_eq!(checked_lerp(&[0i8, 0, 0, 0, 0], &[1, 2, 3, 4, 5], &Weight::from_int(30)), None);
}

#[test]
fn lerp_weight_is_finer_than_the_numbers_it_scales() {
    // The nearest weight to three tenths misses it by less than 2^-57.
    let w = weight(3, 10);
    assert_eq!(w, Weight { raw: 21617278211378381 });
    assert_eq!(checked_lerp(&0i32, &1000000i32, &w), Some(300000));
    assert_eq!(lerp(&0i64, &1_000_000_000_000_000i64, &w), 300_000_000_000_000);
    // Ten to the nineteenth brings the weight's own error of 2.8e-18 to light.
    assert_eq!(lerp(&0u64, &10_000_000_000_000_000_000u64, &w), 3_000_000_000_000_000_028);
    assert_eq!(lerp(&0i64, &1000000i64, &weight(7, 10)), 700000);
    assert_eq!(lerp(&1000000u32, &0u32, &weight(1, 10)), 900000);
    assert_eq!(lerp(&0i32, &10000000i32, &weight(1, 3)), 3333333);
    // One thousandth of the largest 32-bit number is 2147483.647.
    assert_eq!(lerp(&0i32, &i32::MAX, &weight(1, 1000)), 2147484);
    assert_eq!(lerp(&0u32, &u32::MAX, &weight(1, 1000)), 4294967);
    // An eased progress is a weight without loss.
    let eased = interpolation::ease::quadratic_in(fixed(1, 2));
    assert_eq!(Weight::from_fixed(eased), weight(1, 4));
    assert_eq!(lerp(&0i16, &1000i16, &Weight::from_fixed(eased)), 250);
}
