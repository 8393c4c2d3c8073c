use interpolation::{
    checked_cub_bez, checked_quad_bez, cub_bez, lerp, quad_bez, Fixed, Weight,
};

fn weight(num: i32, den: u32) -> Weight {
    Weight::from_ratio(num, den).unwrap()
}

fn fixed(num: i32, den: u32) -> Fixed {
    Fixed::from_ratio(num, den).unwrap()
}

#[test]
fn quad_bez_nests_two_interpolations() {
    for x in 0..=16 {
        let t = weight(x, 16);
        let a = lerp(&0i32, &160i32, &t);
        let b = lerp(&160i32, &0i32, &t);
        assert_eq!(quad_bez(&0i32, &160i32, &0i32, &t), lerp(&a, &b, &t));
    }
    let half = weight(1, 2);
    assert_eq!(quad_bez(&0i32, &100i32, &0i32, &half), 50);
    assert_eq!(quad_bez(&0i32, &100i32, &200i32, &half), 100);
    assert_eq!(quad_bez(&0i32, &0i32, &200i32, &half), 50);
    assert_eq!(quad_bez(&[0i16, 0], &[0i16, 100], &[100i16, 100], &half), [25, 75]);
    let quarter = weight(1, 4);
    assert_eq!(quad_bez(&0i32, &0i32, &1600i32, &quarter), 100);
    let a = Fixed::from_int(0);
    let b = Fixed::from_int(1);
    assert_eq!(quad_bez(&a, &b, &a, &fixed(1, 2)), fixed(1, 2));
    assert_eq!(quad_bez(&a, &a, &b, &fixed(1, 4)), fixed(1, 16));
}

#[test]
fn quad_bez_with_equal_points_is_constant() {
    for raw in [i32::MIN, -65536, -3, 0, 1, 21845, 65536, 98304, i32::MAX] {
        let f = Fixed { raw };
        let t = Weight::from_fixed(f);
        assert_eq!(quad_bez(&42i8, &42i8, &42i8, &t), 42);
        assert_eq!(quad_bez(&u64::MAX, &u64::MAX, &u64::MAX, &t), u64::MAX);
        assert_eq!(quad_bez(&[1u8, 2, 3], &[1u8, 2, 3], &[1u8, 2, 3], &t), [1, 2, 3]);
        let x = Fixed { raw: -777 };
        assert_eq!(quad_bez(&x, &x, &x, &f), x);
        assert_eq!(cub_bez(&-9i64, &-9i64, &-9i64, &-9i64, &t), -9);
    }
}

#[test]
fn cub_bez_nests_two_quadratic_curves() {
    for x in 0..=16 {
        let t = weight(x, 16);
        let a = quad_bez(&0i32, &300i32, &-300i32, &t);
        let b = quad_bez(&300i32, &-300i32, &600i32, &t);
        assert_eq!(cub_bez(&0i32, &300i32, &-300i32, &600i32, &t), lerp(&a, &b, &t));
    }
    let half = weight(1, 2);
    assert_eq!(cub_bez(&0i32, &0i32, &0i32, &800i32, &half), 100);
    assert_eq!(cub_bez(&0i32, &800i32, &800i32, &0i32, &half), 600);
    assert_eq!(cub_bez(&[0i32, 8], &[8, 8], &[8, 0], &[0, 0], &half), [6, 4]);
}

#[test]
fn cub_bez_starts_and_ends_at_its_outer_points() {
    let zero = Weight::zero();
    let one = Weight::one();
    assert_eq!(cub_bez(&1i32, &50i32, &-70i32, &-70i32, &zero), 1);
    assert_eq!(cub_bez(&1i32, &50i32, &-70i32, &-70i32, &one), -70);
    assert_eq!(cub_bez(&1i32, &50i32, &-70i32, &9i32, &one), 9);
    assert_eq!(cub_bez(&0u8, &255u8, &0u8, &255u8, &zero), 0);
    assert_eq!(cub_bez(&0u8, &255u8, &0u8, &255u8, &one), 255);
    assert_eq!(cub_bez(&i64::MIN, &i64::MAX, &i64::MIN, &i64::MAX, &one), i64::MAX);
    assert_eq!(quad_bez(&i64::MIN, &i64::MAX, &i64::MIN, &zero), i64::MIN);
    assert_eq!(quad_bez(&i64::MAX, &i64::MIN, &17i64, &one), 17);
    assert_eq!(cub_bez(&[1u16, 2], &[3, 4], &[5, 6], &[5, 6], &zero), [1, 2]);
    assert_eq!(cub_bez(&[1u16, 2], &[3, 4], &[5, 6], &[5, 6], &one), [5, 6]);
}

#[test]
fn bezier_curves_stay_defined_on_the_unit_interval() {
    for x in 0..=64 {
        let t = weight(x, 64);
        let q = quad_bez(&i8::MIN, &i8::MAX, &i8::MIN, &t);
        assert!(q <= i8::MAX);
        let c = cub_bez(&u8::MAX, &0u8, &u8::MAX, &0u8, &t);
        assert!(c <= u8::MAX);
    }
}

#[test]
fn checked_bezier_curves_tell_what_would_not_fit() {
    let half = weight(1, 2);
    let two = Weight::from_int(2);
    let back = Weight::from_int(-1);
    assert_eq!(checked_quad_bez(&0i32, &100i32, &0i32, &half), Some(50));
    assert_eq!(checked_quad_bez(&0u8, &100u8, &0u8, &half), Some(50));
    // The first step, from 0 to 200 at weight two, already leaves the type.
    assert_eq!(checked_quad_bez(&0u8, &200u8, &0u8, &two), None);
    // The first step, from 0 to 10 at weight minus one, goes below zero.
    assert_eq!(checked_quad_bez(&0u8, &10u8, &20u8, &back), None);
    // The steps give 30 and 20, and from these the last one 40.
    assert_eq!(checked_quad_bez(&20u8, &10u8, &0u8, &back), Some(40));
    assert_eq!(checked_quad_bez(&30u8, &20u8, &12u8, &back), Some(52));
    // The steps give 20 and -2, and from these the last one -24.
    assert_eq!(checked_quad_bez(&0i8, &10i8, &4i8, &two), Some(-24));
    assert_eq!(checked_quad_bez(&0u8, &10u8, &4u8, &two), None);
    assert_eq!(checked_cub_bez(&0i32, &0i32, &0i32, &800i32, &half), Some(100));
    assert_eq!(checked_cub_bez(&0i8, &10i8, &4i8, &0i8, &two), Some(12));
    assert_eq!(checked_cub_bez(&0u8, &10u8, &4u8, &0u8, &two), None);
    assert_eq!(checked_cub_bez(&0i8, &100i8, &0i8, &100i8, &two), None);
    assert_eq!(checked_cub_bez(&[0i32, 8], &[8, 8], &[8, 0], &[0, 0], &half), Some([6, 4]));
    assert_eq!(checked_cub_bez(&7u64, &7u64, &7u64, &7u64, &Weight { raw: i64::MIN }), Some(7));
}
