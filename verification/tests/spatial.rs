use interpolation::{Fixed, Spatial, Weight};

fn weight(num: i32, den: u32) -> Weight {
    Weight::from_ratio(num, den).unwrap()
}

fn fixed(num: i32, den: u32) -> Fixed {
    Fixed::from_ratio(num, den).unwrap()
}

#[test]
fn spatial_signed_numbers() {
    assert_eq!(Spatial::add(&5i8, &-7i8), -2);
    assert_eq!(Spatial::sub(&5i8, &-7i8), 12);
    assert_eq!(Spatial::sub(&-7i16, &5i16), -12);
    assert_eq!(Spatial::add(&i64::MAX, &i64::MIN), -1);
    assert_eq!(Spatial::sub(&i32::MIN, &-1i32), i32::MIN + 1);
    assert_eq!(Spatial::scale(&10i32, &weight(1, 4)), 3);
    assert_eq!(Spatial::scale(&-10i32, &weight(1, 4)), -3);
    assert_eq!(Spatial::scale(&10i32, &weight(-1, 4)), -3);
    assert_eq!(Spatial::scale(&9i32, &weight(1, 4)), 2);
    assert_eq!(Spatial::scale(&100i8, &weight(1, 2)), 50);
    assert_eq!(Spatial::scale(&i64::MAX, &Weight::one()), i64::MAX);
    assert_eq!(Spatial::scale(&i64::MIN, &Weight::one()), i64::MIN);
    assert_eq!(Spatial::scale(&i64::MAX, &Weight::zero()), 0);
    assert_eq!(Spatial::scale(&1234i16, &Weight::from_int(3)), 3702);
}

#[test]
fn spatial_unsigned_subtraction_is_the_distance() {
    assert_eq!(Spatial::sub(&5u8, &7u8), 2);
    assert_eq!(Spatial::sub(&7u8, &5u8), 2);
    assert_eq!(Spatial::sub(&0u64, &u64::MAX), u64::MAX);
    assert_eq!(Spatial::sub(&u64::MAX, &0u64), u64::MAX);
    assert_eq!(Spatial::sub(&9u16, &9u16), 0);
    assert_eq!(Spatial::sub(&1u32, &u32::MAX), u32::MAX - 1);
    // Adding the difference back does not return the first operand.
    assert_eq!(Spatial::add(&7u8, &Spatial::sub(&5u8, &7u8)), 9);
}

#[test]
fn spatial_unsigned_numbers() {
    assert_eq!(Spatial::add(&200u8, &55u8), 255);
    assert_eq!(Spatial::add(&1u64, &(u64::MAX - 1)), u64::MAX);
    assert_eq!(Spatial::scale(&200u8, &weight(1, 2)), 100);
    assert_eq!(Spatial::scale(&5u8, &weight(1, 2)), 3);
    assert_eq!(Spatial::scale(&u64::MAX, &Weight::one()), u64::MAX);
    assert_eq!(Spatial::scale(&u64::MAX, &weight(1, 2)), 1 << 63);
    assert_eq!(Spatial::scale(&u32::MAX, &Weight::zero()), 0);
    assert_eq!(Spatial::scale(&0u16, &Weight::from_int(-7)), 0);
}

#[test]
fn spatial_fixed_scalars() {
    let a = Fixed::from_int(3);
    let b = fixed(1, 2);
    assert_eq!(Spatial::add(&a, &b), fixed(7, 2));
    assert_eq!(Spatial::sub(&a, &b), fixed(5, 2));
    assert_eq!(Spatial::sub(&b, &a), fixed(-5, 2));
    assert_eq!(Spatial::scale(&a, &b), fixed(3, 2));
    assert_eq!(Spatial::scale(&b, &b), fixed(1, 4));
    assert_eq!(Spatial::scale(&Fixed { raw: 1 }, &b), Fixed { raw: 1 });
    assert_eq!(Spatial::scale(&Fixed { raw: -1 }, &b), Fixed { raw: -1 });
    assert_eq!(Spatial::scale(&Fixed { raw: 1 }, &fixed(1, 4)), Fixed { raw: 0 });
}

#[test]
fn spatial_arrays_work_item_by_item() {
    let half = weight(1, 2);
    assert_eq!(Spatial::add(&[1i32, 2], &[10, 20]), [11, 22]);
    assert_eq!(Spatial::sub(&[1i32, 2], &[10, 20]), [-9, -18]);
    assert_eq!(Spatial::scale(&[1i32, 2], &half), [1, 1]);
    assert_eq!(Spatial::add(&[1u8, 2, 3], &[10, 20, 30]), [11, 22, 33]);
    assert_eq!(Spatial::sub(&[1u8, 20, 3], &[10, 2, 30]), [9, 18, 27]);
    assert_eq!(Spatial::scale(&[10u8, 20, 30], &half), [5, 10, 15]);
    assert_eq!(Spatial::add(&[1i64, 2, 3, 4], &[-1, -2, -3, -4]), [0, 0, 0, 0]);
    assert_eq!(Spatial::sub(&[1i64, 2, 3, 4], &[-1, -2, -3, -4]), [2, 4, 6, 8]);
    assert_eq!(Spatial::scale(&[4i64, -4, 6, -6], &weight(1, 4)), [1, -1, 2, -2]);
    let p = [Fixed::from_int(1), Fixed::from_int(-2)];
    assert_eq!(Spatial::scale(&p, &fixed(1, 2)), [fixed(1, 2), Fixed::from_int(-1)]);
    assert_eq!(Spatial::add(&[[1i8, 2], [3, 4]], &[[5, 6], [7, 8]]), [[6, 8], [10, 12]]);
}

#[test]
fn spatial_rebuilds_interpolation_on_signed_numbers() {
    for x in 0..=10 {
        let t = weight(x, 10);
        let a = -40i32;
        let b = 60i32;
        let by_parts = Spatial::add(&a, &Spatial::scale(&Spatial::sub(&b, &a), &t));
        assert_eq!(by_parts, interpolation::lerp(&a, &b, &t));
    }
}
