//! A small vector algebra: add, subtract and scale by a scalar.
//!
//! A scaled value is rounded once, from the exact product, to the nearest
//! value of the type, ties away from zero. Whole numbers are scaled by a
//! [`Weight`], fixed-point scalars by a [`Fixed`]. On unsigned numbers the difference is the absolute
//! difference, so that subtracting never leaves the type; it is not the
//! inverse of adding there.

use vstd::prelude::*;
use crate::fixed::{div_round, round_div, Fixed, ONE};
use crate::lerp::blend;
use crate::model::{valid_seq, Modeled};
use crate::weight::{scale_round, Weight, WEIGHT_ONE};

verus! {
/// `a * w / one` for a raw weight `w` on a scale where `one` stands for
/// one, rounded to the nearest whole number, ties away from zero.
pub open spec fn scaled(a: int, w: int, one: int) -> int {
    round_div(a * w, one)
}

/// The distance between two whole numbers.
pub open spec fn distance(a: int, b: int) -> int {
    if a >= b {
        a - b
    } else {
        b - a
    }
}

/// The distance is symmetric and never negative; added to the smaller
/// number it gives the larger.
pub proof fn lemma_distance(a: int, b: int)
    ensures
        distance(a, b) == distance(b, a),
        distance(a, b) >= 0,
        a <= b ==> a + distance(a, b) == b,
        b <= a ==> b + distance(a, b) == a,
{
}

/// Interpolation is the first endpoint plus the scaled difference of the
/// two: where subtracting gives the true difference, `add`, `sub` and
/// `scale` rebuild `lerp`.
pub proof fn lemma_blend_from_parts(a: int, b: int, w: int, one: int)
    ensures
        blend(a, b, w, one) == a + scaled(b - a, w, one),
{
}

/// Scales a fixed-point raw value by a scalar, in wide arithmetic.
pub(crate) fn scale_fixed(a: i32, t: &Fixed) -> (r: i128)
    ensures
        r == scaled(a as int, t.raw as int, ONE as int),
{
    let v: i128 = a as i128;
    let w: i128 = t.raw as i128;
    assert(-0x8000_0000 * 0x8000_0000 <= v * w <= 0x8000_0000 * 0x8000_0000)
        by (nonlinear_arith)
        requires
            -0x8000_0000 <= v <= 0x8000_0000,
            -0x8000_0000 <= w <= 0x8000_0000,
    ;
    div_round(v * w, 0x100_0000)
}

/// Used for interpolation over spatial structures.
///
/// Contracts speak of a value through its mathematical model. Each
/// operation is defined where its result is the model of a value of the
/// type.
pub trait Spatial: Modeled {
    /// The scalar type.
    type Scalar;

    /// The sum of two models.
    spec fn add_model(a: Self::Model, b: Self::Model) -> Self::Model;

    /// The difference of two models.
    spec fn sub_model(a: Self::Model, b: Self::Model) -> Self::Model;

    /// A model scaled by a scalar.
    spec fn scale_model(a: Self::Model, t: &Self::Scalar) -> Self::Model;

    /// Add
    fn add(&self, other: &Self) -> (r: Self)
        requires
            Self::valid(Self::add_model(self.model(), other.model())),
        ensures
            r.model() == Self::add_model(self.model(), other.model()),
    ;

    /// Subtract
    fn sub(&self, other: &Self) -> (r: Self)
        requires
            Self::valid(Self::sub_model(self.model(), other.model())),
        ensures
            r.model() == Self::sub_model(self.model(), other.model()),
    ;

    /// Scales with a scalar.
    fn scale(&self, scalar: &Self::Scalar) -> (r: Self)
        requires
            Self::valid(Self::scale_model(self.model(), scalar)),
        ensures
            r.model() == Self::scale_model(self.model(), scalar),
    ;
}

impl Spatial for Fixed {
    type Scalar = Fixed;

    open spec fn add_model(a: int, b: int) -> int {
        a + b
    }

    open spec fn sub_model(a: int, b: int) -> int {
        a - b
    }

    open spec fn scale_model(a: int, t: &Fixed) -> int {
        scaled(a, t.raw as int, ONE as int)
    }

    fn add(&self, other: &Fixed) -> (r: Fixed) {
        Fixed { raw: self.raw + other.raw }
    }

    fn sub(&self, other: &Fixed) -> (r: Fixed) {
        Fixed { raw: self.raw - other.raw }
    }

    fn scale(&self, scalar: &Fixed) -> (r: Fixed) {
        let v: i128 = scale_fixed(self.raw, scalar);
        Fixed { raw: v as i32 }
    }
}

impl Spatial for i8 {
    type Scalar = Weight;

    open spec fn add_model(a: int, b: int) -> int {
        a + b
    }

    open spec fn sub_model(a: int, b: int) -> int {
        a - b
    }

    open spec fn scale_model(a: int, t: &Weight) -> int {
        scaled(a, t.raw as int, WEIGHT_ONE as int)
    }

    fn add(&self, other: &i8) -> (r: i8) {
        *self + *other
    }

    fn sub(&self, other: &i8) -> (r: i8) {
        *self - *other
    }

    fn scale(&self, scalar: &Weight) -> (r: i8) {
        let v: i128 = scale_round(*self as i128, scalar.raw);
        v as i8
    }
}

impl Spatial for i16 {
    type Scalar = Weight;

    open spec fn add_model(a: int, b: int) -> int {
        a + b
    }

    open spec fn sub_model(a: int, b: int) -> int {
        a - b
    }

    open spec fn scale_model(a: int, t: &Weight) -> int {
        scaled(a, t.raw as int, WEIGHT_ONE as int)
    }

    fn add(&self, other: &i16) -> (r: i16) {
        *self + *other
    }

    fn sub(&self, other: &i16) -> (r: i16) {
        *self - *other
    }

    fn scale(&self, scalar: &Weight) -> (r: i16) {
        let v: i128 = scale_round(*self as i128, scalar.raw);
        v as i16
    }
}

impl Spatial for i32 {
    type Scalar = Weight;

    open spec fn add_model(a: int, b: int) -> int {
        a + b
    }

    open spec fn sub_model(a: int, b: int) -> int {
        a - b
    }

    open spec fn scale_model(a: int, t: &Weight) -> int {
        scaled(a, t.raw as int, WEIGHT_ONE as int)
    }

    fn add(&self, other: &i32) -> (r: i32) {
        *self + *other
    }

    fn sub(&self, other: &i32) -> (r: i32) {
        *self - *other
    }

    fn scale(&self, scalar: &Weight) -> (r: i32) {
        let v: i128 = scale_round(*self as i128, scalar.raw);
        v as i32
    }
}

impl Spatial for i64 {
    type Scalar = Weight;

    open spec fn add_model(a: int, b: int) -> int {
        a + b
    }

    open spec fn sub_model(a: int, b: int) -> int {
        a - b
    }

    open spec fn scale_model(a: int, t: &Weight) -> int {
        scaled(a, t.raw as int, WEIGHT_ONE as int)
    }

    fn add(&self, other: &i64) -> (r: i64) {
        *self + *other
    }

    fn sub(&self, other: &i64) -> (r: i64) {
        *self - *other
    }

    fn scale(&self, scalar: &Weight) -> (r: i64) {
        let v: i128 = scale_round(*self as i128, scalar.raw);
        v as i64
    }
}

impl Spatial for u8 {
    type Scalar = Weight;

    open spec fn add_model(a: int, b: int) -> int {
        a + b
    }

    open spec fn sub_model(a: int, b: int) -> int {
        distance(a, b)
    }

    open spec fn scale_model(a: int, t: &Weight) -> int {
        scaled(a, t.raw as int, WEIGHT_ONE as int)
    }

    fn add(&self, other: &u8) -> (r: u8) {
        *self + *other
    }

    fn sub(&self, other: &u8) -> (r: u8) {
        if *self >= *other {
            *self - *other
        } else {
            *other - *self
        }
    }

    fn scale(&self, scalar: &Weight) -> (r: u8) {
        let v: i128 = scale_round(*self as i128, scalar.raw);
        v as u8
    }
}

impl Spatial for u16 {
    type Scalar = Weight;

    open spec fn add_model(a: int, b: int) -> int {
        a + b
    }

    open spec fn sub_model(a: int, b: int) -> int {
        distance(a, b)
    }

    open spec fn scale_model(a: int, t: &Weight) -> int {
        scaled(a, t.raw as int, WEIGHT_ONE as int)
    }

    fn add(&self, other: &u16) -> (r: u16) {
        *self + *other
    }

    fn sub(&self, other: &u16) -> (r: u16) {
        if *self >= *other {
            *self - *other
        } else {
            *other - *self
        }
    }

    fn scale(&self, scalar: &Weight) -> (r: u16) {
        let v: i128 = scale_round(*self as i128, scalar.raw);
        v as u16
    }
}

impl Spatial for u32 {
    type Scalar = Weight;

    open spec fn add_model(a: int, b: int) -> int {
        a + b
    }

    open spec fn sub_model(a: int, b: int) -> int {
        distance(a, b)
    }

    open spec fn scale_model(a: int, t: &Weight) -> int {
        scaled(a, t.raw as int, WEIGHT_ONE as int)
    }

    fn add(&self, other: &u32) -> (r: u32) {
        *self + *other
    }

    fn sub(&self, other: &u32) -> (r: u32) {
        if *self >= *other {
            *self - *other
        } else {
            *other - *self
        }
    }

    fn scale(&self, scalar: &Weight) -> (r: u32) {
        let v: i128 = scale_round(*self as i128, scalar.raw);
        v as u32
    }
}

impl Spatial for u64 {
    type Scalar = Weight;

    open spec fn add_model(a: int, b: int) -> int {
        a + b
    }

    open spec fn sub_model(a: int, b: int) -> int {
        distance(a, b)
    }

    open spec fn scale_model(a: int, t: &Weight) -> int {
        scaled(a, t.raw as int, WEIGHT_ONE as int)
    }

    fn add(&self, other: &u64) -> (r: u64) {
        *self + *other
    }

    fn sub(&self, other: &u64) -> (r: u64) {
        if *self >= *other {
            *self - *other
        } else {
            *other - *self
        }
    }

    fn scale(&self, scalar: &Weight) -> (r: u64) {
        let v: i128 = scale_round(*self as i128, scalar.raw);
        v as u64
    }
}

/// The item-wise sum of two sequences of item models.
pub open spec fn add_seq<T: Spatial>(a: Seq<T::Model>, b: Seq<T::Model>) -> Seq<T::Model> {
    Seq::new(a.len(), |i: int| T::add_model(a[i], b[i]))
}

/// The item-wise difference of two sequences of item models.
pub open spec fn sub_seq<T: Spatial>(a: Seq<T::Model>, b: Seq<T::Model>) -> Seq<T::Model> {
    Seq::new(a.len(), |i: int| T::sub_model(a[i], b[i]))
}

/// A sequence of item models scaled item by item, with one scalar for all
/// items.
pub open spec fn scale_seq<T: Spatial>(a: Seq<T::Model>, t: &T::Scalar) -> Seq<T::Model> {
    Seq::new(a.len(), |i: int| T::scale_model(a[i], t))
}

/// Where the sum of two arrays is valid, so is that of each pair of items.
proof fn lemma_add_item<T: Spatial, const N: usize>(a: &[T; N], b: &[T; N], i: int)
    requires
        valid_seq::<T>(N as nat, add_seq::<T>(a.model(), b.model())),
        0 <= i < N,
    ensures
        T::valid(T::add_model(a@[i].model(), b@[i].model())),
{
    assert(T::valid(add_seq::<T>(a.model(), b.model())[i]));
}

/// Where the difference of two arrays is valid, so is that of each pair of
/// items.
proof fn lemma_sub_item<T: Spatial, const N: usize>(a: &[T; N], b: &[T; N], i: int)
    requires
        valid_seq::<T>(N as nat, sub_seq::<T>(a.model(), b.model())),
        0 <= i < N,
    ensures
        T::valid(T::sub_model(a@[i].model(), b@[i].model())),
{
    assert(T::valid(sub_seq::<T>(a.model(), b.model())[i]));
}

/// Where a scaled array is valid, so is each scaled item.
proof fn lemma_scale_item<T: Spatial, const N: usize>(a: &[T; N], t: &T::Scalar, i: int)
    requires
        valid_seq::<T>(N as nat, scale_seq::<T>(a.model(), t)),
        0 <= i < N,
    ensures
        T::valid(T::scale_model(a@[i].model(), t)),
{
    assert(T::valid(scale_seq::<T>(a.model(), t)[i]));
}

/// An array whose items are the sums of the items of `a` and `b` has the
/// sum of their models as its model.
proof fn lemma_add_items<T: Spatial, const N: usize>(a: &[T; N], b: &[T; N], r: &[T; N])
    requires
        forall|i: int|
            0 <= i < N ==> (#[trigger] r@[i]).model() == T::add_model(
                a@[i].model(),
                b@[i].model(),
            ),
    ensures
        r.model() == add_seq::<T>(a.model(), b.model()),
{
    assert(r.model() =~= add_seq::<T>(a.model(), b.model()));
}

/// An array whose items are the differences of the items of `a` and `b` has
/// the difference of their models as its model.
proof fn lemma_sub_items<T: Spatial, const N: usize>(a: &[T; N], b: &[T; N], r: &[T; N])
    requires
        forall|i: int|
            0 <= i < N ==> (#[trigger] r@[i]).model() == T::sub_model(
                a@[i].model(),
                b@[i].model(),
            ),
    ensures
        r.model() == sub_seq::<T>(a.model(), b.model()),
{
    assert(r.model() =~= sub_seq::<T>(a.model(), b.model()));
}

/// An array whose items are the scaled items of `a` has the scaled model of
/// `a` as its model.
proof fn lemma_scale_items<T: Spatial, const N: usize>(a: &[T; N], t: &T::Scalar, r: &[T; N])
    requires
        forall|i: int|
            0 <= i < N ==> (#[trigger] r@[i]).model() == T::scale_model(a@[i].model(), t),
    ensures
        r.model() == scale_seq::<T>(a.model(), t),
{
    assert(r.model() =~= scale_seq::<T>(a.model(), t));
}

impl<T: Spatial> Spatial for [T; 2] {
    type Scalar = T::Scalar;

    open spec fn add_model(a: Seq<T::Model>, b: Seq<T::Model>) -> Seq<T::Model> {
        add_seq::<T>(a, b)
    }

    open spec fn sub_model(a: Seq<T::Model>, b: Seq<T::Model>) -> Seq<T::Model> {
        sub_seq::<T>(a, b)
    }

    open spec fn scale_model(a: Seq<T::Model>, t: &T::Scalar) -> Seq<T::Model> {
        scale_seq::<T>(a, t)
    }

    fn add(&self, other: &Self) -> (r: Self) {
        proof {
            lemma_add_item(self, other, 0);
            lemma_add_item(self, other, 1);
        }
        let r = [
            self[0].add(&other[0]),
            self[1].add(&other[1]),
        ];
        proof {
            lemma_add_items(self, other, &r);
        }
        r
    }

    fn sub(&self, other: &Self) -> (r: Self) {
        proof {
            lemma_sub_item(self, other, 0);
            lemma_sub_item(self, other, 1);
        }
        let r = [
            self[0].sub(&other[0]),
            self[1].sub(&other[1]),
        ];
        proof {
            lemma_sub_items(self, other, &r);
        }
        r
    }

    fn scale(&self, scalar: &T::Scalar) -> (r: Self) {
        proof {
            lemma_scale_item(self, scalar, 0);
            lemma_scale_item(self, scalar, 1);
        }
        let r = [
            self[0].scale(scalar),
            self[1].scale(scalar),
        ];
        proof {
            lemma_scale_items(self, scalar, &r);
        }
        r
    }
}

impl<T: Spatial> Spatial for [T; 3] {
    type Scalar = T::Scalar;

    open spec fn add_model(a: Seq<T::Model>, b: Seq<T::Model>) -> Seq<T::Model> {
        add_seq::<T>(a, b)
    }

    open spec fn sub_model(a: Seq<T::Model>, b: Seq<T::Model>) -> Seq<T::Model> {
        sub_seq::<T>(a, b)
    }

    open spec fn scale_model(a: Seq<T::Model>, t: &T::Scalar) -> Seq<T::Model> {
        scale_seq::<T>(a, t)
    }

    fn add(&self, other: &Self) -> (r: Self) {
        proof {
            lemma_add_item(self, other, 0);
            lemma_add_item(self, other, 1);
            lemma_add_item(self, other, 2);
        }
        let r = [
            self[0].add(&other[0]),
            self[1].add(&other[1]),
            self[2].add(&other[2]),
        ];
        proof {
            lemma_add_items(self, other, &r);
        }
        r
    }

    fn sub(&self, other: &Self) -> (r: Self) {
        proof {
            lemma_sub_item(self, other, 0);
            lemma_sub_item(self, other, 1);
            lemma_sub_item(self, other, 2);
        }
        let r = [
            self[0].sub(&other[0]),
            self[1].sub(&other[1]),
            self[2].sub(&other[2]),
        ];
        proof {
            lemma_sub_items(self, other, &r);
        }
        r
    }

    fn scale(&self, scalar: &T::Scalar) -> (r: Self) {
        proof {
            lemma_scale_item(self, scalar, 0);
            lemma_scale_item(self, scalar, 1);
            lemma_scale_item(self, scalar, 2);
        }
        let r = [
            self[0].scale(scalar),
            self[1].scale(scalar),
            self[2].scale(scalar),
        ];
        proof {
            lemma_scale_items(self, scalar, &r);
        }
        r
    }
}

impl<T: Spatial> Spatial for [T; 4] {
    type Scalar = T::Scalar;

    open spec fn add_model(a: Seq<T::Model>, b: Seq<T::Model>) -> Seq<T::Model> {
        add_seq::<T>(a, b)
    }

    open spec fn sub_model(a: Seq<T::Model>, b: Seq<T::Model>) -> Seq<T::Model> {
        sub_seq::<T>(a, b)
    }

    open spec fn scale_model(a: Seq<T::Model>, t: &T::Scalar) -> Seq<T::Model> {
        scale_seq::<T>(a, t)
    }

    fn add(&self, other: &Self) -> (r: Self) {
        proof {
            lemma_add_item(self, other, 0);
            lemma_add_item(self, other, 1);
            lemma_add_item(self, other, 2);
            lemma_add_item(self, other, 3);
        }
        let r = [
            self[0].add(&other[0]),
            self[1].add(&other[1]),
            self[2].add(&other[2]),
            self[3].add(&other[3]),
        ];
        proof {
            lemma_add_items(self, other, &r);
        }
        r
    }

    fn sub(&self, other: &Self) -> (r: Self) {
        proof {
            lemma_sub_item(self, other, 0);
            lemma_sub_item(self, other, 1);
            lemma_sub_item(self, other, 2);
            lemma_sub_item(self, other, 3);
        }
        let r = [
            self[0].sub(&other[0]),
            self[1].sub(&other[1]),
            self[2].sub(&other[2]),
            self[3].sub(&other[3]),
        ];
        proof {
            lemma_sub_items(self, other, &r);
        }
        r
    }

    fn scale(&self, scalar: &T::Scalar) -> (r: Self) {
        proof {
            lemma_scale_item(self, scalar, 0);
            lemma_scale_item(self, scalar, 1);
            lemma_scale_item(self, scalar, 2);
            lemma_scale_item(self, scalar, 3);
        }
        let r = [
            self[0].scale(scalar),
            self[1].scale(scalar),
            self[2].scale(scalar),
            self[3].scale(scalar),
        ];
        proof {
            lemma_scale_items(self, scalar, &r);
        }
        r
    }
}

} // verus!
