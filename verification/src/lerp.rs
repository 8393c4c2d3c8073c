//! Linear interpolation.
//!
//! Interpolating between `a` and `b` with the weight `t` gives
//! `a + (b - a) * t`. The scaled difference is rounded once, from the exact
//! product, to the nearest value of the type, ties away from zero, before
//! it is added. Whole numbers take a [`Weight`] of 56 fractional bits,
//! fixed-point scalars a [`Fixed`] like themselves.

use vstd::prelude::*;
use crate::fixed::{
    div_round, lemma_round_div_between, lemma_round_div_exact, lemma_round_div_nearest,
    lemma_round_div_neg, round_div, Fixed, ONE,
};
use crate::model::{valid_seq, Modeled};
use crate::weight::{scale_round, Weight, WEIGHT_ONE};

verus! {
/// `a + (b - a) * w / one`, for a raw weight `w` on a scale where `one`
/// stands for one: the scaled difference is rounded to the nearest whole
/// number, ties away from zero.
pub open spec fn blend(a: int, b: int, w: int, one: int) -> int {
    a + round_div((b - a) * w, one)
}

/// Between equal endpoints every weight gives the endpoint.
pub proof fn lemma_blend_same(a: int, w: int, one: int)
    requires
        one > 0,
    ensures
        blend(a, a, w, one) == a,
{
    assert((a - a) * w == 0 * one) by (nonlinear_arith);
    lemma_round_div_exact(0, one);
}

/// The weight zero gives the first endpoint, the weight one the second.
pub proof fn lemma_blend_ends(a: int, b: int, one: int)
    requires
        one > 0,
    ensures
        blend(a, b, 0, one) == a,
        blend(a, b, one, one) == b,
{
    assert((b - a) * 0 == 0 * one) by (nonlinear_arith);
    lemma_round_div_exact(0, one);
    lemma_round_div_exact(b - a, one);
}

/// A weight in the unit interval gives a value between the endpoints.
pub proof fn lemma_blend_between(a: int, b: int, w: int, one: int)
    requires
        0 <= w <= one,
        one > 0,
    ensures
        a <= b ==> a <= blend(a, b, w, one) <= b,
        b <= a ==> b <= blend(a, b, w, one) <= a,
{
    let n = (b - a) * w;
    if a <= b {
        assert(0 * one <= n <= (b - a) * one) by (nonlinear_arith)
            requires
                n == (b - a) * w,
                0 <= w <= one,
                a <= b,
        ;
        lemma_round_div_between(n, one, 0, b - a);
    } else {
        assert((b - a) * one <= n <= 0 * one) by (nonlinear_arith)
            requires
                n == (b - a) * w,
                0 <= w <= one,
                b < a,
        ;
        lemma_round_div_between(n, one, b - a, 0);
    }
}

/// The interpolated value misses `a + (b - a) * w / one` by at most one
/// half.
pub proof fn lemma_blend_nearest(a: int, b: int, w: int, one: int)
    requires
        one > 0,
    ensures
        -one <= 2 * ((blend(a, b, w, one) - a) * one - (b - a) * w) <= one,
{
    lemma_round_div_nearest((b - a) * w, one);
}

/// Interpolates between two fixed-point raw values in wide arithmetic.
pub(crate) fn blend_fixed(a: i32, b: i32, t: &Fixed) -> (r: i128)
    ensures
        r == blend(a as int, b as int, t.raw as int, ONE as int),
{
    let d: i128 = b as i128 - a as i128;
    let w: i128 = t.raw as i128;
    assert(-0x1_0000_0000 * 0x8000_0000 <= d * w <= 0x1_0000_0000 * 0x8000_0000)
        by (nonlinear_arith)
        requires
            -0x1_0000_0000 <= d <= 0x1_0000_0000,
            -0x8000_0000 <= w <= 0x8000_0000,
    ;
    proof {
        lemma_round_div_between(
            d * w,
            ONE as int,
            -0x1_0000_0000_0000,
            0x1_0000_0000_0000int,
        );
    }
    a as i128 + div_round(d * w, 0x100_0000)
}

/// Interpolates between two whole numbers in wide arithmetic, where no
/// result of a 64-bit interpolation is out of range.
pub(crate) fn blend_wide(a: i128, b: i128, t: &Weight) -> (r: i128)
    requires
        -0x1_0000_0000_0000_0000 <= a <= 0x1_0000_0000_0000_0000,
        -0x1_0000_0000_0000_0000 <= b <= 0x1_0000_0000_0000_0000,
    ensures
        r == blend(a as int, b as int, t.raw as int, WEIGHT_ONE as int),
{
    a + scale_round(b - a, t.raw)
}

/// Interpolates between two unsigned whole numbers without leaving the
/// unsigned range on the way: the smaller endpoint is subtracted from the
/// larger, and the rounded share is added to or taken from the first.
pub(crate) fn blend_unsigned(a: u64, b: u64, t: &Weight) -> (r: i128)
    ensures
        r == blend(a as int, b as int, t.raw as int, WEIGHT_ONE as int),
{
    if a <= b {
        a as i128 + scale_round((b - a) as i128, t.raw)
    } else {
        let d: i128 = (a - b) as i128;
        proof {
            lemma_round_div_neg(d * t.raw, WEIGHT_ONE as int);
            assert((b - a) * t.raw == -(d * t.raw)) by (nonlinear_arith)
                requires
                    d == a - b,
            ;
        }
        a as i128 - scale_round(d, t.raw)
    }
}

/// A type whose values can be interpolated linearly.
///
/// Contracts speak of a value through its mathematical model. An
/// implementation says how a scalar reads as a raw weight and what
/// the interpolation of two models is; it proves that equal endpoints are a
/// fixed point, that the weights zero and one give the endpoints, and that
/// a weight in the unit interval never leaves the type.
pub trait Lerp: Modeled {
    /// The scaling type for linear interpolation.
    type Scalar;

    /// The scalar as a raw weight.
    spec fn weight(t: &Self::Scalar) -> int;

    /// The raw weight that stands for one.
    spec fn weight_one() -> int;

    /// The interpolation of two models.
    spec fn lerp_model(a: Self::Model, b: Self::Model, t: &Self::Scalar) -> Self::Model;

    /// Whether the interpolation between `self` and `other` is defined: its
    /// result is a value of the type.
    fn lerp_fits(&self, other: &Self, scalar: &Self::Scalar) -> (ok: bool)
        ensures
            ok == Self::valid(Self::lerp_model(self.model(), other.model(), scalar)),
    ;

    /// Given `self` and another point `other`, return a point on a line
    /// running between the two that is `scalar` fraction of the distance
    /// between the two points.
    fn lerp(&self, other: &Self, scalar: &Self::Scalar) -> (r: Self)
        requires
            Self::valid(Self::lerp_model(self.model(), other.model(), scalar)),
        ensures
            r.model() == Self::lerp_model(self.model(), other.model(), scalar),
    ;

    /// Between equal endpoints every weight gives the endpoint.
    proof fn lemma_lerp_same(a: Self::Model, t: &Self::Scalar)
        requires
            Self::valid(a),
        ensures
            Self::lerp_model(a, a, t) == a,
    ;

    /// The weight zero gives the first endpoint, the weight one the second.
    proof fn lemma_lerp_ends(a: Self::Model, b: Self::Model, t: &Self::Scalar)
        requires
            Self::valid(a),
            Self::valid(b),
        ensures
            Self::weight(t) == 0 ==> Self::lerp_model(a, b, t) == a,
            Self::weight(t) == Self::weight_one() ==> Self::lerp_model(a, b, t) == b,
    ;

    /// A weight in the unit interval gives a valid model.
    proof fn lemma_lerp_unit(a: Self::Model, b: Self::Model, t: &Self::Scalar)
        requires
            Self::valid(a),
            Self::valid(b),
            0 <= Self::weight(t) <= Self::weight_one(),
        ensures
            Self::valid(Self::lerp_model(a, b, t)),
    ;
}

/// Performs linear interpolation.
///
/// A linear interpolation consists of two states `a` and `b`. The `t`
/// variable is a factor between 0 and 1 that gives weight to `a` or `b`.
/// When `t` is zero then `a` has full weight. When `t` is one then `b` has
/// full weight.
pub fn lerp<T: Lerp>(a: &T, b: &T, t: &T::Scalar) -> (r: T)
    requires
        T::valid(T::lerp_model(a.model(), b.model(), t)),
    ensures
        r.model() == T::lerp_model(a.model(), b.model(), t),
{
    a.lerp(b, t)
}

/// Performs linear interpolation where it is defined.
///
/// `None` where the result would not be a value of the type.
pub fn checked_lerp<T: Lerp>(a: &T, b: &T, t: &T::Scalar) -> (r: Option<T>)
    ensures
        r.is_some() <==> T::valid(T::lerp_model(a.model(), b.model(), t)),
        r.is_some() ==> r.unwrap().model() == T::lerp_model(a.model(), b.model(), t),
{
    if a.lerp_fits(b, t) {
        Some(a.lerp(b, t))
    } else {
        None
    }
}

/// Interpolating between a value and itself is defined for every weight
/// and gives that value.
pub proof fn lemma_lerp_fixed_point<T: Lerp>(a: &T, t: &T::Scalar)
    ensures
        T::valid(T::lerp_model(a.model(), a.model(), t)),
        T::lerp_model(a.model(), a.model(), t) == a.model(),
{
    a.lemma_model_valid();
    T::lemma_lerp_same(a.model(), t);
}

/// With the weight zero the interpolation is defined and gives `a`; with
/// the weight one it is defined and gives `b`.
pub proof fn lemma_lerp_endpoints<T: Lerp>(a: &T, b: &T, t: &T::Scalar)
    ensures
        T::weight(t) == 0 ==> T::valid(T::lerp_model(a.model(), b.model(), t)) && T::lerp_model(
            a.model(),
            b.model(),
            t,
        ) == a.model(),
        T::weight(t) == T::weight_one() ==> T::valid(T::lerp_model(a.model(), b.model(), t)) && T::lerp_model(
            a.model(),
            b.model(),
            t,
        ) == b.model(),
{
    a.lemma_model_valid();
    b.lemma_model_valid();
    T::lemma_lerp_ends(a.model(), b.model(), t);
}

/// With a weight in the unit interval the interpolation of any two values
/// is defined.
pub proof fn lemma_lerp_defined<T: Lerp>(a: &T, b: &T, t: &T::Scalar)
    requires
        0 <= T::weight(t) <= T::weight_one(),
    ensures
        T::valid(T::lerp_model(a.model(), b.model(), t)),
{
    a.lemma_model_valid();
    b.lemma_model_valid();
    T::lemma_lerp_unit(a.model(), b.model(), t);
}

impl Lerp for Fixed {
    type Scalar = Fixed;

    open spec fn weight(t: &Fixed) -> int {
        t.raw as int
    }

    open spec fn weight_one() -> int {
        ONE as int
    }

    open spec fn lerp_model(a: int, b: int, t: &Fixed) -> int {
        blend(a, b, t.raw as int, ONE as int)
    }

    fn lerp_fits(&self, other: &Fixed, scalar: &Fixed) -> (ok: bool) {
        let v: i128 = blend_fixed(self.raw, other.raw, scalar);
        i32::MIN as i128 <= v && v <= i32::MAX as i128
    }

    fn lerp(&self, other: &Fixed, scalar: &Fixed) -> (r: Fixed) {
        let v: i128 = blend_fixed(self.raw, other.raw, scalar);
        Fixed { raw: v as i32 }
    }

    proof fn lemma_lerp_same(a: int, t: &Fixed) {
        lemma_blend_same(a, t.raw as int, ONE as int);
    }

    proof fn lemma_lerp_ends(a: int, b: int, t: &Fixed) {
        lemma_blend_ends(a, b, ONE as int);
    }

    proof fn lemma_lerp_unit(a: int, b: int, t: &Fixed) {
        lemma_blend_between(a, b, t.raw as int, ONE as int);
    }
}

impl Lerp for i8 {
    type Scalar = Weight;

    open spec fn weight(t: &Weight) -> int {
        t.raw as int
    }

    open spec fn weight_one() -> int {
        WEIGHT_ONE as int
    }

    open spec fn lerp_model(a: int, b: int, t: &Weight) -> int {
        blend(a, b, t.raw as int, WEIGHT_ONE as int)
    }

    fn lerp_fits(&self, other: &i8, scalar: &Weight) -> (ok: bool) {
        let v: i128 = blend_wide(*self as i128, *other as i128, scalar);
        i8::MIN as i128 <= v && v <= i8::MAX as i128
    }

    fn lerp(&self, other: &i8, scalar: &Weight) -> (r: i8) {
        let v: i128 = blend_wide(*self as i128, *other as i128, scalar);
        v as i8
    }

    proof fn lemma_lerp_same(a: int, t: &Weight) {
        lemma_blend_same(a, t.raw as int, WEIGHT_ONE as int);
    }

    proof fn lemma_lerp_ends(a: int, b: int, t: &Weight) {
        lemma_blend_ends(a, b, WEIGHT_ONE as int);
    }

    proof fn lemma_lerp_unit(a: int, b: int, t: &Weight) {
        lemma_blend_between(a, b, t.raw as int, WEIGHT_ONE as int);
    }
}

impl Lerp for i16 {
    type Scalar = Weight;

    open spec fn weight(t: &Weight) -> int {
        t.raw as int
    }

    open spec fn weight_one() -> int {
        WEIGHT_ONE as int
    }

    open spec fn lerp_model(a: int, b: int, t: &Weight) -> int {
        blend(a, b, t.raw as int, WEIGHT_ONE as int)
    }

    fn lerp_fits(&self, other: &i16, scalar: &Weight) -> (ok: bool) {
        let v: i128 = blend_wide(*self as i128, *other as i128, scalar);
        i16::MIN as i128 <= v && v <= i16::MAX as i128
    }

    fn lerp(&self, other: &i16, scalar: &Weight) -> (r: i16) {
        let v: i128 = blend_wide(*self as i128, *other as i128, scalar);
        v as i16
    }

    proof fn lemma_lerp_same(a: int, t: &Weight) {
        lemma_blend_same(a, t.raw as int, WEIGHT_ONE as int);
    }

    proof fn lemma_lerp_ends(a: int, b: int, t: &Weight) {
        lemma_blend_ends(a, b, WEIGHT_ONE as int);
    }

    proof fn lemma_lerp_unit(a: int, b: int, t: &Weight) {
        lemma_blend_between(a, b, t.raw as int, WEIGHT_ONE as int);
    }
}

impl Lerp for i32 {
    type Scalar = Weight;

    open spec fn weight(t: &Weight) -> int {
        t.raw as int
    }

    open spec fn weight_one() -> int {
        WEIGHT_ONE as int
    }

    open spec fn lerp_model(a: int, b: int, t: &Weight) -> int {
        blend(a, b, t.raw as int, WEIGHT_ONE as int)
    }

    fn lerp_fits(&self, other: &i32, scalar: &Weight) -> (ok: bool) {
        let v: i128 = blend_wide(*self as i128, *other as i128, scalar);
        i32::MIN as i128 <= v && v <= i32::MAX as i128
    }

    fn lerp(&self, other: &i32, scalar: &Weight) -> (r: i32) {
        let v: i128 = blend_wide(*self as i128, *other as i128, scalar);
        v as i32
    }

    proof fn lemma_lerp_same(a: int, t: &Weight) {
        lemma_blend_same(a, t.raw as int, WEIGHT_ONE as int);
    }

    proof fn lemma_lerp_ends(a: int, b: int, t: &Weight) {
        lemma_blend_ends(a, b, WEIGHT_ONE as int);
    }

    proof fn lemma_lerp_unit(a: int, b: int, t: &Weight) {
        lemma_blend_between(a, b, t.raw as int, WEIGHT_ONE as int);
    }
}

impl Lerp for i64 {
    type Scalar = Weight;

    open spec fn weight(t: &Weight) -> int {
        t.raw as int
    }

    open spec fn weight_one() -> int {
        WEIGHT_ONE as int
    }

    open spec fn lerp_model(a: int, b: int, t: &Weight) -> int {
        blend(a, b, t.raw as int, WEIGHT_ONE as int)
    }

    fn lerp_fits(&self, other: &i64, scalar: &Weight) -> (ok: bool) {
        let v: i128 = blend_wide(*self as i128, *other as i128, scalar);
        i64::MIN as i128 <= v && v <= i64::MAX as i128
    }

    fn lerp(&self, other: &i64, scalar: &Weight) -> (r: i64) {
        let v: i128 = blend_wide(*self as i128, *other as i128, scalar);
        v as i64
    }

    proof fn lemma_lerp_same(a: int, t: &Weight) {
        lemma_blend_same(a, t.raw as int, WEIGHT_ONE as int);
    }

    proof fn lemma_lerp_ends(a: int, b: int, t: &Weight) {
        lemma_blend_ends(a, b, WEIGHT_ONE as int);
    }

    proof fn lemma_lerp_unit(a: int, b: int, t: &Weight) {
        lemma_blend_between(a, b, t.raw as int, WEIGHT_ONE as int);
    }
}

impl Lerp for u8 {
    type Scalar = Weight;

    open spec fn weight(t: &Weight) -> int {
        t.raw as int
    }

    open spec fn weight_one() -> int {
        WEIGHT_ONE as int
    }

    open spec fn lerp_model(a: int, b: int, t: &Weight) -> int {
        blend(a, b, t.raw as int, WEIGHT_ONE as int)
    }

    fn lerp_fits(&self, other: &u8, scalar: &Weight) -> (ok: bool) {
        let v: i128 = blend_unsigned(*self as u64, *other as u64, scalar);
        0 <= v && v <= u8::MAX as i128
    }

    fn lerp(&self, other: &u8, scalar: &Weight) -> (r: u8) {
        let v: i128 = blend_unsigned(*self as u64, *other as u64, scalar);
        v as u8
    }

    proof fn lemma_lerp_same(a: int, t: &Weight) {
        lemma_blend_same(a, t.raw as int, WEIGHT_ONE as int);
    }

    proof fn lemma_lerp_ends(a: int, b: int, t: &Weight) {
        lemma_blend_ends(a, b, WEIGHT_ONE as int);
    }

    proof fn lemma_lerp_unit(a: int, b: int, t: &Weight) {
        lemma_blend_between(a, b, t.raw as int, WEIGHT_ONE as int);
    }
}

impl Lerp for u16 {
    type Scalar = Weight;

    open spec fn weight(t: &Weight) -> int {
        t.raw as int
    }

    open spec fn weight_one() -> int {
        WEIGHT_ONE as int
    }

    open spec fn lerp_model(a: int, b: int, t: &Weight) -> int {
        blend(a, b, t.raw as int, WEIGHT_ONE as int)
    }

    fn lerp_fits(&self, other: &u16, scalar: &Weight) -> (ok: bool) {
        let v: i128 = blend_unsigned(*self as u64, *other as u64, scalar);
        0 <= v && v <= u16::MAX as i128
    }

    fn lerp(&self, other: &u16, scalar: &Weight) -> (r: u16) {
        let v: i128 = blend_unsigned(*self as u64, *other as u64, scalar);
        v as u16
    }

    proof fn lemma_lerp_same(a: int, t: &Weight) {
        lemma_blend_same(a, t.raw as int, WEIGHT_ONE as int);
    }

    proof fn lemma_lerp_ends(a: int, b: int, t: &Weight) {
        lemma_blend_ends(a, b, WEIGHT_ONE as int);
    }

    proof fn lemma_lerp_unit(a: int, b: int, t: &Weight) {
        lemma_blend_between(a, b, t.raw as int, WEIGHT_ONE as int);
    }
}

impl Lerp for u32 {
    type Scalar = Weight;

    open spec fn weight(t: &Weight) -> int {
        t.raw as int
    }

    open spec fn weight_one() -> int {
        WEIGHT_ONE as int
    }

    open spec fn lerp_model(a: int, b: int, t: &Weight) -> int {
        blend(a, b, t.raw as int, WEIGHT_ONE as int)
    }

    fn lerp_fits(&self, other: &u32, scalar: &Weight) -> (ok: bool) {
        let v: i128 = blend_unsigned(*self as u64, *other as u64, scalar);
        0 <= v && v <= u32::MAX as i128
    }

    fn lerp(&self, other: &u32, scalar: &Weight) -> (r: u32) {
        let v: i128 = blend_unsigned(*self as u64, *other as u64, scalar);
        v as u32
    }

    proof fn lemma_lerp_same(a: int, t: &Weight) {
        lemma_blend_same(a, t.raw as int, WEIGHT_ONE as int);
    }

    proof fn lemma_lerp_ends(a: int, b: int, t: &Weight) {
        lemma_blend_ends(a, b, WEIGHT_ONE as int);
    }

    proof fn lemma_lerp_unit(a: int, b: int, t: &Weight) {
        lemma_blend_between(a, b, t.raw as int, WEIGHT_ONE as int);
    }
}

impl Lerp for u64 {
    type Scalar = Weight;

    open spec fn weight(t: &Weight) -> int {
        t.raw as int
    }

    open spec fn weight_one() -> int {
        WEIGHT_ONE as int
    }

    open spec fn lerp_model(a: int, b: int, t: &Weight) -> int {
        blend(a, b, t.raw as int, WEIGHT_ONE as int)
    }

    fn lerp_fits(&self, other: &u64, scalar: &Weight) -> (ok: bool) {
        let v: i128 = blend_unsigned(*self as u64, *other as u64, scalar);
        0 <= v && v <= u64::MAX as i128
    }

    fn lerp(&self, other: &u64, scalar: &Weight) -> (r: u64) {
        let v: i128 = blend_unsigned(*self as u64, *other as u64, scalar);
        v as u64
    }

    proof fn lemma_lerp_same(a: int, t: &Weight) {
        lemma_blend_same(a, t.raw as int, WEIGHT_ONE as int);
    }

    proof fn lemma_lerp_ends(a: int, b: int, t: &Weight) {
        lemma_blend_ends(a, b, WEIGHT_ONE as int);
    }

    proof fn lemma_lerp_unit(a: int, b: int, t: &Weight) {
        lemma_blend_between(a, b, t.raw as int, WEIGHT_ONE as int);
    }
}

/// The item-wise interpolation of two sequences of item models, with one
/// scalar for all items.
pub open spec fn lerp_seq<T: Lerp>(a: Seq<T::Model>, b: Seq<T::Model>, t: &T::Scalar) -> Seq<
    T::Model,
> {
    Seq::new(a.len(), |i: int| T::lerp_model(a[i], b[i], t))
}

/// Where the interpolation of two arrays is valid, so is that of each pair
/// of items.
proof fn lemma_item_valid<T: Lerp, const N: usize>(a: &[T; N], b: &[T; N], t: &T::Scalar, i: int)
    requires
        valid_seq::<T>(N as nat, lerp_seq::<T>(a.model(), b.model(), t)),
        0 <= i < N,
    ensures
        T::valid(T::lerp_model(a@[i].model(), b@[i].model(), t)),
{
    let m = lerp_seq::<T>(a.model(), b.model(), t);
    assert(T::valid(m[i]));
}

/// All pairs of items fit where the arrays' interpolation is valid, and
/// only there.
proof fn lemma_items_fit<T: Lerp, const N: usize>(
    a: &[T; N],
    b: &[T; N],
    t: &T::Scalar,
    ok: bool,
)
    requires
        ok == (forall|i: int|
            0 <= i < N ==> T::valid(
                T::lerp_model((#[trigger] a@[i]).model(), b@[i].model(), t),
            )),
    ensures
        ok == valid_seq::<T>(N as nat, lerp_seq::<T>(a.model(), b.model(), t)),
{
    let m = lerp_seq::<T>(a.model(), b.model(), t);
    if ok {
        assert forall|i: int| 0 <= i < N implies T::valid(#[trigger] m[i]) by {
            assert(T::valid(T::lerp_model(a@[i].model(), b@[i].model(), t)));
        }
    } else if valid_seq::<T>(N as nat, m) {
        assert forall|i: int| 0 <= i < N implies T::valid(
            T::lerp_model((#[trigger] a@[i]).model(), b@[i].model(), t),
        ) by {
            assert(T::valid(m[i]));
        }
    }
}

/// An array whose items are the interpolations of the items of `a` and `b`
/// has the interpolation of their models as its model.
proof fn lemma_items_model<T: Lerp, const N: usize>(
    a: &[T; N],
    b: &[T; N],
    t: &T::Scalar,
    r: &[T; N],
)
    requires
        forall|i: int|
            0 <= i < N ==> (#[trigger] r@[i]).model() == T::lerp_model(
                a@[i].model(),
                b@[i].model(),
                t,
            ),
    ensures
        r.model() == lerp_seq::<T>(a.model(), b.model(), t),
{
    assert(r.model() =~= lerp_seq::<T>(a.model(), b.model(), t));
}

/// Between equal endpoints every weight gives the endpoint, item by item.
proof fn lemma_seq_same<T: Lerp>(n: nat, a: Seq<T::Model>, t: &T::Scalar)
    requires
        valid_seq::<T>(n, a),
    ensures
        lerp_seq::<T>(a, a, t) == a,
{
    assert forall|i: int| 0 <= i < n implies #[trigger] lerp_seq::<T>(a, a, t)[i] == a[i] by {
        T::lemma_lerp_same(a[i], t);
    }
    assert(lerp_seq::<T>(a, a, t) =~= a);
}

/// The weight zero gives the first endpoint, the weight one the second,
/// item by item.
proof fn lemma_seq_ends<T: Lerp>(n: nat, a: Seq<T::Model>, b: Seq<T::Model>, t: &T::Scalar)
    requires
        valid_seq::<T>(n, a),
        valid_seq::<T>(n, b),
    ensures
        T::weight(t) == 0 ==> lerp_seq::<T>(a, b, t) == a,
        T::weight(t) == T::weight_one() ==> lerp_seq::<T>(a, b, t) == b,
{
    assert forall|i: int| 0 <= i < n implies (T::weight(t) == 0 ==> #[trigger] lerp_seq::<T>(
        a,
        b,
        t,
    )[i] == a[i]) && (T::weight(t) == T::weight_one() ==> lerp_seq::<T>(a, b, t)[i] == b[i]) by {
        T::lemma_lerp_ends(a[i], b[i], t);
    }
    if T::weight(t) == 0 {
        assert(lerp_seq::<T>(a, b, t) =~= a);
    }
    if T::weight(t) == T::weight_one() {
        assert(lerp_seq::<T>(a, b, t) =~= b);
    }
}

/// A weight in the unit interval gives valid item models.
proof fn lemma_seq_unit<T: Lerp>(n: nat, a: Seq<T::Model>, b: Seq<T::Model>, t: &T::Scalar)
    requires
        valid_seq::<T>(n, a),
        valid_seq::<T>(n, b),
        0 <= T::weight(t) <= T::weight_one(),
    ensures
        valid_seq::<T>(n, lerp_seq::<T>(a, b, t)),
{
    assert forall|i: int| 0 <= i < n implies T::valid(#[trigger] lerp_seq::<T>(a, b, t)[i]) by {
        T::lemma_lerp_unit(a[i], b[i], t);
    }
}

impl<T: Lerp> Lerp for [T; 1] {
    type Scalar = T::Scalar;

    open spec fn weight(t: &T::Scalar) -> int {
        T::weight(t)
    }

    open spec fn weight_one() -> int {
        T::weight_one()
    }

    open spec fn lerp_model(a: Seq<T::Model>, b: Seq<T::Model>, t: &T::Scalar) -> Seq<T::Model> {
        lerp_seq::<T>(a, b, t)
    }

    fn lerp_fits(&self, other: &Self, scalar: &T::Scalar) -> (ok: bool) {
        let ok = self[0].lerp_fits(&other[0], scalar);
        proof {
            lemma_items_fit(self, other, scalar, ok);
        }
        ok
    }

    fn lerp(&self, other: &Self, scalar: &T::Scalar) -> (r: Self) {
        proof {
            lemma_item_valid(self, other, scalar, 0);
        }
        let r = [self[0].lerp(&other[0], scalar)];
        proof {
            lemma_items_model(self, other, scalar, &r);
        }
        r
    }

    proof fn lemma_lerp_same(a: Seq<T::Model>, t: &T::Scalar) {
        lemma_seq_same::<T>(1, a, t);
    }

    proof fn lemma_lerp_ends(a: Seq<T::Model>, b: Seq<T::Model>, t: &T::Scalar) {
        lemma_seq_ends::<T>(1, a, b, t);
    }

    proof fn lemma_lerp_unit(a: Seq<T::Model>, b: Seq<T::Model>, t: &T::Scalar) {
        lemma_seq_unit::<T>(1, a, b, t);
    }
}

impl<T: Lerp> Lerp for [T; 2] {
    type Scalar = T::Scalar;

    open spec fn weight(t: &T::Scalar) -> int {
        T::weight(t)
    }

    open spec fn weight_one() -> int {
        T::weight_one()
    }

    open spec fn lerp_model(a: Seq<T::Model>, b: Seq<T::Model>, t: &T::Scalar) -> Seq<T::Model> {
        lerp_seq::<T>(a, b, t)
    }

    fn lerp_fits(&self, other: &Self, scalar: &T::Scalar) -> (ok: bool) {
        let ok = self[0].lerp_fits(&other[0], scalar) && self[1].lerp_fits(&other[1], scalar);
        proof {
            lemma_items_fit(self, other, scalar, ok);
        }
        ok
    }

    fn lerp(&self, other: &Self, scalar: &T::Scalar) -> (r: Self) {
        proof {
            lemma_item_valid(self, other, scalar, 0);
            lemma_item_valid(self, other, scalar, 1);
        }
        let r = [self[0].lerp(&other[0], scalar), self[1].lerp(&other[1], scalar)];
        proof {
            lemma_items_model(self, other, scalar, &r);
        }
        r
    }

    proof fn lemma_lerp_same(a: Seq<T::Model>, t: &T::Scalar) {
        lemma_seq_same::<T>(2, a, t);
    }

    proof fn lemma_lerp_ends(a: Seq<T::Model>, b: Seq<T::Model>, t: &T::Scalar) {
        lemma_seq_ends::<T>(2, a, b, t);
    }

    proof fn lemma_lerp_unit(a: Seq<T::Model>, b: Seq<T::Model>, t: &T::Scalar) {
        lemma_seq_unit::<T>(2, a, b, t);
    }
}

impl<T: Lerp> Lerp for [T; 3] {
    type Scalar = T::Scalar;

    open spec fn weight(t: &T::Scalar) -> int {
        T::weight(t)
    }

    open spec fn weight_one() -> int {
        T::weight_one()
    }

    open spec fn lerp_model(a: Seq<T::Model>, b: Seq<T::Model>, t: &T::Scalar) -> Seq<T::Model> {
        lerp_seq::<T>(a, b, t)
    }

    fn lerp_fits(&self, other: &Self, scalar: &T::Scalar) -> (ok: bool) {
        let ok = self[0].lerp_fits(&other[0], scalar)
            && self[1].lerp_fits(&other[1], scalar)
            && self[2].lerp_fits(&other[2], scalar);
        proof {
            lemma_items_fit(self, other, scalar, ok);
        }
        ok
    }

    fn lerp(&self, other: &Self, scalar: &T::Scalar) -> (r: Self) {
        proof {
            lemma_item_valid(self, other, scalar, 0);
            lemma_item_valid(self, other, scalar, 1);
            lemma_item_valid(self, other, scalar, 2);
        }
        let r = [
            self[0].lerp(&other[0], scalar),
            self[1].lerp(&other[1], scalar),
            self[2].lerp(&other[2], scalar),
        ];
        proof {
            lemma_items_model(self, other, scalar, &r);
        }
        r
    }

    proof fn lemma_lerp_same(a: Seq<T::Model>, t: &T::Scalar) {
        lemma_seq_same::<T>(3, a, t);
    }

    proof fn lemma_lerp_ends(a: Seq<T::Model>, b: Seq<T::Model>, t: &T::Scalar) {
        lemma_seq_ends::<T>(3, a, b, t);
    }

    proof fn lemma_lerp_unit(a: Seq<T::Model>, b: Seq<T::Model>, t: &T::Scalar) {
        lemma_seq_unit::<T>(3, a, b, t);
    }
}

impl<T: Lerp> Lerp for [T; 4] {
    type Scalar = T::Scalar;

    open spec fn weight(t: &T::Scalar) -> int {
        T::weight(t)
    }

    open spec fn weight_one() -> int {
        T::weight_one()
    }

    open spec fn lerp_model(a: Seq<T::Model>, b: Seq<T::Model>, t: &T::Scalar) -> Seq<T::Model> {
        lerp_seq::<T>(a, b, t)
    }

    fn lerp_fits(&self, other: &Self, scalar: &T::Scalar) -> (ok: bool) {
        let ok = self[0].lerp_fits(&other[0], scalar)
            && self[1].lerp_fits(&other[1], scalar)
            && self[2].lerp_fits(&other[2], scalar)
            && self[3].lerp_fits(&other[3], scalar);
        proof {
            lemma_items_fit(self, other, scalar, ok);
        }
        ok
    }

    fn lerp(&self, other: &Self, scalar: &T::Scalar) -> (r: Self) {
        proof {
            lemma_item_valid(self, other, scalar, 0);
            lemma_item_valid(self, other, scalar, 1);
            lemma_item_valid(self, other, scalar, 2);
            lemma_item_valid(self, other, scalar, 3);
        }
        let r = [
            self[0].lerp(&other[0], scalar),
            self[1].lerp(&other[1], scalar),
            self[2].lerp(&other[2], scalar),
            self[3].lerp(&other[3], scalar),
        ];
        proof {
            lemma_items_model(self, other, scalar, &r);
        }
        r
    }

    proof fn lemma_lerp_same(a: Seq<T::Model>, t: &T::Scalar) {
        lemma_seq_same::<T>(4, a, t);
    }

    proof fn lemma_lerp_ends(a: Seq<T::Model>, b: Seq<T::Model>, t: &T::Scalar) {
        lemma_seq_ends::<T>(4, a, b, t);
    }

    proof fn lemma_lerp_unit(a: Seq<T::Model>, b: Seq<T::Model>, t: &T::Scalar) {
        lemma_seq_unit::<T>(4, a, b, t);
    }
}

impl<T: Lerp> Lerp for [T; 5] {
    type Scalar = T::Scalar;

    open spec fn weight(t: &T::Scalar) -> int {
        T::weight(t)
    }

    open spec fn weight_one() -> int {
        T::weight_one()
    }

    open spec fn lerp_model(a: Seq<T::Model>, b: Seq<T::Model>, t: &T::Scalar) -> Seq<T::Model> {
        lerp_seq::<T>(a, b, t)
    }

    fn lerp_fits(&self, other: &Self, scalar: &T::Scalar) -> (ok: bool) {
        let ok = self[0].lerp_fits(&other[0], scalar)
            && self[1].lerp_fits(&other[1], scalar)
            && self[2].lerp_fits(&other[2], scalar)
            && self[3].lerp_fits(&other[3], scalar)
            && self[4].lerp_fits(&other[4], scalar);
        proof {
            lemma_items_fit(self, other, scalar, ok);
        }
        ok
    }

    fn lerp(&self, other: &Self, scalar: &T::Scalar) -> (r: Self) {
        proof {
            lemma_item_valid(self, other, scalar, 0);
            lemma_item_valid(self, other, scalar, 1);
            lemma_item_valid(self, other, scalar, 2);
            lemma_item_valid(self, other, scalar, 3);
            lemma_item_valid(self, other, scalar, 4);
        }
        let r = [
            self[0].lerp(&other[0], scalar),
            self[1].lerp(&other[1], scalar),
            self[2].lerp(&other[2], scalar),
            self[3].lerp(&other[3], scalar),
            self[4].lerp(&other[4], scalar),
        ];
        proof {
            lemma_items_model(self, other, scalar, &r);
        }
        r
    }

    proof fn lemma_lerp_same(a: Seq<T::Model>, t: &T::Scalar) {
        lemma_seq_same::<T>(5, a, t);
    }

    proof fn lemma_lerp_ends(a: Seq<T::Model>, b: Seq<T::Model>, t: &T::Scalar) {
        lemma_seq_ends::<T>(5, a, b, t);
    }

    proof fn lemma_lerp_unit(a: Seq<T::Model>, b: Seq<T::Model>, t: &T::Scalar) {
        lemma_seq_unit::<T>(5, a, b, t);
    }
}

} // verus!
