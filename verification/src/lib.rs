//! Interpolation primitives in fixed-point arithmetic: linear
//! interpolation, Bezier curves built from it, thirty easing curves and a
//! small vector algebra, each with a machine-checked contract.
//!
//! Progress values and eased values are Q8.24 scalars ([`Fixed`]); whole
//! numbers are interpolated with Q8.56 weights ([`Weight`]).

use vstd::prelude::*;

pub use ease::EaseFunction;
pub use fixed::Fixed;
pub use lerp::{checked_lerp, lerp, Lerp};
pub use model::Modeled;
pub use spatial::Spatial;
pub use weight::Weight;

pub mod ease;
pub mod fixed;
pub mod lerp;
pub mod math;
pub mod model;
pub mod spatial;
pub mod weight;

verus! {

/// The model of a quadratic Bezier curve: two interpolations, interpolated.
pub open spec fn quad_bez_model<T: Lerp>(
    x0: T::Model,
    x1: T::Model,
    x2: T::Model,
    t: &T::Scalar,
) -> T::Model {
    T::lerp_model(T::lerp_model(x0, x1, t), T::lerp_model(x1, x2, t), t)
}

/// Whether every interpolation of a quadratic Bezier curve is valid.
pub open spec fn quad_bez_valid<T: Lerp>(
    x0: T::Model,
    x1: T::Model,
    x2: T::Model,
    t: &T::Scalar,
) -> bool {
    &&& T::valid(T::lerp_model(x0, x1, t))
    &&& T::valid(T::lerp_model(x1, x2, t))
    &&& T::valid(quad_bez_model::<T>(x0, x1, x2, t))
}

/// The model of a cubic Bezier curve: two quadratic curves, interpolated.
pub open spec fn cub_bez_model<T: Lerp>(
    x0: T::Model,
    x1: T::Model,
    x2: T::Model,
    x3: T::Model,
    t: &T::Scalar,
) -> T::Model {
    T::lerp_model(quad_bez_model::<T>(x0, x1, x2, t), quad_bez_model::<T>(x1, x2, x3, t), t)
}

/// Whether every interpolation of a cubic Bezier curve is valid.
pub open spec fn cub_bez_valid<T: Lerp>(
    x0: T::Model,
    x1: T::Model,
    x2: T::Model,
    x3: T::Model,
    t: &T::Scalar,
) -> bool {
    &&& quad_bez_valid::<T>(x0, x1, x2, t)
    &&& quad_bez_valid::<T>(x1, x2, x3, t)
    &&& T::valid(cub_bez_model::<T>(x0, x1, x2, x3, t))
}

/// Performs quadratic Bezier interpolation, by nesting linear
/// interpolations.
pub fn quad_bez<T: Lerp>(x0: &T, x1: &T, x2: &T, t: &T::Scalar) -> (r: T)
    requires
        quad_bez_valid::<T>(x0.model(), x1.model(), x2.model(), t),
    ensures
        r.model() == quad_bez_model::<T>(x0.model(), x1.model(), x2.model(), t),
{
    let x_0_1 = lerp(x0, x1, t);
    let x_1_2 = lerp(x1, x2, t);
    lerp(&x_0_1, &x_1_2, t)
}

/// Performs cubic Bezier interpolation, by interpolating between two
/// quadratic Bezier curves.
pub fn cub_bez<T: Lerp>(x0: &T, x1: &T, x2: &T, x3: &T, t: &T::Scalar) -> (r: T)
    requires
        cub_bez_valid::<T>(x0.model(), x1.model(), x2.model(), x3.model(), t),
    ensures
        r.model() == cub_bez_model::<T>(x0.model(), x1.model(), x2.model(), x3.model(), t),
{
    let x_0_2 = quad_bez(x0, x1, x2, t);
    let x_1_3 = quad_bez(x1, x2, x3, t);
    lerp(&x_0_2, &x_1_3, t)
}

/// Performs quadratic Bezier interpolation where every step of it is
/// defined.
///
/// `None` where one of the three interpolations would not give a value of
/// the type.
pub fn checked_quad_bez<T: Lerp>(x0: &T, x1: &T, x2: &T, t: &T::Scalar) -> (r: Option<T>)
    ensures
        r.is_some() <==> quad_bez_valid::<T>(x0.model(), x1.model(), x2.model(), t),
        r.is_some() ==> r.unwrap().model() == quad_bez_model::<T>(
            x0.model(),
            x1.model(),
            x2.model(),
            t,
        ),
{
    match checked_lerp(x0, x1, t) {
        None => None,
        Some(x_0_1) => match checked_lerp(x1, x2, t) {
            None => None,
            Some(x_1_2) => checked_lerp(&x_0_1, &x_1_2, t),
        },
    }
}

/// Performs cubic Bezier interpolation where every step of it is defined.
///
/// `None` where one of the interpolations would not give a value of the
/// type.
pub fn checked_cub_bez<T: Lerp>(x0: &T, x1: &T, x2: &T, x3: &T, t: &T::Scalar) -> (r: Option<T>)
    ensures
        r.is_some() <==> cub_bez_valid::<T>(x0.model(), x1.model(), x2.model(), x3.model(), t),
        r.is_some() ==> r.unwrap().model() == cub_bez_model::<T>(
            x0.model(),
            x1.model(),
            x2.model(),
            x3.model(),
            t,
        ),
{
    match checked_quad_bez(x0, x1, x2, t) {
        None => None,
        Some(x_0_2) => match checked_quad_bez(x1, x2, x3, t) {
            None => None,
            Some(x_1_3) => checked_lerp(&x_0_2, &x_1_3, t),
        },
    }
}

/// A quadratic curve whose three control points are equal is constant: it
/// is defined for every weight and gives that point.
pub proof fn lemma_quad_bez_same<T: Lerp>(x: &T, t: &T::Scalar)
    ensures
        quad_bez_valid::<T>(x.model(), x.model(), x.model(), t),
        quad_bez_model::<T>(x.model(), x.model(), x.model(), t) == x.model(),
{
    x.lemma_model_valid();
    T::lemma_lerp_same(x.model(), t);
}

/// A quadratic curve starts at its first control point and ends at its
/// last: with the weight zero it is defined and gives `x0`, with the weight
/// one it is defined and gives `x2`.
pub proof fn lemma_quad_bez_ends<T: Lerp>(x0: &T, x1: &T, x2: &T, t: &T::Scalar)
    ensures
        T::weight(t) == 0 ==> quad_bez_valid::<T>(x0.model(), x1.model(), x2.model(), t)
            && quad_bez_model::<T>(x0.model(), x1.model(), x2.model(), t) == x0.model(),
        T::weight(t) == T::weight_one() ==> quad_bez_valid::<T>(x0.model(), x1.model(), x2.model(), t)
            && quad_bez_model::<T>(x0.model(), x1.model(), x2.model(), t) == x2.model(),
{
    x0.lemma_model_valid();
    x1.lemma_model_valid();
    x2.lemma_model_valid();
    T::lemma_lerp_ends(x0.model(), x1.model(), t);
    T::lemma_lerp_ends(x1.model(), x2.model(), t);
}

/// A cubic curve starts at its first control point and ends at its last:
/// with the weight zero it is defined and gives `x0`, with the weight one
/// it is defined and gives `x3`, whatever the inner control points are.
pub proof fn lemma_cub_bez_ends<T: Lerp>(x0: &T, x1: &T, x2: &T, x3: &T, t: &T::Scalar)
    ensures
        T::weight(t) == 0 ==> cub_bez_valid::<T>(
            x0.model(),
            x1.model(),
            x2.model(),
            x3.model(),
            t,
        ) && cub_bez_model::<T>(x0.model(), x1.model(), x2.model(), x3.model(), t) == x0.model(),
        T::weight(t) == T::weight_one() ==> cub_bez_valid::<T>(
            x0.model(),
            x1.model(),
            x2.model(),
            x3.model(),
            t,
        ) && cub_bez_model::<T>(x0.model(), x1.model(), x2.model(), x3.model(), t) == x3.model(),
{
    lemma_quad_bez_ends(x0, x1, x2, t);
    lemma_quad_bez_ends(x1, x2, x3, t);
    x0.lemma_model_valid();
    x1.lemma_model_valid();
    x2.lemma_model_valid();
    x3.lemma_model_valid();
    if T::weight(t) == 0 {
        T::lemma_lerp_ends(x0.model(), x1.model(), t);
    }
    if T::weight(t) == T::weight_one() {
        T::lemma_lerp_ends(x2.model(), x3.model(), t);
    }
}

/// With a weight in the unit interval, quadratic and cubic curves are
/// defined for all control points.
pub proof fn lemma_bez_defined<T: Lerp>(x0: &T, x1: &T, x2: &T, x3: &T, t: &T::Scalar)
    requires
        0 <= T::weight(t) <= T::weight_one(),
    ensures
        quad_bez_valid::<T>(x0.model(), x1.model(), x2.model(), t),
        cub_bez_valid::<T>(x0.model(), x1.model(), x2.model(), x3.model(), t),
{
    x0.lemma_model_valid();
    x1.lemma_model_valid();
    x2.lemma_model_valid();
    x3.lemma_model_valid();
    let a = T::lerp_model(x0.model(), x1.model(), t);
    let b = T::lerp_model(x1.model(), x2.model(), t);
    let c = T::lerp_model(x2.model(), x3.model(), t);
    T::lemma_lerp_unit(x0.model(), x1.model(), t);
    T::lemma_lerp_unit(x1.model(), x2.model(), t);
    T::lemma_lerp_unit(x2.model(), x3.model(), t);
    T::lemma_lerp_unit(a, b, t);
    T::lemma_lerp_unit(b, c, t);
    T::lemma_lerp_unit(T::lerp_model(a, b, t), T::lerp_model(b, c, t), t);
}

} // verus!
