//! Q8.56 fixed-point weights.
//!
//! A [`Weight`] holds a signed 64-bit raw value and stands for the rational
//! number `raw / 2^56`: it reaches from -128 to just below 128 and misses a
//! fraction by `2^-57` at most. It is the scalar of whole numbers: the
//! scaled difference of two 64-bit numbers is rounded once, from the exact
//! product with the weight.

use vstd::prelude::*;
use crate::fixed::{div_round, round_div, Fixed};

verus! {

/// Raw value of the weight one: two to the power of 56.
pub const WEIGHT_ONE: i64 = 0x100_0000_0000_0000;

/// A Q8.56 fixed-point weight: the rational `raw / 2^56`.
#[derive(Clone, Copy, Debug, PartialEq, Eq, Structural)]
pub struct Weight {
    /// The weight times two to the power of 56.
    pub raw: i64,
}

impl Weight {
    /// The weight zero.
    pub fn zero() -> (r: Weight)
        ensures
            r.raw == 0,
    {
        Weight { raw: 0 }
    }

    /// The weight one.
    pub fn one() -> (r: Weight)
        ensures
            r.raw == WEIGHT_ONE,
    {
        Weight { raw: WEIGHT_ONE }
    }

    /// The whole number `n`.
    pub fn from_int(n: i8) -> (r: Weight)
        ensures
            r.raw == n * WEIGHT_ONE,
    {
        Weight { raw: (n as i64) * 0x100_0000_0000_0000 }
    }

    /// The weight with the value of a fixed-point scalar; the conversion is
    /// exact.
    pub fn from_fixed(x: Fixed) -> (r: Weight)
        ensures
            r.raw == x.raw * 0x1_0000_0000,
    {
        Weight { raw: (x.raw as i64) * 0x1_0000_0000 }
    }

    /// The fraction `num / den`, rounded to the nearest weight.
    ///
    /// `None` when `den` is zero or the rounded value has no 64-bit raw form.
    pub fn from_ratio(num: i32, den: u32) -> (r: Option<Weight>)
        ensures
            r.is_some() <==> den > 0 && i64::MIN <= round_div(num * WEIGHT_ONE, den as int)
                <= i64::MAX,
            r.is_some() ==> r.unwrap().raw == round_div(num * WEIGHT_ONE, den as int),
    {
        if den == 0 {
            return None;
        }
        let n: i128 = (num as i128) * 0x100_0000_0000_0000;
        let q: i128 = div_round(n, den as i128);
        if q < i64::MIN as i128 || q > i64::MAX as i128 {
            None
        } else {
            Some(Weight { raw: q as i64 })
        }
    }
}

/// The product of a wide whole number and a raw weight, as a whole number:
/// `d * w / 2^56`, rounded once to the nearest whole number, ties away from
/// zero. The product itself has up to 129 bits, so it is taken in two
/// halves.
pub(crate) fn scale_round(d: i128, w: i64) -> (r: i128)
    requires
        -0x2_0000_0000_0000_0000 <= d <= 0x2_0000_0000_0000_0000,
    ensures
        r == round_div(d * w, WEIGHT_ONE as int),
        -0x1000_0000_0000_0000_0000 <= r <= 0x1000_0000_0000_0000_0000,
{
    let dm: u128 = if d < 0 {
        (-d) as u128
    } else {
        d as u128
    };
    let wm: u128 = if w < 0 {
        (-(w as i128)) as u128
    } else {
        w as u128
    };
    let dh: u128 = dm / 0x1_0000_0000;
    let dl: u128 = dm % 0x1_0000_0000;
    assert(dh * wm <= 0x2_0000_0000 * 0x8000_0000_0000_0000 && dl * wm <= 0x1_0000_0000
        * 0x8000_0000_0000_0000) by (nonlinear_arith)
        requires
            0 <= dh <= 0x2_0000_0000,
            0 <= dl <= 0x1_0000_0000,
            0 <= wm <= 0x8000_0000_0000_0000,
    ;
    let hi: u128 = dh * wm;
    let lo: u128 = dl * wm;
    let x: u128 = hi + (lo + 0x80_0000_0000_0000) / 0x1_0000_0000;
    let q: u128 = x / 0x100_0000;
    let negative: bool = (d < 0) != (w < 0);
    proof {
        let p = dm * wm;
        assert(p == hi * 0x1_0000_0000 + lo) by (nonlinear_arith)
            requires
                dm == dh * 0x1_0000_0000 + dl,
                hi == dh * wm,
                lo == dl * wm,
                p == dm * wm,
        ;
        assert(q == (2 * p + 0x100_0000_0000_0000) / 0x200_0000_0000_0000);
        assert(d * w == if negative {
            -p
        } else {
            p
        }) by (nonlinear_arith)
            requires
                p == dm * wm,
                d < 0 ==> dm == -d,
                d >= 0 ==> dm == d,
                w < 0 ==> wm == -w,
                w >= 0 ==> wm == w,
                negative == ((d < 0) != (w < 0)),
        ;
        assert(p >= 0) by (nonlinear_arith)
            requires
                p == dm * wm,
                dm >= 0,
                wm >= 0,
        ;
    }
    if negative {
        -(q as i128)
    } else {
        q as i128
    }
}

} // verus!
