//! Q8.24 fixed-point numbers and the rounding rule of this library.
//!
//! A [`Fixed`] holds a signed 32-bit raw value and stands for the rational
//! number `raw / 2^24`: it has a step of about `6e-8` and reaches from -128
//! to just below 128. Where a quotient is not a whole number of steps,
//! [`round_div`] takes the nearest one, ties away from zero. Each
//! operation's contract says where it rounds, and whether once or more
//! often.

use vstd::prelude::*;
use vstd::arithmetic::div_mod::lemma_div_multiples_vanish_quotient;

verus! {

/// Raw value of the number one: two to the power of 24.
pub const ONE: i32 = 0x100_0000;

/// Raw value of one half.
pub const HALF: i32 = 0x80_0000;

/// Second power of [`ONE`].
pub const ONE_2: i128 = 0x1_0000_0000_0000;

/// Third power of [`ONE`].
pub const ONE_3: i128 = 0x100_0000_0000_0000_0000;

/// Fourth power of [`ONE`].
pub const ONE_4: i128 = 0x1_0000_0000_0000_0000_0000_0000;

/// Fifth power of [`ONE`].
pub const ONE_5: i128 = 0x100_0000_0000_0000_0000_0000_0000_0000;

/// Largest magnitude of a numerator that [`div_round`] accepts.
pub const NUMER_LIMIT: i128 = 0x2000_0000_0000_0000_0000_0000_0000_0000;

/// A Q8.24 fixed-point number: the rational `raw / 16777216`.
#[derive(Clone, Copy, Debug, PartialEq, Eq, Structural)]
pub struct Fixed {
    /// The number times 16777216.
    pub raw: i32,
}

/// The quotient `n / d` rounded to the nearest integer, ties away from zero.
pub open spec fn round_div(n: int, d: int) -> int
    recommends
        d > 0,
{
    if n >= 0 {
        (2 * n + d) / (2 * d)
    } else {
        -((2 * (-n) + d) / (2 * d))
    }
}

/// The rounded quotient is a nearest integer to the true quotient: it
/// misses `n / d` by at most one half. At exactly one half it is the one
/// farther from zero.
pub proof fn lemma_round_div_nearest(n: int, d: int)
    requires
        d > 0,
    ensures
        -d <= 2 * (round_div(n, d) * d - n) <= d,
        n >= 0 ==> 2 * (round_div(n, d) * d - n) > -d,
        n <= 0 ==> 2 * (round_div(n, d) * d - n) < d,
{
    let m = if n >= 0 {
        n
    } else {
        -n
    };
    let q = (2 * m + d) / (2 * d);
    assert(-d < 2 * (q * d - m) <= d) by (nonlinear_arith)
        requires
            d > 0,
            m >= 0,
            q == (2 * m + d) / (2 * d),
    ;
    let r = round_div(n, d);
    if n < 0 {
        assert(r == -q);
        assert(r * d == -(q * d)) by (nonlinear_arith)
            requires
                r == -q,
        ;
    } else if n == 0 {
        assert(q == 0) by (nonlinear_arith)
            requires
                d > 0,
                q == (2 * 0 + d) / (2 * d),
        ;
        assert(r * d == 0) by (nonlinear_arith)
            requires
                r == 0,
        ;
    }
}

/// Rounding a part and rounding the rest of a whole `q` gives `q` again,
/// or misses it by one where both parts end on one half.
pub proof fn lemma_round_div_complement(n: int, d: int, q: int)
    requires
        d > 0,
    ensures
        -1 <= round_div(n, d) + round_div(q * d - n, d) - q <= 1,
{
    lemma_round_div_nearest(n, d);
    lemma_round_div_nearest(q * d - n, d);
    let a = round_div(n, d);
    let b = round_div(q * d - n, d);
    let k = a + b - q;
    assert(k * d == (a * d - n) + (b * d - (q * d - n))) by (nonlinear_arith)
        requires
            k == a + b - q,
    ;
    assert(-1 <= k <= 1) by (nonlinear_arith)
        requires
            d > 0,
            -2 * d <= 2 * (k * d) <= 2 * d,
    ;
}

/// Doubling numerator and divisor leaves the rounded quotient as it is.
pub proof fn lemma_round_div_double(n: int, d: int)
    requires
        d > 0,
    ensures
        round_div(2 * n, 2 * d) == round_div(n, d),
{
    let m = if n >= 0 {
        n
    } else {
        -n
    };
    lemma_div_multiples_vanish_quotient(2, 2 * m + d, 2 * d);
    assert(2 * (2 * m + d) == 2 * (2 * m) + 2 * d && 2 * (2 * d) == 2 * (2 * d));
}

/// Rounding is odd: negating the numerator negates the quotient.
pub proof fn lemma_round_div_neg(n: int, d: int)
    requires
        d > 0,
    ensures
        round_div(-n, d) == -round_div(n, d),
{
    if n == 0 {
        assert((2 * 0 + d) / (2 * d) == 0) by (nonlinear_arith)
            requires
                d > 0,
        ;
    }
}

/// An exact multiple is divided without rounding.
pub proof fn lemma_round_div_exact(q: int, d: int)
    requires
        d > 0,
    ensures
        round_div(q * d, d) == q,
{
    if q >= 0 {
        assert(q * d >= 0) by (nonlinear_arith)
            requires
                q >= 0,
                d > 0,
        ;
        assert((2 * (q * d) + d) / (2 * d) == q) by (nonlinear_arith)
            requires
                q >= 0,
                d > 0,
        ;
    } else {
        assert(q * d < 0) by (nonlinear_arith)
            requires
                q < 0,
                d > 0,
        ;
        assert((2 * (-(q * d)) + d) / (2 * d) == -q) by (nonlinear_arith)
            requires
                q < 0,
                d > 0,
        ;
    }
}

/// A numerator between two multiples of the divisor rounds to a quotient
/// between the two factors.
pub proof fn lemma_round_div_between(n: int, d: int, lo: int, hi: int)
    requires
        d > 0,
        lo * d <= n <= hi * d,
    ensures
        lo <= round_div(n, d) <= hi,
{
    if n >= 0 {
        let q = (2 * n + d) / (2 * d);
        assert(q <= hi && (lo <= q)) by (nonlinear_arith)
            requires
                d > 0,
                n >= 0,
                lo * d <= n <= hi * d,
                q == (2 * n + d) / (2 * d),
        ;
    } else {
        let m = -n;
        let q = (2 * m + d) / (2 * d);
        assert(-q <= hi && lo <= -q) by (nonlinear_arith)
            requires
                d > 0,
                m > 0,
                lo * d <= -m <= hi * d,
                q == (2 * m + d) / (2 * d),
        ;
    }
}

/// Powers up to the fifth of a value between zero and `b` stay between zero
/// and the same powers of `b`.
pub proof fn lemma_power_bounds(x: int, b: int)
    requires
        0 <= x <= b,
    ensures
        0 <= x * x <= b * b,
        0 <= x * x * x <= b * b * b,
        0 <= x * x * x * x <= b * b * b * b,
        0 <= x * x * x * x * x <= b * b * b * b * b,
{
    let x2 = x * x;
    let b2 = b * b;
    assert(0 <= x2 <= b2) by (nonlinear_arith)
        requires
            0 <= x <= b,
            x2 == x * x,
            b2 == b * b,
    ;
    let x3 = x2 * x;
    let b3 = b2 * b;
    assert(0 <= x3 <= b3) by (nonlinear_arith)
        requires
            0 <= x <= b,
            0 <= x2 <= b2,
            x3 == x2 * x,
            b3 == b2 * b,
    ;
    let x4 = x3 * x;
    let b4 = b3 * b;
    assert(0 <= x4 <= b4) by (nonlinear_arith)
        requires
            0 <= x <= b,
            0 <= x3 <= b3,
            x4 == x3 * x,
            b4 == b3 * b,
    ;
    let x5 = x4 * x;
    let b5 = b4 * b;
    assert(0 <= x5 <= b5) by (nonlinear_arith)
        requires
            0 <= x <= b,
            0 <= x4 <= b4,
            x5 == x4 * x,
            b5 == b4 * b,
    ;
}

/// Divides `n` by `d` and rounds to the nearest integer, ties away from zero.
pub fn div_round(n: i128, d: i128) -> (q: i128)
    requires
        0 < d <= NUMER_LIMIT,
        -NUMER_LIMIT <= n <= NUMER_LIMIT,
    ensures
        q == round_div(n as int, d as int),
{
    if n >= 0 {
        (2 * n + d) / (2 * d)
    } else {
        let m: i128 = -n;
        let q: i128 = (2 * m + d) / (2 * d);
        assert(0 <= q <= 2 * m + d) by (nonlinear_arith)
            requires
                q == (2 * m + d) / (2 * d),
                m > 0,
                d > 0,
        ;
        -q
    }
}

impl Fixed {
    /// The number zero.
    pub fn zero() -> (r: Fixed)
        ensures
            r.raw == 0,
    {
        Fixed { raw: 0 }
    }

    /// The number one.
    pub fn one() -> (r: Fixed)
        ensures
            r.raw == ONE,
    {
        Fixed { raw: ONE }
    }

    /// The whole number `n`.
    pub fn from_int(n: i8) -> (r: Fixed)
        ensures
            r.raw == n * ONE,
    {
        Fixed { raw: (n as i32) * ONE }
    }

    /// The fraction `num / den`, rounded to the nearest representable value.
    ///
    /// `None` when `den` is zero or the rounded value has no 32-bit raw form.
    pub fn from_ratio(num: i32, den: u32) -> (r: Option<Fixed>)
        ensures
            r.is_some() <==> den > 0 && i32::MIN <= round_div(num * ONE, den as int) <= i32::MAX,
            r.is_some() ==> r.unwrap().raw == round_div(num * ONE, den as int),
    {
        if den == 0 {
            return None;
        }
        let n: i128 = (num as i128) * 0x100_0000;
        let q: i128 = div_round(n, den as i128);
        if q < i32::MIN as i128 || q > i32::MAX as i128 {
            None
        } else {
            Some(Fixed { raw: q as i32 })
        }
    }
}

/// Narrows a wide raw value that is known to fit.
pub(crate) fn narrow(q: i128) -> (r: Fixed)
    requires
        i32::MIN <= q <= i32::MAX,
    ensures
        r.raw == q,
{
    Fixed { raw: q as i32 }
}

} // verus!
