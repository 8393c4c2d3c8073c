//! Easing curves.
//!
//! Every curve takes a progress value, clamps it to the unit interval and
//! returns the eased progress. Each curve is stated as an expression in the
//! clamped raw value `u`, and the expression shows where it rounds:
//!
//! * the polynomial curves and the arcs of the bounce ease-out are exact
//!   rational expressions, rounded once to the nearest raw value, ties away
//!   from zero;
//! * the circular curves floor their square root, and the ease-in-out one
//!   then halves with rounding;
//! * the sine, exponential, elastic and back curves take their sine and
//!   their power of two rounded to a raw value, and round again where they
//!   multiply or halve them;
//! * the bounce ease-in-out halves an already rounded bounce value.

use vstd::prelude::*;
use vstd::arithmetic::power2::lemma2_to64;
use crate::fixed::{
    div_round, lemma_power_bounds, lemma_round_div_between, lemma_round_div_complement,
    lemma_round_div_double, lemma_round_div_exact, lemma_round_div_nearest, lemma_round_div_neg, narrow, round_div,
    Fixed,
};
use crate::fixed::{HALF, ONE, ONE_2, ONE_3, ONE_4, ONE_5};
use crate::math::{
    cos_quarter, cos_quarter_at, exp2, exp2_at, floor_sqrt, isqrt, lemma_exp2_tangent,
    lemma_exp2_whole,
    lemma_floor_sqrt_unique, lemma_sin_arc_range, lemma_sin_quarter_periodic,
    lemma_sin_quarter_range, lemma_sin_quarter_symmetry, lemma_sin_quarter_turns, sin_arc,
    sin_quarter, sin_quarter_at,
};

verus! {

/// A raw value clamped to the unit interval: below zero it is zero, above
/// one it is one.
pub open spec fn unit(x: int) -> int {
    if x > ONE {
        ONE as int
    } else if x < 0 {
        0
    } else {
        x
    }
}

/// Clamps a progress value to the unit interval.
pub fn normalized(p: Fixed) -> (r: Fixed)
    ensures
        r.raw == unit(p.raw as int),
{
    if p.raw > ONE {
        Fixed { raw: ONE }
    } else if p.raw < 0 {
        Fixed { raw: 0 }
    } else {
        p
    }
}

/// The clamped raw value of `p` in wide form.
fn clamped(p: Fixed) -> (u: i128)
    ensures
        u == unit(p.raw as int),
        0 <= u <= ONE,
{
    normalized(p).raw as i128
}

/// The thirty easing curves: ten families, each as ease-in, ease-out and
/// ease-in-out.
#[derive(Clone, Copy, Debug, PartialEq, Eq, Structural)]
pub enum EaseFunction {
    QuadraticIn,
    QuadraticOut,
    QuadraticInOut,
    CubicIn,
    CubicOut,
    CubicInOut,
    QuarticIn,
    QuarticOut,
    QuarticInOut,
    QuinticIn,
    QuinticOut,
    QuinticInOut,
    SineIn,
    SineOut,
    SineInOut,
    CircularIn,
    CircularOut,
    CircularInOut,
    ExponentialIn,
    ExponentialOut,
    ExponentialInOut,
    ElasticIn,
    ElasticOut,
    ElasticInOut,
    BackIn,
    BackOut,
    BackInOut,
    BounceIn,
    BounceOut,
    BounceInOut,
}

impl EaseFunction {
    /// The curve's raw value at a clamped raw value `u`, between zero and
    /// one.
    pub open spec fn at(self, u: int) -> int {
        match self {
            EaseFunction::QuadraticIn => quadratic_in_at(u),
            EaseFunction::QuadraticOut => quadratic_out_at(u),
            EaseFunction::QuadraticInOut => quadratic_in_out_at(u),
            EaseFunction::CubicIn => cubic_in_at(u),
            EaseFunction::CubicOut => cubic_out_at(u),
            EaseFunction::CubicInOut => cubic_in_out_at(u),
            EaseFunction::QuarticIn => quartic_in_at(u),
            EaseFunction::QuarticOut => quartic_out_at(u),
            EaseFunction::QuarticInOut => quartic_in_out_at(u),
            EaseFunction::QuinticIn => quintic_in_at(u),
            EaseFunction::QuinticOut => quintic_out_at(u),
            EaseFunction::QuinticInOut => quintic_in_out_at(u),
            EaseFunction::SineIn => sine_in_at(u),
            EaseFunction::SineOut => sine_out_at(u),
            EaseFunction::SineInOut => sine_in_out_at(u),
            EaseFunction::CircularIn => circular_in_at(u),
            EaseFunction::CircularOut => circular_out_at(u),
            EaseFunction::CircularInOut => circular_in_out_at(u),
            EaseFunction::ExponentialIn => exponential_in_at(u),
            EaseFunction::ExponentialOut => exponential_out_at(u),
            EaseFunction::ExponentialInOut => exponential_in_out_at(u),
            EaseFunction::ElasticIn => elastic_in_at(u),
            EaseFunction::ElasticOut => elastic_out_at(u),
            EaseFunction::ElasticInOut => elastic_in_out_at(u),
            EaseFunction::BackIn => back_in_at(u),
            EaseFunction::BackOut => back_out_at(u),
            EaseFunction::BackInOut => back_in_out_at(u),
            EaseFunction::BounceIn => bounce_in_at(u),
            EaseFunction::BounceOut => bounce_out_at(u),
            EaseFunction::BounceInOut => bounce_in_out_at(u),
        }
    }

    /// The curve's raw value at any raw progress `x`: the progress is
    /// clamped to the unit interval first.
    pub open spec fn eased(self, x: int) -> int {
        self.at(unit(x))
    }

    /// Whether the curve leaves the unit interval on its way: the elastic
    /// and the back curves do, by design.
    pub open spec fn overshoots(self) -> bool {
        match self {
            EaseFunction::ElasticIn
            | EaseFunction::ElasticOut
            | EaseFunction::ElasticInOut
            | EaseFunction::BackIn
            | EaseFunction::BackOut
            | EaseFunction::BackInOut => true,
            _ => false,
        }
    }

    /// Evaluates the curve that `self` names at the progress `p`.
    ///
    /// A curve that does not overshoot stays in the unit interval; one that
    /// does stays between minus one and two.
    pub fn calc(self, p: Fixed) -> (r: Fixed)
        ensures
            r.raw == self.eased(p.raw as int),
            !self.overshoots() ==> 0 <= r.raw <= ONE,
            -ONE <= r.raw <= 2 * ONE,
    {
        match self {
            EaseFunction::QuadraticIn => quadratic_in(p),
            EaseFunction::QuadraticOut => quadratic_out(p),
            EaseFunction::QuadraticInOut => quadratic_in_out(p),
            EaseFunction::CubicIn => cubic_in(p),
            EaseFunction::CubicOut => cubic_out(p),
            EaseFunction::CubicInOut => cubic_in_out(p),
            EaseFunction::QuarticIn => quartic_in(p),
            EaseFunction::QuarticOut => quartic_out(p),
            EaseFunction::QuarticInOut => quartic_in_out(p),
            EaseFunction::QuinticIn => quintic_in(p),
            EaseFunction::QuinticOut => quintic_out(p),
            EaseFunction::QuinticInOut => quintic_in_out(p),
            EaseFunction::SineIn => sine_in(p),
            EaseFunction::SineOut => sine_out(p),
            EaseFunction::SineInOut => sine_in_out(p),
            EaseFunction::CircularIn => circular_in(p),
            EaseFunction::CircularOut => circular_out(p),
            EaseFunction::CircularInOut => circular_in_out(p),
            EaseFunction::ExponentialIn => exponential_in(p),
            EaseFunction::ExponentialOut => exponential_out(p),
            EaseFunction::ExponentialInOut => exponential_in_out(p),
            EaseFunction::ElasticIn => elastic_in(p),
            EaseFunction::ElasticOut => elastic_out(p),
            EaseFunction::ElasticInOut => elastic_in_out(p),
            EaseFunction::BackIn => back_in(p),
            EaseFunction::BackOut => back_out(p),
            EaseFunction::BackInOut => back_in_out(p),
            EaseFunction::BounceIn => bounce_in(p),
            EaseFunction::BounceOut => bounce_out(p),
            EaseFunction::BounceInOut => bounce_in_out(p),
        }
    }
}

/// `p²` at clamped raw value `u`.
pub open spec fn quadratic_in_at(u: int) -> int {
    round_div(u * u, ONE as int)
}

/// `-p(p - 2)` at clamped raw value `u`.
pub open spec fn quadratic_out_at(u: int) -> int {
    round_div(-(u * (u - 2 * ONE)), ONE as int)
}

/// `2p²`, the first half of the quadratic ease-in-out curve.
pub open spec fn quadratic_in_out_low(u: int) -> int {
    round_div(2 * (u * u), ONE as int)
}

/// `-2p² + 4p - 1`, the second half of the quadratic ease-in-out curve.
pub open spec fn quadratic_in_out_high(u: int) -> int {
    round_div(-2 * (u * u) + 4 * u * ONE - ONE_2, ONE as int)
}

/// `2p²` below one half, `-2p² + 4p - 1` from one half on.
pub open spec fn quadratic_in_out_at(u: int) -> int {
    if u < HALF {
        quadratic_in_out_low(u)
    } else {
        quadratic_in_out_high(u)
    }
}

/// Quadratic ease-in: `p²`.
pub fn quadratic_in(p: Fixed) -> (r: Fixed)
    ensures
        r.raw == quadratic_in_at(unit(p.raw as int)),
        0 <= r.raw <= ONE,
{
    let u: i128 = clamped(p);
    proof {
        lemma_power_bounds(u as int, ONE as int);
        lemma_round_div_between(u * u, ONE as int, 0, ONE as int);
    }
    narrow(div_round(u * u, 0x100_0000))
}

/// Quadratic ease-out: `-p(p - 2)`.
pub fn quadratic_out(p: Fixed) -> (r: Fixed)
    ensures
        r.raw == quadratic_out_at(unit(p.raw as int)),
        0 <= r.raw <= ONE,
{
    let u: i128 = clamped(p);
    let g: i128 = 0x200_0000 - u;
    assert(0 <= u * g <= ONE_2 && u * g == -(u * (u - 2 * ONE))) by (nonlinear_arith)
        requires
            0 <= u <= 0x100_0000,
            g == 0x200_0000 - u,
    ;
    proof {
        lemma_round_div_between(u * g, ONE as int, 0, ONE as int);
    }
    narrow(div_round(u * g, 0x100_0000))
}

/// Quadratic ease-in-out: `2p²` below one half, `-2p² + 4p - 1` from one
/// half on.
pub fn quadratic_in_out(p: Fixed) -> (r: Fixed)
    ensures
        r.raw == quadratic_in_out_at(unit(p.raw as int)),
        0 <= r.raw <= ONE,
{
    let u: i128 = clamped(p);
    proof {
        lemma_power_bounds(u as int, ONE as int);
    }
    let s: i128 = u * u;
    if u < 0x80_0000 {
        assert(0 <= 2 * s <= ONE_2) by (nonlinear_arith)
            requires
                0 <= u < 0x80_0000,
                s == u * u,
        ;
        proof {
            lemma_round_div_between(2 * s, ONE as int, 0, ONE as int);
        }
        narrow(div_round(2 * s, 0x100_0000))
    } else {
        let n: i128 = 4 * u * 0x100_0000 - 2 * s - 0x1_0000_0000_0000;
        assert(0 <= n <= ONE_2) by (nonlinear_arith)
            requires
                0x80_0000 <= u <= 0x100_0000,
                s == u * u,
                n == 4 * u * 0x100_0000 - 2 * s - 0x1_0000_0000_0000,
        ;
        proof {
            lemma_round_div_between(n as int, ONE as int, 0, ONE as int);
        }
        narrow(div_round(n, 0x100_0000))
    }
}

/// `p³` at clamped raw value `u`.
pub open spec fn cubic_in_at(u: int) -> int {
    round_div(u * u * u, ONE_2 as int)
}

/// `(p - 1)³ + 1` at clamped raw value `u`.
pub open spec fn cubic_out_at(u: int) -> int {
    let f = u - ONE;
    round_div(f * f * f + ONE_3, ONE_2 as int)
}

/// `4p³`, the first half of the cubic ease-in-out curve.
pub open spec fn cubic_in_out_low(u: int) -> int {
    round_div(4 * (u * u * u), ONE_2 as int)
}

/// `0.5 (2p - 2)³ + 1`, the second half of the cubic ease-in-out curve.
pub open spec fn cubic_in_out_high(u: int) -> int {
    let f = 2 * u - 2 * ONE;
    round_div(f * f * f + 2 * ONE_3, 2 * ONE_2)
}

/// `4p³` below one half, `0.5 (2p - 2)³ + 1` from one half on.
pub open spec fn cubic_in_out_at(u: int) -> int {
    if u < HALF {
        cubic_in_out_low(u)
    } else {
        cubic_in_out_high(u)
    }
}

/// Cubic ease-in: `p³`.
pub fn cubic_in(p: Fixed) -> (r: Fixed)
    ensures
        r.raw == cubic_in_at(unit(p.raw as int)),
        0 <= r.raw <= ONE,
{
    let u: i128 = clamped(p);
    proof {
        lemma_power_bounds(u as int, ONE as int);
        lemma_round_div_between(u * u * u, ONE_2 as int, 0, ONE as int);
    }
    narrow(div_round(u * u * u, 0x1_0000_0000_0000))
}

/// Cubic ease-out: `(p - 1)³ + 1`.
pub fn cubic_out(p: Fixed) -> (r: Fixed)
    ensures
        r.raw == cubic_out_at(unit(p.raw as int)),
        0 <= r.raw <= ONE,
{
    let u: i128 = clamped(p);
    let g: i128 = 0x100_0000 - u;
    proof {
        lemma_power_bounds(g as int, ONE as int);
        assert((u - ONE) * (u - ONE) * (u - ONE) == -(g * g * g)) by (nonlinear_arith)
            requires
                g == ONE - u,
        ;
        lemma_round_div_between(ONE_3 - g * g * g, ONE_2 as int, 0, ONE as int);
    }
    narrow(div_round(0x100_0000_0000_0000_0000 - g * g * g, 0x1_0000_0000_0000))
}

/// Cubic ease-in-out: `4p³` below one half, `0.5 (2p - 2)³ + 1` from one
/// half on.
pub fn cubic_in_out(p: Fixed) -> (r: Fixed)
    ensures
        r.raw == cubic_in_out_at(unit(p.raw as int)),
        0 <= r.raw <= ONE,
{
    let u: i128 = clamped(p);
    if u < 0x80_0000 {
        proof {
            lemma_power_bounds(u as int, HALF as int);
            lemma_round_div_between(4 * (u * u * u), ONE_2 as int, 0, ONE as int);
        }
        narrow(div_round(4 * (u * u * u), 0x1_0000_0000_0000))
    } else {
        let g: i128 = 0x200_0000 - 2 * u;
        proof {
            lemma_power_bounds(g as int, ONE as int);
            let f = 2 * u - 2 * ONE;
            assert(f * f * f == -(g * g * g)) by (nonlinear_arith)
                requires
                    g == -f,
            ;
            lemma_round_div_between(2 * ONE_3 - g * g * g, 2 * ONE_2, 0, ONE as int);
        }
        narrow(div_round(0x200_0000_0000_0000_0000 - g * g * g, 0x2_0000_0000_0000))
    }
}

/// `p⁴` at clamped raw value `u`.
pub open spec fn quartic_in_at(u: int) -> int {
    round_div(u * u * u * u, ONE_3 as int)
}

/// `(p - 1)³ (1 - p) + 1` at clamped raw value `u`.
pub open spec fn quartic_out_at(u: int) -> int {
    let f = u - ONE;
    round_div(f * f * f * (ONE - u) + ONE_4, ONE_3 as int)
}

/// `8p⁴`, the first half of the quartic ease-in-out curve.
pub open spec fn quartic_in_out_low(u: int) -> int {
    round_div(8 * (u * u * u * u), ONE_3 as int)
}

/// `-8 (p - 1)⁴ + 1`, the second half of the quartic ease-in-out curve.
pub open spec fn quartic_in_out_high(u: int) -> int {
    let f = u - ONE;
    round_div(-8 * (f * f * f * f) + ONE_4, ONE_3 as int)
}

/// `8p⁴` below one half, `-8 (p - 1)⁴ + 1` from one half on.
pub open spec fn quartic_in_out_at(u: int) -> int {
    if u < HALF {
        quartic_in_out_low(u)
    } else {
        quartic_in_out_high(u)
    }
}

/// Quartic ease-in: `p⁴`.
pub fn quartic_in(p: Fixed) -> (r: Fixed)
    ensures
        r.raw == quartic_in_at(unit(p.raw as int)),
        0 <= r.raw <= ONE,
{
    let u: i128 = clamped(p);
    proof {
        lemma_power_bounds(u as int, ONE as int);
        lemma_round_div_between(u * u * u * u, ONE_3 as int, 0, ONE as int);
    }
    narrow(div_round(u * u * u * u, 0x100_0000_0000_0000_0000))
}

/// Quartic ease-out: `(p - 1)³ (1 - p) + 1`.
pub fn quartic_out(p: Fixed) -> (r: Fixed)
    ensures
        r.raw == quartic_out_at(unit(p.raw as int)),
        0 <= r.raw <= ONE,
{
    let u: i128 = clamped(p);
    let g: i128 = 0x100_0000 - u;
    proof {
        lemma_power_bounds(g as int, ONE as int);
        let f = u - ONE;
        assert(f * f * f * (ONE - u) == -(g * g * g * g)) by (nonlinear_arith)
            requires
                g == ONE - u,
                f == -g,
        ;
        lemma_round_div_between(ONE_4 - g * g * g * g, ONE_3 as int, 0, ONE as int);
    }
    narrow(div_round(0x1_0000_0000_0000_0000_0000_0000 - g * g * g * g, 0x100_0000_0000_0000_0000))
}

/// Quartic ease-in-out: `8p⁴` below one half, `-8 (p - 1)⁴ + 1` from one
/// half on.
pub fn quartic_in_out(p: Fixed) -> (r: Fixed)
    ensures
        r.raw == quartic_in_out_at(unit(p.raw as int)),
        0 <= r.raw <= ONE,
{
    let u: i128 = clamped(p);
    if u < 0x80_0000 {
        proof {
            lemma_power_bounds(u as int, HALF as int);
            lemma_round_div_between(8 * (u * u * u * u), ONE_3 as int, 0, ONE as int);
        }
        narrow(div_round(8 * (u * u * u * u), 0x100_0000_0000_0000_0000))
    } else {
        let g: i128 = 0x100_0000 - u;
        proof {
            lemma_power_bounds(g as int, HALF as int);
            let f = u - ONE;
            assert(f * f * f * f == g * g * g * g) by (nonlinear_arith)
                requires
                    f == -g,
            ;
            assert(-8 * (f * f * f * f) + ONE_4 == ONE_4 - 8 * (g * g * g * g));
            lemma_round_div_between(ONE_4 - 8 * (g * g * g * g), ONE_3 as int, 0, ONE as int);
        }
        narrow(div_round(0x1_0000_0000_0000_0000_0000_0000 - 8 * (g * g * g * g), 0x100_0000_0000_0000_0000))
    }
}

/// `p⁵` at clamped raw value `u`.
pub open spec fn quintic_in_at(u: int) -> int {
    round_div(u * u * u * u * u, ONE_4 as int)
}

/// `(p - 1)⁵ + 1` at clamped raw value `u`.
pub open spec fn quintic_out_at(u: int) -> int {
    let f = u - ONE;
    round_div(f * f * f * f * f + ONE_5, ONE_4 as int)
}

/// `16p⁵`, the first half of the quintic ease-in-out curve.
pub open spec fn quintic_in_out_low(u: int) -> int {
    round_div(16 * (u * u * u * u * u), ONE_4 as int)
}

/// `0.5 (2p - 2)⁵ + 1`, the second half of the quintic ease-in-out curve.
pub open spec fn quintic_in_out_high(u: int) -> int {
    let f = 2 * u - 2 * ONE;
    round_div(f * f * f * f * f + 2 * ONE_5, 2 * ONE_4)
}

/// `16p⁵` below one half, `0.5 (2p - 2)⁵ + 1` from one half on.
pub open spec fn quintic_in_out_at(u: int) -> int {
    if u < HALF {
        quintic_in_out_low(u)
    } else {
        quintic_in_out_high(u)
    }
}

/// Quintic ease-in: `p⁵`.
pub fn quintic_in(p: Fixed) -> (r: Fixed)
    ensures
        r.raw == quintic_in_at(unit(p.raw as int)),
        0 <= r.raw <= ONE,
{
    let u: i128 = clamped(p);
    proof {
        lemma_power_bounds(u as int, ONE as int);
        lemma_round_div_between(u * u * u * u * u, ONE_4 as int, 0, ONE as int);
    }
    narrow(div_round(u * u * u * u * u, 0x1_0000_0000_0000_0000_0000_0000))
}

/// Quintic ease-out: `(p - 1)⁵ + 1`.
pub fn quintic_out(p: Fixed) -> (r: Fixed)
    ensures
        r.raw == quintic_out_at(unit(p.raw as int)),
        0 <= r.raw <= ONE,
{
    let u: i128 = clamped(p);
    let g: i128 = 0x100_0000 - u;
    proof {
        lemma_power_bounds(g as int, ONE as int);
        let f = u - ONE;
        assert(f * f * f * f * f == -(g * g * g * g * g)) by (nonlinear_arith)
            requires
                f == -g,
        ;
        lemma_round_div_between(ONE_5 - g * g * g * g * g, ONE_4 as int, 0, ONE as int);
    }
    narrow(div_round(0x100_0000_0000_0000_0000_0000_0000_0000 - g * g * g * g * g, 0x1_0000_0000_0000_0000_0000_0000))
}

/// Quintic ease-in-out: `16p⁵` below one half, `0.5 (2p - 2)⁵ + 1` from one
/// half on.
pub fn quintic_in_out(p: Fixed) -> (r: Fixed)
    ensures
        r.raw == quintic_in_out_at(unit(p.raw as int)),
        0 <= r.raw <= ONE,
{
    let u: i128 = clamped(p);
    if u < 0x80_0000 {
        proof {
            lemma_power_bounds(u as int, HALF as int);
            lemma_round_div_between(16 * (u * u * u * u * u), ONE_4 as int, 0, ONE as int);
        }
        narrow(div_round(16 * (u * u * u * u * u), 0x1_0000_0000_0000_0000_0000_0000))
    } else {
        let g: i128 = 0x200_0000 - 2 * u;
        proof {
            lemma_power_bounds(g as int, ONE as int);
            let f = 2 * u - 2 * ONE;
            assert(f * f * f * f * f == -(g * g * g * g * g)) by (nonlinear_arith)
                requires
                    f == -g,
            ;
            lemma_round_div_between(2 * ONE_5 - g * g * g * g * g, 2 * ONE_4, 0, ONE as int);
        }
        narrow(
            div_round(
                0x200_0000_0000_0000_0000_0000_0000_0000 - g * g * g * g * g,
                0x2_0000_0000_0000_0000_0000_0000,
            ),
        )
    }
}

/// The bounce ease-out curve at clamped raw value `u`: four parabolic arcs,
///
/// * `121/16 p²` below `4/11`,
/// * `363/40 p² - 99/10 p + 17/5` below `8/11`,
/// * `4356/361 p² - 35442/1805 p + 16061/1805` below `9/10`,
/// * `54/5 p² - 513/25 p + 268/25` from there on,
///
/// each written over its common denominator.
pub open spec fn bounce_out_at(u: int) -> int {
    if 11 * u < 4 * ONE {
        round_div(121 * (u * u), 16 * ONE)
    } else if 11 * u < 8 * ONE {
        round_div(363 * (u * u) - 396 * u * ONE + 136 * ONE_2, 40 * ONE)
    } else if 10 * u < 9 * ONE {
        round_div(21780 * (u * u) - 35442 * u * ONE + 16061 * ONE_2, 1805 * ONE)
    } else {
        round_div(270 * (u * u) - 513 * u * ONE + 268 * ONE_2, 25 * ONE)
    }
}

/// `1 - bounce_out(1 - p)` at clamped raw value `u`.
pub open spec fn bounce_in_at(u: int) -> int {
    ONE - bounce_out_at(ONE - u)
}

/// `0.5 bounce_in(2p)`, the first half of the bounce ease-in-out curve.
pub open spec fn bounce_in_out_low(u: int) -> int {
    round_div(bounce_in_at(2 * u), 2)
}

/// `0.5 bounce_out(2p - 1) + 0.5`, the second half of the bounce
/// ease-in-out curve.
pub open spec fn bounce_in_out_high(u: int) -> int {
    round_div(bounce_out_at(2 * u - ONE), 2) + HALF
}

/// `0.5 bounce_in(2p)` below one half, `0.5 bounce_out(2p - 1) + 0.5` from
/// one half on.
pub open spec fn bounce_in_out_at(u: int) -> int {
    if u < HALF {
        bounce_in_out_low(u)
    } else {
        bounce_in_out_high(u)
    }
}

/// Bounce ease-in: the ease-out curve mirrored in both axes.
pub fn bounce_in(p: Fixed) -> (r: Fixed)
    ensures
        r.raw == bounce_in_at(unit(p.raw as int)),
        r.raw == ONE - bounce_out_at(ONE - unit(p.raw as int)),
        0 <= r.raw <= ONE,
{
    let u: Fixed = normalized(p);
    let b: Fixed = bounce_out(Fixed { raw: ONE - u.raw });
    Fixed { raw: ONE - b.raw }
}

/// Bounce ease-out: four parabolic arcs that meet at `4/11`, `8/11` and
/// `9/10`.
///
/// The curve stays in the unit interval, and from its first touch at
/// `4/11` on it never falls below `0.7`, the lowest point of the second
/// arc, by more than the rounding of that value.
pub fn bounce_out(p: Fixed) -> (r: Fixed)
    ensures
        r.raw == bounce_out_at(unit(p.raw as int)),
        0 <= r.raw <= ONE,
        11 * unit(p.raw as int) >= 4 * ONE ==> 10 * r.raw >= 7 * ONE - 2,
{
    let u: i128 = clamped(p);
    proof {
        lemma_power_bounds(u as int, ONE as int);
    }
    let s: i128 = u * u;
    if 11 * u < 4 * 0x100_0000 {
        assert(0 <= 121 * s <= 16 * ONE * ONE) by (nonlinear_arith)
            requires
                0 <= u,
                11 * u < 4 * ONE,
                s == u * u,
        ;
        proof {
            lemma_round_div_between(121 * s, 16 * ONE, 0, ONE as int);
        }
        narrow(div_round(121 * s, 16 * 0x100_0000))
    } else if 11 * u < 8 * 0x100_0000 {
        let n: i128 = 363 * s - 396 * u * 0x100_0000 + 136 * 0x1_0000_0000_0000;
        proof {
            let a = 11 * u - 4 * ONE;
            let b = 11 * u - 8 * ONE;
            let c = 11 * u - 6 * ONE;
            assert(n - 40 * ONE_2 == 3 * (a * b) && n == 3 * (c * c) + 28 * ONE_2)
                by (nonlinear_arith)
                requires
                    s == u * u,
                    n == 363 * s - 396 * u * 0x100_0000 + 136 * 0x1_0000_0000_0000,
                    a == 11 * u - 4 * 0x100_0000,
                    b == 11 * u - 8 * 0x100_0000,
                    c == 11 * u - 6 * 0x100_0000,
            ;
            assert(a * b <= 0 && c * c >= 0) by (nonlinear_arith)
                requires
                    a >= 0,
                    b < 0,
            ;
            lemma_round_div_between(n as int, 40 * ONE, 11744051, ONE as int);
        }
        narrow(div_round(n, 40 * 0x100_0000))
    } else if 10 * u < 9 * 0x100_0000 {
        let n: i128 = 21780 * s - 35442 * u * 0x100_0000 + 16061 * 0x1_0000_0000_0000;
        proof {
            let a = 11 * u - 8 * ONE;
            let b = 10 * u - 9 * ONE;
            assert(n - 1805 * ONE_2 == 198 * (a * b)) by (nonlinear_arith)
                requires
                    s == u * u,
                    n == 21780 * s - 35442 * u * 0x100_0000 + 16061 * 0x1_0000_0000_0000,
                    a == 11 * u - 8 * 0x100_0000,
                    b == 10 * u - 9 * 0x100_0000,
            ;
            // Ten times `a` and minus eleven times `b` add up to nineteen, so
            // their product is at most the square of half of that.
            let x = 10 * a;
            let y = -11 * b;
            assert(a * b <= 0 && 4 * (x * y) <= (x + y) * (x + y) && x * y == -110 * (a * b))
                by (nonlinear_arith)
                requires
                    0 <= a,
                    b < 0,
                    x == 10 * a,
                    y == -11 * b,
            ;
            assert((x + y) * (x + y) == 361 * ONE_2) by (nonlinear_arith)
                requires
                    x + y == 19 * 0x100_0000,
                    ONE_2 == 0x1_0000_0000_0000,
            ;
            lemma_round_div_between(n as int, 1805 * ONE, 11744051, ONE as int);
        }
        narrow(div_round(n, 1805 * 0x100_0000))
    } else {
        let n: i128 = 270 * s - 513 * u * 0x100_0000 + 268 * 0x1_0000_0000_0000;
        proof {
            let a = 10 * u - 9 * ONE;
            let b = 10 * u - 10 * ONE;
            assert(10 * (n - 25 * ONE_2) == 27 * (a * b)) by (nonlinear_arith)
                requires
                    s == u * u,
                    n == 270 * s - 513 * u * 0x100_0000 + 268 * 0x1_0000_0000_0000,
                    a == 10 * u - 9 * 0x100_0000,
                    b == 10 * u - 10 * 0x100_0000,
            ;
            assert(-ONE_2 <= a * b <= 0) by (nonlinear_arith)
                requires
                    0 <= a <= 0x100_0000,
                    -0x100_0000 <= b <= 0,
            ;
            lemma_round_div_between(n as int, 25 * ONE, 11744051, ONE as int);
        }
        narrow(div_round(n, 25 * 0x100_0000))
    }
}

/// Bounce ease-in-out: the ease-in curve on the first half, the ease-out
/// curve on the second, each at half scale.
pub fn bounce_in_out(p: Fixed) -> (r: Fixed)
    ensures
        r.raw == bounce_in_out_at(unit(p.raw as int)),
        0 <= r.raw <= ONE,
{
    let u: Fixed = normalized(p);
    if u.raw < HALF {
        let b: Fixed = bounce_in(Fixed { raw: 2 * u.raw });
        proof {
            lemma_round_div_between(b.raw as int, 2, 0, HALF as int);
        }
        narrow(div_round(b.raw as i128, 2))
    } else {
        let b: Fixed = bounce_out(Fixed { raw: 2 * u.raw - ONE });
        proof {
            lemma_round_div_between(b.raw as int, 2, 0, HALF as int);
        }
        let h: i128 = div_round(b.raw as i128, 2);
        narrow(h + 0x80_0000)
    }
}

/// `1 - sqrt(1 - p²)` at clamped raw value `u`, the root floored.
pub open spec fn circular_in_at(u: int) -> int {
    ONE - floor_sqrt(ONE_2 - u * u)
}

/// `sqrt((2 - p) p)` at clamped raw value `u`, the root floored.
pub open spec fn circular_out_at(u: int) -> int {
    floor_sqrt((2 * ONE - u) * u)
}

/// `0.5 (1 - sqrt(1 - 4p²))`, the first half of the circular ease-in-out
/// curve, the root floored.
pub open spec fn circular_in_out_low(u: int) -> int {
    round_div(ONE - floor_sqrt(ONE_2 - 4 * (u * u)), 2)
}

/// `0.5 (sqrt(-(2p - 3)(2p - 1)) + 1)`, the second half of the circular
/// ease-in-out curve, the root floored.
pub open spec fn circular_in_out_high(u: int) -> int {
    round_div(floor_sqrt(-(2 * u - 3 * ONE) * (2 * u - ONE)) + ONE, 2)
}

/// `0.5 (1 - sqrt(1 - 4p²))` below one half,
/// `0.5 (sqrt(-(2p - 3)(2p - 1)) + 1)` from one half on.
pub open spec fn circular_in_out_at(u: int) -> int {
    if u < HALF {
        circular_in_out_low(u)
    } else {
        circular_in_out_high(u)
    }
}

/// The floored square root of a value between zero and one, as a raw value
/// between zero and one.
fn unit_root(v: i128) -> (r: i128)
    requires
        0 <= v <= ONE_2,
    ensures
        r == floor_sqrt(v as int),
        0 <= r <= ONE,
{
    let r: u64 = isqrt(v as u64);
    assert(r <= ONE) by (nonlinear_arith)
        requires
            r * r <= v,
            v <= 0x100_0000 * 0x100_0000,
            ONE == 0x100_0000,
    ;
    r as i128
}

/// Circular ease-in: `1 - sqrt(1 - p²)`.
pub fn circular_in(p: Fixed) -> (r: Fixed)
    ensures
        r.raw == circular_in_at(unit(p.raw as int)),
        0 <= r.raw <= ONE,
{
    let u: i128 = clamped(p);
    proof {
        lemma_power_bounds(u as int, ONE as int);
    }
    narrow(0x100_0000 - unit_root(0x1_0000_0000_0000 - u * u))
}

/// Circular ease-out: `sqrt((2 - p) p)`.
pub fn circular_out(p: Fixed) -> (r: Fixed)
    ensures
        r.raw == circular_out_at(unit(p.raw as int)),
        0 <= r.raw <= ONE,
{
    let u: i128 = clamped(p);
    let g: i128 = 0x200_0000 - u;
    assert(0 <= g * u <= ONE_2) by (nonlinear_arith)
        requires
            0 <= u <= 0x100_0000,
            g == 0x200_0000 - u,
    ;
    narrow(unit_root(g * u))
}

/// Circular ease-in-out: `0.5 (1 - sqrt(1 - 4p²))` below one half,
/// `0.5 (sqrt(-(2p - 3)(2p - 1)) + 1)` from one half on.
pub fn circular_in_out(p: Fixed) -> (r: Fixed)
    ensures
        r.raw == circular_in_out_at(unit(p.raw as int)),
        0 <= r.raw <= ONE,
{
    let u: i128 = clamped(p);
    if u < 0x80_0000 {
        proof {
            lemma_power_bounds(u as int, HALF as int);
        }
        let q: i128 = unit_root(0x1_0000_0000_0000 - 4 * (u * u));
        proof {
            lemma_round_div_between(ONE - q, 2, 0, HALF as int);
        }
        narrow(div_round(0x100_0000 - q, 2))
    } else {
        let a: i128 = 0x300_0000 - 2 * u;
        let b: i128 = 2 * u - 0x100_0000;
        assert(0 <= a * b <= ONE_2 && a * b == -(2 * u - 3 * ONE) * (2 * u - ONE))
            by (nonlinear_arith)
            requires
                0x80_0000 <= u <= 0x100_0000,
                a == 0x300_0000 - 2 * u,
                b == 2 * u - 0x100_0000,
        ;
        let q: i128 = unit_root(a * b);
        proof {
            lemma_round_div_between(q + ONE, 2, HALF as int, ONE as int);
        }
        narrow(div_round(q + 0x100_0000, 2))
    }
}

/// `sin((p - 1) pi / 2) + 1` at clamped raw value `u`.
pub open spec fn sine_in_at(u: int) -> int {
    sin_quarter_at(u - ONE) + ONE
}

/// `sin(p pi / 2)` at clamped raw value `u`.
pub open spec fn sine_out_at(u: int) -> int {
    sin_quarter_at(u)
}

/// How far a clamped raw value `u` is from one half.
pub open spec fn gap(u: int) -> int {
    if u >= HALF {
        u - HALF
    } else {
        HALF - u
    }
}

/// `0.5 (1 - cos(p pi))` at clamped raw value `u`.
pub open spec fn sine_in_out_at(u: int) -> int {
    round_div(ONE - cos_quarter_at(2 * u), 2)
}

/// Sine ease-in: `sin((p - 1) pi / 2) + 1`. The curve stays at or below
/// the diagonal.
pub fn sine_in(p: Fixed) -> (r: Fixed)
    ensures
        r.raw == sine_in_at(unit(p.raw as int)),
        0 <= r.raw <= unit(p.raw as int),
{
    let u: Fixed = normalized(p);
    let s: Fixed = sin_quarter(Fixed { raw: u.raw - ONE });
    proof {
        let m = (u.raw - ONE) % 0x400_0000;
        assert(m == 0 || m >= 3 * ONE);
        lemma_sin_quarter_range(u.raw - ONE);
        lemma_sin_arc_range(ONE - u.raw);
        if m == 0 {
            lemma_sin_quarter_turns(0);
            assert(u.raw - ONE == 4 * 0 * ONE);
        } else {
            assert(m == u.raw + 3 * ONE);
            assert(s.raw == -sin_arc(ONE - u.raw));
        }
    }
    Fixed { raw: s.raw + ONE }
}

/// Sine ease-out: `sin(p pi / 2)`. The curve stays at or above the
/// diagonal.
pub fn sine_out(p: Fixed) -> (r: Fixed)
    ensures
        r.raw == sine_out_at(unit(p.raw as int)),
        unit(p.raw as int) <= r.raw <= ONE,
{
    let u: Fixed = normalized(p);
    proof {
        assert(u.raw % 0x400_0000 == u.raw);
        lemma_sin_quarter_range(u.raw as int);
        lemma_sin_arc_range(u.raw as int);
        assert(sin_quarter_at(u.raw as int) == sin_arc(u.raw as int));
    }
    sin_quarter(u)
}

/// Sine ease-in-out: `0.5 (1 - cos(p pi))`.
///
/// The curve stays in the unit interval and within a slope of 1.6 of its
/// midpoint: it is as far from one half as 1.6 times the progress is, at
/// most, but for one raw step of rounding.
pub fn sine_in_out(p: Fixed) -> (r: Fixed)
    ensures
        r.raw == sine_in_out_at(unit(p.raw as int)),
        0 <= r.raw <= ONE,
        5 * (r.raw - HALF) <= 8 * gap(unit(p.raw as int)) + 4,
        5 * (HALF - r.raw) <= 8 * gap(unit(p.raw as int)) + 4,
{
    let u: Fixed = normalized(p);
    let c: Fixed = cos_quarter(Fixed { raw: 2 * u.raw });
    proof {
        lemma_round_div_between(ONE - c.raw, 2, 0, ONE as int);
        lemma_round_div_nearest(ONE - c.raw, 2);
        let m = (2 * u.raw + ONE) % 0x400_0000;
        assert(m == 2 * u.raw + ONE);
        if u.raw <= HALF {
            lemma_sin_arc_range(ONE - 2 * u.raw);
            assert(c.raw == sin_arc(ONE - 2 * u.raw));
        } else {
            lemma_sin_arc_range(2 * u.raw - ONE);
            assert(c.raw == -sin_arc(2 * u.raw - ONE));
        }
    }
    narrow(div_round(0x100_0000 - c.raw as i128, 2))
}

/// Zero at zero, `2^(10 (p - 1))` elsewhere.
pub open spec fn exponential_in_at(u: int) -> int {
    if u == 0 {
        0
    } else {
        exp2_at(10 * (u - ONE))
    }
}

/// One at one, `1 - 2^(-10 p)` elsewhere.
pub open spec fn exponential_out_at(u: int) -> int {
    if u == ONE {
        ONE as int
    } else {
        ONE - exp2_at(-10 * u)
    }
}

/// `0.5 * 2^(20p - 10)`, the first half of the exponential ease-in-out
/// curve.
pub open spec fn exponential_in_out_low(u: int) -> int {
    round_div(exp2_at(20 * u - 10 * ONE), 2)
}

/// `-0.5 * 2^(-20p + 10) + 1`, the second half of the exponential
/// ease-in-out curve.
pub open spec fn exponential_in_out_high(u: int) -> int {
    round_div(-exp2_at(-20 * u + 10 * ONE), 2) + ONE
}

/// The input itself at zero and at one; between them `0.5 * 2^(20p - 10)`
/// below one half and `-0.5 * 2^(-20p + 10) + 1` from one half on.
pub open spec fn exponential_in_out_at(u: int) -> int {
    if u == 0 || u == ONE {
        u
    } else if u < HALF {
        exponential_in_out_low(u)
    } else {
        exponential_in_out_high(u)
    }
}

/// Exponential ease-in: zero at zero, `2^(10 (p - 1))` elsewhere.
pub fn exponential_in(p: Fixed) -> (r: Fixed)
    ensures
        r.raw == exponential_in_at(unit(p.raw as int)),
        0 <= r.raw <= ONE,
{
    let u: Fixed = normalized(p);
    if u.raw == 0 {
        u
    } else {
        exp2(Fixed { raw: 10 * (u.raw - ONE) })
    }
}

/// Exponential ease-out: one at one, `1 - 2^(-10 p)` elsewhere.
pub fn exponential_out(p: Fixed) -> (r: Fixed)
    ensures
        r.raw == exponential_out_at(unit(p.raw as int)),
        0 <= r.raw <= ONE,
{
    let u: Fixed = normalized(p);
    if u.raw == ONE {
        u
    } else {
        let e: Fixed = exp2(Fixed { raw: -(10 * u.raw) });
        Fixed { raw: ONE - e.raw }
    }
}

/// Exponential ease-in-out: the input itself at zero and at one; between
/// them `0.5 * 2^(20p - 10)` below one half and `-0.5 * 2^(-20p + 10) + 1`
/// from one half on.
///
/// The curve stays in the unit interval and within a slope of seven of its
/// midpoint: it is as far from one half as seven times the progress is, at
/// most, but for one raw step of rounding.
pub fn exponential_in_out(p: Fixed) -> (r: Fixed)
    ensures
        r.raw == exponential_in_out_at(unit(p.raw as int)),
        0 <= r.raw <= ONE,
        10 * (r.raw - HALF) <= 70 * gap(unit(p.raw as int)) + 8,
        10 * (HALF - r.raw) <= 70 * gap(unit(p.raw as int)) + 8,
{
    let u: Fixed = normalized(p);
    if u.raw == 0 || u.raw == ONE {
        return u;
    }
    if u.raw < HALF {
        let e: Fixed = exp2(Fixed { raw: 20 * u.raw - 10 * ONE });
        proof {
            lemma_exp2_tangent(20 * u.raw - 10 * ONE);
            lemma_round_div_between(e.raw as int, 2, 0, HALF as int);
            lemma_round_div_nearest(e.raw as int, 2);
        }
        narrow(div_round(e.raw as i128, 2))
    } else {
        let e: Fixed = exp2(Fixed { raw: 10 * ONE - 20 * u.raw });
        proof {
            lemma_exp2_tangent(10 * ONE - 20 * u.raw);
            lemma_round_div_between(-e.raw, 2, -HALF, 0);
            lemma_round_div_nearest(-e.raw, 2);
        }
        let h: i128 = div_round(-(e.raw as i128), 2);
        narrow(h + 0x100_0000)
    }
}

/// `sin(13 pi / 2 * p) * 2^(10 (p - 1))` at clamped raw value `u`.
pub open spec fn elastic_in_at(u: int) -> int {
    round_div(sin_quarter_at(13 * u) * exp2_at(10 * (u - ONE)), ONE as int)
}

/// `sin(-13 pi / 2 * (p + 1)) * 2^(-10 p) + 1` at clamped raw value `u`.
pub open spec fn elastic_out_at(u: int) -> int {
    round_div(sin_quarter_at(-13 * (u + ONE)) * exp2_at(-10 * u), ONE as int) + ONE
}

/// `0.5 sin(13 pi / 2 * 2p) * 2^(10 (2p - 1))`, the first half of the
/// elastic ease-in-out curve.
pub open spec fn elastic_in_out_low(u: int) -> int {
    round_div(sin_quarter_at(13 * (2 * u)) * exp2_at(10 * (2 * u - ONE)), 2 * ONE)
}

/// `0.5 (sin(-13 pi / 2 * ((2p - 1) + 1)) * 2^(-10 (2p - 1)) + 2)`, the
/// second half of the elastic ease-in-out curve.
pub open spec fn elastic_in_out_high(u: int) -> int {
    round_div(
        sin_quarter_at(-13 * ((2 * u - ONE) + ONE)) * exp2_at(-10 * (2 * u - ONE)) + 2 * ONE_2,
        2 * ONE,
    )
}

/// The first half below one half, the second half from one half on.
pub open spec fn elastic_in_out_at(u: int) -> int {
    if u < HALF {
        elastic_in_out_low(u)
    } else {
        elastic_in_out_high(u)
    }
}

/// The product of a sine and a power of two with a non-positive exponent.
fn wave(s: Fixed, e: Fixed) -> (n: i128)
    requires
        -ONE <= s.raw <= ONE,
        0 <= e.raw <= ONE,
    ensures
        n == s.raw * e.raw,
        -ONE_2 <= n <= ONE_2,
{
    let a: i128 = s.raw as i128;
    let b: i128 = e.raw as i128;
    assert(-0x1_0000_0000_0000 <= a * b <= 0x1_0000_0000_0000) by (nonlinear_arith)
        requires
            -0x100_0000 <= a <= 0x100_0000,
            0 <= b <= 0x100_0000,
    ;
    a * b
}

/// Elastic ease-in: `sin(13 pi / 2 * p) * 2^(10 (p - 1))`.
pub fn elastic_in(p: Fixed) -> (r: Fixed)
    ensures
        r.raw == elastic_in_at(unit(p.raw as int)),
        -ONE <= r.raw <= ONE,
{
    let u: Fixed = normalized(p);
    let s: Fixed = sin_quarter(Fixed { raw: 13 * u.raw });
    let e: Fixed = exp2(Fixed { raw: 10 * (u.raw - ONE) });
    let n: i128 = wave(s, e);
    proof {
        lemma_round_div_between(n as int, ONE as int, -ONE, ONE as int);
    }
    narrow(div_round(n, 0x100_0000))
}

/// Elastic ease-out: `sin(-13 pi / 2 * (p + 1)) * 2^(-10 p) + 1`.
pub fn elastic_out(p: Fixed) -> (r: Fixed)
    ensures
        r.raw == elastic_out_at(unit(p.raw as int)),
        0 <= r.raw <= 2 * ONE,
{
    let u: Fixed = normalized(p);
    let s: Fixed = sin_quarter(Fixed { raw: -(13 * (u.raw + ONE)) });
    let e: Fixed = exp2(Fixed { raw: -(10 * u.raw) });
    let n: i128 = wave(s, e);
    proof {
        lemma_round_div_between(n as int, ONE as int, -ONE, ONE as int);
    }
    narrow(div_round(n, 0x100_0000) + 0x100_0000)
}

/// Elastic ease-in-out: the ease-in wave on the first half, the ease-out
/// wave on the second, each at half scale.
pub fn elastic_in_out(p: Fixed) -> (r: Fixed)
    ensures
        r.raw == elastic_in_out_at(unit(p.raw as int)),
        -HALF <= r.raw <= ONE + HALF,
{
    let u: Fixed = normalized(p);
    if u.raw < HALF {
        let s: Fixed = sin_quarter(Fixed { raw: 13 * (2 * u.raw) });
        let e: Fixed = exp2(Fixed { raw: 10 * (2 * u.raw - ONE) });
        let n: i128 = wave(s, e);
        proof {
            lemma_round_div_between(n as int, 2 * ONE, -HALF, HALF as int);
        }
        narrow(div_round(n, 0x200_0000))
    } else {
        let s: Fixed = sin_quarter(Fixed { raw: -(13 * ((2 * u.raw - ONE) + ONE)) });
        let e: Fixed = exp2(Fixed { raw: -(10 * (2 * u.raw - ONE)) });
        let n: i128 = wave(s, e);
        proof {
            lemma_round_div_between(n + 2 * ONE_2, 2 * ONE, HALF as int, ONE + HALF);
        }
        narrow(div_round(n + 0x2_0000_0000_0000, 0x200_0000))
    }
}

/// `f³ - f sin(f pi)` at a raw `f`, as a numerator over the square of one.
pub open spec fn back_numer(f: int) -> int {
    f * f * f - f * sin_quarter_at(2 * f) * ONE
}

/// `p³ - p sin(p pi)` at clamped raw value `u`.
pub open spec fn back_in_at(u: int) -> int {
    round_div(back_numer(u), ONE_2 as int)
}

/// `1 - (f³ - f sin(f pi))` with `f = 1 - p`, at clamped raw value `u`.
pub open spec fn back_out_at(u: int) -> int {
    round_div(ONE_3 - back_numer(ONE - u), ONE_2 as int)
}

/// `0.5 (f³ - f sin(f pi))` with `f = 2p`, the first half of the back
/// ease-in-out curve.
pub open spec fn back_in_out_low(u: int) -> int {
    round_div(back_numer(2 * u), 2 * ONE_2)
}

/// `0.5 (1 - (f³ - f sin(f pi))) + 0.5` with `f = 1 - (2p - 1)`, the second
/// half of the back ease-in-out curve.
pub open spec fn back_in_out_high(u: int) -> int {
    round_div(ONE_3 - back_numer(ONE - (2 * u - ONE)), 2 * ONE_2) + HALF
}

/// The first half below one half, the second half from one half on.
pub open spec fn back_in_out_at(u: int) -> int {
    if u < HALF {
        back_in_out_low(u)
    } else {
        back_in_out_high(u)
    }
}

/// The numerator `f³ - f sin(f pi)` for a raw `f` between zero and one.
fn back_term(f: i32) -> (n: i128)
    requires
        0 <= f <= ONE,
    ensures
        n == back_numer(f as int),
        -ONE_3 <= n <= 2 * ONE_3,
{
    let s: Fixed = sin_quarter(Fixed { raw: 2 * f });
    let a: i128 = f as i128;
    let b: i128 = s.raw as i128;
    proof {
        lemma_power_bounds(a as int, ONE as int);
    }
    assert(-0x1_0000_0000_0000 <= a * b <= 0x1_0000_0000_0000) by (nonlinear_arith)
        requires
            0 <= a <= 0x100_0000,
            -0x100_0000 <= b <= 0x100_0000,
    ;
    a * a * a - a * b * 0x100_0000
}

/// Back ease-in: `p³ - p sin(p pi)`.
pub fn back_in(p: Fixed) -> (r: Fixed)
    ensures
        r.raw == back_in_at(unit(p.raw as int)),
        -ONE <= r.raw <= 2 * ONE,
{
    let u: Fixed = normalized(p);
    let n: i128 = back_term(u.raw);
    proof {
        lemma_round_div_between(n as int, ONE_2 as int, -ONE, 2 * ONE);
    }
    narrow(div_round(n, 0x1_0000_0000_0000))
}

/// Back ease-out: `1 - (f³ - f sin(f pi))` with `f = 1 - p`.
pub fn back_out(p: Fixed) -> (r: Fixed)
    ensures
        r.raw == back_out_at(unit(p.raw as int)),
        -ONE <= r.raw <= 2 * ONE,
{
    let u: Fixed = normalized(p);
    let n: i128 = back_term(ONE - u.raw);
    proof {
        lemma_round_div_between(ONE_3 - n, ONE_2 as int, -ONE, 2 * ONE);
    }
    narrow(div_round(0x100_0000_0000_0000_0000 - n, 0x1_0000_0000_0000))
}

/// Back ease-in-out: the ease-in curve on the first half, the ease-out
/// curve on the second, each at half scale.
pub fn back_in_out(p: Fixed) -> (r: Fixed)
    ensures
        r.raw == back_in_out_at(unit(p.raw as int)),
        -ONE <= r.raw <= 2 * ONE,
{
    let u: Fixed = normalized(p);
    if u.raw < HALF {
        let n: i128 = back_term(2 * u.raw);
        proof {
            lemma_round_div_between(n as int, 2 * ONE_2, -ONE, ONE as int);
        }
        narrow(div_round(n, 0x2_0000_0000_0000))
    } else {
        let n: i128 = back_term(ONE - (2 * u.raw - ONE));
        proof {
            lemma_round_div_between(ONE_3 - n, 2 * ONE_2, -ONE, ONE as int);
        }
        narrow(div_round(0x100_0000_0000_0000_0000 - n, 0x2_0000_0000_0000) + 0x80_0000)
    }
}

/// A numerator that is a whole multiple of the divisor divides exactly.
proof fn lemma_exact(n: int, d: int, q: int)
    requires
        d > 0,
        n == q * d,
    ensures
        round_div(n, d) == q,
{
    lemma_round_div_exact(q, d);
}

/// The polynomial families start at zero and end at one.
proof fn lemma_polynomial_ends()
    ensures
        quadratic_in_at(0) == 0 && quadratic_in_at(ONE as int) == ONE,
        quadratic_out_at(0) == 0 && quadratic_out_at(ONE as int) == ONE,
        quadratic_in_out_at(0) == 0 && quadratic_in_out_at(ONE as int) == ONE,
        cubic_in_at(0) == 0 && cubic_in_at(ONE as int) == ONE,
        cubic_out_at(0) == 0 && cubic_out_at(ONE as int) == ONE,
        cubic_in_out_at(0) == 0 && cubic_in_out_at(ONE as int) == ONE,
        quartic_in_at(0) == 0 && quartic_in_at(ONE as int) == ONE,
        quartic_out_at(0) == 0 && quartic_out_at(ONE as int) == ONE,
        quartic_in_out_at(0) == 0 && quartic_in_out_at(ONE as int) == ONE,
        quintic_in_at(0) == 0 && quintic_in_at(ONE as int) == ONE,
        quintic_out_at(0) == 0 && quintic_out_at(ONE as int) == ONE,
        quintic_in_out_at(0) == 0 && quintic_in_out_at(ONE as int) == ONE,
{
    let d: int = 0x100_0000;
    lemma_exact(0, d, 0);
    lemma_exact(d * d, d, d);
    lemma_exact(0, d * d, 0);
    lemma_exact(d * d * d, d * d, d);
    lemma_exact(2 * (d * d * d), 2 * (d * d), d);
    lemma_exact(0, d * d * d, 0);
    lemma_exact(d * d * d * d, d * d * d, d);
    lemma_exact(0, d * d * d * d, 0);
    lemma_exact(d * d * d * d * d, d * d * d * d, d);
    lemma_exact(2 * (d * d * d * d * d), 2 * (d * d * d * d), d);
    assert(quadratic_in_at(0) == 0 && quadratic_in_at(d) == d);
    assert(quadratic_out_at(0) == 0 && quadratic_out_at(d) == d);
    assert(quadratic_in_out_at(0) == 0 && quadratic_in_out_at(d) == d);
    assert(cubic_in_at(0) == 0 && cubic_in_at(d) == d);
    assert(cubic_out_at(0) == 0 && cubic_out_at(d) == d);
    assert(cubic_in_out_at(0) == 0 && cubic_in_out_at(d) == d);
    assert(quartic_in_at(0) == 0 && quartic_in_at(d) == d);
    assert(quartic_out_at(0) == 0 && quartic_out_at(d) == d);
    assert(quartic_in_out_at(0) == 0 && quartic_in_out_at(d) == d);
    assert(quintic_in_at(0) == 0 && quintic_in_at(d) == d);
    assert(quintic_out_at(0) == 0 && quintic_out_at(d) == d);
    assert(quintic_in_out_at(0) == 0 && quintic_in_out_at(d) == d);
}

/// The sine and circular families start at zero and end at one.
proof fn lemma_round_ends()
    ensures
        sine_in_at(0) == 0 && sine_in_at(ONE as int) == ONE,
        sine_out_at(0) == 0 && sine_out_at(ONE as int) == ONE,
        sine_in_out_at(0) == 0 && sine_in_out_at(ONE as int) == ONE,
        circular_in_at(0) == 0 && circular_in_at(ONE as int) == ONE,
        circular_out_at(0) == 0 && circular_out_at(ONE as int) == ONE,
        circular_in_out_at(0) == 0 && circular_in_out_at(ONE as int) == ONE,
{
    let d: int = 0x100_0000;
    lemma_sin_quarter_turns(0);
    lemma_sin_quarter_turns(-1);
    assert(sin_quarter_at(-d) == -d);
    assert(sin_quarter_at(0) == 0);
    assert(sin_quarter_at(d) == d);
    assert(sin_quarter_at(3 * d) == -d);
    lemma_exact(0, 2, 0);
    lemma_exact(2 * d, 2, d);
    assert(sine_in_out_at(0) == 0 && sine_in_out_at(d) == d);
    lemma_floor_sqrt_unique(d * d, d);
    assert(floor_sqrt(0) == 0);
    assert(circular_in_at(0) == 0 && circular_in_at(d) == d);
    assert(circular_out_at(0) == 0 && circular_out_at(d) == d);
    assert(circular_in_out_at(0) == 0 && circular_in_out_at(d) == d);
}

/// The exponential and elastic families start at zero and end at one.
proof fn lemma_exponent_ends()
    ensures
        exponential_in_at(0) == 0 && exponential_in_at(ONE as int) == ONE,
        exponential_out_at(0) == 0 && exponential_out_at(ONE as int) == ONE,
        exponential_in_out_at(0) == 0 && exponential_in_out_at(ONE as int) == ONE,
        elastic_in_at(0) == 0 && elastic_in_at(ONE as int) == ONE,
        elastic_out_at(0) == 0 && elastic_out_at(ONE as int) == ONE,
        elastic_in_out_at(0) == 0 && elastic_in_out_at(ONE as int) == ONE,
{
    let d: int = 0x100_0000;
    lemma_exp2_whole(0);
    lemma2_to64();
    assert(exp2_at(0) == d);
    lemma_sin_quarter_turns(0);
    lemma_sin_quarter_turns(3);
    lemma_sin_quarter_turns(-4);
    lemma_sin_quarter_turns(-7);
    assert(sin_quarter_at(0) == 0);
    assert(sin_quarter_at(13 * d) == d);
    assert(sin_quarter_at(-13 * d) == -d);
    assert(sin_quarter_at(-26 * d) == 0);
    lemma_exact(0, d, 0);
    lemma_exact(d * d, d, d);
    lemma_exact(-d * d, d, -d);
    lemma_exact(0, 2 * d, 0);
    lemma_exact(2 * (d * d), 2 * d, d);
    assert(elastic_in_at(0) == 0 && elastic_in_at(d) == d);
    assert(elastic_out_at(0) == 0 && elastic_out_at(d) == d);
    assert(elastic_in_out_at(0) == 0 && elastic_in_out_at(d) == d);
}

/// The back and bounce families start at zero and end at one.
proof fn lemma_rebound_ends()
    ensures
        back_in_at(0) == 0 && back_in_at(ONE as int) == ONE,
        back_out_at(0) == 0 && back_out_at(ONE as int) == ONE,
        back_in_out_at(0) == 0 && back_in_out_at(ONE as int) == ONE,
        bounce_in_at(0) == 0 && bounce_in_at(ONE as int) == ONE,
        bounce_out_at(0) == 0 && bounce_out_at(ONE as int) == ONE,
        bounce_in_out_at(0) == 0 && bounce_in_out_at(ONE as int) == ONE,
{
    let d: int = 0x100_0000;
    lemma_sin_quarter_turns(0);
    assert(sin_quarter_at(0) == 0);
    assert(sin_quarter_at(2 * d) == 0);
    assert(back_numer(0) == 0);
    assert(back_numer(d) == d * d * d);
    lemma_exact(0, d * d, 0);
    lemma_exact(d * d * d, d * d, d);
    lemma_exact(0, 2 * (d * d), 0);
    lemma_exact(d * d * d, 2 * (d * d), d / 2);
    assert(back_in_at(0) == 0 && back_in_at(d) == d);
    assert(back_out_at(0) == 0 && back_out_at(d) == d);
    assert(back_in_out_at(0) == 0 && back_in_out_at(d) == d);
    lemma_exact(0, 16 * d, 0);
    lemma_exact(25 * (d * d), 25 * d, d);
    assert(bounce_out_at(0) == 0 && bounce_out_at(d) == d);
    lemma_exact(0, 2, 0);
    lemma_exact(d, 2, d / 2);
    assert(bounce_in_out_at(0) == 0 && bounce_in_out_at(d) == d);
}

/// Every curve starts at zero and ends at one, exactly.
pub proof fn lemma_endpoints(f: EaseFunction)
    ensures
        f.at(0) == 0,
        f.at(ONE as int) == ONE,
        f.eased(0) == 0,
        f.eased(ONE as int) == ONE,
{
    lemma_polynomial_ends();
    lemma_round_ends();
    lemma_exponent_ends();
    lemma_rebound_ends();
}

/// Easing a progress value and easing its clamped value give the same
/// result: below zero every curve is at its start, above one at its end.
pub proof fn lemma_clamp_idempotent(f: EaseFunction, x: int)
    ensures
        f.eased(x) == f.eased(unit(x)),
        x <= 0 ==> f.eased(x) == 0,
        x >= ONE ==> f.eased(x) == ONE,
{
    lemma_endpoints(f);
}

/// The two halves of every ease-in-out curve meet at one half: both
/// formulas give exactly one half there, so the curve has no jump where it
/// changes from one to the other.
pub proof fn lemma_halves_meet()
    ensures
        quadratic_in_out_low(HALF as int) == HALF == quadratic_in_out_high(HALF as int),
        cubic_in_out_low(HALF as int) == HALF == cubic_in_out_high(HALF as int),
        quartic_in_out_low(HALF as int) == HALF == quartic_in_out_high(HALF as int),
        quintic_in_out_low(HALF as int) == HALF == quintic_in_out_high(HALF as int),
        sine_in_out_at(HALF as int) == HALF,
        circular_in_out_low(HALF as int) == HALF == circular_in_out_high(HALF as int),
        exponential_in_out_low(HALF as int) == HALF == exponential_in_out_high(HALF as int),
        elastic_in_out_low(HALF as int) == HALF == elastic_in_out_high(HALF as int),
        back_in_out_low(HALF as int) == HALF == back_in_out_high(HALF as int),
        bounce_in_out_low(HALF as int) == HALF == bounce_in_out_high(HALF as int),
{
    let d: int = 0x100_0000;
    let h: int = 0x80_0000;
    lemma_exact(h * d, d, h);
    lemma_exact(h * (d * d), d * d, h);
    lemma_exact(d * d * d, 2 * (d * d), h);
    lemma_exact(h * (d * d * d), d * d * d, h);
    lemma_exact(h * (d * d * d * d), d * d * d * d, h);
    lemma_exact(d * d * d * d * d, 2 * (d * d * d * d), h);
    let f = 2 * h - 2 * d;
    assert(4 * (h * h * h) == h * (d * d) && f * f * f + 2 * (d * d * d) == d * d * d && 16 * (h
        * h * h * h * h) == h * (d * d * d * d) && f * f * f * f * f + 2 * (d * d * d * d * d)
        == d * d * d * d * d) by (nonlinear_arith)
        requires
            h == 0x80_0000,
            d == 0x100_0000,
            f == -0x100_0000,
    ;
    assert(quadratic_in_out_low(h) == h && quadratic_in_out_high(h) == h);
    assert(cubic_in_out_low(h) == h && cubic_in_out_high(h) == h);
    assert(quartic_in_out_low(h) == h && quartic_in_out_high(h) == h);
    assert(quintic_in_out_low(h) == h && quintic_in_out_high(h) == h);
    lemma_sin_quarter_turns(0);
    lemma_sin_quarter_turns(3);
    lemma_sin_quarter_turns(-4);
    assert(sin_quarter_at(2 * d) == 0);
    assert(sin_quarter_at(13 * d) == d);
    assert(sin_quarter_at(-13 * d) == -d);
    lemma_exact(d, 2, h);
    lemma_exact(-d, 2, -h);
    assert(sine_in_out_at(h) == h);
    lemma_floor_sqrt_unique(d * d, d);
    assert(floor_sqrt(0) == 0);
    assert(circular_in_out_low(h) == h && circular_in_out_high(h) == h);
    lemma_exp2_whole(0);
    lemma2_to64();
    assert(exp2_at(0) == d);
    assert(exponential_in_out_low(h) == h && exponential_in_out_high(h) == h);
    lemma_exact(d * d, 2 * d, h);
    assert(elastic_in_out_low(h) == h && elastic_in_out_high(h) == h);
    assert(back_numer(d) == d * d * d);
    lemma_exact(0, 2 * (d * d), 0);
    assert(back_in_out_low(h) == h && back_in_out_high(h) == h);
    lemma_rebound_ends();
    lemma_exact(0, 2, 0);
    assert(bounce_in_out_low(h) == h && bounce_in_out_high(h) == h);
}

/// Every ease-out curve is its ease-in curve mirrored in both axes:
/// `out(p) == 1 - in(1 - p)` on the unit interval. For the sine, circular,
/// exponential, elastic and bounce curves the two sides are equal; for the
/// polynomial and the back curves each side rounds its own quotient, and
/// they differ by one raw step at most.
pub proof fn lemma_out_mirrors_in(u: int)
    requires
        0 <= u <= ONE,
    ensures
        -1 <= quadratic_out_at(u) - (ONE - quadratic_in_at(ONE - u)) <= 1,
        -1 <= cubic_out_at(u) - (ONE - cubic_in_at(ONE - u)) <= 1,
        -1 <= quartic_out_at(u) - (ONE - quartic_in_at(ONE - u)) <= 1,
        -1 <= quintic_out_at(u) - (ONE - quintic_in_at(ONE - u)) <= 1,
        sine_out_at(u) == ONE - sine_in_at(ONE - u),
        circular_out_at(u) == ONE - circular_in_at(ONE - u),
        exponential_out_at(u) == ONE - exponential_in_at(ONE - u),
        elastic_out_at(u) == ONE - elastic_in_at(ONE - u),
        -1 <= back_out_at(u) - (ONE - back_in_at(ONE - u)) <= 1,
        bounce_out_at(u) == ONE - bounce_in_at(ONE - u),
{
    let d: int = 0x100_0000;
    let g = d - u;
    let f = u - d;
    assert(-(u * (u - 2 * d)) == d * d - g * g && f * f * f + d * d * d == d * (d * d) - g * g * g
        && f * f * f * (d - u) + d * d * d * d == d * (d * d * d) - g * g * g * g && f * f * f
        * f * f + d * d * d * d * d == d * (d * d * d * d) - g * g * g * g * g && (2 * d - u) * u
        == d * d - g * g) by (nonlinear_arith)
        requires
            g == d - u,
            f == u - d,
    ;
    assert(d * d == ONE_2 && d * (d * d) == ONE_3 && d * (d * d * d) == ONE_4 && d * (d * d * d
        * d) == ONE_5) by (nonlinear_arith)
        requires
            d == 0x100_0000,
            ONE_2 == 0x1_0000_0000_0000,
            ONE_3 == 0x100_0000_0000_0000_0000,
            ONE_4 == 0x1_0000_0000_0000_0000_0000_0000,
            ONE_5 == 0x100_0000_0000_0000_0000_0000_0000_0000,
    ;
    lemma_round_div_complement(g * g, d, d);
    assert(d * d - g * g == d * d - g * g);
    lemma_round_div_complement(g * g * g, ONE_2 as int, d);
    assert(d * ONE_2 == ONE_3) by (nonlinear_arith)
        requires
            d == 0x100_0000,
            ONE_2 == 0x1_0000_0000_0000,
            ONE_3 == 0x100_0000_0000_0000_0000,
    ;
    lemma_round_div_complement(g * g * g * g, ONE_3 as int, d);
    assert(d * ONE_3 == ONE_4) by (nonlinear_arith)
        requires
            d == 0x100_0000,
            ONE_3 == 0x100_0000_0000_0000_0000,
            ONE_4 == 0x1_0000_0000_0000_0000_0000_0000,
    ;
    lemma_round_div_complement(g * g * g * g * g, ONE_4 as int, d);
    assert(d * ONE_4 == ONE_5) by (nonlinear_arith)
        requires
            d == 0x100_0000,
            ONE_4 == 0x1_0000_0000_0000_0000_0000_0000,
            ONE_5 == 0x100_0000_0000_0000_0000_0000_0000_0000,
    ;
    assert(-1 <= quadratic_out_at(u) - (ONE - quadratic_in_at(ONE - u)) <= 1);
    assert(-1 <= cubic_out_at(u) - (ONE - cubic_in_at(ONE - u)) <= 1);
    assert(-1 <= quartic_out_at(u) - (ONE - quartic_in_at(ONE - u)) <= 1);
    assert(-1 <= quintic_out_at(u) - (ONE - quintic_in_at(ONE - u)) <= 1);
    // The sine is odd.
    lemma_sin_quarter_symmetry(u);
    assert(sine_out_at(u) == ONE - sine_in_at(ONE - u));
    assert(circular_out_at(u) == ONE - circular_in_at(ONE - u));
    assert(exponential_out_at(u) == ONE - exponential_in_at(ONE - u));
    // Thirteen quarter turns back and thirteen on differ by six turns and
    // a mirror at the quarter turn.
    let s = sin_quarter_at(13 * (ONE - u));
    let e = exp2_at(-10 * u);
    lemma_sin_quarter_symmetry(13 * u + 13 * ONE);
    lemma_sin_quarter_symmetry(13 * u - 11 * ONE);
    lemma_sin_quarter_periodic(13 * u - 11 * ONE, 6);
    assert(sin_quarter_at(-13 * (u + ONE)) == -s);
    assert((-s) * e == -(s * e)) by (nonlinear_arith);
    lemma_round_div_neg(s * e, ONE as int);
    assert(10 * ((ONE - u) - ONE) == -10 * u);
    assert(elastic_out_at(u) == ONE - elastic_in_at(ONE - u));
    lemma_round_div_complement(back_numer(g), ONE_2 as int, d);
    assert(d * ONE_2 - back_numer(g) == ONE_3 - back_numer(ONE - u));
    assert(-1 <= back_out_at(u) - (ONE - back_in_at(ONE - u)) <= 1);
}

/// Below one half, every ease-in-out curve is its own second half mirrored
/// in both axes: `low(p) == 1 - high(1 - p)`. For the exponential curve the
/// two sides are equal; for the others each side rounds its own quotient,
/// and they differ by one raw step at most.
proof fn lemma_low_mirrors_high(u: int)
    requires
        0 <= u <= HALF,
    ensures
        -1 <= quadratic_in_out_low(u) + quadratic_in_out_high(ONE - u) - ONE <= 1,
        -1 <= cubic_in_out_low(u) + cubic_in_out_high(ONE - u) - ONE <= 1,
        -1 <= quartic_in_out_low(u) + quartic_in_out_high(ONE - u) - ONE <= 1,
        -1 <= quintic_in_out_low(u) + quintic_in_out_high(ONE - u) - ONE <= 1,
        -1 <= sine_in_out_at(u) + sine_in_out_at(ONE - u) - ONE <= 1,
        -1 <= circular_in_out_low(u) + circular_in_out_high(ONE - u) - ONE <= 1,
        exponential_in_out_low(u) + exponential_in_out_high(ONE - u) == ONE,
        -1 <= elastic_in_out_low(u) + elastic_in_out_high(ONE - u) - ONE <= 1,
        -1 <= back_in_out_low(u) + back_in_out_high(ONE - u) - ONE <= 1,
        -1 <= bounce_in_out_low(u) + bounce_in_out_high(ONE - u) - ONE <= 1,
{
    let d: int = 0x100_0000;
    let g = d - u;
    let u2 = u * u;
    let u3 = u * u * u;
    let u4 = u * u * u * u;
    let u5 = u * u * u * u * u;
    let f2 = 2 * g - 2 * d;
    let f1 = g - d;
    assert(-2 * (g * g) + 4 * g * d - d * d == d * d - 2 * u2 && f2 * f2 * f2 == -(8 * u3) && f1
        * f1 * f1 * f1 == u4 && f2 * f2 * f2 * f2 * f2 == -(32 * u5) && -(2 * g - 3 * d) * (2 * g
        - d) == d * d - 4 * u2) by (nonlinear_arith)
        requires
            g == d - u,
            f2 == -2 * u,
            f1 == -u,
            u2 == u * u,
            u3 == u * u * u,
            u4 == u * u * u * u,
            u5 == u * u * u * u * u,
    ;
    assert(d * d == ONE_2 && d * ONE_2 == ONE_3 && d * ONE_3 == ONE_4 && d * ONE_4 == ONE_5)
        by (nonlinear_arith)
        requires
            d == 0x100_0000,
            ONE_2 == 0x1_0000_0000_0000,
            ONE_3 == 0x100_0000_0000_0000_0000,
            ONE_4 == 0x1_0000_0000_0000_0000_0000_0000,
            ONE_5 == 0x100_0000_0000_0000_0000_0000_0000_0000,
    ;
    lemma_round_div_complement(2 * u2, d, d);
    assert(-1 <= quadratic_in_out_low(u) + quadratic_in_out_high(ONE - u) - ONE <= 1);
    lemma_round_div_complement(8 * u3, 2 * ONE_2, d);
    lemma_round_div_double(4 * u3, ONE_2 as int);
    assert(d * (2 * ONE_2) - 8 * u3 == f2 * f2 * f2 + 2 * ONE_3);
    assert(-1 <= cubic_in_out_low(u) + cubic_in_out_high(ONE - u) - ONE <= 1);
    lemma_round_div_complement(8 * u4, ONE_3 as int, d);
    assert(d * ONE_3 - 8 * u4 == -8 * (f1 * f1 * f1 * f1) + ONE_4);
    assert(-1 <= quartic_in_out_low(u) + quartic_in_out_high(ONE - u) - ONE <= 1);
    lemma_round_div_complement(32 * u5, 2 * ONE_4, d);
    lemma_round_div_double(16 * u5, ONE_4 as int);
    assert(d * (2 * ONE_4) - 32 * u5 == f2 * f2 * f2 * f2 * f2 + 2 * ONE_5);
    assert(-1 <= quintic_in_out_low(u) + quintic_in_out_high(ONE - u) - ONE <= 1);
    // The cosine half a turn on, counted from the mirrored progress, is the
    // cosine with its sign changed.
    let c = cos_quarter_at(2 * u);
    lemma_sin_quarter_symmetry(2 * u - ONE);
    lemma_sin_quarter_symmetry(ONE - 2 * u);
    assert(cos_quarter_at(2 * (ONE - u)) == -c);
    lemma_round_div_complement(ONE - c, 2, d);
    assert(-1 <= sine_in_out_at(u) + sine_in_out_at(ONE - u) - ONE <= 1);
    let v = floor_sqrt(ONE_2 - 4 * u2);
    lemma_round_div_complement(ONE - v, 2, d);
    assert(-1 <= circular_in_out_low(u) + circular_in_out_high(ONE - u) - ONE <= 1);
    let e = exp2_at(20 * u - 10 * ONE);
    assert(-20 * (ONE - u) + 10 * ONE == 20 * u - 10 * ONE);
    lemma_round_div_neg(e, 2);
    assert(exponential_in_out_low(u) + exponential_in_out_high(ONE - u) == ONE);
    // Twenty-six quarter turns back are seven turns and a half turn from
    // the same place.
    let s = sin_quarter_at(13 * (2 * u));
    let w = exp2_at(10 * (2 * u - ONE));
    lemma_sin_quarter_symmetry(26 * u);
    lemma_sin_quarter_periodic(26 * u + 2 * ONE, -7);
    assert(26 * u + 2 * ONE + 4 * (-7) * ONE == -13 * ((2 * (ONE - u) - ONE) + ONE));
    assert(sin_quarter_at(-13 * ((2 * (ONE - u) - ONE) + ONE)) == -s);
    assert(-10 * (2 * (ONE - u) - ONE) == 10 * (2 * u - ONE));
    assert((-s) * w == -(s * w)) by (nonlinear_arith);
    lemma_round_div_complement(s * w, 2 * d, d);
    assert(d * (2 * d) - s * w == (-s) * w + 2 * ONE_2);
    assert(-1 <= elastic_in_out_low(u) + elastic_in_out_high(ONE - u) - ONE <= 1);
    let b = back_numer(2 * u);
    lemma_round_div_complement(b, 2 * ONE_2, HALF as int);
    assert(ONE - (2 * (ONE - u) - ONE) == 2 * u);
    assert(HALF * (2 * ONE_2) - b == ONE_3 - b);
    assert(-1 <= back_in_out_low(u) + back_in_out_high(ONE - u) - ONE <= 1);
    let o = bounce_out_at(ONE - 2 * u);
    lemma_round_div_complement(o, 2, HALF as int);
    assert(2 * (ONE - u) - ONE == ONE - 2 * u);
    assert(HALF * 2 - o == ONE - o);
    assert(-1 <= bounce_in_out_low(u) + bounce_in_out_high(ONE - u) - ONE <= 1);
}

/// Every ease-in-out curve is its own mirror image in both axes:
/// `in_out(p) == 1 - in_out(1 - p)` on the unit interval, but for one raw
/// step where the two halves round their quotients apart.
pub proof fn lemma_in_out_mirrors_itself(u: int)
    requires
        0 <= u <= ONE,
    ensures
        -1 <= quadratic_in_out_at(u) + quadratic_in_out_at(ONE - u) - ONE <= 1,
        -1 <= cubic_in_out_at(u) + cubic_in_out_at(ONE - u) - ONE <= 1,
        -1 <= quartic_in_out_at(u) + quartic_in_out_at(ONE - u) - ONE <= 1,
        -1 <= quintic_in_out_at(u) + quintic_in_out_at(ONE - u) - ONE <= 1,
        -1 <= sine_in_out_at(u) + sine_in_out_at(ONE - u) - ONE <= 1,
        -1 <= circular_in_out_at(u) + circular_in_out_at(ONE - u) - ONE <= 1,
        -1 <= exponential_in_out_at(u) + exponential_in_out_at(ONE - u) - ONE <= 1,
        -1 <= elastic_in_out_at(u) + elastic_in_out_at(ONE - u) - ONE <= 1,
        -1 <= back_in_out_at(u) + back_in_out_at(ONE - u) - ONE <= 1,
        -1 <= bounce_in_out_at(u) + bounce_in_out_at(ONE - u) - ONE <= 1,
{
    if u < HALF {
        lemma_low_mirrors_high(u);
    } else if u > HALF {
        lemma_low_mirrors_high(ONE - u);
    } else {
        lemma_halves_meet();
    }
}

/// The bounce ease-in curve is the ease-out curve mirrored in both axes:
/// `bounce_in(p) == 1 - bounce_out(1 - p)` on the unit interval.
pub proof fn lemma_bounce_mirror(x: int)
    requires
        0 <= x <= ONE,
    ensures
        EaseFunction::BounceIn.eased(x) == ONE - EaseFunction::BounceOut.eased(ONE - x),
{
}

} // verus!
