//! Square root, sine and powers of two on fixed-point numbers.
//!
//! The square root is floored. Sine, cosine and the power of two are
//! truncated power series, evaluated from the innermost term outwards at 60
//! fractional bits: every product on the way is rounded to the nearest
//! value at that precision, and the final value once more to the 24 bits of
//! a [`Fixed`]. The values at the quarter turns and at whole exponents are
//! exact.

use vstd::prelude::*;
use vstd::arithmetic::div_mod::lemma_mod_multiples_vanish;
use vstd::arithmetic::power2::{
    lemma2_to64, lemma_pow2_adds, lemma_pow2_pos, lemma_pow2_strictly_increases,
    lemma_pow2_unfold, pow2,
};
use crate::fixed::{
    div_round, lemma_round_div_between, lemma_round_div_exact, lemma_round_div_nearest, narrow,
    round_div, Fixed,
};
use crate::fixed::{HALF, ONE, ONE_2};

verus! {

/// The integer square root: the largest `r` with `r * r <= n`, and zero for
/// a negative `n`.
pub open spec fn floor_sqrt(n: int) -> int
    decreases n,
{
    if n <= 0 {
        0
    } else {
        let r = floor_sqrt(n - 1);
        if (r + 1) * (r + 1) <= n {
            r + 1
        } else {
            r
        }
    }
}

/// `floor_sqrt(n)` squares to at most `n`, and its successor to more.
pub proof fn lemma_floor_sqrt_bounds(n: int)
    requires
        n >= 0,
    ensures
        floor_sqrt(n) >= 0,
        floor_sqrt(n) * floor_sqrt(n) <= n < (floor_sqrt(n) + 1) * (floor_sqrt(n) + 1),
    decreases n,
{
    if n > 0 {
        lemma_floor_sqrt_bounds(n - 1);
        let r = floor_sqrt(n - 1);
        if (r + 1) * (r + 1) <= n {
            assert(n < (r + 2) * (r + 2)) by (nonlinear_arith)
                requires
                    r >= 0,
                    n - 1 < (r + 1) * (r + 1),
            ;
        }
    }
}

/// Only one natural number lies within a square's bracket around `n`.
pub proof fn lemma_floor_sqrt_unique(n: int, r: int)
    requires
        r >= 0,
        r * r <= n < (r + 1) * (r + 1),
    ensures
        floor_sqrt(n) == r,
{
    lemma_floor_sqrt_bounds(n);
    let s = floor_sqrt(n);
    if s < r {
        assert((s + 1) * (s + 1) <= r * r) by (nonlinear_arith)
            requires
                0 <= s < r,
        ;
    } else if s > r {
        assert((r + 1) * (r + 1) <= s * s) by (nonlinear_arith)
            requires
                0 <= r < s,
        ;
    }
}

/// The integer square root of `n`, by bisection.
pub fn isqrt(n: u64) -> (r: u64)
    ensures
        r == floor_sqrt(n as int),
        r * r <= n < (r + 1) * (r + 1),
        r <= 0xffff_ffff,
{
    let mut lo: u64 = 0;
    let mut hi: u64 = 0x1_0000_0000;
    while hi - lo > 1
        invariant
            lo < hi <= 0x1_0000_0000,
            lo * lo <= n < hi * hi,
        decreases hi - lo,
    {
        let mid: u64 = lo + (hi - lo) / 2;
        assert(mid * mid <= 0x1_0000_0000 * 0x1_0000_0000) by (nonlinear_arith)
            requires
                0 <= mid <= 0x1_0000_0000,
        ;
        if (mid as u128) * (mid as u128) <= n as u128 {
            lo = mid;
        } else {
            hi = mid;
        }
    }
    proof {
        lemma_floor_sqrt_unique(n as int, lo as int);
    }
    lo
}

/// One at the precision of the series: two to the power of 60.
pub const SCALE: i128 = 0x1000_0000_0000_0000;

/// One step of a [`Fixed`] at the precision of the series: two to the
/// power of 36.
pub const SCALE_STEP: i128 = 0x10_0000_0000;

/// `(pi/2) / 1!` at 60 fractional bits: the coefficient of `y` in the sine
/// of `y` quarter turns.
pub const SIN_1: i128 = 1811004864519280710;

/// `(pi/2)^3 / 3!` at 60 fractional bits.
pub const SIN_3: i128 = 744745899218905439;

/// `(pi/2)^5 / 5!` at 60 fractional bits.
pub const SIN_5: i128 = 91879342557802013;

/// `(pi/2)^7 / 7!` at 60 fractional bits.
pub const SIN_7: i128 = 5397695021890949;

/// `(pi/2)^9 / 9!` at 60 fractional bits.
pub const SIN_9: i128 = 184976092165948;

/// `(pi/2)^2 / 2!` at 60 fractional bits: the coefficient of `v^2` in the
/// cosine of `v` quarter turns.
pub const COS_2: i128 = 1422359894497287770;

/// `(pi/2)^4 / 4!` at 60 fractional bits.
pub const COS_4: i128 = 292461030722154732;

/// `(pi/2)^6 / 6!` at 60 fractional bits.
pub const COS_6: i128 = 24053955633020903;

/// `(pi/2)^8 / 8!` at 60 fractional bits.
pub const COS_8: i128 = 1059834939193175;

/// `(pi/2)^10 / 10!` at 60 fractional bits.
pub const COS_10: i128 = 29055976611914;

/// One step of an alternating series: `c - t * z`, for a square `z` of a
/// raw value, the product rounded to the precision of `t`.
pub open spec fn fall(c: int, t: int, z: int) -> int {
    c - round_div(t * z, ONE_2 as int)
}

/// Where `z` is at most one quarter and `t` at most four times `c`, the
/// step stays between zero and `c`.
pub proof fn lemma_fall_range(c: int, t: int, z: int)
    requires
        0 <= z <= 0x4000_0000_0000,
        0 <= t <= 4 * c,
    ensures
        0 <= fall(c, t, z) <= c,
{
    assert(0 * ONE_2 <= t * z <= c * ONE_2) by (nonlinear_arith)
        requires
            0 <= z <= 0x4000_0000_0000,
            0 <= t <= 4 * c,
            ONE_2 == 0x1_0000_0000_0000,
    ;
    lemma_round_div_between(t * z, ONE_2 as int, 0, c);
}

/// The sine of `y` quarter turns for a raw `y` from zero to one half:
/// `y (a1 - y^2 (a3 - y^2 (a5 - y^2 (a7 - y^2 a9))))`.
pub open spec fn sin_low(y: int) -> int {
    let z = y * y;
    let t7 = fall(SIN_7 as int, SIN_9 as int, z);
    let t5 = fall(SIN_5 as int, t7, z);
    let t3 = fall(SIN_3 as int, t5, z);
    let t1 = fall(SIN_1 as int, t3, z);
    round_div(y * t1, SCALE as int)
}

/// The cosine of `v` quarter turns for a raw `v` from zero to one half:
/// `1 - v^2 (a2 - v^2 (a4 - v^2 (a6 - v^2 (a8 - v^2 a10))))`.
pub open spec fn cos_low(v: int) -> int {
    let z = v * v;
    let t8 = fall(COS_8 as int, COS_10 as int, z);
    let t6 = fall(COS_6 as int, t8, z);
    let t4 = fall(COS_4 as int, t6, z);
    let t2 = fall(COS_2 as int, t4, z);
    round_div(fall(SCALE as int, t2, z), SCALE_STEP as int)
}

/// The sine of `y` quarter turns for a raw `y` in the first quadrant, from
/// zero to one: the sine series up to one half, and beyond it the cosine
/// series of what is left to the quarter turn.
#[verifier::opaque]
pub open spec fn sin_arc(y: int) -> int {
    if y <= HALF {
        sin_low(y)
    } else {
        cos_low(ONE - y)
    }
}

/// The sine of `x` quarter turns, that is of the angle `x * pi / 2`, for any
/// raw `x`: the angle is reduced to one turn and mirrored into the first
/// quadrant.
pub open spec fn sin_quarter_at(x: int) -> int {
    let m = x % (4 * ONE);
    if m <= ONE {
        sin_arc(m)
    } else if m <= 2 * ONE {
        sin_arc(2 * ONE - m)
    } else if m <= 3 * ONE {
        -sin_arc(m - 2 * ONE)
    } else {
        -sin_arc(4 * ONE - m)
    }
}

/// The cosine of `x` quarter turns: the sine a quarter turn ahead.
pub open spec fn cos_quarter_at(x: int) -> int {
    sin_quarter_at(x + ONE)
}

/// Up to one half the sine series stays between zero and one, above the
/// chord from zero to the quarter turn and below the line of slope 1.6
/// through the origin.
pub proof fn lemma_sin_low_range(y: int)
    requires
        0 <= y <= HALF,
    ensures
        0 <= sin_low(y) <= ONE,
        y <= sin_low(y),
        5 * sin_low(y) <= 8 * y + 2,
{
    let z = y * y;
    assert(0 <= z <= 0x4000_0000_0000) by (nonlinear_arith)
        requires
            0 <= y <= 0x80_0000,
            z == y * y,
    ;
    let t7 = fall(SIN_7 as int, SIN_9 as int, z);
    lemma_fall_range(SIN_7 as int, SIN_9 as int, z);
    let t5 = fall(SIN_5 as int, t7, z);
    lemma_fall_range(SIN_5 as int, t7, z);
    let t3 = fall(SIN_3 as int, t5, z);
    lemma_fall_range(SIN_3 as int, t5, z);
    let t1 = fall(SIN_1 as int, t3, z);
    lemma_fall_range(SIN_1 as int, t3, z);
    // The inner terms take at most a quarter of `SIN_3` off `SIN_1`.
    assert(0 * ONE_2 <= t3 * z <= 186186474804726360 * ONE_2) by (nonlinear_arith)
        requires
            0 <= z <= 0x4000_0000_0000,
            0 <= t3 <= 744745899218905439,
            ONE_2 == 0x1_0000_0000_0000,
    ;
    lemma_round_div_between(t3 * z, ONE_2 as int, 0, 186186474804726360);
    let n = y * t1;
    assert(y * SCALE <= n && n <= ONE * SCALE && 5 * n <= 8 * y * SCALE) by (nonlinear_arith)
        requires
            0 <= y <= 0x80_0000,
            0x1000_0000_0000_0000 <= t1 <= 1811004864519280710,
            n == y * t1,
            ONE == 0x100_0000,
            SCALE == 0x1000_0000_0000_0000,
    ;
    lemma_round_div_between(n, SCALE as int, y, ONE as int);
    lemma_round_div_nearest(n, SCALE as int);
    let r = round_div(n, SCALE as int);
    assert(5 * r <= 8 * y + 2) by (nonlinear_arith)
        requires
            2 * (r * 0x1000_0000_0000_0000 - n) <= 0x1000_0000_0000_0000,
            5 * n <= 8 * y * 0x1000_0000_0000_0000,
    ;
}

/// From `from` on, up to one half, the cosine series stays at or below
/// `top`: where `drop` is at most the least value of the subtracted term
/// and `top` at least what is left of one.
proof fn lemma_cos_low_below(v: int, from: int, drop: int, top: int)
    requires
        0 <= from <= v <= HALF,
        0 <= drop,
        drop * ONE_2 <= 1349244636816749086 * (from * from),
        SCALE - drop <= top * SCALE_STEP,
    ensures
        cos_low(v) <= top,
{
    let z = v * v;
    assert(0 <= from * from <= z <= 0x4000_0000_0000) by (nonlinear_arith)
        requires
            0 <= from <= v <= 0x80_0000,
            z == v * v,
    ;
    let t8 = fall(COS_8 as int, COS_10 as int, z);
    lemma_fall_range(COS_8 as int, COS_10 as int, z);
    let t6 = fall(COS_6 as int, t8, z);
    lemma_fall_range(COS_6 as int, t8, z);
    let t4 = fall(COS_4 as int, t6, z);
    lemma_fall_range(COS_4 as int, t6, z);
    let t2 = fall(COS_2 as int, t4, z);
    lemma_fall_range(COS_2 as int, t4, z);
    // The innermost terms take at most a quarter of `COS_4` off `COS_2`.
    assert(0 * ONE_2 <= t4 * z <= 73115257680538684 * ONE_2) by (nonlinear_arith)
        requires
            0 <= z <= 0x4000_0000_0000,
            0 <= t4 <= 292461030722154732,
            ONE_2 == 0x1_0000_0000_0000,
    ;
    lemma_round_div_between(t4 * z, ONE_2 as int, 0, 73115257680538684);
    assert(t2 >= 1349244636816749086);
    assert(drop * ONE_2 <= t2 * z <= COS_2 * ONE_2) by (nonlinear_arith)
        requires
            drop * ONE_2 <= 1349244636816749086 * (from * from),
            0 <= from * from <= z <= 0x4000_0000_0000,
            1349244636816749086 <= t2 <= 1422359894497287770,
            COS_2 == 1422359894497287770,
            ONE_2 == 0x1_0000_0000_0000,
    ;
    lemma_round_div_between(t2 * z, ONE_2 as int, drop, COS_2 as int);
    let m = fall(SCALE as int, t2, z);
    lemma_fall_range(SCALE as int, t2, z);
    assert(0 * SCALE_STEP <= m);
    lemma_round_div_between(m, SCALE_STEP as int, 0, top);
}

/// Up to one half the cosine series stays between zero and one, above the
/// chord that falls from one to zero at the quarter turn and below the
/// line of slope 1.6 that falls to zero there.
pub proof fn lemma_cos_low_range(v: int)
    requires
        0 <= v <= HALF,
    ensures
        0 <= cos_low(v) <= ONE,
        ONE - v <= cos_low(v),
        5 * cos_low(v) <= 8 * (ONE - v),
{
    let z = v * v;
    assert(0 <= z <= 0x4000_0000_0000) by (nonlinear_arith)
        requires
            0 <= v <= 0x80_0000,
            z == v * v,
    ;
    let t8 = fall(COS_8 as int, COS_10 as int, z);
    lemma_fall_range(COS_8 as int, COS_10 as int, z);
    let t6 = fall(COS_6 as int, t8, z);
    lemma_fall_range(COS_6 as int, t8, z);
    let t4 = fall(COS_4 as int, t6, z);
    lemma_fall_range(COS_4 as int, t6, z);
    let t2 = fall(COS_2 as int, t4, z);
    lemma_fall_range(COS_2 as int, t4, z);
    let m = fall(SCALE as int, t2, z);
    lemma_fall_range(SCALE as int, t2, z);
    assert(0 * ONE_2 <= t2 * z <= (v * SCALE_STEP) * ONE_2) by (nonlinear_arith)
        requires
            0 <= v <= 0x80_0000,
            z == v * v,
            0 <= t2 <= 1422359894497287770,
            SCALE_STEP == 0x10_0000_0000,
            ONE_2 == 0x1_0000_0000_0000,
    ;
    lemma_round_div_between(t2 * z, ONE_2 as int, 0, v * SCALE_STEP);
    assert((ONE - v) * SCALE_STEP <= m <= ONE * SCALE_STEP) by (nonlinear_arith)
        requires
            m >= SCALE - v * SCALE_STEP,
            m <= SCALE,
            SCALE == 0x1000_0000_0000_0000,
            SCALE_STEP == 0x10_0000_0000,
            ONE == 0x100_0000,
    ;
    lemma_round_div_between(m, SCALE_STEP as int, ONE - v, ONE as int);
    if v > 7549747 {
        assert(273222096858692808 * ONE_2 <= 1349244636816749086 * (7549748int * 7549748int));
        lemma_cos_low_below(v, 7549748, 273222096858692808, 12801312);
    } else if v > 6291456 {
        assert(189737527052355340 * ONE_2 <= 1349244636816749086 * (6291456int * 6291456int));
        lemma_cos_low_below(v, 6291456, 189737527052355340, 14016172);
    }
}

/// In the first quadrant the sine stays between zero and one, above the
/// chord from zero to the quarter turn and below the line of slope 1.6
/// through the origin.
pub proof fn lemma_sin_arc_range(y: int)
    requires
        0 <= y <= ONE,
    ensures
        0 <= sin_arc(y) <= ONE,
        y <= sin_arc(y),
        5 * sin_arc(y) <= 8 * y + 2,
{
    reveal(sin_arc);
    if y <= HALF {
        lemma_sin_low_range(y);
    } else {
        lemma_cos_low_range(ONE - y);
    }
}

/// The sine is zero at zero and one at the quarter turn.
pub proof fn lemma_sin_arc_ends()
    ensures
        sin_arc(0) == 0,
        sin_arc(ONE as int) == ONE,
{
    reveal(sin_arc);
    lemma_round_div_exact(0, SCALE as int);
    let t1 = fall(SIN_1 as int, fall(SIN_3 as int, fall(SIN_5 as int, fall(SIN_7 as int, SIN_9 as int, 0), 0), 0), 0);
    assert(0 * t1 == 0 * SCALE) by (nonlinear_arith);
    assert(sin_low(0) == 0);
    let t2 = fall(COS_2 as int, fall(COS_4 as int, fall(COS_6 as int, fall(COS_8 as int, COS_10 as int, 0), 0), 0), 0);
    assert(t2 * 0 == 0 * ONE_2) by (nonlinear_arith);
    lemma_round_div_exact(0, ONE_2 as int);
    assert(fall(SCALE as int, t2, 0) == SCALE);
    lemma_round_div_exact(ONE as int, SCALE_STEP as int);
    assert(ONE * SCALE_STEP == SCALE);
    assert(cos_low(0) == ONE);
}

/// The sine stays between minus one and one; it is not negative on the
/// first half turn and not positive on the second.
pub proof fn lemma_sin_quarter_range(x: int)
    ensures
        -ONE <= sin_quarter_at(x) <= ONE,
        x % 0x400_0000 <= 2 * ONE ==> sin_quarter_at(x) >= 0,
        x % 0x400_0000 >= 2 * ONE ==> sin_quarter_at(x) <= 0,
{
    let m = x % 0x400_0000;
    assert(m == x % (4 * ONE));
    if m <= ONE {
        lemma_sin_arc_range(m);
    } else if m <= 2 * ONE {
        lemma_sin_arc_range(2 * ONE - m);
    } else if m <= 3 * ONE {
        lemma_sin_arc_range(m - 2 * ONE);
    } else {
        lemma_sin_arc_range(4 * ONE - m);
    }
    lemma_sin_arc_ends();
}

/// The sine is exact at every quarter turn: zero, one, zero, minus one.
pub proof fn lemma_sin_quarter_turns(k: int)
    ensures
        sin_quarter_at(4 * k * ONE) == 0,
        sin_quarter_at((4 * k + 1) * ONE) == ONE,
        sin_quarter_at((4 * k + 2) * ONE) == 0,
        sin_quarter_at((4 * k + 3) * ONE) == -ONE,
{
    assert((4 * k * ONE) % (4 * ONE) == 0 && ((4 * k + 1) * ONE) % (4 * ONE) == ONE && ((4 * k
        + 2) * ONE) % (4 * ONE) == 2 * ONE && ((4 * k + 3) * ONE) % (4 * ONE) == 3 * ONE)
        by (nonlinear_arith)
        requires
            ONE == 0x100_0000,
    ;
    lemma_sin_arc_ends();
}

/// Where two raw angles reduce to the same place of the turn, their sines
/// are equal; where they reduce to mirrored places, so are their sines.
proof fn lemma_sin_quarter_by_place(x: int, y: int)
    ensures
        x % 0x400_0000 == y % 0x400_0000 ==> sin_quarter_at(x) == sin_quarter_at(y),
        (x % 0x400_0000 + 0x200_0000) % 0x400_0000 == y % 0x400_0000 ==> sin_quarter_at(y)
            == -sin_quarter_at(x),
{
    lemma_sin_arc_ends();
    let m = x % 0x400_0000;
    let n = y % 0x400_0000;
    assert(m == x % (4 * ONE) && n == y % (4 * ONE));
    if (m + 0x200_0000) % 0x400_0000 == n {
        if m < 0x200_0000 {
            assert(n == m + 0x200_0000);
        } else {
            assert(n == m - 0x200_0000);
        }
    }
}

/// The sine is mirrored at the quarter turn.
proof fn lemma_sin_quarter_mirror(x: int)
    ensures
        sin_quarter_at(2 * ONE - x) == sin_quarter_at(x),
{
    lemma_sin_arc_ends();
    let m = x % 0x400_0000;
    let n = (0x200_0000 - x) % 0x400_0000;
    assert(m == x % (4 * ONE) && n == (2 * ONE - x) % (4 * ONE));
    assert(n == if m <= 0x200_0000 {
        0x200_0000 - m
    } else {
        0x600_0000 - m
    });
}

/// The sine repeats after a full turn, changes its sign after half a turn,
/// is odd, and is mirrored at the quarter turn.
pub proof fn lemma_sin_quarter_symmetry(x: int)
    ensures
        sin_quarter_at(x + 4 * ONE) == sin_quarter_at(x),
        sin_quarter_at(x + 2 * ONE) == -sin_quarter_at(x),
        sin_quarter_at(-x) == -sin_quarter_at(x),
        sin_quarter_at(2 * ONE - x) == sin_quarter_at(x),
{
    lemma_sin_quarter_by_place(x, x + 0x400_0000);
    lemma_sin_quarter_by_place(x, x + 0x200_0000);
    lemma_sin_quarter_mirror(x);
    // Odd: mirrored at the quarter turn and then half a turn on.
    lemma_sin_quarter_by_place(0x200_0000 - x, -x);
    assert(((0x200_0000 - x) % 0x400_0000 + 0x200_0000) % 0x400_0000 == (-x) % 0x400_0000);
}

/// The sine repeats after any whole number of turns.
pub proof fn lemma_sin_quarter_periodic(x: int, k: int)
    ensures
        sin_quarter_at(x + 4 * k * ONE) == sin_quarter_at(x),
{
    lemma_mod_multiples_vanish(k, x, 0x400_0000);
    assert(0x400_0000 * k + x == x + 4 * k * ONE) by (nonlinear_arith)
        requires
            ONE == 0x100_0000,
    ;
    lemma_sin_quarter_by_place(x, x + 4 * k * ONE);
}

/// One step of an alternating series.
fn fall_step(c: i128, t: i128, z: i128) -> (r: i128)
    requires
        0 <= z <= 0x4000_0000_0000,
        0 <= t <= 4 * c,
        c <= 0x2000_0000_0000_0000,
    ensures
        r == fall(c as int, t as int, z as int),
        0 <= r <= c,
{
    proof {
        lemma_fall_range(c as int, t as int, z as int);
    }
    assert(0 <= t * z <= 0x8000_0000_0000_0000 * 0x4000_0000_0000) by (nonlinear_arith)
        requires
            0 <= z <= 0x4000_0000_0000,
            0 <= t <= 0x8000_0000_0000_0000,
    ;
    c - div_round(t * z, 0x1_0000_0000_0000)
}

/// The sine on the first quadrant.
fn arc(y: i128) -> (r: i128)
    requires
        0 <= y <= ONE,
    ensures
        r == sin_arc(y as int),
        0 <= r <= ONE,
{
    proof {
        reveal(sin_arc);
        lemma_sin_arc_range(y as int);
    }
    if y <= 0x80_0000 {
        assert(0 <= y * y <= 0x4000_0000_0000) by (nonlinear_arith)
            requires
                0 <= y <= 0x80_0000,
        ;
        let z: i128 = y * y;
        let t7: i128 = fall_step(5397695021890949, 184976092165948, z);
        let t5: i128 = fall_step(91879342557802013, t7, z);
        let t3: i128 = fall_step(744745899218905439, t5, z);
        let t1: i128 = fall_step(1811004864519280710, t3, z);
        assert(0 <= y * t1 <= 0x80_0000 * 0x2000_0000_0000_0000) by (nonlinear_arith)
            requires
                0 <= y <= 0x80_0000,
                0 <= t1 <= 0x2000_0000_0000_0000,
        ;
        div_round(y * t1, 0x1000_0000_0000_0000)
    } else {
        let v: i128 = 0x100_0000 - y;
        assert(0 <= v * v <= 0x4000_0000_0000) by (nonlinear_arith)
            requires
                0 <= v <= 0x80_0000,
        ;
        let z: i128 = v * v;
        let t8: i128 = fall_step(1059834939193175, 29055976611914, z);
        let t6: i128 = fall_step(24053955633020903, t8, z);
        let t4: i128 = fall_step(292461030722154732, t6, z);
        let t2: i128 = fall_step(1422359894497287770, t4, z);
        let m: i128 = fall_step(0x1000_0000_0000_0000, t2, z);
        div_round(m, 0x10_0000_0000)
    }
}

/// The sine of `w` quarter turns for a wide raw value.
fn sin_wide(w: i64) -> (r: Fixed)
    requires
        -0x1_0000_0000 <= w <= 0x1_0000_0000,
    ensures
        r.raw == sin_quarter_at(w as int),
        -ONE <= r.raw <= ONE,
{
    let m: i64 = if w >= 0 {
        w % 0x400_0000
    } else {
        let k: i64 = (-w) % 0x400_0000;
        if k == 0 {
            0
        } else {
            0x400_0000 - k
        }
    };
    assert(m == (w as int) % 0x400_0000);
    if m <= 0x100_0000 {
        narrow(arc(m as i128))
    } else if m <= 0x200_0000 {
        narrow(arc((0x200_0000 - m) as i128))
    } else if m <= 0x300_0000 {
        narrow(-arc((m - 0x200_0000) as i128))
    } else {
        narrow(-arc((0x400_0000 - m) as i128))
    }
}

/// The sine of `x` quarter turns, that is of the angle `x * pi / 2`.
pub fn sin_quarter(x: Fixed) -> (r: Fixed)
    ensures
        r.raw == sin_quarter_at(x.raw as int),
        -ONE <= r.raw <= ONE,
{
    sin_wide(x.raw as i64)
}

/// The cosine of `x` quarter turns, that is of the angle `x * pi / 2`.
pub fn cos_quarter(x: Fixed) -> (r: Fixed)
    ensures
        r.raw == cos_quarter_at(x.raw as int),
        -ONE <= r.raw <= ONE,
{
    sin_wide(x.raw as i64 + 0x100_0000)
}

/// `ln(2)^k / k!` at 60 fractional bits, for `k` from 1 to 10: the
/// coefficients of the series of two to the power of `f`.
pub const EXP_1: i128 = 799144290325165978;

/// See [`EXP_1`].
pub const EXP_2: i128 = 276962305849733589;

/// See [`EXP_1`].
pub const EXP_3: i128 = 63991880473708028;

/// See [`EXP_1`].
pub const EXP_4: i128 = 11088947882269934;

/// See [`EXP_1`].
pub const EXP_5: i128 = 1537254591994316;

/// See [`EXP_1`].
pub const EXP_6: i128 = 177590614373948;

/// See [`EXP_1`].
pub const EXP_7: i128 = 17585204806744;

/// See [`EXP_1`].
pub const EXP_8: i128 = 1523641891420;

/// See [`EXP_1`].
pub const EXP_9: i128 = 117345342357;

/// See [`EXP_1`].
pub const EXP_10: i128 = 8133759320;

/// One step of a series with positive terms: `c + t * f`, for a raw
/// fraction `f`, the product rounded to the precision of `t`.
pub open spec fn rise(c: int, t: int, f: int) -> int {
    c + round_div(t * f, ONE as int)
}

/// For a fraction below one and a `t` that is not negative, the step adds
/// at most `t` to `c`.
pub proof fn lemma_rise_range(c: int, t: int, f: int)
    requires
        0 <= f < ONE,
        0 <= t,
    ensures
        c <= rise(c, t, f) <= c + t,
{
    assert(0 * ONE <= t * f <= t * ONE) by (nonlinear_arith)
        requires
            0 <= f < ONE,
            0 <= t,
    ;
    lemma_round_div_between(t * f, ONE as int, 0, t);
}

/// The innermost nine steps of the series of two to the power of `f`.
pub open spec fn exp2_inner(f: int) -> int {
    let t9 = rise(EXP_9 as int, EXP_10 as int, f);
    let t8 = rise(EXP_8 as int, t9, f);
    let t7 = rise(EXP_7 as int, t8, f);
    let t6 = rise(EXP_6 as int, t7, f);
    let t5 = rise(EXP_5 as int, t6, f);
    let t4 = rise(EXP_4 as int, t5, f);
    let t3 = rise(EXP_3 as int, t4, f);
    let t2 = rise(EXP_2 as int, t3, f);
    rise(EXP_1 as int, t2, f)
}

/// Two to the power of a raw fraction `f` between zero and one, at 60
/// fractional bits: `1 + f (c1 + f (c2 + ... + f c10))`.
pub open spec fn exp2_mant(f: int) -> int {
    rise(SCALE as int, exp2_inner(f), f)
}

/// Two to the power of a raw `x`: the fraction of `x` goes through the
/// series, the whole part of `x` shifts the value, and the quotient is
/// rounded to the step of a [`Fixed`].
pub open spec fn exp2_at(x: int) -> int {
    let i = x / (ONE as int);
    let f = x % (ONE as int);
    if i >= 0 {
        round_div(exp2_mant(f) * pow2(i as nat), SCALE_STEP as int)
    } else {
        round_div(exp2_mant(f), SCALE_STEP * pow2((-i) as nat))
    }
}

/// The inner series lies between its first coefficient and the sum of all
/// ten, which is just below one.
pub proof fn lemma_exp2_inner_range(f: int)
    requires
        0 <= f < ONE,
    ensures
        EXP_1 <= exp2_inner(f) <= 1152921504063045634,
{
    let t9 = rise(EXP_9 as int, EXP_10 as int, f);
    lemma_rise_range(EXP_9 as int, EXP_10 as int, f);
    let t8 = rise(EXP_8 as int, t9, f);
    lemma_rise_range(EXP_8 as int, t9, f);
    let t7 = rise(EXP_7 as int, t8, f);
    lemma_rise_range(EXP_7 as int, t8, f);
    let t6 = rise(EXP_6 as int, t7, f);
    lemma_rise_range(EXP_6 as int, t7, f);
    let t5 = rise(EXP_5 as int, t6, f);
    lemma_rise_range(EXP_5 as int, t6, f);
    let t4 = rise(EXP_4 as int, t5, f);
    lemma_rise_range(EXP_4 as int, t5, f);
    let t3 = rise(EXP_3 as int, t4, f);
    lemma_rise_range(EXP_3 as int, t4, f);
    let t2 = rise(EXP_2 as int, t3, f);
    lemma_rise_range(EXP_2 as int, t3, f);
    lemma_rise_range(EXP_1 as int, t2, f);
}

/// The series lies between one and two, two excluded by at least one step
/// of a [`Fixed`].
pub proof fn lemma_exp2_mant_range(f: int)
    requires
        0 <= f < ONE,
    ensures
        SCALE <= exp2_mant(f) <= 2 * SCALE - SCALE_STEP,
{
    let t = exp2_inner(f);
    lemma_exp2_inner_range(f);
    assert(0 * ONE <= t * f <= (SCALE - SCALE_STEP) * ONE) by (nonlinear_arith)
        requires
            0 <= f <= 0xff_ffff,
            0 <= t <= 1152921504063045634,
            ONE == 0x100_0000,
            SCALE == 0x1000_0000_0000_0000,
            SCALE_STEP == 0x10_0000_0000,
    ;
    lemma_round_div_between(t * f, ONE as int, 0, SCALE - SCALE_STEP);
}

/// One step of the series against its tangent at one: where `t` lies above
/// `a - b e` by all but `s`, with `e` for what `f` lacks to one, the step
/// lies above `c + a - (b + u) e` by all but `s + 1`, for any `u` that
/// `t` does not exceed.
proof fn lemma_rise_tangent(c: int, t: int, f: int, a: int, b: int, s: int, u: int)
    requires
        0 <= f < ONE,
        0 <= t <= u,
        ONE * t >= ONE * a - b * (ONE - f) - ONE * s,
    ensures
        ONE * rise(c, t, f) >= ONE * (c + a) - (b + u) * (ONE - f) - ONE * (s + 1),
{
    let q = round_div(t * f, ONE as int);
    lemma_round_div_nearest(t * f, ONE as int);
    let e = ONE - f;
    assert(t * f == ONE * t - t * e && t * e <= u * e && (b + u) * e == b * e + u * e && ONE * (c
        + a) == ONE * c + ONE * a && ONE * (c + q) == ONE * c + q * ONE && ONE * (s + 1) == ONE
        * s + ONE) by (nonlinear_arith)
        requires
            e == ONE - f,
            0 <= e,
            0 <= t <= u,
    ;
}

/// The series lies above its tangent at one: with `e` for what the raw
/// fraction `f` lacks to one, two to the `f` is at least `2 - 2 ln(2) e`,
/// but for the last bits of the series' precision.
pub proof fn lemma_exp2_mant_tangent(f: int)
    requires
        0 <= f < ONE,
    ensures
        ONE * exp2_mant(f) >= ONE * (SCALE + 1152921504063045634) - 1598288574635505225 * (ONE - f) - 10 * ONE,
{
    let t10 = EXP_10 as int;
    let t9 = rise(EXP_9 as int, t10, f);
    lemma_rise_range(EXP_9 as int, t10, f);
    lemma_rise_tangent(EXP_9 as int, t10, f, 8133759320, 0, 0, 8133759320);
    let t8 = rise(EXP_8 as int, t9, f);
    lemma_rise_range(EXP_8 as int, t9, f);
    lemma_rise_tangent(EXP_8 as int, t9, f, 125479101677, 8133759320, 1, 125479101677);
    let t7 = rise(EXP_7 as int, t8, f);
    lemma_rise_range(EXP_7 as int, t8, f);
    lemma_rise_tangent(EXP_7 as int, t8, f, 1649120993097, 133612860997, 2, 1649120993097);
    let t6 = rise(EXP_6 as int, t7, f);
    lemma_rise_range(EXP_6 as int, t7, f);
    lemma_rise_tangent(EXP_6 as int, t7, f, 19234325799841, 1782733854094, 3, 19234325799841);
    let t5 = rise(EXP_5 as int, t6, f);
    lemma_rise_range(EXP_5 as int, t6, f);
    lemma_rise_tangent(EXP_5 as int, t6, f, 196824940173789, 21017059653935, 4, 196824940173789);
    let t4 = rise(EXP_4 as int, t5, f);
    lemma_rise_range(EXP_4 as int, t5, f);
    lemma_rise_tangent(EXP_4 as int, t5, f, 1734079532168105, 217841999827724, 5, 1734079532168105);
    let t3 = rise(EXP_3 as int, t4, f);
    lemma_rise_range(EXP_3 as int, t4, f);
    lemma_rise_tangent(EXP_3 as int, t4, f, 12823027414438039, 1951921531995829, 6, 12823027414438039);
    let t2 = rise(EXP_2 as int, t3, f);
    lemma_rise_range(EXP_2 as int, t3, f);
    lemma_rise_tangent(EXP_2 as int, t3, f, 76814907888146067, 14774948946433868, 7, 76814907888146067);
    let t1 = rise(EXP_1 as int, t2, f);
    lemma_rise_range(EXP_1 as int, t2, f);
    lemma_rise_tangent(EXP_1 as int, t2, f, 353777213737879656, 91589856834579935, 8, 353777213737879656);
    lemma_rise_tangent(SCALE as int, t1, f, 1152921504063045634, 445367070572459591, 9, 1152921504063045634);
    assert(exp2_inner(f) == t1);
}

/// Two to a whole power is exact: `exp2(k) == 2^k`, and `exp2(-k) == 2^-k`
/// down to the last representable bit.
pub proof fn lemma_exp2_whole(k: nat)
    ensures
        exp2_at(k * ONE) == ONE * pow2(k),
        k <= 24 ==> exp2_at(-(k as int) * ONE) * pow2(k) == ONE,
{
    lemma_round_div_exact(0, ONE as int);
    assert(exp2_inner(0) * 0 == 0 * ONE) by (nonlinear_arith);
    assert(exp2_mant(0) == SCALE);
    let a = pow2(k) as int;
    lemma_pow2_pos(k);
    let up = k * ONE;
    assert(up / (ONE as int) == k && up % (ONE as int) == 0) by (nonlinear_arith)
        requires
            up == k * ONE,
            ONE == 0x100_0000,
    ;
    assert(SCALE * a == (ONE * a) * SCALE_STEP) by (nonlinear_arith)
        requires
            ONE == 0x100_0000,
            SCALE_STEP == 0x10_0000_0000,
            SCALE == 0x1000_0000_0000_0000,
    ;
    lemma_round_div_exact(ONE * a, SCALE_STEP as int);
    if k == 0 {
        assert(a == 1) by {
            lemma2_to64();
        }
    } else if k <= 24 {
        let down = -(k as int) * ONE;
        assert(down / (ONE as int) == -(k as int) && down % (ONE as int) == 0)
            by (nonlinear_arith)
            requires
                down == -(k as int) * ONE,
                ONE == 0x100_0000,
        ;
        lemma2_to64();
        lemma_pow2_adds(k, (24 - k) as nat);
        let b = pow2((24 - k) as nat) as int;
        assert(SCALE == b * (SCALE_STEP * a) && b * a == ONE) by (nonlinear_arith)
            requires
                a * b == 0x100_0000,
                ONE == 0x100_0000,
                SCALE_STEP == 0x10_0000_0000,
                SCALE == 0x1000_0000_0000_0000,
        ;
        assert(SCALE_STEP * a > 0) by (nonlinear_arith)
            requires
                a > 0,
                SCALE_STEP == 0x10_0000_0000,
        ;
        lemma_round_div_exact(b, SCALE_STEP * a);
    }
}

/// Below zero the power of two lies above the line of slope 0.7 through
/// one: `2^x >= 1 + 0.7 x` for `x <= 0`, but for the rounding.
pub proof fn lemma_exp2_tangent(x: int)
    requires
        x <= 0,
    ensures
        0 <= exp2_at(x) <= ONE,
        10 * exp2_at(x) >= 10 * ONE + 7 * x - 6,
{
    let i = x / (ONE as int);
    let f = x % (ONE as int);
    assert(x == i * 0x100_0000 + f && 0 <= f < 0x100_0000 && i <= 0);
    lemma2_to64();
    if i == 0 {
        lemma_exp2_whole(0);
        assert(x == 0);
    } else {
        let k = (-i) as nat;
        let m = exp2_mant(f);
        lemma_exp2_mant_range(f);
        lemma_exp2_mant_tangent(f);
        if k > 1 {
            lemma_pow2_strictly_increases(1, k);
        }
        let den = SCALE_STEP * pow2(k);
        assert(den >= 2 * SCALE_STEP && 0 * den <= m && m <= ONE * den) by (nonlinear_arith)
            requires
                den == SCALE_STEP * pow2(k),
                pow2(k) >= 2,
                SCALE_STEP == 0x10_0000_0000,
                ONE == 0x100_0000,
                0 <= m <= 0x2000_0000_0000_0000,
        ;
        lemma_round_div_between(m, den, 0, ONE as int);
        lemma_round_div_nearest(m, den);
        let r = round_div(m, den);
        assert(exp2_at(x) == r);
        if k == 1 {
            assert(den == 2 * SCALE_STEP);
            assert(r * den == r * 0x20_0000_0000) by (nonlinear_arith)
                requires
                    den == 0x20_0000_0000,
            ;
        } else if k == 2 {
            assert(den == 4 * SCALE_STEP);
            assert(r * den == r * 0x40_0000_0000) by (nonlinear_arith)
                requires
                    den == 0x40_0000_0000,
            ;
        }
    }
}

/// The power of two for a small exponent.
fn pow2_small(k: u32) -> (s: i128)
    requires
        k <= 30,
    ensures
        s == pow2(k as nat),
        1 <= s <= 0x4000_0000,
{
    let mut s: i128 = 1;
    let mut j: u32 = 0;
    proof {
        lemma2_to64();
    }
    while j < k
        invariant
            j <= k <= 30,
            s == pow2(j as nat),
            1 <= s <= 0x4000_0000,
        decreases k - j,
    {
        proof {
            lemma_pow2_unfold((j + 1) as nat);
            lemma2_to64();
            if j + 1 < 30 {
                lemma_pow2_strictly_increases((j + 1) as nat, 30);
            }
        }
        s = 2 * s;
        j = j + 1;
    }
    s
}

/// One step of a series with positive terms.
fn rise_step(c: i128, t: i128, f: i128) -> (r: i128)
    requires
        0 <= f < ONE,
        0 <= t <= 0x1000_0000_0000_0000,
        0 <= c <= 0x1000_0000_0000_0000,
    ensures
        r == rise(c as int, t as int, f as int),
        c <= r <= c + t,
{
    proof {
        lemma_rise_range(c as int, t as int, f as int);
    }
    assert(0 <= t * f <= 0x1000_0000_0000_0000 * 0x100_0000) by (nonlinear_arith)
        requires
            0 <= f <= 0x100_0000,
            0 <= t <= 0x1000_0000_0000_0000,
    ;
    c + div_round(t * f, 0x100_0000)
}

/// Two to the power of `x`.
///
/// The exponent stays below seven, where the result is still a [`Fixed`].
pub fn exp2(x: Fixed) -> (r: Fixed)
    requires
        x.raw < 7 * ONE,
    ensures
        r.raw == exp2_at(x.raw as int),
        0 <= r.raw,
        x.raw <= 0 ==> r.raw <= ONE,
{
    let w: i64 = x.raw as i64;
    let i: i64;
    let f: i64;
    if w >= 0 {
        i = w / 0x100_0000;
        f = w % 0x100_0000;
    } else {
        let k: i64 = (-w) % 0x100_0000;
        if k == 0 {
            i = -((-w) / 0x100_0000);
            f = 0;
        } else {
            i = -((-w) / 0x100_0000) - 1;
            f = 0x100_0000 - k;
        }
    }
    assert(i == (w as int) / 0x100_0000 && f == (w as int) % 0x100_0000);
    proof {
        lemma_exp2_inner_range(f as int);
        lemma_exp2_mant_range(f as int);
        lemma2_to64();
    }
    let g: i128 = f as i128;
    let t9: i128 = rise_step(117345342357, 8133759320, g);
    let t8: i128 = rise_step(1523641891420, t9, g);
    let t7: i128 = rise_step(17585204806744, t8, g);
    let t6: i128 = rise_step(177590614373948, t7, g);
    let t5: i128 = rise_step(1537254591994316, t6, g);
    let t4: i128 = rise_step(11088947882269934, t5, g);
    let t3: i128 = rise_step(63991880473708028, t4, g);
    let t2: i128 = rise_step(276962305849733589, t3, g);
    let t1: i128 = rise_step(799144290325165978, t2, g);
    let n: i128 = rise_step(0x1000_0000_0000_0000, t1, g);
    if i >= 0 {
        let s: i128 = pow2_small(i as u32);
        proof {
            lemma_pow2_strictly_increases(i as nat, 7);
            assert(0 <= n * s <= (2 * ONE - 1) * s * SCALE_STEP) by (nonlinear_arith)
                requires
                    0 <= n <= (2 * ONE - 1) * SCALE_STEP,
                    s >= 1,
            ;
            lemma_round_div_between(n * s, SCALE_STEP as int, 0, (2 * ONE - 1) * s);
            assert((2 * ONE - 1) * s <= (2 * ONE - 1) * 0x40) by (nonlinear_arith)
                requires
                    1 <= s <= 0x40,
                    ONE == 0x100_0000,
            ;
            if x.raw <= 0 {
                lemma_round_div_exact(0, ONE as int);
                assert(t1 * g == 0 * ONE) by (nonlinear_arith)
                    requires
                        g == 0,
                ;
                assert(n == SCALE && s == 1);
                lemma_round_div_exact(ONE as int, SCALE_STEP as int);
                assert(n * s == ONE * SCALE_STEP) by (nonlinear_arith)
                    requires
                        n == 0x1000_0000_0000_0000,
                        s == 1,
                        ONE == 0x100_0000,
                        SCALE_STEP == 0x10_0000_0000,
                ;
            }
        }
        assert(n * s <= 0x2000_0000_0000_0000 * 0x40) by (nonlinear_arith)
            requires
                0 <= n <= 0x2000_0000_0000_0000,
                1 <= s <= 0x40,
        ;
        narrow(div_round(n * s, 0x10_0000_0000))
    } else if i < -30 {
        proof {
            let k = (-i) as nat;
            lemma_pow2_strictly_increases(30, k);
            let den = SCALE_STEP * pow2(k);
            assert(den > 2 * n) by (nonlinear_arith)
                requires
                    den == SCALE_STEP * pow2(k),
                    pow2(k) > 0x4000_0000,
                    SCALE_STEP == 0x10_0000_0000,
                    0 <= n <= 0x2000_0000_0000_0000,
            ;
            assert((2 * n + den) / (2 * den) == 0) by (nonlinear_arith)
                requires
                    0 <= n,
                    2 * n < den,
            ;
        }
        Fixed { raw: 0 }
    } else {
        let s: i128 = pow2_small((-i) as u32);
        let den: i128 = 0x10_0000_0000 * s;
        proof {
            lemma_pow2_strictly_increases(0, (-i) as nat);
            assert(0 * den <= n <= ONE * den) by (nonlinear_arith)
                requires
                    den == 0x10_0000_0000 * s,
                    s >= 2,
                    0 <= n <= 0x2000_0000_0000_0000,
                    ONE == 0x100_0000,
            ;
            lemma_round_div_between(n as int, den as int, 0, ONE as int);
        }
        narrow(div_round(n, den))
    }
}

} // verus!
