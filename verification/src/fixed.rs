//! Saturating fixed-point arithmetic with six decimal places.
//!
//! A quantity is held as an `i64` count of millionths. Every operation
//! clamps its result into the `i64` range, and division truncates toward
//! zero; each executable operation returns exactly the value of its spec
//! counterpart, so callers can reason about compositions of them.

use vstd::prelude::*;
use vstd::math::abs;
use vstd::arithmetic::div_mod::{lemma_div_nonincreasing, lemma_div_pos_is_pos};

verus! {

/// Number of fixed-point units in one whole quantity.
pub const SCALE: i64 = 1_000_000;

/// Clamps an unbounded integer into the `i64` range.
pub open spec fn sat(x: int) -> int {
    if x > i64::MAX as int {
        i64::MAX as int
    } else if x < i64::MIN as int {
        i64::MIN as int
    } else {
        x
    }
}

/// Division truncating toward zero, the rounding used by every
/// executable division here.
pub open spec fn t_div(x: int, d: int) -> int
    recommends
        d != 0,
{
    if (x < 0) == (d < 0) {
        abs(x) as int / abs(d) as int
    } else {
        -(abs(x) as int / abs(d) as int)
    }
}

/// Saturating fixed-point addition.
pub open spec fn s_add(a: int, b: int) -> int {
    sat(a + b)
}

/// Saturating fixed-point subtraction.
pub open spec fn s_sub(a: int, b: int) -> int {
    sat(a - b)
}

/// Saturating fixed-point multiplication: the double-width product is
/// scaled back down by `SCALE`.
pub open spec fn s_mul(a: int, b: int) -> int {
    sat(t_div(a * b, SCALE as int))
}

/// Saturating fixed-point division: the dividend is scaled up by `SCALE`
/// before dividing.
pub open spec fn s_div(a: int, b: int) -> int
    recommends
        b != 0,
{
    sat(t_div(a * SCALE, b))
}

/// Division of a fixed-point value by a plain element count.
pub open spec fn s_div_count(a: int, m: int) -> int
    recommends
        m > 0,
{
    sat(t_div(a, m))
}

/// Saturating absolute value.
pub open spec fn s_abs(a: int) -> int {
    sat(abs(a) as int)
}

/// `r` is the integer square root of `x`.
pub open spec fn is_sqrt(x: int, r: int) -> bool {
    0 <= r && r * r <= x && x < (r + 1) * (r + 1)
}

/// The integer square root of a nonnegative integer.
pub open spec fn sqrt_floor(x: int) -> int
    recommends
        x >= 0,
{
    choose|r: int| is_sqrt(x, r)
}

/// Fixed-point square root: the square root of `a / SCALE`, scaled back
/// up, equals the integer square root of `a * SCALE`.
pub open spec fn s_sqrt(a: int) -> int
    recommends
        a >= 0,
{
    sat(sqrt_floor(a * SCALE))
}

/// Every nonnegative integer has an integer square root.
pub proof fn lemma_sqrt_exists(x: int)
    requires
        x >= 0,
    ensures
        is_sqrt(x, sqrt_floor(x)),
    decreases x,
{
    if x == 0 {
        assert(is_sqrt(0, 0));
    } else {
        lemma_sqrt_exists(x - 1);
        let r = sqrt_floor(x - 1);
        if (r + 1) * (r + 1) <= x {
            assert((r + 1 + 1) * (r + 1 + 1) > x) by (nonlinear_arith)
                requires
                    0 <= r,
                    x - 1 < (r + 1) * (r + 1),
                ;
            assert(is_sqrt(x, r + 1));
        } else {
            assert(is_sqrt(x, r));
        }
        assert(is_sqrt(x, sqrt_floor(x)));
    }
}

/// The integer square root is unique.
pub proof fn lemma_sqrt_unique(x: int, r1: int, r2: int)
    requires
        is_sqrt(x, r1),
        is_sqrt(x, r2),
    ensures
        r1 == r2,
{
    if r1 < r2 {
        assert((r1 + 1) * (r1 + 1) <= r2 * r2) by (nonlinear_arith)
            requires
                0 <= r1,
                0 <= r2,
                r1 < r2,
            ;
    }
    if r2 < r1 {
        assert((r2 + 1) * (r2 + 1) <= r1 * r1) by (nonlinear_arith)
            requires
                0 <= r1,
                0 <= r2,
                r2 < r1,
            ;
    }
}

/// Truncating division of a nonnegative value by a positive one is
/// nonnegative.
pub proof fn lemma_t_div_nonneg(x: int, d: int)
    requires
        x >= 0,
        d > 0,
    ensures
        t_div(x, d) >= 0,
{
    lemma_div_pos_is_pos(abs(x) as int, abs(d) as int);
}

/// A fixed-point square is never negative.
pub proof fn lemma_square_nonneg(d: int)
    ensures
        s_mul(d, d) >= 0,
{
    assert(d * d >= 0) by (nonlinear_arith);
}

fn clamp64(x: i128) -> (r: i64)
    ensures
        r as int == sat(x as int),
{
    if x > i64::MAX as i128 {
        i64::MAX
    } else if x < i64::MIN as i128 {
        i64::MIN
    } else {
        x as i64
    }
}

fn t_div_i128(x: i128, d: i128) -> (r: i128)
    requires
        d != 0,
        x != i128::MIN,
        d != i128::MIN,
    ensures
        r as int == t_div(x as int, d as int),
{
    let xm: u128 = if x < 0 {
        (-x) as u128
    } else {
        x as u128
    };
    let dm: u128 = if d < 0 {
        (-d) as u128
    } else {
        d as u128
    };
    let q: u128 = xm / dm;
    proof {
        lemma_div_nonincreasing(xm as int, dm as int);
    }
    if (x < 0) == (d < 0) {
        q as i128
    } else {
        -(q as i128)
    }
}

/// Saturating addition of two fixed-point values.
pub fn fx_add(a: i64, b: i64) -> (r: i64)
    ensures
        r as int == s_add(a as int, b as int),
{
    clamp64(a as i128 + b as i128)
}

/// Saturating subtraction of two fixed-point values.
pub fn fx_sub(a: i64, b: i64) -> (r: i64)
    ensures
        r as int == s_sub(a as int, b as int),
{
    clamp64(a as i128 - b as i128)
}

/// Saturating multiplication of two fixed-point values.
pub fn fx_mul(a: i64, b: i64) -> (r: i64)
    ensures
        r as int == s_mul(a as int, b as int),
{
    proof {
        assert((a as int) * (b as int) <= 0x4000_0000_0000_0000_0000_0000_0000_0000int
            && (a as int) * (b as int) >= -0x4000_0000_0000_0000_0000_0000_0000_0000int)
            by (nonlinear_arith)
            requires
                i64::MIN <= a <= i64::MAX,
                i64::MIN <= b <= i64::MAX,
            ;
    }
    let p: i128 = (a as i128) * (b as i128);
    clamp64(t_div_i128(p, SCALE as i128))
}

/// Saturating division of two fixed-point values.
pub fn fx_div(a: i64, b: i64) -> (r: i64)
    requires
        b != 0,
    ensures
        r as int == s_div(a as int, b as int),
{
    proof {
        assert(-0x4000_0000_0000_0000_0000_0000_0000_0000int <= (a as int) * (SCALE as int)
            <= 0x4000_0000_0000_0000_0000_0000_0000_0000int) by (nonlinear_arith)
            requires
                i64::MIN <= a <= i64::MAX,
            ;
    }
    let p: i128 = (a as i128) * (SCALE as i128);
    clamp64(t_div_i128(p, b as i128))
}

/// Divides a fixed-point value by a plain element count.
pub fn fx_div_count(a: i64, m: usize) -> (r: i64)
    requires
        m > 0,
    ensures
        r as int == s_div_count(a as int, m as int),
{
    clamp64(t_div_i128(a as i128, m as i128))
}

/// Saturating absolute value of a fixed-point value.
pub fn fx_abs(a: i64) -> (r: i64)
    ensures
        r as int == s_abs(a as int),
{
    if a >= 0 {
        a
    } else {
        clamp64(-(a as i128))
    }
}

fn isqrt_u128(x: u128) -> (r: u128)
    requires
        x < 0x4000_0000_0000_0000_0000_0000_0000_0000u128,
    ensures
        is_sqrt(x as int, r as int),
{
    if x == 0 {
        return 0;
    }
    let mut lo: u128 = 0;
    let mut hi: u128 = 0x8000_0000_0000_0000u128;
    while lo + 1 < hi
        invariant
            lo < hi,
            hi <= 0x8000_0000_0000_0000u128,
            (lo as int) * (lo as int) <= x as int,
            (x as int) < (hi as int) * (hi as int),
            x < 0x4000_0000_0000_0000_0000_0000_0000_0000u128,
        decreases hi - lo,
    {
        let mid: u128 = lo + (hi - lo) / 2;
        proof {
            assert((mid as int) * (mid as int)
                <= 0x4000_0000_0000_0000_0000_0000_0000_0000int) by (nonlinear_arith)
                requires
                    0 <= mid,
                    mid <= 0x8000_0000_0000_0000u128,
                ;
        }
        let sq: u128 = mid * mid;
        if sq <= x {
            lo = mid;
        } else {
            hi = mid;
        }
    }
    lo
}

/// Saturating fixed-point square root of a nonnegative value.
pub fn fx_sqrt(a: i64) -> (r: i64)
    requires
        a >= 0,
    ensures
        r as int == s_sqrt(a as int),
        r >= 0,
{
    proof {
        assert((a as int) * (SCALE as int) < 0x4000_0000_0000_0000_0000_0000_0000_0000int)
            by (nonlinear_arith)
            requires
                0 <= a <= i64::MAX,
            ;
    }
    let x: u128 = (a as u128) * (SCALE as u128);
    let r: u128 = isqrt_u128(x);
    proof {
        lemma_sqrt_exists(x as int);
        lemma_sqrt_unique(x as int, r as int, sqrt_floor(x as int));
        assert(r as int <= i64::MAX as int) by (nonlinear_arith)
            requires
                0 <= r,
                (r as int) * (r as int) <= x as int,
                (x as int) < 0x4000_0000_0000_0000_0000_0000_0000_0000int,
            ;
    }
    r as i64
}

/// Converts an element count to a fixed-point value, saturating.
pub fn fx_of_count(m: usize) -> (r: i64)
    ensures
        r as int == sat(m as int * SCALE),
{
    proof {
        assert((m as int) * (SCALE as int) <= 0x4000_0000_0000_0000_0000_0000_0000_0000int
            && (m as int) * (SCALE as int) >= 0) by (nonlinear_arith)
            requires
                0 <= m <= u64::MAX,
            ;
    }
    clamp64((m as i128) * (SCALE as i128))
}

} // verus!
