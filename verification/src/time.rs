//! Arithmetic on nanosecond times.

use vstd::prelude::*;

verus! {

/// Nanoseconds in one second.
pub const NANOS_PER_SECOND: i64 = 1_000_000_000;

/// `x` held inside the range of `i64`.
pub open spec fn clamped(x: int) -> int {
    if x < i64::MIN {
        i64::MIN as int
    } else if x > i64::MAX {
        i64::MAX as int
    } else {
        x
    }
}

/// Narrows a wide time to `i64`, stopping at the nearest bound.
pub fn clamp(x: i128) -> (ns: i64)
    ensures
        ns == clamped(x as int),
{
    if x < i64::MIN as i128 {
        i64::MIN
    } else if x > i64::MAX as i128 {
        i64::MAX
    } else {
        x as i64
    }
}

/// The whole milliseconds in `ns` nanoseconds, dropping any fraction.
pub open spec fn whole_millis(ns: int) -> int {
    if ns >= 0 {
        ns / 1_000_000
    } else {
        -((-ns) / 1_000_000)
    }
}

/// Milliseconds of a time, truncated toward zero.
pub fn to_millis(ns: i64) -> (ms: i64)
    ensures
        ms == whole_millis(ns as int),
{
    if ns >= 0 {
        ns / 1_000_000
    } else {
        let magnitude: i128 = -(ns as i128);
        let ms: i128 = magnitude / 1_000_000;
        (-ms) as i64
    }
}

/// `n / d` to the nearest whole number, halves away from zero.
pub open spec fn rounded(n: int, d: int) -> int {
    if n >= 0 {
        (2 * n + d) / (2 * d)
    } else {
        -((2 * (-n) + d) / (2 * d))
    }
}

/// Computes [`rounded`].
pub fn round_div(n: i128, d: i128) -> (quotient: i128)
    requires
        -0x1_0000_0000_0000_0000_0000_0000_0000 <= n <= 0x1_0000_0000_0000_0000_0000_0000_0000,
        0 < d <= 0x1_0000_0000_0000_0000_0000_0000_0000,
    ensures
        quotient == rounded(n as int, d as int),
        -0x2_0000_0000_0000_0000_0000_0000_0000 <= quotient,
        quotient <= 0x2_0000_0000_0000_0000_0000_0000_0000,
{
    let magnitude: i128 = if n >= 0 {
        n
    } else {
        -n
    };
    let dividend: i128 = 2 * magnitude + d;
    let quotient: i128 = dividend / (2 * d);
    proof {
        let a = dividend as int;
        let b = 2 * d as int;
        assert(0 <= a / b <= magnitude + 1) by (nonlinear_arith)
            requires
                b == 2 * d,
                d >= 1,
                magnitude >= 0,
                a == 2 * magnitude + d,
        ;
    }
    if n >= 0 {
        quotient
    } else {
        -quotient
    }
}

/// The rounded quotient is within half the divisor.
pub proof fn lemma_rounded(n: int, d: int)
    requires
        d > 0,
    ensures
        -d <= 2 * (rounded(n, d) * d - n) <= d,
{
    let a = if n >= 0 {
        n
    } else {
        -n
    };
    let q = (2 * a + d) / (2 * d);
    assert(2 * d * q <= 2 * a + d < 2 * d * q + 2 * d) by (nonlinear_arith)
        requires
            d > 0,
            q == (2 * a + d) / (2 * d),
    ;
    assert(-d <= 2 * (q * d - a) <= d) by (nonlinear_arith)
        requires
            2 * d * q <= 2 * a + d < 2 * d * q + 2 * d,
    ;
    assert((-q) * d == -(q * d)) by (nonlinear_arith);
}

/// A time within range is itself; one beyond it is held at the bound.
pub proof fn law_times_are_held_at_the_bounds(x: int)
    ensures
        -0x8000_0000_0000_0000 <= x <= 0x7fff_ffff_ffff_ffff ==> clamped(x) == x,
        x < -0x8000_0000_0000_0000 ==> clamped(x) == -0x8000_0000_0000_0000,
        x > 0x7fff_ffff_ffff_ffff ==> clamped(x) == 0x7fff_ffff_ffff_ffff,
{
}

/// Milliseconds are whole: what is over is dropped, toward zero.
pub proof fn law_millis_are_truncated(ns: int)
    ensures
        ns >= 0 ==> whole_millis(ns) * 1_000_000 <= ns < (whole_millis(ns) + 1) * 1_000_000,
        ns <= 0 ==> (whole_millis(ns) - 1) * 1_000_000 < ns <= whole_millis(ns) * 1_000_000,
{
}

/// Rounding gives the nearest whole number, and the one further from zero where
/// two are equally near.
pub proof fn law_rounding_is_to_the_nearest(n: int, d: int)
    requires
        d > 0,
    ensures
        -d <= 2 * (rounded(n, d) * d - n) <= d,
        2 * (rounded(n, d) * d - n) == -d ==> n < 0,
        2 * (rounded(n, d) * d - n) == d ==> n > 0,
{
    lemma_rounded(n, d);
    let a = if n >= 0 {
        n
    } else {
        -n
    };
    let q = (2 * a + d) / (2 * d);
    assert(2 * d * q <= 2 * a + d < 2 * d * q + 2 * d) by (nonlinear_arith)
        requires
            d > 0,
            q == (2 * a + d) / (2 * d),
    ;
    assert(2 * d * q == 2 * (q * d)) by (nonlinear_arith);
    assert((-q) * d == -(q * d)) by (nonlinear_arith);
    if n == 0 {
        assert(q == 0) by (nonlinear_arith)
            requires
                d > 0,
                2 * d * q <= d < 2 * d * q + 2 * d,
        ;
    }
}

} // verus!
