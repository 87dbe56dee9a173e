//! Integer division that truncates toward zero.
//!
//! Rasterization interpolates along edges with the formula
//! `a + (b - a) * i / n`, and the direction in which the division rounds
//! decides on which side of a boundary a pixel lands.  The whole library
//! therefore goes through one division helper whose rounding is pinned:
//! toward zero, as Rust's `/` on machine integers rounds.

use vstd::prelude::*;

verus! {

/// Magnitude of an integer.
pub open spec fn abs_i(a: int) -> int {
    if a >= 0 {
        a
    } else {
        -a
    }
}

/// Division truncating toward zero: the quotient of the magnitudes, with the
/// sign of the exact quotient.  (The spec-level `/` on `int` rounds toward
/// negative infinity; on the magnitudes both agree.)
pub open spec fn tdiv(a: int, b: int) -> int
    recommends
        b != 0,
{
    if (a >= 0) == (b >= 0) {
        abs_i(a) / abs_i(b)
    } else {
        -(abs_i(a) / abs_i(b))
    }
}

/// Largest magnitude the executable divider accepts; leaves room to negate.
pub const TDIV_LIMIT: i64 = 0x4000_0000_0000_0000;

/// Truncating division on machine integers.
pub fn trunc_div(a: i64, b: i64) -> (r: i64)
    requires
        b != 0,
        -TDIV_LIMIT <= a <= TDIV_LIMIT,
        -TDIV_LIMIT <= b <= TDIV_LIMIT,
    ensures
        r == tdiv(a as int, b as int),
        abs_i(r as int) <= abs_i(a as int),
{
    let ua: u64 = if a >= 0 {
        a as u64
    } else {
        (-a) as u64
    };
    let ub: u64 = if b >= 0 {
        b as u64
    } else {
        (-b) as u64
    };
    let q: u64 = ua / ub;
    proof {
        assert(ua == abs_i(a as int));
        assert(ub == abs_i(b as int));
        assert(q == abs_i(a as int) / abs_i(b as int));
        lemma_div_bound(abs_i(a as int), abs_i(b as int));
    }
    if (a >= 0) == (b >= 0) {
        q as i64
    } else {
        -(q as i64)
    }
}

/// A nonnegative dividend divided by a positive divisor stays within the
/// dividend's magnitude.
proof fn lemma_div_bound(a: int, b: int)
    requires
        a >= 0,
        b >= 1,
    ensures
        0 <= a / b <= a,
{
    assert(0 <= a / b <= a) by (nonlinear_arith)
        requires
            a >= 0,
            b >= 1,
    ;
}

/// The interpolation term `(d * i) / n` never exceeds the full step `d` in
/// magnitude while `i` stays within `[0, n]`.
pub proof fn lemma_tdiv_interp_bound(d: int, i: int, n: int)
    requires
        n >= 1,
        0 <= i <= n,
    ensures
        -abs_i(d) <= tdiv(d * i, n) <= abs_i(d),
{
    assert(0 <= abs_i(d * i) / n <= abs_i(d)) by (nonlinear_arith)
        requires
            n >= 1,
            0 <= i <= n,
    ;
}

/// Truncating division stays within a bound that the dividend respects:
/// if `|a| <= bound * b` then `|a / b| <= bound`.
pub proof fn lemma_tdiv_bound(a: int, b: int, bound: int)
    requires
        b >= 1,
        bound >= 0,
        -(bound * b) <= a <= bound * b,
    ensures
        -bound <= tdiv(a, b) <= bound,
{
    assert(abs_i(a) / b <= bound) by (nonlinear_arith)
        requires
            b >= 1,
            bound >= 0,
            -(bound * b) <= a <= bound * b,
    ;
    assert(abs_i(a) / b >= 0) by (nonlinear_arith)
        requires
            b >= 1,
    ;
}


/// A full step interpolates exactly: `(d * n) / n == d`.
pub proof fn lemma_tdiv_exact(d: int, n: int)
    requires
        n >= 1,
    ensures
        tdiv(d * n, n) == d,
{
    assert(abs_i(d * n) == abs_i(d) * n) by (nonlinear_arith)
        requires
            n >= 1,
    ;
    assert((abs_i(d) * n) / n == abs_i(d)) by (nonlinear_arith)
        requires
            n >= 1,
    ;
    if d > 0 {
        assert(d * n > 0) by (nonlinear_arith)
            requires
                d > 0,
                n >= 1,
        ;
    } else if d < 0 {
        assert(d * n < 0) by (nonlinear_arith)
            requires
                d < 0,
                n >= 1,
        ;
    }
}

/// The dividend of a value interpolation, `a*n + (b-a)*i`, is the convex
/// combination `a*(n-i) + b*i`, so it and its truncated quotient stay
/// within the bound the endpoints respect: the interpolated value lies
/// between the endpoints.
pub proof fn lemma_interp_bound(a: int, b: int, i: int, n: int, m: int)
    requires
        n >= 1,
        0 <= i <= n,
        -m <= a <= m,
        -m <= b <= m,
        0 <= m,
    ensures
        a * n + (b - a) * i == a * (n - i) + b * i,
        -(m * n) <= a * n + (b - a) * i <= m * n,
        -m <= tdiv(a * n + (b - a) * i, n) <= m,
{
    assert(a * n + (b - a) * i == a * (n - i) + b * i) by (nonlinear_arith);
    assert(-(m * n) <= a * (n - i) + b * i <= m * n) by (nonlinear_arith)
        requires
            n >= 1,
            0 <= i <= n,
            -m <= a <= m,
            -m <= b <= m,
            0 <= m,
    ;
    lemma_tdiv_bound(a * n + (b - a) * i, n, m);
}

} // verus!
