//! Verified integer arithmetic used by the layout engine: truncating
//! division, clamping into a symmetric interval, and an integer square root.

use vstd::arithmetic::div_mod::{lemma_div_is_ordered, lemma_div_nonincreasing, lemma_div_pos_is_pos};
use vstd::prelude::*;

verus! {

/// Integer division truncating toward zero, for a positive divisor.
pub open spec fn tdiv(a: int, b: int) -> int
    recommends
        b >= 1,
{
    if a >= 0 {
        a / b
    } else {
        -((-a) / b)
    }
}

/// Absolute value.
pub open spec fn abs_i(a: int) -> int {
    if a < 0 {
        -a
    } else {
        a
    }
}

/// Clamp `a` into `[-lim, lim]`.
pub open spec fn clamp_i(a: int, lim: int) -> int {
    if a < -lim {
        -lim
    } else if a > lim {
        lim
    } else {
        a
    }
}

/// Floor of the square root of `n` (0 for non-positive `n`).
pub open spec fn sqrt_floor(n: int) -> int
    decreases
        (if n >= 0 { n } else { 0 }),
{
    if n <= 0 {
        0
    } else if (sqrt_floor(n - 1) + 1) * (sqrt_floor(n - 1) + 1) <= n {
        sqrt_floor(n - 1) + 1
    } else {
        sqrt_floor(n - 1)
    }
}

/// `sqrt_floor(n)` is the floor of the square root: its square is at most
/// `n`, and the next square is beyond `n`.
pub proof fn lemma_sqrt_floor(n: int)
    requires
        n >= 0,
    ensures
        0 <= sqrt_floor(n),
        sqrt_floor(n) * sqrt_floor(n) <= n,
        n < (sqrt_floor(n) + 1) * (sqrt_floor(n) + 1),
    decreases n,
{
    if n > 0 {
        lemma_sqrt_floor(n - 1);
        let r = sqrt_floor(n - 1);
        if (r + 1) * (r + 1) <= n {
            assert(n < (r + 2) * (r + 2)) by (nonlinear_arith)
                requires
                    0 <= r,
                    n - 1 < (r + 1) * (r + 1),
            ;
        }
    }
}

/// Any `r` whose square brackets `n` is `sqrt_floor(n)`.
pub proof fn lemma_sqrt_unique(n: int, r: int)
    requires
        n >= 0,
        r >= 0,
        r * r <= n,
        n < (r + 1) * (r + 1),
    ensures
        r == sqrt_floor(n),
{
    lemma_sqrt_floor(n);
    let s = sqrt_floor(n);
    if r < s {
        assert((r + 1) * (r + 1) <= s * s) by (nonlinear_arith)
            requires
                0 <= r,
                r < s,
        ;
    } else if s < r {
        assert((s + 1) * (s + 1) <= r * r) by (nonlinear_arith)
            requires
                0 <= s,
                s < r,
        ;
    }
}

/// Truncated quotients keep the magnitude bound of their dividend.
pub proof fn lemma_tdiv_mag(a: int, b: int, m: int)
    requires
        b >= 1,
        0 <= m,
        -m <= a <= m,
    ensures
        -m <= tdiv(a, b) <= m,
{
    if a >= 0 {
        lemma_div_pos_is_pos(a, b);
        lemma_div_nonincreasing(a, b);
    } else {
        lemma_div_pos_is_pos(-a, b);
        lemma_div_nonincreasing(-a, b);
    }
}

/// The magnitude of a truncated quotient is the quotient of the magnitudes.
pub proof fn lemma_tdiv_abs_eq(a: int, d: int)
    requires
        d >= 1,
    ensures
        abs_i(tdiv(a, d)) == abs_i(a) / d,
{
    if a >= 0 {
        lemma_div_pos_is_pos(a, d);
    } else {
        lemma_div_pos_is_pos(-a, d);
    }
}

/// Truncated division by a positive divisor preserves magnitude order.
pub proof fn lemma_tdiv_abs_ordered(a1: int, a2: int, d: int)
    requires
        d >= 1,
        abs_i(a1) <= abs_i(a2),
    ensures
        abs_i(tdiv(a1, d)) <= abs_i(tdiv(a2, d)),
{
    if a1 >= 0 {
        lemma_div_pos_is_pos(a1, d);
    } else {
        lemma_div_pos_is_pos(-a1, d);
    }
    if a2 >= 0 {
        lemma_div_pos_is_pos(a2, d);
    } else {
        lemma_div_pos_is_pos(-a2, d);
    }
    lemma_div_is_ordered(abs_i(a1), abs_i(a2), d);
}

/// Truncating division on wide machine integers, divisor positive.
pub fn tdiv_i128(a: i128, b: i128) -> (r: i128)
    requires
        1 <= b,
        a > i128::MIN,
    ensures
        r as int == tdiv(a as int, b as int),
{
    if a >= 0 {
        let q: u128 = (a as u128) / (b as u128);
        proof {
            lemma_div_pos_is_pos(a as int, b as int);
            lemma_div_nonincreasing(a as int, b as int);
        }
        q as i128
    } else {
        let m: u128 = (-a) as u128;
        let q: u128 = m / (b as u128);
        proof {
            lemma_div_pos_is_pos(m as int, b as int);
            lemma_div_nonincreasing(m as int, b as int);
        }
        -(q as i128)
    }
}

/// Clamp a wide intermediate into `[-lim, lim]` of the narrow type.
pub fn clamp128(x: i128, lim: i64) -> (r: i64)
    requires
        0 <= lim,
    ensures
        r as int == clamp_i(x as int, lim as int),
{
    let l: i128 = lim as i128;
    if x < -l {
        -lim
    } else if x > l {
        lim
    } else {
        x as i64
    }
}

/// Integer square root by bisection.
pub fn isqrt_u64(n: u64) -> (r: u64)
    ensures
        r as int == sqrt_floor(n as int),
        (r as int) * (r as int) <= n as int,
        (n as int) < (r as int + 1) * (r as int + 1),
{
    let mut lo: u64 = 0;
    let mut hi: u64 = 4_294_967_296;
    proof {
        assert((hi as int) * (hi as int) > n as int) by (nonlinear_arith)
            requires
                hi == 4_294_967_296u64,
                n <= u64::MAX,
        ;
    }
    while lo + 1 < hi
        invariant
            lo < hi,
            hi <= 4_294_967_296,
            (lo as int) * (lo as int) <= n as int,
            (n as int) < (hi as int) * (hi as int),
        decreases hi - lo,
    {
        let mid: u64 = lo + (hi - lo) / 2;
        proof {
            assert(mid * mid <= 4_294_967_295u64 * 4_294_967_295u64) by (nonlinear_arith)
                requires
                    mid <= 4_294_967_295u64,
            ;
        }
        if mid * mid <= n {
            lo = mid;
        } else {
            hi = mid;
        }
    }
    proof {
        lemma_sqrt_unique(n as int, lo as int);
    }
    lo
}

} // verus!
