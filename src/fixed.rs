//! Fixed-point helpers: rounding division, integer square and cube roots.

use vstd::prelude::*;

verus! {

/// `n / d` rounded to the nearest integer, halves away from zero.
pub open spec fn div_round(n: int, d: int) -> int {
    if n >= 0 {
        (2 * n + d) / (2 * d)
    } else {
        -((-2 * n + d) / (2 * d))
    }
}

proof fn lemma_quot_bound(x: int, d: int, m: int)
    requires
        0 < d,
        0 <= x < (m + 1) * d,
        0 <= m,
    ensures
        0 <= x / d <= m,
{
    let q = x / d;
    vstd::arithmetic::div_mod::lemma_fundamental_div_mod(x, d);
    vstd::arithmetic::div_mod::lemma_mod_bound(x, d);
    assert(0 <= q <= m) by (nonlinear_arith)
        requires
            x == d * q + x % d,
            0 <= x % d < d,
            0 <= x < (m + 1) * d,
            0 < d,
    ;
}

/// A rounded quotient of a value within `m · d` of zero lies within `m + 1` of zero.
pub proof fn lemma_div_round_bound(n: int, d: int, m: int)
    requires
        0 < d,
        0 <= m,
        -(m * d) <= n <= m * d,
    ensures
        -m - 1 <= div_round(n, d) <= m + 1,
{
    let a = if n >= 0 { n } else { -n };
    assert(2 * a + d < (m + 2) * (2 * d)) by (nonlinear_arith)
        requires
            0 <= a <= m * d,
            0 < d,
    ;
    lemma_quot_bound(2 * a + d, 2 * d, m + 1);
}

/// Zero divided and rounded stays zero.
pub proof fn lemma_div_round_zero(d: int)
    requires
        0 < d,
    ensures
        div_round(0, d) == 0,
{
    vstd::arithmetic::div_mod::lemma_basic_div(d, 2 * d);
}

/// `r` is the floor of the square root of `n`.
pub open spec fn is_sqrt(n: int, r: int) -> bool {
    0 <= r && r * r <= n < (r + 1) * (r + 1)
}

/// `r` is the floor of the cube root of `n`.
pub open spec fn is_cbrt(n: int, r: int) -> bool {
    0 <= r && r * r * r <= n < (r + 1) * (r + 1) * (r + 1)
}

/// Floor of the square root of a non-negative integer.
pub open spec fn isqrt(n: int) -> int {
    choose|r: int| is_sqrt(n, r)
}

/// Floor of the cube root of a non-negative integer.
pub open spec fn icbrt(n: int) -> int {
    choose|r: int| is_cbrt(n, r)
}

proof fn lemma_sq_mono(x: int, y: int)
    requires
        0 <= x <= y,
    ensures
        x * x <= y * y,
{
    assert(x * x <= y * y) by (nonlinear_arith)
        requires
            0 <= x <= y,
    ;
}

proof fn lemma_cube_mono(x: int, y: int)
    requires
        0 <= x <= y,
    ensures
        x * x * x <= y * y * y,
{
    assert(x * x * x <= y * y * y) by (nonlinear_arith)
        requires
            0 <= x <= y,
    ;
}

/// A floor square root is unique, so `isqrt` names it.
pub proof fn lemma_isqrt_is(n: int, r: int)
    requires
        is_sqrt(n, r),
    ensures
        isqrt(n) == r,
{
    let q = isqrt(n);
    assert(is_sqrt(n, q));
    if q < r {
        lemma_sq_mono(q + 1, r);
    } else if r < q {
        lemma_sq_mono(r + 1, q);
    }
}

/// A floor cube root is unique, so `icbrt` names it.
pub proof fn lemma_icbrt_is(n: int, r: int)
    requires
        is_cbrt(n, r),
    ensures
        icbrt(n) == r,
{
    let q = icbrt(n);
    assert(is_cbrt(n, q));
    if q < r {
        lemma_cube_mono(q + 1, r);
    } else if r < q {
        lemma_cube_mono(r + 1, q);
    }
}

/// Rounded division on values far inside the range of `i128`.
pub fn div_round_i128(n: i128, d: i128) -> (r: i128)
    requires
        0 < d <= 0x1_0000_0000,
        -0x1_0000_0000_0000_0000_0000_0000 <= n <= 0x1_0000_0000_0000_0000_0000_0000,
    ensures
        r == div_round(n as int, d as int),
{
    if n >= 0 {
        (2 * n + d) / (2 * d)
    } else {
        let m: i128 = 0 - n;
        let q: i128 = (2 * m + d) / (2 * d);
        0 - q
    }
}

/// Floor of the square root, by bisection.
pub fn sqrt_floor(n: u128) -> (r: u128)
    requires
        n < 0x4_0000_0000_0000_0000_0000,
    ensures
        r == isqrt(n as int),
        r < 0x200_0000_0000,
{
    let mut lo: u128 = 0;
    let mut hi: u128 = 0x200_0000_0000;
    assert(hi * hi == 0x4_0000_0000_0000_0000_0000);
    while lo + 1 < hi
        invariant
            lo < hi <= 0x200_0000_0000,
            lo * lo <= n,
            n < hi * hi,
        decreases hi - lo,
    {
        let mid = lo + (hi - lo) / 2;
        proof {
            lemma_sq_mono(mid as int, 0x200_0000_0000);
        }
        if mid * mid <= n {
            lo = mid;
        } else {
            hi = mid;
        }
    }
    proof {
        lemma_isqrt_is(n as int, lo as int);
    }
    lo
}

/// Floor of the cube root, by bisection.
pub fn cbrt_floor(n: u128) -> (r: u128)
    requires
        n < 0x8_0000_0000_0000_0000_0000_0000,
    ensures
        r == icbrt(n as int),
        r < 0x2_0000_0000,
{
    let mut lo: u128 = 0;
    let mut hi: u128 = 0x2_0000_0000;
    assert(hi * hi * hi == 0x8_0000_0000_0000_0000_0000_0000);
    while lo + 1 < hi
        invariant
            lo < hi <= 0x2_0000_0000,
            lo * lo * lo <= n,
            n < hi * hi * hi,
        decreases hi - lo,
    {
        let mid = lo + (hi - lo) / 2;
        proof {
            lemma_cube_mono(mid as int, 0x2_0000_0000);
            lemma_sq_mono(mid as int, 0x2_0000_0000);
        }
        if mid * mid * mid <= n {
            lo = mid;
        } else {
            hi = mid;
        }
    }
    proof {
        lemma_icbrt_is(n as int, lo as int);
    }
    lo
}

} // verus!
