//! Integer helpers for fixed-point geometry: rounded division and the integer
//! square root.
use vstd::arithmetic::div_mod::{
    lemma_div_is_ordered, lemma_div_pos_is_pos, lemma_fundamental_div_mod_converse,
};
use vstd::prelude::*;

verus! {

/// `a / d` for a positive `d`, rounded to the nearest integer, halves away from zero.
/// The rounding is symmetric: `div_round(-a, d) == -div_round(a, d)`.
pub open spec fn div_round(a: int, d: int) -> int {
    if a >= 0 {
        (a + d / 2) / d
    } else {
        -((-a + d / 2) / d)
    }
}

/// The absolute value of an integer.
pub open spec fn abs(a: int) -> int {
    if a >= 0 {
        a
    } else {
        -a
    }
}

/// `r` is the integer square root of `n`: the largest integer whose square is at most `n`.
pub open spec fn is_isqrt(r: int, n: int) -> bool {
    0 <= r && r * r <= n < (r + 1) * (r + 1)
}

/// The integer square root of `n`, for `n >= 0`.
pub open spec fn isqrt_of(n: int) -> int {
    choose|r: int| is_isqrt(r, n)
}

/// An exact quotient is kept as it is by rounding.
pub proof fn lemma_div_round_exact(k: int, d: int)
    requires
        d > 0,
    ensures
        div_round(k * d, d) == k,
{
    if k >= 0 {
        assert(k * d >= 0) by (nonlinear_arith)
            requires
                k >= 0,
                d > 0,
        ;
        lemma_fundamental_div_mod_converse(k * d + d / 2, d, k, d / 2);
    } else {
        assert(-(k * d) == (-k) * d) by (nonlinear_arith);
        assert((-k) * d > 0) by (nonlinear_arith)
            requires
                k < 0,
                d > 0,
        ;
        lemma_fundamental_div_mod_converse((-k) * d + d / 2, d, -k, d / 2);
    }
}

/// A rounded quotient of a value at most `k * d` in magnitude is at most `k` in magnitude.
pub proof fn lemma_div_round_bound(a: int, d: int, k: int)
    requires
        d > 0,
        k >= 0,
        abs(a) <= k * d,
    ensures
        abs(div_round(a, d)) <= k,
{
    let m = abs(a);
    assert(m + d / 2 <= k * d + d / 2);
    lemma_div_is_ordered(m + d / 2, k * d + d / 2, d);
    lemma_fundamental_div_mod_converse(k * d + d / 2, d, k, d / 2);
    lemma_div_pos_is_pos(m + d / 2, d);
}

/// A quotient rounded from a value of magnitude at most `a` stays within `abs(a)`.
pub proof fn lemma_div_round_shrinks(a: int, d: int)
    requires
        d > 0,
    ensures
        abs(div_round(a, d)) <= abs(a),
{
    assert(abs(a) <= abs(a) * d) by (nonlinear_arith)
        requires
            d > 0,
    ;
    lemma_div_round_bound(a, d, abs(a));
}

/// A product is bounded by the product of bounds of its factors.
pub proof fn lemma_mul_bound(a: int, b: int, ba: int, bb: int)
    requires
        abs(a) <= ba,
        abs(b) <= bb,
    ensures
        abs(a * b) <= ba * bb,
{
    assert(abs(a * b) == abs(a) * abs(b)) by (nonlinear_arith);
    assert(abs(a) * abs(b) <= ba * bb) by (nonlinear_arith)
        requires
            0 <= abs(a) <= ba,
            0 <= abs(b) <= bb,
    ;
}

/// Whatever is at most `n` when squared is at most the integer square root of `n`.
pub proof fn lemma_isqrt_is_largest(r: int, n: int, x: int)
    requires
        is_isqrt(r, n),
        0 <= x,
        x * x <= n,
    ensures
        x <= r,
{
    if x > r {
        assert((r + 1) * (r + 1) <= x * x) by (nonlinear_arith)
            requires
                0 <= r,
                r + 1 <= x,
        ;
    }
}

/// The integer square root is unique, so any root found is `isqrt_of(n)`.
pub proof fn lemma_isqrt_unique(r: int, n: int)
    requires
        is_isqrt(r, n),
    ensures
        isqrt_of(n) == r,
{
    let q = isqrt_of(n);
    assert(is_isqrt(q, n));
    lemma_isqrt_is_largest(r, n, q);
    lemma_isqrt_is_largest(q, n, r);
}

/// `a / d` rounded to the nearest integer, halves away from zero.
pub fn round_div(a: i128, d: i128) -> (r: i128)
    requires
        d > 0,
        -0x4000_0000_0000_0000_0000_0000_0000_0000 <= a <= 0x4000_0000_0000_0000_0000_0000_0000_0000,
        d <= 0x4000_0000_0000_0000_0000_0000_0000_0000,
    ensures
        r == div_round(a as int, d as int),
{
    proof {
        lemma_div_round_shrinks(a as int, d as int);
    }
    if a >= 0 {
        (a + d / 2) / d
    } else {
        -((-a + d / 2) / d)
    }
}

/// The integer square root of `n`: the largest `r` with `r * r <= n`.
pub fn isqrt(n: u128) -> (r: u128)
    ensures
        is_isqrt(r as int, n as int),
        r == isqrt_of(n as int),
        r <= 0xffff_ffff_ffff_ffff,
{
    let mut lo: u128 = 0;
    let mut hi: u128 = 0x1_0000_0000_0000_0000;
    assert(n < hi * hi);
    while hi - lo > 1
        invariant
            lo < hi <= 0x1_0000_0000_0000_0000,
            lo * lo <= n,
            n < hi * hi,
        decreases hi - lo,
    {
        let mid = lo + (hi - lo) / 2;
        assert(mid * mid <= 0xffff_ffff_ffff_ffff * 0xffff_ffff_ffff_ffff) by (nonlinear_arith)
            requires
                mid <= 0xffff_ffff_ffff_ffff,
        ;
        if mid * mid <= n {
            lo = mid;
        } else {
            hi = mid;
        }
    }
    proof {
        lemma_isqrt_unique(lo as int, n as int);
    }
    lo
}

} // verus!
