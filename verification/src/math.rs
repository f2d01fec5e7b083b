//! Integer arithmetic helpers shared by the geometry code: a floor square
//! root, truncating division helpers, and the lemmas that describe them.

use vstd::prelude::*;
use vstd::arithmetic::div_mod::{
    lemma_div_is_ordered, lemma_div_multiples_vanish, lemma_div_nonincreasing,
    lemma_div_pos_is_pos,
};

verus! {

/// Floor of the nonnegative square root, defined by recursion so that
/// contracts can speak of it as a plain function of its argument.
/// Negative arguments map to zero.
pub open spec fn spec_isqrt(n: int) -> int
    decreases n,
{
    if n <= 0 {
        0
    } else {
        let r = spec_isqrt(n - 1);
        if (r + 1) * (r + 1) <= n {
            r + 1
        } else {
            r
        }
    }
}

/// The defining property of the floor square root.
pub proof fn lemma_isqrt_props(n: int)
    requires
        n >= 0,
    ensures
        spec_isqrt(n) >= 0,
        spec_isqrt(n) * spec_isqrt(n) <= n,
        n < (spec_isqrt(n) + 1) * (spec_isqrt(n) + 1),
    decreases n,
{
    if n > 0 {
        lemma_isqrt_props(n - 1);
        let r = spec_isqrt(n - 1);
        if (r + 1) * (r + 1) <= n {
            assert(n == (r + 1) * (r + 1));
            assert((r + 1) * (r + 1) < (r + 2) * (r + 2)) by (nonlinear_arith)
                requires
                    r >= 0,
            ;
        }
    }
}

/// Any value meeting the floor-square-root property is the floor square root.
pub proof fn lemma_isqrt_unique(n: int, r: int)
    requires
        r >= 0,
        r * r <= n,
        n < (r + 1) * (r + 1),
    ensures
        spec_isqrt(n) == r,
{
    lemma_isqrt_props(n);
    let q = spec_isqrt(n);
    if q < r {
        assert((q + 1) * (q + 1) <= r * r) by (nonlinear_arith)
            requires
                0 <= q + 1 <= r,
        ;
        assert(false);
    }
    if q > r {
        assert((r + 1) * (r + 1) <= q * q) by (nonlinear_arith)
            requires
                0 <= r + 1 <= q,
        ;
        assert(false);
    }
}

/// The floor square root of an exact square.
pub proof fn lemma_isqrt_square(a: int)
    requires
        a >= 0,
    ensures
        spec_isqrt(a * a) == a,
{
    assert(a * a >= 0) by (nonlinear_arith);
    assert(a * a < (a + 1) * (a + 1)) by (nonlinear_arith)
        requires
            a >= 0,
    ;
    lemma_isqrt_unique(a * a, a);
}

/// A strict square upper bound on the argument bounds the root.
pub proof fn lemma_isqrt_lt(n: int, a: int)
    requires
        0 <= n,
        0 <= a,
        n < a * a,
    ensures
        spec_isqrt(n) < a,
{
    lemma_isqrt_props(n);
    let q = spec_isqrt(n);
    if q >= a {
        assert(a * a <= q * q) by (nonlinear_arith)
            requires
                0 <= a <= q,
        ;
        assert(false);
    }
}

/// Floor square root by bisection.
pub fn isqrt_u128(n: u128) -> (r: u64)
    requires
        n < 0x4000_0000_0000_0000_0000_0000_0000_0000u128,
    ensures
        r as int == spec_isqrt(n as int),
{
    let mut lo: u128 = 0;
    let mut hi: u128 = 0x8000_0000_0000_0000u128;
    proof {
        assert((hi as int) * (hi as int) > n as int) by (nonlinear_arith)
            requires
                hi == 0x8000_0000_0000_0000u128,
                n < 0x4000_0000_0000_0000_0000_0000_0000_0000u128,
        ;
    }
    while lo + 1 < hi
        invariant
            0 <= lo < hi <= 0x8000_0000_0000_0000u128,
            (lo as int) * (lo as int) <= n as int,
            (hi as int) * (hi as int) > n as int,
        decreases hi - lo,
    {
        let mid: u128 = lo + (hi - lo) / 2;
        proof {
            assert(lo < mid < hi);
            assert((mid as int) * (mid as int) < 0x4000_0000_0000_0000_0000_0000_0000_0000int * 4)
                by (nonlinear_arith)
                requires
                    0 < mid <= 0x8000_0000_0000_0000u128,
            ;
        }
        if mid * mid <= n {
            lo = mid;
        } else {
            hi = mid;
        }
    }
    proof {
        assert((lo + 1) * (lo + 1) >= (hi as int) * (hi as int)) by (nonlinear_arith)
            requires
                0 <= hi <= lo + 1,
        ;
        lemma_isqrt_unique(n as int, lo as int);
    }
    lo as u64
}

/// Quotient of a nonnegative value by a positive one.
pub fn div_pos_i64(a: i64, b: i64) -> (r: i64)
    requires
        0 <= a,
        0 < b,
    ensures
        r as int == a as int / b as int,
        0 <= r <= a,
{
    proof {
        lemma_div_pos_is_pos(a as int, b as int);
        lemma_div_nonincreasing(a as int, b as int);
    }
    ((a as u64) / (b as u64)) as i64
}

/// Fixed-point product with truncation toward zero, the rounding used
/// throughout the renderer: `a * b / d` on the absolute value, with the
/// sign reapplied.
pub open spec fn mul_div(a: int, b: int, d: int) -> int {
    let p = a * b;
    if p >= 0 {
        p / d
    } else {
        -((-p) / d)
    }
}

/// `mul_div` on machine words; the product is formed at double width.
pub fn mul_div_i64(a: i64, b: i64, d: i64) -> (r: i64)
    requires
        0 < d,
        -(i64::MAX as int) * d <= a as int * b as int <= (i64::MAX as int) * d,
    ensures
        r as int == mul_div(a as int, b as int, d as int),
{
    let p: i128 = (a as i128) * (b as i128);
    if p >= 0 {
        proof {
            lemma_div_is_ordered(p as int, (i64::MAX as int) * d, d as int);
            lemma_div_multiples_vanish(i64::MAX as int, d as int);
            lemma_div_pos_is_pos(p as int, d as int);
        }
        (((p as u128) / (d as u128)) as i128) as i64
    } else {
        proof {
            lemma_div_is_ordered(-p as int, (i64::MAX as int) * d, d as int);
            lemma_div_multiples_vanish(i64::MAX as int, d as int);
            lemma_div_pos_is_pos(-p as int, d as int);
        }
        let q: i128 = (((-p) as u128) / (d as u128)) as i128;
        (-q) as i64
    }
}

/// `mul_div` of nonnegative factors is nonnegative.
pub proof fn lemma_mul_div_nonneg(a: int, b: int, d: int)
    requires
        0 <= a,
        0 <= b,
        0 < d,
    ensures
        0 <= mul_div(a, b, d),
{
    assert(a * b >= 0) by (nonlinear_arith)
        requires
            a >= 0,
            b >= 0,
    ;
    lemma_div_pos_is_pos(a * b, d);
}

/// A symmetric bound on the numerator gives a symmetric bound on `mul_div`.
pub proof fn lemma_mul_div_bounded(a: int, b: int, d: int, m: int)
    requires
        0 < d,
        0 <= m,
        -(m * d) <= a * b <= m * d,
    ensures
        -m <= mul_div(a, b, d) <= m,
{
    let p = a * b;
    lemma_div_multiples_vanish(m, d);
    if p >= 0 {
        lemma_div_is_ordered(p, m * d, d);
        lemma_div_pos_is_pos(p, d);
    } else {
        lemma_div_is_ordered(-p, m * d, d);
        lemma_div_pos_is_pos(-p, d);
    }
}

} // verus!
