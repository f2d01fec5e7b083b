//! Three-component vectors in fixed-point arithmetic, with the palette of
//! named colors. A component stores a real value scaled by `SCALE`.

use vstd::prelude::*;
use vstd::arithmetic::div_mod::{lemma_div_is_ordered, lemma_div_multiples_vanish};
use vstd::math::{abs, max3};
use crate::math::{
    isqrt_u128, lemma_isqrt_lt, lemma_isqrt_props, mul_div, mul_div_i64, spec_isqrt,
};

verus! {

/// Fixed-point unit: one real-valued unit is `SCALE` stored steps.
pub const SCALE: i64 = 1000;

/// Bound on the coordinates of stored scene data (centers, radii, plane
/// coefficients, albedo components).
pub const COORD_LIMIT: i64 = 100_000_000;

/// Bound on the coordinates of query points and ray origins.
pub const POINT_LIMIT: i64 = 1_000_000_000;

/// Bound on the operands of `Vec3::dot` so the sum of products fits in `i64`.
pub const DOT_LIMIT: i64 = 1_500_000_000;

/// Bound on the operands of `length` and `normalize`.
pub const VLEN_LIMIT: i64 = 2_000_000_000;

/// The mathematical model of a vector: unbounded integer components.
pub struct V3 {
    pub x: int,
    pub y: int,
    pub z: int,
}

#[derive(Clone, Copy, PartialEq, Eq, Structural, Debug)]
pub struct Vec3 {
    pub x: i64,
    pub y: i64,
    pub z: i64,
}

impl View for Vec3 {
    type V = V3;

    open spec fn view(&self) -> V3 {
        V3 { x: self.x as int, y: self.y as int, z: self.z as int }
    }
}

pub open spec fn bounded(v: V3, m: int) -> bool {
    -m <= v.x <= m && -m <= v.y <= m && -m <= v.z <= m
}

pub open spec fn is_zero(v: V3) -> bool {
    v.x == 0 && v.y == 0 && v.z == 0
}

pub open spec fn v3_add(a: V3, b: V3) -> V3 {
    V3 { x: a.x + b.x, y: a.y + b.y, z: a.z + b.z }
}

pub open spec fn v3_sub(a: V3, b: V3) -> V3 {
    V3 { x: a.x - b.x, y: a.y - b.y, z: a.z - b.z }
}

/// Raw dot product: the sum of component products, without rescaling.
/// On two fixed-point vectors its unit is 1/SCALE^2.
pub open spec fn v3_dot(a: V3, b: V3) -> int {
    a.x * b.x + a.y * b.y + a.z * b.z
}

/// Componentwise fixed-point product.
pub open spec fn v3_mul(a: V3, b: V3) -> V3 {
    V3 {
        x: mul_div(a.x, b.x, SCALE as int),
        y: mul_div(a.y, b.y, SCALE as int),
        z: mul_div(a.z, b.z, SCALE as int),
    }
}

/// Fixed-point product with a scalar.
pub open spec fn v3_scale(a: V3, k: int) -> V3 {
    V3 {
        x: mul_div(a.x, k, SCALE as int),
        y: mul_div(a.y, k, SCALE as int),
        z: mul_div(a.z, k, SCALE as int),
    }
}

/// Fixed-point Euclidean length: the floor square root of the raw
/// self-product, which carries the scale of the components.
pub open spec fn spec_length(v: V3) -> int {
    spec_isqrt(v3_dot(v, v))
}

/// Fixed-point normalization: each component is rescaled by
/// SCALE / length with truncation toward zero.
pub open spec fn spec_normalize(v: V3) -> V3 {
    let l = spec_length(v);
    V3 {
        x: mul_div(v.x, SCALE as int, l),
        y: mul_div(v.y, SCALE as int, l),
        z: mul_div(v.z, SCALE as int, l),
    }
}

pub open spec fn clamp_component(c: int) -> int {
    if c < 0 {
        0
    } else if c > 999 {
        999
    } else {
        c
    }
}

pub open spec fn v3_clamp(v: V3) -> V3 {
    V3 { x: clamp_component(v.x), y: clamp_component(v.y), z: clamp_component(v.z) }
}

/// The product of two values within symmetric bounds stays within the
/// product of the bounds.
pub proof fn lemma_mul_bounds(a: int, b: int, m: int, n: int) by (nonlinear_arith)
    requires
        0 <= m,
        0 <= n,
        -m <= a <= m,
        -n <= b <= n,
    ensures
        -(m * n) <= a * b <= m * n,
{
}

impl Vec3 {
    pub fn new(x: i64, y: i64, z: i64) -> (r: Vec3)
        ensures
            r@ == (V3 { x: x as int, y: y as int, z: z as int }),
    {
        Vec3 { x, y, z }
    }

    /// Raw dot product; the operand bound keeps the sum of products in `i64`.
    pub fn dot(&self, other: &Vec3) -> (r: i64)
        requires
            bounded(self@, DOT_LIMIT as int),
            bounded(other@, DOT_LIMIT as int),
        ensures
            r as int == v3_dot(self@, other@),
    {
        proof {
            lemma_mul_bounds(self@.x, other@.x, DOT_LIMIT as int, DOT_LIMIT as int);
            lemma_mul_bounds(self@.y, other@.y, DOT_LIMIT as int, DOT_LIMIT as int);
            lemma_mul_bounds(self@.z, other@.z, DOT_LIMIT as int, DOT_LIMIT as int);
        }
        self.x * other.x + self.y * other.y + self.z * other.z
    }

    pub fn add(&self, other: &Vec3) -> (r: Vec3)
        requires
            i64::MIN <= self@.x + other@.x <= i64::MAX,
            i64::MIN <= self@.y + other@.y <= i64::MAX,
            i64::MIN <= self@.z + other@.z <= i64::MAX,
        ensures
            r@ == v3_add(self@, other@),
    {
        Vec3 { x: self.x + other.x, y: self.y + other.y, z: self.z + other.z }
    }

    pub fn sub(&self, other: &Vec3) -> (r: Vec3)
        requires
            i64::MIN <= self@.x - other@.x <= i64::MAX,
            i64::MIN <= self@.y - other@.y <= i64::MAX,
            i64::MIN <= self@.z - other@.z <= i64::MAX,
        ensures
            r@ == v3_sub(self@, other@),
    {
        Vec3 { x: self.x - other.x, y: self.y - other.y, z: self.z - other.z }
    }

    /// Componentwise fixed-point product.
    pub fn mul(&self, other: &Vec3) -> (r: Vec3)
        requires
            bounded(self@, POINT_LIMIT as int),
            bounded(other@, POINT_LIMIT as int),
        ensures
            r@ == v3_mul(self@, other@),
    {
        proof {
            lemma_mul_bounds(self@.x, other@.x, POINT_LIMIT as int, POINT_LIMIT as int);
            lemma_mul_bounds(self@.y, other@.y, POINT_LIMIT as int, POINT_LIMIT as int);
            lemma_mul_bounds(self@.z, other@.z, POINT_LIMIT as int, POINT_LIMIT as int);
        }
        Vec3 {
            x: mul_div_i64(self.x, other.x, SCALE),
            y: mul_div_i64(self.y, other.y, SCALE),
            z: mul_div_i64(self.z, other.z, SCALE),
        }
    }

    /// Fixed-point product with a scalar.
    pub fn scale(&self, k: i64) -> (r: Vec3)
        requires
            bounded(self@, POINT_LIMIT as int),
            -1_000_000_000_000 <= k <= 1_000_000_000_000,
        ensures
            r@ == v3_scale(self@, k as int),
    {
        proof {
            lemma_mul_bounds(self@.x, k as int, POINT_LIMIT as int, 1_000_000_000_000);
            lemma_mul_bounds(self@.y, k as int, POINT_LIMIT as int, 1_000_000_000_000);
            lemma_mul_bounds(self@.z, k as int, POINT_LIMIT as int, 1_000_000_000_000);
        }
        Vec3 {
            x: mul_div_i64(self.x, k, SCALE),
            y: mul_div_i64(self.y, k, SCALE),
            z: mul_div_i64(self.z, k, SCALE),
        }
    }

    pub fn red() -> (r: Vec3)
        ensures
            r@ == (V3 { x: SCALE as int, y: 0, z: 0 }),
    {
        Vec3 { x: SCALE, y: 0, z: 0 }
    }

    pub fn black() -> (r: Vec3)
        ensures
            r@ == (V3 { x: 0, y: 0, z: 0 }),
    {
        Vec3 { x: 0, y: 0, z: 0 }
    }

    pub fn white() -> (r: Vec3)
        ensures
            r@ == (V3 { x: SCALE as int, y: SCALE as int, z: SCALE as int }),
    {
        Vec3 { x: SCALE, y: SCALE, z: SCALE }
    }
}

/// Clamp every component into the displayable band [0, 999].
pub fn clamp(v: &Vec3) -> (r: Vec3)
    ensures
        r@ == v3_clamp(v@),
{
    Vec3 { x: clamp_i64(v.x), y: clamp_i64(v.y), z: clamp_i64(v.z) }
}

fn clamp_i64(f: i64) -> (r: i64)
    ensures
        r as int == clamp_component(f as int),
{
    if f < 0 {
        0
    } else if f > 999 {
        999
    } else {
        f
    }
}

/// Fixed-point length of a vector.
pub fn length(v: Vec3) -> (r: i64)
    requires
        bounded(v@, VLEN_LIMIT as int),
    ensures
        r as int == spec_length(v@),
        0 <= r <= 4_000_000_000,
{
    proof {
        lemma_mul_bounds(v@.x, v@.x, VLEN_LIMIT as int, VLEN_LIMIT as int);
        lemma_mul_bounds(v@.y, v@.y, VLEN_LIMIT as int, VLEN_LIMIT as int);
        lemma_mul_bounds(v@.z, v@.z, VLEN_LIMIT as int, VLEN_LIMIT as int);
        lemma_square_nonneg(v@.x);
        lemma_square_nonneg(v@.y);
        lemma_square_nonneg(v@.z);
    }
    let s: i128 = (v.x as i128) * (v.x as i128) + (v.y as i128) * (v.y as i128) + (v.z as i128)
        * (v.z as i128);
    let r: u64 = isqrt_u128(s as u128);
    proof {
        lemma_isqrt_lt(s as int, 4_000_000_001);
    }
    r as i64
}

proof fn lemma_square_nonneg(a: int) by (nonlinear_arith)
    ensures
        a * a >= 0,
        a != 0 ==> a * a >= 1,
{
}

/// The length of a nonzero bounded vector is at least one step and the
/// largest component bounds it from both sides.
pub proof fn lemma_length_range(v: V3)
    requires
        bounded(v, VLEN_LIMIT as int),
        !is_zero(v),
    ensures
        1 <= spec_length(v),
        max3(abs(v.x) as int, abs(v.y) as int, abs(v.z) as int) <= spec_length(v),
        spec_length(v) < 2 * max3(abs(v.x) as int, abs(v.y) as int, abs(v.z) as int),
{
    let m = max3(abs(v.x) as int, abs(v.y) as int, abs(v.z) as int);
    let d = v3_dot(v, v);
    lemma_square_nonneg(v.x);
    lemma_square_nonneg(v.y);
    lemma_square_nonneg(v.z);
    assert(m >= 1);
    assert(m * m <= d <= 3 * (m * m)) by (nonlinear_arith)
        requires
            -m <= v.x <= m,
            -m <= v.y <= m,
            -m <= v.z <= m,
            m == max3(abs(v.x) as int, abs(v.y) as int, abs(v.z) as int),
            d == v3_dot(v, v),
    ;
    lemma_isqrt_props(d);
    let l = spec_length(v);
    assert(l >= m) by {
        if l < m {
            assert((l + 1) * (l + 1) <= m * m) by (nonlinear_arith)
                requires
                    0 <= l + 1 <= m,
            ;
        }
    }
    assert(3 * (m * m) < (2 * m) * (2 * m)) by (nonlinear_arith)
        requires
            m >= 1,
    ;
    lemma_isqrt_lt(d, 2 * m);
}

/// What one normalized component looks like: truncation keeps the sign of
/// the input and never exceeds SCALE in magnitude; the largest component
/// keeps at least half of SCALE.
proof fn lemma_norm_component(x: int, l: int, m: int)
    requires
        1 <= l,
        0 <= abs(x) <= m,
        abs(x) <= l,
        l < 2 * m,
    ensures
        -SCALE <= mul_div(x, SCALE as int, l) <= SCALE,
        mul_div(x, SCALE as int, l) * x >= 0,
        abs(x) == m ==> mul_div(x, SCALE as int, l) * x >= 500 * m,
        x > 0 ==> mul_div(x, SCALE as int, l) >= 0,
        x < 0 ==> mul_div(x, SCALE as int, l) <= 0,
        x == 0 ==> mul_div(x, SCALE as int, l) == 0,
{
    let p = x * SCALE as int;
    let a = abs(x) as int * SCALE as int;
    assert(a <= l * SCALE as int) by (nonlinear_arith)
        requires
            abs(x) <= l,
            a == abs(x) as int * SCALE as int,
            SCALE == 1000,
    ;
    lemma_div_multiples_vanish(SCALE as int, l);
    lemma_div_is_ordered(a, l * SCALE as int, l);
    vstd::arithmetic::div_mod::lemma_div_pos_is_pos(a, l);
    if x >= 0 {
        assert(p == a);
        assert(mul_div(x, SCALE as int, l) == a / l);
        assert((a / l) * x >= 0) by (nonlinear_arith)
            requires
                a / l >= 0,
                x >= 0,
        ;
    } else {
        assert(p == -a) by (nonlinear_arith)
            requires
                x < 0,
                a == abs(x) as int * SCALE as int,
                p == x * SCALE as int,
        ;
        assert(mul_div(x, SCALE as int, l) == -(a / l));
        assert((-(a / l)) * x >= 0) by (nonlinear_arith)
            requires
                a / l >= 0,
                x < 0,
        ;
    }
    if abs(x) == m {
        // 1000 * m >= 500 * l + something positive, so the quotient is >= 500.
        assert(500 * l <= a) by (nonlinear_arith)
            requires
                l < 2 * m,
                a == m * SCALE as int,
                SCALE == 1000,
                m >= 0,
        ;
        lemma_div_multiples_vanish(500, l);
        lemma_div_is_ordered(500 * l, a, l);
        assert(a / l >= 500);
        if x >= 0 {
            assert((a / l) * x >= 500 * m) by (nonlinear_arith)
                requires
                    a / l >= 500,
                    x == m,
                    m >= 0,
            ;
        } else {
            assert((-(a / l)) * x >= 500 * m) by (nonlinear_arith)
                requires
                    a / l >= 500,
                    x == -m,
                    m >= 0,
            ;
        }
    }
}

/// Normalization of a nonzero vector keeps each component within SCALE,
/// agrees in sign with the input componentwise, and points along the
/// input: the raw dot with the input is strictly positive, and the
/// result is far from the zero vector.
pub proof fn lemma_normalize_quality(v: V3)
    requires
        bounded(v, VLEN_LIMIT as int),
        !is_zero(v),
    ensures
        bounded(spec_normalize(v), SCALE as int),
        v3_dot(spec_normalize(v), v) >= 500,
        v3_dot(spec_normalize(v), spec_normalize(v)) >= 250_000,
        !is_zero(spec_normalize(v)),
{
    let m = max3(abs(v.x) as int, abs(v.y) as int, abs(v.z) as int);
    let l = spec_length(v);
    lemma_length_range(v);
    lemma_norm_component(v.x, l, m);
    lemma_norm_component(v.y, l, m);
    lemma_norm_component(v.z, l, m);
    let n = spec_normalize(v);
    assert(abs(v.x) == m || abs(v.y) == m || abs(v.z) == m);
    assert(v3_dot(n, v) >= 500 * m);
    assert(500 * m >= 500) by (nonlinear_arith)
        requires
            m >= 1,
    ;
    // The component that reaches m has magnitude at least 500 after
    // normalization, so the self-product is at least 500 * 500.
    if abs(v.x) == m {
        lemma_normalize_selfdot(n.x, v.x, m);
        lemma_square_nonneg(n.y);
        lemma_square_nonneg(n.z);
    } else if abs(v.y) == m {
        lemma_normalize_selfdot(n.y, v.y, m);
        lemma_square_nonneg(n.x);
        lemma_square_nonneg(n.z);
    } else {
        lemma_normalize_selfdot(n.z, v.z, m);
        lemma_square_nonneg(n.x);
        lemma_square_nonneg(n.y);
    }
}

/// From `n * x >= 500 * m` with `|x| <= m` and `|n| <= SCALE` conclude
/// that the normalized component squared is at least 500 * 500.
proof fn lemma_normalize_selfdot(n: int, x: int, m: int) by (nonlinear_arith)
    requires
        m >= 1,
        abs(x) == m,
        n * x >= 500 * m,
        -SCALE <= n <= SCALE,
    ensures
        n * n >= 250_000,
{
}

/// Fixed-point normalization of a nonzero vector.
pub fn normalize(v: &Vec3) -> (r: Vec3)
    requires
        bounded(v@, VLEN_LIMIT as int),
        !is_zero(v@),
    ensures
        r@ == spec_normalize(v@),
        bounded(r@, SCALE as int),
        v3_dot(r@, r@) >= 250_000,
        !is_zero(r@),
{
    proof {
        lemma_length_range(v@);
        lemma_normalize_quality(v@);
    }
    let l: i64 = length(*v);
    Vec3 {
        x: mul_div_i64(v.x, SCALE, l),
        y: mul_div_i64(v.y, SCALE, l),
        z: mul_div_i64(v.z, SCALE, l),
    }
}

/// The palette used by scene setup code.
pub struct Color {}

impl Color {
    pub fn red() -> (r: Vec3)
        ensures
            r@ == (V3 { x: 1000, y: 0, z: 0 }),
    {
        Vec3 { x: 1000, y: 0, z: 0 }
    }

    pub fn blue() -> (r: Vec3)
        ensures
            r@ == (V3 { x: 0, y: 0, z: 1000 }),
    {
        Vec3 { x: 0, y: 0, z: 1000 }
    }

    pub fn green() -> (r: Vec3)
        ensures
            r@ == (V3 { x: 0, y: 1000, z: 0 }),
    {
        Vec3 { x: 0, y: 1000, z: 0 }
    }

    pub fn orange() -> (r: Vec3)
        ensures
            r@ == (V3 { x: 1000, y: 647, z: 0 }),
    {
        Vec3 { x: 1000, y: 647, z: 0 }
    }

    pub fn white() -> (r: Vec3)
        ensures
            r@ == (V3 { x: 1000, y: 1000, z: 1000 }),
    {
        Vec3 { x: 1000, y: 1000, z: 1000 }
    }

    pub fn black() -> (r: Vec3)
        ensures
            r@ == (V3 { x: 0, y: 0, z: 0 }),
    {
        Vec3 { x: 0, y: 0, z: 0 }
    }
}

} // verus!
