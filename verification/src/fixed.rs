//! Fixed-point arithmetic on `i64`.
//!
//! A world length `l` is stored as the integer `l * SCALE`. All rounding is
//! toward zero, so that negating the operands negates the result.
use vstd::prelude::*;

verus! {

/// Fixed-point steps per world unit.
pub const SCALE: i64 = 1000;

/// Largest magnitude of a coordinate of a position, a target or a velocity.
pub const COORD_LIMIT: i64 = 1_000_000_000;

/// Largest radius of a unit.
pub const RADIUS_LIMIT: i64 = 1_000_000;

/// Largest movement speed of a unit.
pub const SPEED_LIMIT: i64 = 1_000_000;

/// Simulation steps per second; one step lasts `1 / TICKS_PER_SECOND`.
pub const TICKS_PER_SECOND: i64 = 60;

/// A vector of the plane in fixed-point steps, as contracts see it.
pub struct Vector {
    pub x: int,
    pub y: int,
}

/// Quotient rounded toward zero, for a positive divisor.
pub open spec fn trunc_div(a: int, b: int) -> int {
    if a >= 0 {
        a / b
    } else {
        -((-a) / b)
    }
}

/// `v` moved to the nearest value of magnitude at most `limit`.
pub open spec fn clamp(v: int, limit: int) -> int {
    if v < -limit {
        -limit
    } else if v > limit {
        limit
    } else {
        v
    }
}

/// `r` is the integer part of the square root of `n`.
pub open spec fn is_floor_sqrt(n: int, r: int) -> bool {
    0 <= r && r * r <= n < (r + 1) * (r + 1)
}

/// The integer part of the square root of `n`; 0 for a negative `n`.
pub open spec fn floor_sqrt(n: int) -> int {
    if n < 0 {
        0
    } else {
        choose|r: int| is_floor_sqrt(n, r)
    }
}

/// Every natural number has an integer square root.
pub proof fn lemma_floor_sqrt_exists(n: int) -> (r: int)
    requires
        0 <= n,
    ensures
        is_floor_sqrt(n, r),
    decreases n,
{
    if n == 0 {
        0
    } else {
        let p = lemma_floor_sqrt_exists(n - 1);
        if (p + 1) * (p + 1) <= n {
            let r = p + 1;
            assert((r + 1) * (r + 1) > n) by (nonlinear_arith)
                requires
                    r * r > n - 1,
                    r * r <= n,
                    0 <= r,
            ;
            r
        } else {
            p
        }
    }
}

/// The integer square root is unique.
pub proof fn lemma_floor_sqrt_unique(n: int, r: int, s: int)
    requires
        is_floor_sqrt(n, r),
        is_floor_sqrt(n, s),
    ensures
        r == s,
{
    if r < s {
        assert((r + 1) * (r + 1) <= s * s) by (nonlinear_arith)
            requires
                0 <= r,
                r + 1 <= s,
        ;
    } else if s < r {
        assert((s + 1) * (s + 1) <= r * r) by (nonlinear_arith)
            requires
                0 <= s,
                s + 1 <= r,
        ;
    }
}

/// `floor_sqrt` is the integer square root, and any `r` that is one equals it.
pub proof fn lemma_floor_sqrt(n: int)
    requires
        0 <= n,
    ensures
        is_floor_sqrt(n, floor_sqrt(n)),
        forall|r: int| is_floor_sqrt(n, r) ==> r == floor_sqrt(n),
{
    let w = lemma_floor_sqrt_exists(n);
    assert(is_floor_sqrt(n, floor_sqrt(n)));
    assert forall|r: int| is_floor_sqrt(n, r) implies r == floor_sqrt(n) by {
        lemma_floor_sqrt_unique(n, r, floor_sqrt(n));
    }
}

/// Integer square root by bisection.
pub fn isqrt(n: u64) -> (r: u64)
    ensures
        r == floor_sqrt(n as int),
        is_floor_sqrt(n as int, r as int),
{
    let mut lo: u64 = 0;
    let mut hi: u64 = 0x1_0000_0000;
    assert(0x1_0000_0000 * 0x1_0000_0000 > n) by (nonlinear_arith)
        requires
            n <= u64::MAX,
    ;
    while hi - lo > 1
        invariant
            lo < hi <= 0x1_0000_0000,
            lo * lo <= n < hi * hi,
        decreases hi - lo,
    {
        let mid: u64 = lo + (hi - lo) / 2;
        assert(mid * mid <= 0xffff_ffff * 0xffff_ffff) by (nonlinear_arith)
            requires
                0 <= mid <= 0xffff_ffff,
        ;
        if mid * mid <= n {
            lo = mid;
        } else {
            hi = mid;
        }
    }
    proof {
        assert(hi == lo + 1);
        assert(is_floor_sqrt(n as int, lo as int));
        lemma_floor_sqrt(n as int);
    }
    lo
}

/// Division that rounds toward zero.
pub fn div_toward_zero(a: i64, b: i64) -> (q: i64)
    requires
        b > 0,
    ensures
        q == trunc_div(a as int, b as int),
        a >= 0 ==> 0 <= q <= a,
        a <= 0 ==> a <= q <= 0,
{
    if a >= 0 {
        let q: i64 = a / b;
        assert(0 <= a as int / b as int <= a) by (nonlinear_arith)
            requires
                a >= 0,
                b > 0,
        ;
        q
    } else {
        let m: i128 = -(a as i128);
        let q: i128 = m / (b as i128);
        assert(0 <= m as int / b as int <= m) by (nonlinear_arith)
            requires
                m >= 0,
                b > 0,
        ;
        (-q) as i64
    }
}

/// Saturation at `limit`.
pub fn clamp_to(v: i64, limit: i64) -> (r: i64)
    requires
        0 <= limit,
    ensures
        r == clamp(v as int, limit as int),
        -limit <= r <= limit,
{
    if v < -limit {
        -limit
    } else if v > limit {
        limit
    } else {
        v
    }
}

/// The square of the length of `v`.
pub open spec fn length_sq(v: Vector) -> int {
    v.x * v.x + v.y * v.y
}

/// The length of `v`, rounded down.
pub open spec fn length(v: Vector) -> int {
    floor_sqrt(length_sq(v))
}

/// The vector of length `SCALE` (one world unit) along `v`, each coordinate
/// rounded toward zero; the zero vector for a `v` shorter than one step.
pub open spec fn normalized(v: Vector) -> Vector {
    let len = length(v);
    if len == 0 {
        Vector { x: 0, y: 0 }
    } else {
        Vector { x: trunc_div(v.x * SCALE, len), y: trunc_div(v.y * SCALE, len) }
    }
}

/// The product of the fixed-point vector `v` and the fixed-point factor `k`.
pub open spec fn scaled(v: Vector, k: int) -> Vector {
    Vector { x: trunc_div(v.x * k, SCALE as int), y: trunc_div(v.y * k, SCALE as int) }
}

/// The opposite vector.
pub open spec fn negated(v: Vector) -> Vector {
    Vector { x: -v.x, y: -v.y }
}

/// Rounding toward zero commutes with negation.
pub proof fn lemma_trunc_div_negated(a: int, b: int)
    requires
        b > 0,
    ensures
        trunc_div(-a, b) == -trunc_div(a, b),
{
    if a == 0 {
        assert(0int / b == 0) by (nonlinear_arith)
            requires
                b > 0,
        ;
    }
}

/// A common factor of a dividend that is not negative and its divisor
/// cancels.
proof fn lemma_div_cancels(k: int, r: int, d: int)
    requires
        k >= 0,
        r > 0,
        d > 0,
    ensures
        (k * r) / (d * r) == k / d,
        k * r >= 0,
        d * r > 0,
{
    assert(k * r >= 0 && d * r > 0) by (nonlinear_arith)
        requires
            k >= 0,
            r > 0,
            d > 0,
    ;
    vstd::arithmetic::div_mod::lemma_div_multiples_vanish(k, r);
    assert(r * k == k * r) by (nonlinear_arith);
    vstd::arithmetic::div_mod::lemma_div_denominator(k * r, r, d);
    assert(r * d == d * r) by (nonlinear_arith);
}

/// A common factor of dividend and divisor cancels.
pub proof fn lemma_trunc_div_cancels(k: int, r: int, d: int)
    requires
        r > 0,
        d > 0,
    ensures
        trunc_div(k * r, d * r) == trunc_div(k, d),
{
    if k >= 0 {
        lemma_div_cancels(k, r, d);
    } else {
        lemma_div_cancels(-k, r, d);
        assert((-k) * r == -(k * r)) by (nonlinear_arith);
        lemma_trunc_div_negated(-(k * r), d * r);
        lemma_trunc_div_negated(-k, d);
    }
}

/// A quotient is no larger than `m` when the dividend is no larger than `m * b`.
pub proof fn lemma_trunc_div_bound(a: int, b: int, m: int)
    requires
        b > 0,
        m >= 0,
        -(m * b) <= a <= m * b,
    ensures
        -m <= trunc_div(a, b) <= m,
{
    if a >= 0 {
        assert(0 <= a / b <= m) by (nonlinear_arith)
            requires
                0 <= a <= m * b,
                b > 0,
        ;
    } else {
        assert(0 <= (-a) / b <= m) by (nonlinear_arith)
            requires
                0 <= -a <= m * b,
                b > 0,
        ;
    }
}

/// The product of two bounded numbers is bounded by the product of the bounds.
pub proof fn lemma_product_bound(a: int, b: int, ma: int, mb: int)
    requires
        -ma <= a <= ma,
        -mb <= b <= mb,
    ensures
        -(ma * mb) <= a * b <= ma * mb,
{
    assert(-(ma * mb) <= a * b <= ma * mb) by (nonlinear_arith)
        requires
            -ma <= a <= ma,
            -mb <= b <= mb,
    ;
}

/// No coordinate of a vector is longer than the vector.
pub proof fn lemma_coordinate_within_length(v: Vector)
    ensures
        -length(v) <= v.x <= length(v),
        -length(v) <= v.y <= length(v),
        0 <= length(v),
        length(v) == 0 <==> (v.x == 0 && v.y == 0),
{
    let n = length_sq(v);
    assert(n >= 0 && n >= v.x * v.x && n >= v.y * v.y && (n == 0 <==> (v.x == 0 && v.y == 0)))
        by (nonlinear_arith)
        requires
            n == v.x * v.x + v.y * v.y,
    ;
    lemma_floor_sqrt(n);
    let r = floor_sqrt(n);
    assert(-r <= v.x <= r) by (nonlinear_arith)
        requires
            v.x * v.x < (r + 1) * (r + 1),
            0 <= r,
    ;
    assert(-r <= v.y <= r) by (nonlinear_arith)
        requires
            v.y * v.y < (r + 1) * (r + 1),
            0 <= r,
    ;
    if r == 0 {
        assert(n == 0) by (nonlinear_arith)
            requires
                0 <= n < (r + 1) * (r + 1),
                r == 0,
        ;
    }
    if n == 0 {
        assert(is_floor_sqrt(n, 0));
    }
}

/// The coordinates of a normalized vector are at most `SCALE`.
pub proof fn lemma_normalized_bound(v: Vector)
    ensures
        -SCALE <= normalized(v).x <= SCALE,
        -SCALE <= normalized(v).y <= SCALE,
{
    lemma_coordinate_within_length(v);
    let len = length(v);
    if len > 0 {
        lemma_product_bound(SCALE as int, v.x, SCALE as int, len);
        lemma_product_bound(SCALE as int, v.y, SCALE as int, len);
        assert(v.x * SCALE == SCALE * v.x && v.y * SCALE == SCALE * v.y) by (nonlinear_arith);
        lemma_trunc_div_bound(v.x * SCALE, len, SCALE as int);
        lemma_trunc_div_bound(v.y * SCALE, len, SCALE as int);
    }
}

/// The square of the length of `(x, y)`.
pub fn length_squared(x: i64, y: i64) -> (r: u64)
    requires
        -2 * COORD_LIMIT <= x <= 2 * COORD_LIMIT,
        -2 * COORD_LIMIT <= y <= 2 * COORD_LIMIT,
    ensures
        r == length_sq(Vector { x: x as int, y: y as int }),
        r <= 8_000_000_000_000_000_000,
{
    assert(0 <= x * x <= 4_000_000_000_000_000_000) by (nonlinear_arith)
        requires
            -2_000_000_000 <= x <= 2_000_000_000,
    ;
    assert(0 <= y * y <= 4_000_000_000_000_000_000) by (nonlinear_arith)
        requires
            -2_000_000_000 <= y <= 2_000_000_000,
    ;
    let xx: i64 = x * x;
    let yy: i64 = y * y;
    (xx + yy) as u64
}

/// The length of `(x, y)`, rounded down.
pub fn vector_length(x: i64, y: i64) -> (r: i64)
    requires
        -2 * COORD_LIMIT <= x <= 2 * COORD_LIMIT,
        -2 * COORD_LIMIT <= y <= 2 * COORD_LIMIT,
    ensures
        r == length(Vector { x: x as int, y: y as int }),
        0 <= r <= 3 * COORD_LIMIT,
{
    let n: u64 = length_squared(x, y);
    let r: u64 = isqrt(n);
    assert(r <= 3 * COORD_LIMIT) by (nonlinear_arith)
        requires
            r * r <= n,
            n <= 8_000_000_000_000_000_000,
            COORD_LIMIT == 1_000_000_000,
    ;
    r as i64
}

/// The vector of length one world unit along `(x, y)`.
pub fn unit_vector(x: i64, y: i64) -> (r: (i64, i64))
    requires
        -2 * COORD_LIMIT <= x <= 2 * COORD_LIMIT,
        -2 * COORD_LIMIT <= y <= 2 * COORD_LIMIT,
    ensures
        (Vector { x: r.0 as int, y: r.1 as int }) == normalized(
            Vector { x: x as int, y: y as int },
        ),
        -SCALE <= r.0 <= SCALE,
        -SCALE <= r.1 <= SCALE,
{
    let len: i64 = vector_length(x, y);
    proof {
        lemma_normalized_bound(Vector { x: x as int, y: y as int });
    }
    if len == 0 {
        (0, 0)
    } else {
        (div_toward_zero(x * SCALE, len), div_toward_zero(y * SCALE, len))
    }
}

/// The product of the fixed-point vector `v` and the fixed-point factor `k`.
pub fn scale_vector(v: (i64, i64), k: i64) -> (r: (i64, i64))
    requires
        -SCALE <= v.0 <= SCALE,
        -SCALE <= v.1 <= SCALE,
        0 <= k <= SPEED_LIMIT,
    ensures
        (Vector { x: r.0 as int, y: r.1 as int }) == scaled(
            Vector { x: v.0 as int, y: v.1 as int },
            k as int,
        ),
        -k <= r.0 <= k,
        -k <= r.1 <= k,
{
    proof {
        lemma_product_bound(v.0 as int, k as int, SCALE as int, k as int);
        lemma_product_bound(v.1 as int, k as int, SCALE as int, k as int);
        assert(k * SCALE == SCALE * k) by (nonlinear_arith);
        lemma_trunc_div_bound(v.0 * k, SCALE as int, k as int);
        lemma_trunc_div_bound(v.1 * k, SCALE as int, k as int);
        lemma_product_bound(SCALE as int, k as int, SCALE as int, SPEED_LIMIT as int);
    }
    (div_toward_zero(v.0 * k, SCALE), div_toward_zero(v.1 * k, SCALE))
}

} // verus!
