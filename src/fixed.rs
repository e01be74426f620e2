//! Real numbers as saturating decimal fixed-point integers.
//!
//! A scalar `v: i64` stands for the real `v / SCALE`. Coordinates of vectors are
//! kept within `[-LIMIT, LIMIT]`; operations that produce a coordinate saturate
//! to that range, so every operation is total and free of overflow.
use vstd::prelude::*;

verus! {

/// Fixed-point units in one real unit.
pub const SCALE: i64 = 1000000;

/// Largest magnitude of a coordinate (a thousand real units).
pub const LIMIT: i64 = 1000000000;

pub open spec fn clamp(v: int, lo: int, hi: int) -> int {
    if v < lo {
        lo
    } else if v > hi {
        hi
    } else {
        v
    }
}

pub open spec fn in_range(v: int) -> bool {
    -LIMIT <= v <= LIMIT
}

/// The value bounded to the coordinate range.
pub open spec fn sat(v: int) -> int {
    clamp(v, -LIMIT as int, LIMIT as int)
}

/// Integer division rounding toward zero, as Rust's `/` does.
pub open spec fn tdiv(a: int, b: int) -> int {
    if a >= 0 {
        a / b
    } else {
        -((-a) / b)
    }
}

/// Product of two fixed-point values.
pub open spec fn fx_mul(a: int, b: int) -> int {
    sat(tdiv(a * b, SCALE as int))
}

/// Quotient of two fixed-point values.
pub open spec fn fx_div(a: int, b: int) -> int {
    sat(tdiv(a * SCALE, b))
}

pub open spec fn is_root(n: int, r: int) -> bool {
    0 <= r && r * r <= n < (r + 1) * (r + 1)
}

/// The integer square root: the largest `r` with `r * r <= n`.
pub open spec fn root(n: nat) -> nat
    decreases n,
{
    if n == 0 {
        0
    } else {
        let r = root((n - 1) as nat);
        if (r + 1) * (r + 1) <= n {
            r + 1
        } else {
            r
        }
    }
}

/// Square root of a fixed-point value; a negative value counts as zero.
pub open spec fn fx_sqrt(a: int) -> int {
    if a <= 0 {
        0
    } else {
        root((a * SCALE) as nat) as int
    }
}

pub proof fn lemma_root(n: nat)
    ensures
        is_root(n as int, root(n) as int),
    decreases n,
{
    if n > 0 {
        lemma_root((n - 1) as nat);
        let r = root((n - 1) as nat) as int;
        assert((r + 2) * (r + 2) == (r + 1) * (r + 1) + 2 * r + 3) by (nonlinear_arith);
    }
}

pub proof fn lemma_root_unique(n: int, a: int, b: int)
    requires
        is_root(n, a),
        is_root(n, b),
    ensures
        a == b,
{
    if a < b {
        assert((a + 1) * (a + 1) <= b * b) by (nonlinear_arith)
            requires
                0 <= a + 1 <= b,
        ;
    } else if b < a {
        assert((b + 1) * (b + 1) <= a * a) by (nonlinear_arith)
            requires
                0 <= b + 1 <= a,
        ;
    }
}

/// Relies on num::clamp: `input` bounded below by `min` and above by `max`.
#[verifier::external_body]
pub(crate) fn clamp_i128(input: i128, min: i128, max: i128) -> (r: i128)
    requires
        min <= max,
    ensures
        r == clamp(input as int, min as int, max as int),
{
    num::clamp(input, min, max)
}

/// Bounds a wide intermediate result to the coordinate range.
pub fn saturate(v: i128) -> (r: i64)
    ensures
        r == sat(v as int),
        in_range(r as int),
{
    clamp_i128(v, -(LIMIT as i128), LIMIT as i128) as i64
}

/// Product of two fixed-point scalars, saturated.
pub fn mul_fx(a: i64, b: i64) -> (r: i64)
    ensures
        r == fx_mul(a as int, b as int),
        in_range(r as int),
{
    proof {
        lemma_mul_abs(a as int, b as int, 0x8000_0000_0000_0000, 0x8000_0000_0000_0000);
    }
    let p: i128 = a as i128 * b as i128;
    saturate(p / (SCALE as i128))
}

/// Quotient of two fixed-point scalars, saturated.
pub fn div_fx(a: i64, b: i64) -> (r: i64)
    requires
        b != 0,
    ensures
        r == fx_div(a as int, b as int),
        in_range(r as int),
{
    proof {
        lemma_mul_abs(a as int, SCALE as int, 0x8000_0000_0000_0000, SCALE as int);
        lemma_tdiv_bound(a * SCALE, b as int);
    }
    let p: i128 = a as i128 * (SCALE as i128);
    saturate(p / (b as i128))
}

pub open spec fn abs(v: int) -> int {
    if v >= 0 {
        v
    } else {
        -v
    }
}

/// A bound on the magnitude of a product.
pub proof fn lemma_mul_abs(a: int, b: int, ba: int, bb: int)
    requires
        abs(a) <= ba,
        abs(b) <= bb,
    ensures
        abs(a * b) <= ba * bb,
        -(ba * bb) <= a * b <= ba * bb,
{
    assert(abs(a * b) == abs(a) * abs(b)) by (nonlinear_arith);
    assert(abs(a) * abs(b) <= ba * bb) by (nonlinear_arith)
        requires
            0 <= abs(a) <= ba,
            0 <= abs(b) <= bb,
    ;
}

/// Rounding toward zero never grows a magnitude.
pub proof fn lemma_tdiv_bound(a: int, b: int)
    requires
        b != 0,
    ensures
        abs(tdiv(a, b)) <= abs(a),
{
    let m = abs(a);
    assert(abs(m / b) <= m) by (nonlinear_arith)
        requires
            m >= 0,
            b != 0,
    ;
}

/// The integer square root of `n`.
pub fn isqrt(n: u128) -> (r: u128)
    ensures
        r == root(n as nat),
{
    let mut lo: u128 = 0;
    let mut hi: u128 = 0x1_0000_0000_0000_0000;
    assert(hi * hi > n) by (nonlinear_arith)
        requires
            hi == 0x1_0000_0000_0000_0000u128,
            n <= u128::MAX,
    ;
    while hi - lo > 1
        invariant
            lo < hi <= 0x1_0000_0000_0000_0000u128,
            lo * lo <= n,
            n < hi * hi,
        decreases hi - lo,
    {
        let mid: u128 = lo + (hi - lo) / 2;
        assert(mid * mid < 0x1_0000_0000_0000_0000_0000_0000_0000_0000) by (nonlinear_arith)
            requires
                mid < 0x1_0000_0000_0000_0000u128,
        ;
        if mid * mid <= n {
            lo = mid;
        } else {
            hi = mid;
        }
    }
    proof {
        lemma_root(n as nat);
        assert(hi == lo + 1);
        lemma_root_unique(n as int, lo as int, root(n as nat) as int);
    }
    lo
}

/// Square root of a fixed-point scalar; a negative value counts as zero.
pub fn sqrt_fx(a: i64) -> (r: i64)
    ensures
        r == fx_sqrt(a as int),
        r >= 0,
{
    if a <= 0 {
        0
    } else {
        proof {
            lemma_mul_abs(a as int, SCALE as int, 0x8000_0000_0000_0000, SCALE as int);
        }
        let n: u128 = a as u128 * SCALE as u128;
        let r = isqrt(n);
        proof {
            lemma_root(n as nat);
            assert(r * r <= n);
            assert(r < 0x8000_0000_0000_0000u128) by (nonlinear_arith)
                requires
                    r * r <= n,
                    n < 0x4000_0000_0000_0000_0000_0000_0000_0000u128,
            ;
        }
        r as i64
    }
}


/// Rounding toward zero keeps the order of numerators over a positive divisor.
pub proof fn lemma_tdiv_monotone(x: int, y: int, d: int)
    requires
        x <= y,
        d > 0,
    ensures
        tdiv(x, d) <= tdiv(y, d),
{
    if x >= 0 {
        assert(x / d <= y / d) by (nonlinear_arith)
            requires
                0 <= x <= y,
                d > 0,
        ;
    } else if y >= 0 {
        assert((-x) / d >= 0 && y / d >= 0) by (nonlinear_arith)
            requires
                -x >= 0,
                y >= 0,
                d > 0,
        ;
    } else {
        assert((-y) / d <= (-x) / d) by (nonlinear_arith)
            requires
                0 <= -y <= -x,
                d > 0,
        ;
    }
}

/// A numerator within `m` divisors of zero gives a quotient within `m` of zero.
pub proof fn lemma_tdiv_within(x: int, m: int, d: int)
    requires
        -m * d <= x <= m * d,
        d > 0,
    ensures
        -m <= tdiv(x, d) <= m,
{
    if x >= 0 {
        assert(x / d <= m) by (nonlinear_arith)
            requires
                0 <= x <= m * d,
                d > 0,
        ;
    } else {
        assert((-m) * d == -(m * d)) by (nonlinear_arith);
        assert((-x) / d <= m) by (nonlinear_arith)
            requires
                0 <= -x <= m * d,
                d > 0,
        ;
    }
}

/// Multiplying by one keeps a value of the coordinate range.
pub proof fn lemma_fx_mul_one(x: int)
    requires
        in_range(x),
    ensures
        fx_mul(SCALE as int, x) == x,
        fx_mul(x, SCALE as int) == x,
{
    assert(tdiv(SCALE * x, SCALE as int) == x) by (nonlinear_arith)
        requires
            tdiv(SCALE * x, SCALE as int) == (if SCALE * x >= 0 {
                (SCALE * x) / (SCALE as int)
            } else {
                -((-(SCALE * x)) / (SCALE as int))
            }),
    ;
    assert(x * SCALE == SCALE * x) by (nonlinear_arith);
}

/// The square root of one is one.
pub proof fn lemma_sqrt_one()
    ensures
        fx_sqrt(SCALE as int) == SCALE,
{
    let s = SCALE as int;
    lemma_root((s * s) as nat);
    assert(is_root(s * s, s)) by (nonlinear_arith)
        requires
            s > 0,
    ;
    lemma_root_unique(s * s, s, root((s * s) as nat) as int);
}

} // verus!
