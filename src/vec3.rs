//! Three-component fixed-point vectors, also used as points and colours.
use vstd::prelude::*;
use crate::fixed::{
    in_range, isqrt, lemma_tdiv_within, lemma_mul_abs, lemma_root, lemma_tdiv_bound, mul_fx, div_fx, root, sat, saturate,
    sqrt_fx, tdiv, fx_div, fx_mul, fx_sqrt, LIMIT, SCALE,
};

verus! {

/// A vector whose components are fixed-point values (see `fixed`).
#[derive(Clone, Copy, Debug, PartialEq, Eq, Structural)]
pub struct Vec3 {
    pub x: i64,
    pub y: i64,
    pub z: i64,
}

/// A colour: red, green and blue as the three components.
pub type Color = Vec3;

/// A point in space.
pub type Point3 = Vec3;

/// Largest magnitude of the dot product of two well-formed vectors.
pub const DOT_BOUND: i64 = 3000000000000;

/// The vector with the given components, each bounded to the coordinate range.
pub open spec fn sat3(x: int, y: int, z: int) -> Vec3 {
    Vec3 { x: sat(x) as i64, y: sat(y) as i64, z: sat(z) as i64 }
}

pub open spec fn zero() -> Vec3 {
    Vec3 { x: 0, y: 0, z: 0 }
}

impl Vec3 {
    /// Every component lies in the coordinate range.
    pub open spec fn wf(self) -> bool {
        in_range(self.x as int) && in_range(self.y as int) && in_range(self.z as int)
    }

    /// The exact dot product, in squared units.
    pub open spec fn dot_raw(self, o: Vec3) -> int {
        self.x * o.x + self.y * o.y + self.z * o.z
    }

    /// The exact squared length, in squared units.
    pub open spec fn sum_sq(self) -> int {
        self.dot_raw(self)
    }
}

pub open spec fn v_add(a: Vec3, b: Vec3) -> Vec3 {
    sat3(a.x + b.x, a.y + b.y, a.z + b.z)
}

pub open spec fn v_sub(a: Vec3, b: Vec3) -> Vec3 {
    sat3(a.x - b.x, a.y - b.y, a.z - b.z)
}

pub open spec fn v_neg(a: Vec3) -> Vec3 {
    Vec3 { x: -a.x as i64, y: -a.y as i64, z: -a.z as i64 }
}

/// Component-wise product.
pub open spec fn v_mul(a: Vec3, b: Vec3) -> Vec3 {
    sat3(fx_mul(a.x as int, b.x as int), fx_mul(a.y as int, b.y as int), fx_mul(a.z as int, b.z as int))
}

/// Each component multiplied by the scalar `k`.
pub open spec fn v_scale(a: Vec3, k: int) -> Vec3 {
    sat3(fx_mul(k, a.x as int), fx_mul(k, a.y as int), fx_mul(k, a.z as int))
}

/// Each component divided by the scalar `k`.
pub open spec fn v_div(a: Vec3, k: int) -> Vec3 {
    sat3(fx_div(a.x as int, k), fx_div(a.y as int, k), fx_div(a.z as int, k))
}

pub open spec fn v_dot(a: Vec3, b: Vec3) -> int {
    tdiv(a.dot_raw(b), SCALE as int)
}

pub open spec fn v_length_squared(a: Vec3) -> int {
    tdiv(a.sum_sq(), SCALE as int)
}

/// The length, rounded down to a whole unit.
pub open spec fn v_length(a: Vec3) -> int {
    root(a.sum_sq() as nat) as int
}

pub open spec fn v_cross(a: Vec3, b: Vec3) -> Vec3 {
    sat3(
        tdiv(a.y * b.z - a.z * b.y, SCALE as int),
        tdiv(a.z * b.x - a.x * b.z, SCALE as int),
        tdiv(a.x * b.y - a.y * b.x, SCALE as int),
    )
}

/// The vector divided by its length; the zero vector stays zero.
pub open spec fn v_unit(a: Vec3) -> Vec3 {
    if a.sum_sq() == 0 {
        zero()
    } else {
        let l = v_length(a);
        sat3(tdiv(a.x * SCALE, l), tdiv(a.y * SCALE, l), tdiv(a.z * SCALE, l))
    }
}

/// Component-wise square root; a negative component counts as zero.
pub open spec fn v_sqrt(a: Vec3) -> Vec3 {
    Vec3 {
        x: fx_sqrt(a.x as int) as i64,
        y: fx_sqrt(a.y as int) as i64,
        z: fx_sqrt(a.z as int) as i64,
    }
}

/// `v - 2 (v . n) n`, rounded once per component.
pub open spec fn v_reflect(v: Vec3, n: Vec3) -> Vec3 {
    let d = v.dot_raw(n);
    let s2 = SCALE * SCALE;
    sat3(v.x - tdiv(2 * d * n.x, s2), v.y - tdiv(2 * d * n.y, s2), v.z - tdiv(2 * d * n.z, s2))
}

/// The cosine of the angle between `-v` and `n`, at most one.
pub open spec fn cos_toward(v: Vec3, n: Vec3) -> int {
    let c = -v_dot(v, n);
    if c < SCALE {
        c
    } else {
        SCALE as int
    }
}

/// `eta (v + cos n) - n sqrt(1 - eta^2 (1 - cos^2))`, with `cos` as in `cos_toward`.
pub open spec fn v_refract(v: Vec3, n: Vec3, eta: int) -> Vec3 {
    let cos = cos_toward(v, n);
    let parallel = v_scale(v_add(v, v_scale(n, cos)), eta);
    let sin2 = SCALE - fx_mul(cos, cos);
    let k = SCALE - fx_mul(fx_mul(eta, eta), sin2);
    v_sub(parallel, v_scale(n, fx_sqrt(k)))
}

/// The exact dot product of two well-formed vectors.
pub(crate) fn dot_raw(a: Vec3, b: Vec3) -> (r: i128)
    requires
        a.wf(),
        b.wf(),
    ensures
        r == a.dot_raw(b),
        -3 * LIMIT * LIMIT <= r <= 3 * LIMIT * LIMIT,
{
    proof {
        lemma_mul_abs(a.x as int, b.x as int, LIMIT as int, LIMIT as int);
        lemma_mul_abs(a.y as int, b.y as int, LIMIT as int, LIMIT as int);
        lemma_mul_abs(a.z as int, b.z as int, LIMIT as int, LIMIT as int);
    }
    a.x as i128 * b.x as i128 + a.y as i128 * b.y as i128 + a.z as i128 * b.z as i128
}

/// One component of a cross product, before rounding.
fn cross_term(a: i64, b: i64, c: i64, d: i64) -> (r: i128)
    requires
        in_range(a as int),
        in_range(b as int),
        in_range(c as int),
        in_range(d as int),
    ensures
        r == a * b - c * d,
        -2 * LIMIT * LIMIT <= r <= 2 * LIMIT * LIMIT,
{
    proof {
        lemma_mul_abs(a as int, b as int, LIMIT as int, LIMIT as int);
        lemma_mul_abs(c as int, d as int, LIMIT as int, LIMIT as int);
    }
    a as i128 * b as i128 - c as i128 * d as i128
}

/// `a * SCALE / l`, rounded toward zero and saturated.
fn scaled_ratio(a: i64, l: i128) -> (r: i64)
    requires
        in_range(a as int),
        l > 0,
    ensures
        r == sat(tdiv(a * SCALE, l as int)),
{
    proof {
        lemma_mul_abs(a as int, SCALE as int, LIMIT as int, SCALE as int);
    }
    saturate((a as i128 * SCALE as i128) / l)
}

/// `v - 2 d n / SCALE^2` for one component, saturated.
fn reflect_term(v: i64, d: i128, n: i64) -> (r: i64)
    requires
        in_range(v as int),
        in_range(n as int),
        -3 * LIMIT * LIMIT <= d <= 3 * LIMIT * LIMIT,
    ensures
        r == sat(v - tdiv(2 * d * n, SCALE * SCALE)),
{
    proof {
        lemma_mul_abs(2 * d, n as int, 6 * LIMIT * LIMIT, LIMIT as int);
        lemma_tdiv_bound(2 * d * n, SCALE * SCALE);
    }
    let s2: i128 = SCALE as i128 * SCALE as i128;
    saturate(v as i128 - (2 * d * n as i128) / s2)
}

impl Vec3 {
    /// The vector with the given components, each bounded to the coordinate range.
    pub fn new(tup: (i64, i64, i64)) -> (r: Vec3)
        ensures
            r == sat3(tup.0 as int, tup.1 as int, tup.2 as int),
            r.wf(),
    {
        Vec3 { x: saturate(tup.0 as i128), y: saturate(tup.1 as i128), z: saturate(tup.2 as i128) }
    }

    pub fn x(&self) -> (r: i64)
        ensures
            r == self.x,
    {
        self.x
    }

    pub fn y(&self) -> (r: i64)
        ensures
            r == self.y,
    {
        self.y
    }

    pub fn z(&self) -> (r: i64)
        ensures
            r == self.z,
    {
        self.z
    }

    pub fn length_squared(&self) -> (r: i64)
        requires
            self.wf(),
        ensures
            r == v_length_squared(*self),
            r >= 0,
    {
        let s = dot_raw(*self, *self);
        proof {
            assert(self.sum_sq() >= 0) by (nonlinear_arith);
        }
        (s / SCALE as i128) as i64
    }

    pub fn length(&self) -> (r: i64)
        requires
            self.wf(),
        ensures
            r == v_length(*self),
            r >= 0,
    {
        let s = dot_raw(*self, *self);
        proof {
            assert(self.sum_sq() >= 0) by (nonlinear_arith);
        }
        let l = isqrt(s as u128);
        proof {
            lemma_root(s as nat);
            assert(l < 0x8000_0000_0000_0000u128) by (nonlinear_arith)
                requires
                    l * l <= s,
                    s <= 3 * LIMIT * LIMIT,
            ;
        }
        l as i64
    }

    pub fn dot(&self, other: Vec3) -> (r: i64)
        requires
            self.wf(),
            other.wf(),
        ensures
            r == v_dot(*self, other),
            -DOT_BOUND <= r <= DOT_BOUND,
    {
        let d = dot_raw(*self, other);
        proof {
            lemma_tdiv_within(d as int, DOT_BOUND as int, SCALE as int);
        }
        (d / SCALE as i128) as i64
    }

    pub fn cross(&self, other: Vec3) -> (r: Vec3)
        requires
            self.wf(),
            other.wf(),
        ensures
            r == v_cross(*self, other),
            r.wf(),
    {
        let s: i128 = SCALE as i128;
        Vec3 {
            x: saturate(cross_term(self.y, other.z, self.z, other.y) / s),
            y: saturate(cross_term(self.z, other.x, self.x, other.z) / s),
            z: saturate(cross_term(self.x, other.y, self.y, other.x) / s),
        }
    }

    pub fn unitize(&self) -> (r: Vec3)
        requires
            self.wf(),
        ensures
            r == v_unit(*self),
            r.wf(),
    {
        let s = dot_raw(*self, *self);
        if s == 0 {
            return Vec3 { x: 0, y: 0, z: 0 };
        }
        proof {
            assert(self.sum_sq() >= 0) by (nonlinear_arith);
            lemma_root(s as nat);
        }
        let l = isqrt(s as u128);
        proof {
            assert(l > 0) by (nonlinear_arith)
                requires
                    s < (l + 1) * (l + 1),
                    s > 0,
                    l >= 0,
            ;
            assert(l < 0x8000_0000_0000_0000u128) by (nonlinear_arith)
                requires
                    l * l <= s,
                    s <= 3 * LIMIT * LIMIT,
            ;
        }
        let l = l as i128;
        Vec3 { x: scaled_ratio(self.x, l), y: scaled_ratio(self.y, l), z: scaled_ratio(self.z, l) }
    }

    /// Component-wise square root.
    pub fn sqrt(&self) -> (r: Vec3)
        requires
            self.wf(),
        ensures
            r == v_sqrt(*self),
    {
        Vec3 { x: sqrt_fx(self.x), y: sqrt_fx(self.y), z: sqrt_fx(self.z) }
    }

    /// The mirror image of the vector about the plane with normal `n`.
    pub fn reflect(&self, n: Vec3) -> (r: Vec3)
        requires
            self.wf(),
            n.wf(),
        ensures
            r == v_reflect(*self, n),
            r.wf(),
    {
        let d = dot_raw(*self, n);
        Vec3 {
            x: reflect_term(self.x, d, n.x),
            y: reflect_term(self.y, d, n.y),
            z: reflect_term(self.z, d, n.z),
        }
    }

    /// The vector bent through a surface with normal `n` by Snell's law, where
    /// `i_over_t` is the ratio of the refractive indices.
    pub fn refract(&self, n: Vec3, i_over_t: i64) -> (r: Vec3)
        requires
            self.wf(),
            n.wf(),
        ensures
            r == v_refract(*self, n, i_over_t as int),
            r.wf(),
    {
        let c = -self.dot(n);
        let cos: i64 = if c < SCALE {
            c
        } else {
            SCALE
        };
        let parallel = self.add(n.scale(cos)).scale(i_over_t);
        let sin2 = SCALE - mul_fx(cos, cos);
        let k = SCALE - mul_fx(mul_fx(i_over_t, i_over_t), sin2);
        parallel.sub(n.scale(sqrt_fx(k)))
    }

    pub fn neg(self) -> (r: Vec3)
        requires
            self.wf(),
        ensures
            r == v_neg(self),
            r.wf(),
    {
        Vec3 { x: -self.x, y: -self.y, z: -self.z }
    }

    pub fn add(self, other: Vec3) -> (r: Vec3)
        requires
            self.wf(),
            other.wf(),
        ensures
            r == v_add(self, other),
            r.wf(),
    {
        Vec3 {
            x: saturate(self.x as i128 + other.x as i128),
            y: saturate(self.y as i128 + other.y as i128),
            z: saturate(self.z as i128 + other.z as i128),
        }
    }

    pub fn sub(self, other: Vec3) -> (r: Vec3)
        requires
            self.wf(),
            other.wf(),
        ensures
            r == v_sub(self, other),
            r.wf(),
    {
        Vec3 {
            x: saturate(self.x as i128 - other.x as i128),
            y: saturate(self.y as i128 - other.y as i128),
            z: saturate(self.z as i128 - other.z as i128),
        }
    }

    /// Component-wise product.
    pub fn mul(self, other: Vec3) -> (r: Vec3)
        requires
            self.wf(),
            other.wf(),
        ensures
            r == v_mul(self, other),
            r.wf(),
    {
        Vec3 { x: mul_fx(self.x, other.x), y: mul_fx(self.y, other.y), z: mul_fx(self.z, other.z) }
    }

    /// Each component multiplied by the scalar `k`.
    pub fn scale(self, k: i64) -> (r: Vec3)
        ensures
            r == v_scale(self, k as int),
            r.wf(),
    {
        Vec3 { x: mul_fx(k, self.x), y: mul_fx(k, self.y), z: mul_fx(k, self.z) }
    }

    /// Each component divided by the scalar `k`.
    pub fn div(self, k: i64) -> (r: Vec3)
        requires
            k != 0,
        ensures
            r == v_div(self, k as int),
            r.wf(),
    {
        Vec3 { x: div_fx(self.x, k), y: div_fx(self.y, k), z: div_fx(self.z, k) }
    }

    pub fn add_assign(&mut self, other: Vec3)
        requires
            old(self).wf(),
            other.wf(),
        ensures
            *final(self) == v_add(*old(self), other),
            final(self).wf(),
    {
        *self = self.add(other);
    }

    /// Multiplies each component by the scalar `k`.
    pub fn mul_assign(&mut self, k: i64)
        ensures
            *final(self) == v_scale(*old(self), k as int),
            final(self).wf(),
    {
        *self = self.scale(k);
    }

    /// Divides each component by the scalar `k`.
    pub fn div_assign(&mut self, k: i64)
        requires
            k != 0,
        ensures
            *final(self) == v_div(*old(self), k as int),
            final(self).wf(),
    {
        *self = self.div(k);
    }
}

/// A point.
pub trait Point3Traits {

}

impl Point3Traits for Point3 {

}

/// Exact division of a multiple of the divisor.
pub proof fn lemma_tdiv_exact(q: int, d: int)
    requires
        d > 0,
    ensures
        tdiv(q * d, d) == q,
{
    if q >= 0 {
        assert((q * d) / d == q) by (nonlinear_arith)
            requires
                d > 0,
        ;
    } else {
        assert((-(q * d)) / d == -q) by (nonlinear_arith)
            requires
                d > 0,
        ;
        assert(q * d < 0) by (nonlinear_arith)
            requires
                d > 0,
                q < 0,
        ;
    }
}

/// Reflecting a vector that runs along a unit normal turns it around.
pub proof fn lemma_reflect_along_normal(v: Vec3, n: Vec3)
    requires
        v.wf(),
        n.wf(),
        n.sum_sq() == SCALE * SCALE,
        v.x * n.y == v.y * n.x,
        v.y * n.z == v.z * n.y,
        v.x * n.z == v.z * n.x,
    ensures
        v_reflect(v, n) == v_neg(v),
{
    let d = v.dot_raw(n);
    let s2 = SCALE * SCALE;
    lemma_parallel_component(v.x as int, v.y as int, v.z as int, n.x as int, n.y as int, n.z as int);
    lemma_parallel_component(v.y as int, v.z as int, v.x as int, n.y as int, n.z as int, n.x as int);
    lemma_parallel_component(v.z as int, v.x as int, v.y as int, n.z as int, n.x as int, n.y as int);
    assert(d * n.x == v.x * n.sum_sq());
    assert(d * n.y == v.y * n.sum_sq());
    assert(d * n.z == v.z * n.sum_sq());
    assert(2 * d * n.x == (2 * v.x) * s2) by (nonlinear_arith)
        requires
            d * n.x == v.x * s2,
    ;
    assert(2 * d * n.y == (2 * v.y) * s2) by (nonlinear_arith)
        requires
            d * n.y == v.y * s2,
    ;
    assert(2 * d * n.z == (2 * v.z) * s2) by (nonlinear_arith)
        requires
            d * n.z == v.z * s2,
    ;
    lemma_tdiv_exact(2 * v.x, s2);
    lemma_tdiv_exact(2 * v.y, s2);
    lemma_tdiv_exact(2 * v.z, s2);
}

/// For `v` parallel to `n`, the component of `(v . n) n` along the first axis.
proof fn lemma_parallel_component(vx: int, vy: int, vz: int, nx: int, ny: int, nz: int)
    requires
        vx * ny == vy * nx,
        vx * nz == vz * nx,
    ensures
        (vx * nx + vy * ny + vz * nz) * nx == vx * (nx * nx + ny * ny + nz * nz),
{
    assert((vy * nx) * ny == (vx * ny) * ny) by (nonlinear_arith)
        requires
            vx * ny == vy * nx,
    ;
    assert((vz * nx) * nz == (vx * nz) * nz) by (nonlinear_arith)
        requires
            vx * nz == vz * nx,
    ;
    assert((vx * nx + vy * ny + vz * nz) * nx == vx * nx * nx + (vy * nx) * ny + (vz * nx) * nz)
        by (nonlinear_arith);
    assert(vx * (nx * nx + ny * ny + nz * nz) == vx * nx * nx + (vx * ny) * ny + (vx * nz) * nz)
        by (nonlinear_arith);
}

/// A vector perpendicular to the normal is its own reflection.
pub proof fn lemma_reflect_perpendicular(v: Vec3, n: Vec3)
    requires
        v.wf(),
        v.dot_raw(n) == 0,
    ensures
        v_reflect(v, n) == v,
{
    let d = v.dot_raw(n);
    assert(2 * d * n.x == 0 && 2 * d * n.y == 0 && 2 * d * n.z == 0) by (nonlinear_arith)
        requires
            d == 0,
    ;
}

/// Reflecting twice about a unit normal gives back a vector that runs along
/// it; once differs from twice unless the vector is zero, so reflection is
/// not idempotent on such vectors.
pub proof fn lemma_reflect_twice_along_normal(v: Vec3, n: Vec3)
    requires
        v.wf(),
        n.wf(),
        n.sum_sq() == SCALE * SCALE,
        v.x * n.y == v.y * n.x,
        v.y * n.z == v.z * n.y,
        v.x * n.z == v.z * n.x,
    ensures
        v_reflect(v_reflect(v, n), n) == v,
        v != zero() ==> v_reflect(v_reflect(v, n), n) != v_reflect(v, n),
{
    lemma_reflect_along_normal(v, n);
    let w = v_neg(v);
    assert(w.x * n.y == w.y * n.x && w.y * n.z == w.z * n.y && w.x * n.z == w.z * n.x)
        by (nonlinear_arith)
        requires
            w.x == -v.x,
            w.y == -v.y,
            w.z == -v.z,
            v.x * n.y == v.y * n.x,
            v.y * n.z == v.z * n.y,
            v.x * n.z == v.z * n.x,
    ;
    lemma_reflect_along_normal(w, n);
}

/// A coordinate divided by a length at least as large lies within one.
proof fn lemma_ratio_bounded(c: int, n: int)
    requires
        c * c <= n,
        n > 0,
    ensures
        -SCALE <= tdiv(c * SCALE, root(n as nat) as int) <= SCALE,
{
    lemma_root(n as nat);
    let l = root(n as nat) as int;
    assert(-l <= c <= l) by (nonlinear_arith)
        requires
            c * c <= n,
            n < (l + 1) * (l + 1),
            l >= 0,
    ;
    assert(l > 0) by (nonlinear_arith)
        requires
            n > 0,
            n < (l + 1) * (l + 1),
            l >= 0,
    ;
    assert(-SCALE * l <= c * SCALE <= SCALE * l) by (nonlinear_arith)
        requires
            -l <= c <= l,
    ;
    lemma_tdiv_within(c * SCALE, SCALE as int, l);
}

/// Each component of a unit vector lies within one.
pub proof fn lemma_unit_bounded(a: Vec3)
    ensures
        -SCALE <= v_unit(a).x <= SCALE,
        -SCALE <= v_unit(a).y <= SCALE,
        -SCALE <= v_unit(a).z <= SCALE,
{
    let n = a.sum_sq();
    if n != 0 {
        assert(n >= 0 && a.x * a.x <= n && a.y * a.y <= n && a.z * a.z <= n) by (nonlinear_arith)
            requires
                n == a.x * a.x + a.y * a.y + a.z * a.z,
        ;
        lemma_ratio_bounded(a.x as int, n);
        lemma_ratio_bounded(a.y as int, n);
        lemma_ratio_bounded(a.z as int, n);
    }
}

} // verus!
