//! Uniform random values and vectors drawn from a seeded generator.
use vstd::prelude::*;
use rand::rngs::StdRng;
use rand::Rng;
use crate::fixed::{in_range, SCALE};
use crate::vec3::{v_unit, Vec3};

verus! {

#[verifier::external_type_specification]
#[verifier::external_body]
pub struct ExStdRng(StdRng);

/// Relies on rand::Rng::gen_range for `i64`: a value in `[low, high)`; it
/// panics when `low >= high`.
#[verifier::external_body]
fn gen_range(rng: &mut StdRng, low: i64, high: i64) -> (r: i64)
    requires
        low < high,
    ensures
        low <= r < high,
{
    rng.gen_range(low, high)
}

/// Attempts made to draw a point inside the unit ball before giving up.
pub const MAX_TRIES: u32 = 64;

/// A point strictly inside the unit ball.
pub open spec fn in_unit_ball(p: Vec3) -> bool {
    p.wf() && p.sum_sq() < SCALE * SCALE
}

/// A uniform fixed-point value in `[0, 1)`.
pub fn random_unit_interval(rng: &mut StdRng) -> (r: i64)
    ensures
        0 <= r < SCALE,
{
    gen_range(rng, 0, SCALE)
}

impl Vec3 {
    /// A vector with each component uniform in `[0, 1)`.
    pub fn random(rng: &mut StdRng) -> (r: Vec3)
        ensures
            r.wf(),
            0 <= r.x < SCALE,
            0 <= r.y < SCALE,
            0 <= r.z < SCALE,
    {
        Vec3 { x: gen_range(rng, 0, SCALE), y: gen_range(rng, 0, SCALE), z: gen_range(rng, 0, SCALE) }
    }

    /// A vector with each component uniform in `[min, max)`.
    pub fn random_from_range(rng: &mut StdRng, min: i64, max: i64) -> (r: Vec3)
        requires
            min < max,
            in_range(min as int),
            in_range(max as int),
        ensures
            r.wf(),
            min <= r.x < max,
            min <= r.y < max,
            min <= r.z < max,
    {
        Vec3 { x: gen_range(rng, min, max), y: gen_range(rng, min, max), z: gen_range(rng, min, max) }
    }

    /// A point uniform in the unit ball, by rejection; after `MAX_TRIES`
    /// rejected draws, the centre.
    pub fn random_in_unit_sphere(rng: &mut StdRng) -> (r: Vec3)
        ensures
            in_unit_ball(r),
    {
        let mut tries: u32 = 0;
        while tries < MAX_TRIES
            invariant
                tries <= MAX_TRIES,
            decreases MAX_TRIES - tries,
        {
            let p = Vec3::random_from_range(rng, -SCALE, SCALE);
            if p.length_squared() < SCALE {
                proof {
                    lemma_below_scale(p);
                }
                return p;
            }
            tries = tries + 1;
        }
        Vec3 { x: 0, y: 0, z: 0 }
    }

    /// A unit vector in a uniformly random direction: a point of the unit
    /// ball other than the centre, scaled to unit length.
    pub fn random_unit_vector(rng: &mut StdRng) -> (r: Vec3)
        ensures
            r.wf(),
            exists|p: Vec3| #[trigger] in_unit_ball(p) && p.sum_sq() > 0 && r == v_unit(p),
    {
        let mut tries: u32 = 0;
        while tries < MAX_TRIES
            invariant
                tries <= MAX_TRIES,
            decreases MAX_TRIES - tries,
        {
            let p = Vec3::random_in_unit_sphere(rng);
            if p.x != 0 || p.y != 0 || p.z != 0 {
                proof {
                    lemma_nonzero_sum_sq(p);
                }
                return p.unitize();
            }
            tries = tries + 1;
        }
        let p = Vec3 { x: SCALE / 2, y: 0, z: 0 };
        proof {
            lemma_nonzero_sum_sq(p);
            assert(in_unit_ball(p));
        }
        p.unitize()
    }
}

/// A squared length below one after rounding is below one exactly.
proof fn lemma_below_scale(p: Vec3)
    requires
        crate::vec3::v_length_squared(p) < SCALE,
    ensures
        p.sum_sq() < SCALE * SCALE,
{
    assert(p.sum_sq() >= 0) by (nonlinear_arith);
}

proof fn lemma_nonzero_sum_sq(p: Vec3)
    requires
        p.x != 0 || p.y != 0 || p.z != 0,
    ensures
        p.sum_sq() > 0,
{
    assert(p.x * p.x >= 0 && p.y * p.y >= 0 && p.z * p.z >= 0) by (nonlinear_arith);
    assert(p.x != 0 ==> p.x * p.x > 0) by (nonlinear_arith);
    assert(p.y != 0 ==> p.y * p.y > 0) by (nonlinear_arith);
    assert(p.z != 0 ==> p.z * p.z > 0) by (nonlinear_arith);
}

} // verus!
