//! The colour estimate of a ray: repeated intersection and scattering until
//! the ray is absorbed, leaves the scene, or runs out of bounces.
use vstd::prelude::*;
use rand::rngs::StdRng;
use crate::fixed::{fx_mul, lemma_fx_mul_one, lemma_tdiv_within, SCALE};
use crate::hittable::{lemma_list_hit_is_closest, list_hit, object_hit, Hittable, HittableList};
use crate::material::{scatter_spec, white, Material, Sample};
use crate::ray::Ray;
use crate::vec3::{lemma_unit_bounded, v_add, v_mul, v_scale, v_unit, zero, Color, Vec3};

verus! {

/// Nearest parameter at which a bounced ray may hit again; it keeps a ray
/// from hitting the surface it leaves.
pub const T_MIN: i64 = 1000;

/// Stands for an unbounded search.
pub const T_MAX: i64 = 9223372036854775807;

pub open spec fn sky_blue() -> Color {
    Vec3 { x: 500000, y: 700000, z: 1000000 }
}

/// The blend weight of the sky colour for a ray: `(y + 1) / 2` of its unit
/// direction.
pub open spec fn sky_weight(r: Ray) -> int {
    fx_mul(SCALE / 2, v_unit(r.direction).y + SCALE)
}

/// The colour of a ray that meets nothing: white below, blue above.
pub open spec fn background(r: Ray) -> Color {
    let t = sky_weight(r);
    v_add(v_scale(white(), SCALE - t), v_scale(sky_blue(), t))
}

/// The colour of a path whose attenuations so far multiply to `acc`, with
/// `depth` bounces left, drawing the random values of each bounce from `s`.
#[verifier::opaque]
pub open spec fn trace(world: Seq<Hittable>, acc: Color, r: Ray, depth: int, s: Seq<Sample>) -> Color
    decreases depth,
{
    if depth <= 0 {
        zero()
    } else {
        match list_hit(world, r, T_MIN as int, T_MAX as int) {
            None => v_mul(acc, background(r)),
            Some(rec) => {
                let scattered = scatter_spec(rec.mat_ptr, r, rec, s[0]);
                if scattered.2 {
                    trace(world, v_mul(acc, scattered.0), scattered.1, depth - 1, s.drop_first())
                } else {
                    zero()
                }
            },
        }
    }
}

/// The colour estimate of a ray with at most `depth` bounces, drawing the
/// random values of each bounce from `s`.
pub open spec fn path_color(world: Seq<Hittable>, r: Ray, depth: int, s: Seq<Sample>) -> Color {
    trace(world, white(), r, depth, s)
}

pub open spec fn all_valid(s: Seq<Sample>) -> bool {
    forall|i: int| 0 <= i < s.len() ==> (#[trigger] s[i]).valid()
}

/// Multiplying by white keeps a colour.
pub proof fn lemma_white_mul(c: Color)
    requires
        c.wf(),
    ensures
        v_mul(white(), c) == c,
{
    lemma_fx_mul_one(c.x as int);
    lemma_fx_mul_one(c.y as int);
    lemma_fx_mul_one(c.z as int);
}

/// A ray that meets no object takes the background colour, whatever the
/// scene holds and whatever is drawn, as long as a bounce is left.
pub proof fn lemma_miss_gives_background(
    world: Seq<Hittable>,
    r: Ray,
    depth: int,
    s: Seq<Sample>,
)
    requires
        depth > 0,
        list_hit(world, r, T_MIN as int, T_MAX as int).is_none(),
    ensures
        path_color(world, r, depth, s) == background(r),
{
    lemma_trace_miss(world, white(), r, depth, s);
    lemma_white_mul(background(r));
}

/// One bounce of a path that hits `rec`.
proof fn lemma_trace_hit(
    world: Seq<Hittable>,
    acc: Color,
    r: Ray,
    depth: int,
    s: Seq<Sample>,
    rec: crate::hittable::HitRecord,
    scattered: (Color, Ray, bool),
)
    requires
        depth > 0,
        list_hit(world, r, T_MIN as int, T_MAX as int) == Some(rec),
        scattered == scatter_spec(rec.mat_ptr, r, rec, s[0]),
    ensures
        trace(world, acc, r, depth, s) == (if scattered.2 {
            trace(world, v_mul(acc, scattered.0), scattered.1, depth - 1, s.drop_first())
        } else {
            zero()
        }),
{
    reveal(trace);
}

/// The end of a path that meets nothing.
proof fn lemma_trace_miss(world: Seq<Hittable>, acc: Color, r: Ray, depth: int, s: Seq<Sample>)
    requires
        depth > 0,
        list_hit(world, r, T_MIN as int, T_MAX as int).is_none(),
    ensures
        trace(world, acc, r, depth, s) == v_mul(acc, background(r)),
{
    reveal(trace);
}

/// The background colour of a ray.
pub fn background_color(r: &Ray) -> (c: Color)
    requires
        r.wf(),
    ensures
        c == background(*r),
        c.wf(),
{
    let unit_direction = r.direction().unitize();
    let t = crate::fixed::mul_fx(SCALE / 2, unit_direction.y() + SCALE);
    let white = Vec3 { x: SCALE, y: SCALE, z: SCALE };
    let sky = Vec3 { x: 500000, y: 700000, z: 1000000 };
    white.scale(SCALE - t).add(sky.scale(t))
}

/// The colour estimate of `r` with at most `depth` bounces, taking the random
/// values of the `k`-th bounce from `samples[k]`.
pub fn ray_color_with(r: &Ray, world: &HittableList, depth: i32, samples: &Vec<Sample>) -> (c: Color)
    requires
        r.wf(),
        world.wf(),
        depth <= samples@.len(),
        all_valid(samples@),
    ensures
        c == path_color(world.objects@, *r, depth as int, samples@),
{
    let ghost w = world.objects@;
    let mut acc = Vec3 { x: SCALE, y: SCALE, z: SCALE };
    let mut ray = *r;
    let mut d: i32 = depth;
    let mut k: usize = 0;
    let n: usize = samples.len();
    proof {
        assert(samples@.subrange(0, samples@.len() as int) =~= samples@);
    }
    while d > 0
        invariant
            world.wf(),
            w == world.objects@,
            ray.wf(),
            acc.wf(),
            all_valid(samples@),
            d <= depth,
            d > 0 ==> k + d <= samples@.len(),
            k <= samples@.len(),
            n == samples@.len(),
            path_color(w, *r, depth as int, samples@) == trace(
                w,
                acc,
                ray,
                d as int,
                samples@.subrange(k as int, samples@.len() as int),
            ),
        decreases d,
    {
        let ghost rest = samples@.subrange(k as int, samples@.len() as int);
        match world.hit(&ray, T_MIN, T_MAX) {
            None => {
                proof {
                    lemma_trace_miss(w, acc, ray, d as int, rest);
                }
                return acc.mul(background_color(&ray));
            },
            Some(rec) => {
                let scattered = rec.mat_ptr.scatter_with(&ray, &rec, &samples[k]);
                proof {
                    assert(rest[0] == samples@[k as int]);
                    assert(rest.drop_first() =~= samples@.subrange(
                        k as int + 1,
                        samples@.len() as int,
                    ));
                    lemma_trace_hit(w, acc, ray, d as int, rest, rec, scattered);
                }
                if !scattered.2 {
                    return Vec3 { x: 0, y: 0, z: 0 };
                }
                acc = acc.mul(scattered.0);
                ray = scattered.1;
                d = d - 1;
                k = k + 1;
            },
        }
    }
    proof {
        reveal(trace);
    }
    Vec3 { x: 0, y: 0, z: 0 }
}

/// The colour estimate of `r` with at most `depth` bounces, drawing the
/// random values of each bounce from `rng`: black once the bounces run out or
/// the ray is absorbed, the background once it meets nothing, each bounce
/// attenuating by the colour its material gives.
pub fn ray_color(r: &Ray, world: &HittableList, depth: i32, rng: &mut StdRng) -> (c: Color)
    requires
        r.wf(),
        world.wf(),
    ensures
        exists|s: Seq<Sample>|
            all_valid(s) && #[trigger] path_color(world.objects@, *r, depth as int, s) == c,
        depth <= 0 ==> c == zero(),
        depth > 0 && list_hit(world.objects@, *r, T_MIN as int, T_MAX as int).is_none() ==> c
            == background(*r),
        c.wf(),
{
    let ghost w = world.objects@;
    let ghost mut used: Seq<Sample> = Seq::empty();
    let mut acc = Vec3 { x: SCALE, y: SCALE, z: SCALE };
    let mut ray = *r;
    let mut d: i32 = depth;
    proof {
        assert forall|rest: Seq<Sample>|
            path_color(w, *r, depth as int, used + rest) == #[trigger] trace(
                w,
                acc,
                ray,
                d as int,
                rest,
            ) by {
            assert(used + rest =~= rest);
        }
        if depth > 0 && list_hit(w, *r, T_MIN as int, T_MAX as int).is_none() {
            lemma_miss_gives_background(w, *r, depth as int, used);
        }
    }
    while d > 0
        invariant
            world.wf(),
            w == world.objects@,
            ray.wf(),
            acc.wf(),
            all_valid(used),
            d <= depth,
            d < depth ==> list_hit(w, *r, T_MIN as int, T_MAX as int).is_some(),
            d == depth ==> ray == *r && acc == white(),
            forall|rest: Seq<Sample>|
                path_color(w, *r, depth as int, used + rest) == #[trigger] trace(
                    w,
                    acc,
                    ray,
                    d as int,
                    rest,
                ),
        decreases d,
    {
        match world.hit(&ray, T_MIN, T_MAX) {
            None => {
                let c = acc.mul(background_color(&ray));
                proof {
                    lemma_trace_miss(w, acc, ray, d as int, Seq::empty());
                    assert(used + Seq::empty() =~= used);
                    assert(path_color(w, *r, depth as int, used + Seq::empty()) == trace(
                        w,
                        acc,
                        ray,
                        d as int,
                        Seq::empty(),
                    ));
                    if d == depth {
                        lemma_white_mul(background(ray));
                    }
                }
                return c;
            },
            Some(rec) => {
                let scattered = rec.mat_ptr.scatter(&ray, &rec, rng);
                let ghost sample = choose|x: Sample|
                    x.valid() && scattered == scatter_spec(rec.mat_ptr, ray, rec, x);
                proof {
                    let old_used = used;
                    assert forall|rest: Seq<Sample>|
                        path_color(w, *r, depth as int, old_used.push(sample) + rest) == (if scattered.2 {
                            trace(w, v_mul(acc, scattered.0), scattered.1, d - 1, rest)
                        } else {
                            zero()
                        }) by {
                        let rest2 = seq![sample] + rest;
                        assert(old_used.push(sample) + rest =~= old_used + rest2);
                        assert(rest2[0] == sample);
                        assert(rest2.drop_first() =~= rest);
                        assert(path_color(w, *r, depth as int, old_used + rest2) == trace(
                            w,
                            acc,
                            ray,
                            d as int,
                            rest2,
                        ));
                        lemma_trace_hit(w, acc, ray, d as int, rest2, rec, scattered);
                    }
                    used = old_used.push(sample);
                    assert forall|i: int| 0 <= i < used.len() implies (#[trigger] used[i]).valid() by {
                        if i < old_used.len() {
                            assert(used[i] == old_used[i]);
                        }
                    }
                }
                if !scattered.2 {
                    proof {
                        assert(used + Seq::empty() =~= used);
                        assert(path_color(w, *r, depth as int, used + Seq::empty()) == zero());
                    }
                    return Vec3 { x: 0, y: 0, z: 0 };
                }
                acc = acc.mul(scattered.0);
                ray = scattered.1;
                d = d - 1;
            },
        }
    }
    proof {
        reveal(trace);
        assert(used + Seq::empty() =~= used);
        assert(path_color(w, *r, depth as int, used + Seq::empty()) == trace(
            w,
            acc,
            ray,
            d as int,
            Seq::empty(),
        ));
    }
    Vec3 { x: 0, y: 0, z: 0 }
}

/// Every component is at least zero.
pub open spec fn nonneg(c: Color) -> bool {
    c.x >= 0 && c.y >= 0 && c.z >= 0
}

/// The material never attenuates a channel below zero.
pub open spec fn material_nonneg(m: Material) -> bool {
    match m {
        Material::Lambertian(l) => nonneg(l.albedo),
        Material::Metal(l) => nonneg(l.albedo),
        Material::Dielectric(_) => true,
    }
}

pub open spec fn object_material(o: Hittable) -> Material {
    match o {
        Hittable::Sphere(s) => s.mat_ptr,
    }
}

/// No material of the scene attenuates a channel below zero.
pub open spec fn scene_nonneg(world: Seq<Hittable>) -> bool {
    forall|i: int| 0 <= i < world.len() ==> material_nonneg(#[trigger] object_material(world[i]))
}

/// The background has no negative component.
pub proof fn lemma_background_nonneg(r: Ray)
    ensures
        nonneg(background(r)),
{
    lemma_unit_bounded(r.direction);
    let y = v_unit(r.direction).y as int;
    let t = sky_weight(r);
    assert(0 <= (SCALE / 2) * (y + SCALE) <= SCALE * SCALE) by (nonlinear_arith)
        requires
            -SCALE <= y <= SCALE,
    ;
    lemma_tdiv_within((SCALE / 2) * (y + SCALE), SCALE as int, SCALE as int);
    assert(0 <= t <= SCALE);
    assert(0 <= (SCALE - t) * SCALE && 0 <= t * 500000 && 0 <= t * 700000 && 0 <= t * SCALE)
        by (nonlinear_arith)
        requires
            0 <= t <= SCALE,
    ;
}

/// The product of colours without negative components has none.
proof fn lemma_mul_nonneg(a: Color, b: Color)
    requires
        nonneg(a),
        nonneg(b),
    ensures
        nonneg(v_mul(a, b)),
{
    assert(a.x * b.x >= 0 && a.y * b.y >= 0 && a.z * b.z >= 0) by (nonlinear_arith)
        requires
            nonneg(a),
            nonneg(b),
    ;
}

proof fn lemma_trace_nonneg(world: Seq<Hittable>, acc: Color, r: Ray, depth: int, s: Seq<Sample>)
    requires
        scene_nonneg(world),
        nonneg(acc),
    ensures
        nonneg(trace(world, acc, r, depth, s)),
    decreases depth,
{
    reveal(trace);
    if depth > 0 {
        match list_hit(world, r, T_MIN as int, T_MAX as int) {
            None => {
                lemma_background_nonneg(r);
                lemma_mul_nonneg(acc, background(r));
            },
            Some(rec) => {
                lemma_list_hit_is_closest(world, r, T_MIN as int, T_MAX as int);
                let i = choose|i: int|
                    0 <= i < world.len() && #[trigger] object_hit(world[i], r, T_MIN as int, T_MAX as int)
                        == Some(rec);
                assert(material_nonneg(object_material(world[i])));
                assert(rec.mat_ptr == object_material(world[i]));
                let sc = scatter_spec(rec.mat_ptr, r, rec, s[0]);
                if sc.2 {
                    lemma_mul_nonneg(acc, sc.0);
                    lemma_trace_nonneg(world, v_mul(acc, sc.0), sc.1, depth - 1, s.drop_first());
                }
            },
        }
    }
}

/// In a scene whose materials never attenuate a channel below zero, every
/// colour estimate is free of negative components.
pub proof fn lemma_color_nonneg(world: Seq<Hittable>, r: Ray, depth: int, s: Seq<Sample>)
    requires
        scene_nonneg(world),
    ensures
        nonneg(path_color(world, r, depth, s)),
{
    lemma_trace_nonneg(world, white(), r, depth, s);
}

} // verus!
