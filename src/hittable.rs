//! Ray/scene intersection: hit records, spheres and the closest-hit search
//! over a collection of objects.
use vstd::prelude::*;
use crate::fixed::{
    in_range, is_root, isqrt, lemma_mul_abs, lemma_root, lemma_root_unique, lemma_tdiv_monotone, root,
    tdiv, LIMIT, SCALE,
};
use crate::material::Material;
use crate::ray::{ray_at, Ray};
use crate::vec3::{v_div, v_neg, v_sub, Point3, Vec3};

verus! {

/// One intersection of a ray with a surface.
#[derive(Clone, Copy, Debug, PartialEq, Eq, Structural)]
pub struct HitRecord {
    pub p: Point3,
    /// Unit normal, pointing against the incoming ray.
    pub normal: Vec3,
    pub mat_ptr: Material,
    /// Whether the ray comes from outside the surface.
    pub front_face: bool,
    pub t: i64,
}

impl HitRecord {
    pub open spec fn wf(self) -> bool {
        self.p.wf() && self.normal.wf() && self.mat_ptr.wf()
    }

    /// A record at the origin, with the given material.
    pub fn new(mat_ptr: Material) -> (r: HitRecord)
        ensures
            r.mat_ptr == mat_ptr,
            r.p == (Vec3 { x: 0, y: 0, z: 0 }),
            r.normal == (Vec3 { x: 0, y: 0, z: 0 }),
            !r.front_face,
            r.t == 0,
    {
        let p = Vec3 { x: 0, y: 0, z: 0 };
        HitRecord { p, normal: p, mat_ptr, front_face: false, t: 0 }
    }

    pub fn p(&self) -> (r: Point3)
        ensures
            r == self.p,
    {
        self.p
    }

    pub fn normal(&self) -> (r: Vec3)
        ensures
            r == self.normal,
    {
        self.normal
    }

    pub fn front(&self) -> (r: bool)
        ensures
            r == self.front_face,
    {
        self.front_face
    }

    pub fn t(&self) -> (r: i64)
        ensures
            r == self.t,
    {
        self.t
    }

    pub fn mat_ptr(&self) -> (r: Material)
        ensures
            r == self.mat_ptr,
    {
        self.mat_ptr
    }

    pub fn set_p(&mut self, p: Point3)
        ensures
            *final(self) == (HitRecord { p, ..*old(self) }),
    {
        self.p = p;
    }

    pub fn set_t(&mut self, t: i64)
        ensures
            *final(self) == (HitRecord { t, ..*old(self) }),
    {
        self.t = t;
    }

    /// Stores the normal facing against `r`, and whether `r` comes from the
    /// side that `outward_normal` points to.
    pub fn set_face_normal(&mut self, r: &Ray, outward_normal: Vec3)
        requires
            r.wf(),
            outward_normal.wf(),
        ensures
            final(self).front_face == front_facing(r.direction, outward_normal),
            final(self).normal == facing_normal(r.direction, outward_normal),
            final(self).p == old(self).p,
            final(self).t == old(self).t,
            final(self).mat_ptr == old(self).mat_ptr,
    {
        let d = r.direction;
        let n = outward_normal;
        proof {
            lemma_mul_abs(d.x as int, n.x as int, LIMIT as int, LIMIT as int);
            lemma_mul_abs(d.y as int, n.y as int, LIMIT as int, LIMIT as int);
            lemma_mul_abs(d.z as int, n.z as int, LIMIT as int, LIMIT as int);
        }
        let dot: i128 = d.x as i128 * n.x as i128 + d.y as i128 * n.y as i128 + d.z as i128
            * n.z as i128;
        self.front_face = dot < 0;
        self.normal = if self.front_face {
            outward_normal
        } else {
            outward_normal.neg()
        };
    }

    pub fn set_mat_ptr(&mut self, mat_ptr: Material)
        ensures
            *final(self) == (HitRecord { mat_ptr, ..*old(self) }),
    {
        self.mat_ptr = mat_ptr;
    }
}

/// A ray along `dir` meets the surface from outside when it runs against the
/// outward normal.
pub open spec fn front_facing(dir: Vec3, outward: Vec3) -> bool {
    dir.dot_raw(outward) < 0
}

/// The normal that points against a ray along `dir`.
pub open spec fn facing_normal(dir: Vec3, outward: Vec3) -> Vec3 {
    if front_facing(dir, outward) {
        outward
    } else {
        v_neg(outward)
    }
}

/// A sphere; a negative radius turns its normals inward.
#[derive(Clone, Copy, Debug, PartialEq, Eq, Structural)]
pub struct SphereData {
    pub center: Point3,
    pub radius: i64,
    pub mat_ptr: Material,
}

impl SphereData {
    pub open spec fn wf(self) -> bool {
        self.center.wf() && in_range(self.radius as int) && self.mat_ptr.wf()
    }

    pub fn new(center: Point3, radius: i64, mat_ptr: Material) -> (r: SphereData)
        ensures
            r == (SphereData { center, radius, mat_ptr }),
    {
        SphereData { center, radius, mat_ptr }
    }
}

/// The coefficients of `a t^2 + 2 b t + c = 0`, whose roots are where the ray
/// meets the sphere, in squared units.
pub open spec fn quad_a(r: Ray) -> int {
    r.direction.sum_sq()
}

pub open spec fn quad_b(s: SphereData, r: Ray) -> int {
    (r.origin.x - s.center.x) * r.direction.x + (r.origin.y - s.center.y) * r.direction.y + (
    r.origin.z - s.center.z) * r.direction.z
}

pub open spec fn quad_c(s: SphereData, r: Ray) -> int {
    (r.origin.x - s.center.x) * (r.origin.x - s.center.x) + (r.origin.y - s.center.y) * (
    r.origin.y - s.center.y) + (r.origin.z - s.center.z) * (r.origin.z - s.center.z) - s.radius
        * s.radius
}

pub open spec fn discriminant(s: SphereData, r: Ray) -> int {
    quad_b(s, r) * quad_b(s, r) - quad_a(r) * quad_c(s, r)
}

/// The nearer root, as a fixed-point ray parameter.
pub open spec fn near_root(s: SphereData, r: Ray) -> int {
    tdiv((-quad_b(s, r) - root(discriminant(s, r) as nat)) * SCALE, quad_a(r))
}

/// The farther root, as a fixed-point ray parameter.
pub open spec fn far_root(s: SphereData, r: Ray) -> int {
    tdiv((-quad_b(s, r) + root(discriminant(s, r) as nat)) * SCALE, quad_a(r))
}

/// The record of the sphere's surface at parameter `t` along the ray.
pub open spec fn sphere_record(s: SphereData, r: Ray, t: int) -> HitRecord {
    let p = ray_at(r, t);
    let outward = v_div(v_sub(p, s.center), s.radius as int);
    HitRecord {
        p,
        normal: facing_normal(r.direction, outward),
        mat_ptr: s.mat_ptr,
        front_face: front_facing(r.direction, outward),
        t: t as i64,
    }
}

/// The first intersection with the sphere strictly inside `(t_min, t_max)`.
/// A ray without direction, or a sphere of radius zero, meets nothing.
pub open spec fn sphere_hit(s: SphereData, r: Ray, t_min: int, t_max: int) -> Option<HitRecord> {
    if s.radius == 0 || quad_a(r) == 0 || discriminant(s, r) < 0 {
        None
    } else if t_min < near_root(s, r) < t_max {
        Some(sphere_record(s, r, near_root(s, r)))
    } else if t_min < far_root(s, r) < t_max {
        Some(sphere_record(s, r, far_root(s, r)))
    } else {
        None
    }
}

/// The record of the sphere's surface at parameter `t`.
fn record_at(s: &SphereData, r: &Ray, t: i64) -> (rec: HitRecord)
    requires
        s.wf(),
        s.radius != 0,
        r.wf(),
    ensures
        rec == sphere_record(*s, *r, t as int),
        rec.wf(),
{
    let mut rec = HitRecord::new(s.mat_ptr);
    rec.set_t(t);
    let p = r.at(t);
    let outward_normal = p.sub(s.center).div(s.radius);
    rec.set_face_normal(r, outward_normal);
    rec.set_p(p);
    rec
}

impl SphereData {
    /// The first intersection with the sphere strictly inside `(t_min, t_max)`.
    pub fn hit(&self, r: &Ray, t_min: i64, t_max: i64) -> (res: Option<HitRecord>)
        requires
            self.wf(),
            r.wf(),
        ensures
            res == sphere_hit(*self, *r, t_min as int, t_max as int),
            res.is_some() ==> res.unwrap().wf(),
    {
        if self.radius == 0 {
            return None;
        }
        let d = r.direction;
        let ox: i128 = r.origin.x as i128 - self.center.x as i128;
        let oy: i128 = r.origin.y as i128 - self.center.y as i128;
        let oz: i128 = r.origin.z as i128 - self.center.z as i128;
        let ghost l2: int = 2 * LIMIT;
        proof {
            lemma_mul_abs(d.x as int, d.x as int, LIMIT as int, LIMIT as int);
            lemma_mul_abs(d.y as int, d.y as int, LIMIT as int, LIMIT as int);
            lemma_mul_abs(d.z as int, d.z as int, LIMIT as int, LIMIT as int);
            lemma_mul_abs(ox as int, d.x as int, l2, LIMIT as int);
            lemma_mul_abs(oy as int, d.y as int, l2, LIMIT as int);
            lemma_mul_abs(oz as int, d.z as int, l2, LIMIT as int);
            lemma_mul_abs(ox as int, ox as int, l2, l2);
            lemma_mul_abs(oy as int, oy as int, l2, l2);
            lemma_mul_abs(oz as int, oz as int, l2, l2);
            lemma_mul_abs(self.radius as int, self.radius as int, LIMIT as int, LIMIT as int);
        }
        let a: i128 = d.x as i128 * d.x as i128 + d.y as i128 * d.y as i128 + d.z as i128
            * d.z as i128;
        if a == 0 {
            return None;
        }
        let b: i128 = ox * d.x as i128 + oy * d.y as i128 + oz * d.z as i128;
        let rr: i128 = self.radius as i128 * self.radius as i128;
        let c: i128 = ox * ox + oy * oy + oz * oz - rr;
        let ghost lim2: int = LIMIT * LIMIT;
        proof {
            assert(d.x * d.x >= 0 && d.y * d.y >= 0 && d.z * d.z >= 0) by (nonlinear_arith);
            assert(ox * ox >= 0 && oy * oy >= 0 && oz * oz >= 0) by (nonlinear_arith);
            assert(0 <= a <= 3 * lim2);
            assert(-6 * lim2 <= b <= 6 * lim2);
            assert(self.radius * self.radius >= 0) by (nonlinear_arith);
            assert(-lim2 <= c <= 12 * lim2);
            lemma_mul_abs(b as int, b as int, 6 * lim2, 6 * lim2);
            lemma_mul_abs(a as int, c as int, 3 * lim2, 12 * lim2);
            assert(36 * lim2 * lim2 == (6 * lim2) * (6 * lim2)) by (nonlinear_arith);
            assert(36 * lim2 * lim2 == (3 * lim2) * (12 * lim2)) by (nonlinear_arith);
        }
        let disc: i128 = b * b - a * c;
        if disc < 0 {
            return None;
        }
        let sq = isqrt(disc as u128);
        proof {
            lemma_root(disc as nat);
            assert(sq <= 9 * lim2) by (nonlinear_arith)
                requires
                    sq * sq <= disc,
                    disc <= 72 * lim2 * lim2,
                    lim2 > 0,
                    sq >= 0,
            ;
        }
        let sq = sq as i128;
        let near: i128 = (-b - sq) * (SCALE as i128) / a;
        proof {
            lemma_tdiv_monotone((-b - sq) * SCALE, (-b + sq) * SCALE, a as int);
        }
        if (t_min as i128) < near && near < (t_max as i128) {
            return Some(record_at(self, r, near as i64));
        }
        let far: i128 = (-b + sq) * (SCALE as i128) / a;
        if (t_min as i128) < far && far < (t_max as i128) {
            return Some(record_at(self, r, far as i64));
        }
        None
    }
}

/// A surface that rays can hit.
#[derive(Clone, Copy, Debug, PartialEq, Eq, Structural)]
pub enum Hittable {
    Sphere(SphereData),
}

impl Hittable {
    pub open spec fn wf(self) -> bool {
        match self {
            Hittable::Sphere(s) => s.wf(),
        }
    }

    /// The first intersection strictly inside `(t_min, t_max)`.
    pub fn hit(&self, r: &Ray, t_min: i64, t_max: i64) -> (res: Option<HitRecord>)
        requires
            self.wf(),
            r.wf(),
        ensures
            res == object_hit(*self, *r, t_min as int, t_max as int),
            res.is_some() ==> res.unwrap().wf(),
    {
        match self {
            Hittable::Sphere(s) => s.hit(r, t_min, t_max),
        }
    }
}

pub open spec fn object_hit(o: Hittable, r: Ray, t_min: int, t_max: int) -> Option<HitRecord> {
    match o {
        Hittable::Sphere(s) => sphere_hit(s, r, t_min, t_max),
    }
}

/// The search over `objs` in order, each object searched up to the closest
/// hit found before it.
pub open spec fn list_hit(objs: Seq<Hittable>, r: Ray, t_min: int, t_max: int) -> Option<HitRecord>
    decreases objs.len(),
{
    if objs.len() == 0 {
        None
    } else {
        let prev = list_hit(objs.drop_last(), r, t_min, t_max);
        let bound = match prev {
            Some(h) => h.t as int,
            None => t_max,
        };
        match object_hit(objs.last(), r, t_min, bound) {
            Some(h) => Some(h),
            None => prev,
        }
    }
}

/// The scene: an ordered collection of objects.
pub struct HittableList {
    pub objects: Vec<Hittable>,
}

impl HittableList {
    pub open spec fn wf(self) -> bool {
        forall|i: int| 0 <= i < self.objects@.len() ==> (#[trigger] self.objects@[i]).wf()
    }

    pub fn new() -> (r: HittableList)
        ensures
            r.objects@ == Seq::<Hittable>::empty(),
            r.wf(),
    {
        HittableList { objects: Vec::new() }
    }

    pub fn clear(&mut self)
        ensures
            final(self).objects@ == Seq::<Hittable>::empty(),
            final(self).wf(),
    {
        self.objects.clear();
    }

    pub fn add(&mut self, object: Hittable)
        requires
            old(self).wf(),
            object.wf(),
        ensures
            final(self).objects@ == old(self).objects@.push(object),
            final(self).wf(),
    {
        self.objects.push(object);
    }

    /// The closest intersection with any object strictly inside `(t_min, t_max)`.
    pub fn hit(&self, r: &Ray, t_min: i64, t_max: i64) -> (res: Option<HitRecord>)
        requires
            self.wf(),
            r.wf(),
        ensures
            res == list_hit(self.objects@, *r, t_min as int, t_max as int),
            res.is_some() ==> res.unwrap().wf(),
    {
        let mut rec: Option<HitRecord> = None;
        let mut closest_so_far: i64 = t_max;
        let mut i: usize = 0;
        while i < self.objects.len()
            invariant
                self.wf(),
                r.wf(),
                i <= self.objects@.len(),
                rec == list_hit(self.objects@.subrange(0, i as int), *r, t_min as int, t_max as int),
                rec.is_some() ==> rec.unwrap().wf(),
                closest_so_far == (match rec {
                    Some(h) => h.t,
                    None => t_max,
                }),
            decreases self.objects@.len() - i,
        {
            let found = self.objects[i].hit(r, t_min, closest_so_far);
            proof {
                let s = self.objects@.subrange(0, i as int + 1);
                assert(s.drop_last() =~= self.objects@.subrange(0, i as int));
                assert(s.last() == self.objects@[i as int]);
            }
            match found {
                Some(h) => {
                    closest_so_far = h.t;
                    rec = Some(h);
                },
                None => {},
            }
            i = i + 1;
        }
        proof {
            assert(self.objects@.subrange(0, i as int) =~= self.objects@);
        }
        rec
    }
}

/// A hit found by a search over an interval lies strictly inside it.
pub proof fn lemma_object_hit_inside(o: Hittable, r: Ray, t_min: int, t_max: int)
    requires
        i64::MIN <= t_min,
        t_max <= i64::MAX,
    ensures
        object_hit(o, r, t_min, t_max).is_some() ==> t_min < object_hit(o, r, t_min, t_max).unwrap().t
            < t_max,
{
}

/// Searching an object up to a nearer bound finds the same hit where it lies
/// before that bound, and nothing otherwise.
pub proof fn lemma_object_hit_narrowed(o: Hittable, r: Ray, t_min: int, t_max: int, bound: int)
    requires
        i64::MIN <= t_min,
        bound <= t_max <= i64::MAX,
    ensures
        object_hit(o, r, t_min, bound) == (if object_hit(o, r, t_min, t_max).is_some()
            && object_hit(o, r, t_min, t_max).unwrap().t < bound {
            object_hit(o, r, t_min, t_max)
        } else {
            None
        }),
{
    match o {
        Hittable::Sphere(s) => {
            if s.radius != 0 && quad_a(r) != 0 && discriminant(s, r) >= 0 {
                let b = quad_b(s, r);
                let q = root(discriminant(s, r) as nat) as int;
                assert(quad_a(r) >= 0) by (nonlinear_arith)
                    requires
                        quad_a(r) == r.direction.x * r.direction.x + r.direction.y * r.direction.y
                            + r.direction.z * r.direction.z,
                ;
                assert((-b - q) * SCALE <= (-b + q) * SCALE) by (nonlinear_arith)
                    requires
                        q >= 0,
                ;
                lemma_tdiv_monotone((-b - q) * SCALE, (-b + q) * SCALE, quad_a(r));
            }
        },
    }
}

/// The search over a collection reports the nearest of the hits that its
/// members, each searched alone over the same interval, report; and nothing
/// exactly when none of them reports a hit.
#[verifier::spinoff_prover]
#[verifier::rlimit(50)]
pub proof fn lemma_list_hit_is_closest(objs: Seq<Hittable>, r: Ray, t_min: int, t_max: int)
    requires
        i64::MIN <= t_min,
        t_max <= i64::MAX,
    ensures
        list_hit(objs, r, t_min, t_max).is_none() <==> (forall|i: int|
            0 <= i < objs.len() ==> (#[trigger] object_hit(objs[i], r, t_min, t_max)).is_none()),
        list_hit(objs, r, t_min, t_max).is_some() ==> (exists|i: int|
            0 <= i < objs.len() && #[trigger] object_hit(objs[i], r, t_min, t_max) == list_hit(
                objs,
                r,
                t_min,
                t_max,
            )),
        list_hit(objs, r, t_min, t_max).is_some() ==> (forall|i: int|
            0 <= i < objs.len() && (#[trigger] object_hit(objs[i], r, t_min, t_max)).is_some()
                ==> list_hit(objs, r, t_min, t_max).unwrap().t <= object_hit(
                objs[i],
                r,
                t_min,
                t_max,
            ).unwrap().t),
        list_hit(objs, r, t_min, t_max).is_some() ==> t_min < list_hit(objs, r, t_min, t_max).unwrap().t
            < t_max,
    decreases objs.len(),
{
    if objs.len() > 0 {
        let pre = objs.drop_last();
        let n = objs.len() - 1;
        lemma_list_hit_is_closest(pre, r, t_min, t_max);
        let prev = list_hit(pre, r, t_min, t_max);
        let bound = match prev {
            Some(h) => h.t as int,
            None => t_max,
        };
        lemma_object_hit_narrowed(objs.last(), r, t_min, t_max, bound);
        lemma_object_hit_inside(objs.last(), r, t_min, t_max);
        assert(objs.last() == objs[n]);
        assert forall|i: int| 0 <= i < n implies objs[i] == pre[i] by {}
        let res = list_hit(objs, r, t_min, t_max);
        if res.is_some() {
            if object_hit(objs[n], r, t_min, bound).is_some() {
                assert(object_hit(objs[n], r, t_min, t_max) == res);
            } else {
                let i = choose|i: int|
                    0 <= i < pre.len() && #[trigger] object_hit(pre[i], r, t_min, t_max) == prev;
                assert(object_hit(objs[i], r, t_min, t_max) == res);
            }
        }
        if res.is_none() {
            assert forall|i: int| 0 <= i < objs.len() implies (#[trigger] object_hit(
                objs[i],
                r,
                t_min,
                t_max,
            )).is_none() by {
                if i < n {
                    assert(object_hit(pre[i], r, t_min, t_max).is_none());
                }
            }
        }
    }
}

/// An offset `o` that is `-dist` times the unit vector `d / sc`.
proof fn lemma_scaled_offset(ox: int, oy: int, oz: int, dx: int, dy: int, dz: int, dist: int, sc: int)
    requires
        ox * sc == -(dist * dx),
        oy * sc == -(dist * dy),
        oz * sc == -(dist * dz),
    ensures
        (ox * dx + oy * dy + oz * dz) * sc == -dist * (dx * dx + dy * dy + dz * dz),
        (ox * ox + oy * oy + oz * oz) * (sc * sc) == (dist * dist) * (dx * dx + dy * dy + dz * dz),
{
    lemma_swap(ox, dx, sc);
    lemma_swap(oy, dy, sc);
    lemma_swap(oz, dz, sc);
    lemma_distribute(ox * dx, oy * dy, oz * dz, sc);
    lemma_swap(dist, dx, dx);
    lemma_swap(dist, dy, dy);
    lemma_swap(dist, dz, dz);
    assert((dist * dx) * dx == dist * (dx * dx)) by (nonlinear_arith);
    assert((dist * dy) * dy == dist * (dy * dy)) by (nonlinear_arith);
    assert((dist * dz) * dz == dist * (dz * dz)) by (nonlinear_arith);
    lemma_distribute(dx * dx, dy * dy, dz * dz, -dist);
    assert(-(dist * dx) * dx == -((dist * dx) * dx)) by (nonlinear_arith);
    assert(-(dist * dy) * dy == -((dist * dy) * dy)) by (nonlinear_arith);
    assert(-(dist * dz) * dz == -((dist * dz) * dz)) by (nonlinear_arith);
    assert((dx * dx) * (-dist) == -(dist * (dx * dx))) by (nonlinear_arith);
    assert((dy * dy) * (-dist) == -(dist * (dy * dy))) by (nonlinear_arith);
    assert((dz * dz) * (-dist) == -(dist * (dz * dz))) by (nonlinear_arith);
    assert((ox * dx + oy * dy + oz * dz) * sc == -dist * (dx * dx + dy * dy + dz * dz));
    lemma_distribute(ox * ox, oy * oy, oz * oz, sc * sc);
    assert((ox * ox) * (sc * sc) == (ox * sc) * (ox * sc)) by (nonlinear_arith);
    assert((oy * oy) * (sc * sc) == (oy * sc) * (oy * sc)) by (nonlinear_arith);
    assert((oz * oz) * (sc * sc) == (oz * sc) * (oz * sc)) by (nonlinear_arith);
    assert((dist * dx) * (dist * dx) == (dist * dist) * (dx * dx)) by (nonlinear_arith);
    assert((dist * dy) * (dist * dy) == (dist * dist) * (dy * dy)) by (nonlinear_arith);
    assert((dist * dz) * (dist * dz) == (dist * dist) * (dz * dz)) by (nonlinear_arith);
    assert(-(dist * dx) * -(dist * dx) == (dist * dx) * (dist * dx)) by (nonlinear_arith);
    assert(-(dist * dy) * -(dist * dy) == (dist * dy) * (dist * dy)) by (nonlinear_arith);
    assert(-(dist * dz) * -(dist * dz) == (dist * dz) * (dist * dz)) by (nonlinear_arith);
    lemma_distribute(dx * dx, dy * dy, dz * dz, dist * dist);
}

proof fn lemma_swap(a: int, b: int, c: int)
    ensures
        (a * b) * c == (a * c) * b,
{
    assert((a * b) * c == (a * c) * b) by (nonlinear_arith);
}

proof fn lemma_distribute(a: int, b: int, c: int, k: int)
    ensures
        (a + b + c) * k == a * k + b * k + c * k,
        k * (a + b + c) == a * k + b * k + c * k,
{
    assert((a + b + c) * k == a * k + b * k + c * k) by (nonlinear_arith);
    assert(k * (a + b + c) == a * k + b * k + c * k) by (nonlinear_arith);
}

/// One coordinate of the head-on hit: origin `o`, centre `c`, direction `d`.
proof fn lemma_head_on_component(o: int, c: int, d: int, t: int, dist: int, rad: int)
    requires
        (c - o) * SCALE == dist * d,
        (t * d) % (SCALE as int) == 0,
        -SCALE <= d <= SCALE,
        0 < rad,
        t == dist - rad,
        0 < t,
        dist <= LIMIT,
        in_range(o),
        in_range(c),
    ensures
        tdiv(t * d, SCALE as int) * SCALE == t * d,
        in_range(tdiv(t * d, SCALE as int)),
        in_range(o + tdiv(t * d, SCALE as int)),
        in_range(o + tdiv(t * d, SCALE as int) - c),
        tdiv((o + tdiv(t * d, SCALE as int) - c) * SCALE, rad) == -d,
{
    let sc = SCALE as int;
    assert(t * d == (t * d / sc) * sc) by (nonlinear_arith)
        requires
            (t * d) % sc == 0,
            sc > 0,
    ;
    let k = t * d / sc;
    crate::vec3::lemma_tdiv_exact(k, sc);
    let e = c - o;
    assert(-LIMIT <= k <= LIMIT) by (nonlinear_arith)
        requires
            k * sc == t * d,
            0 < t <= LIMIT,
            -sc <= d <= sc,
            sc > 0,
    ;
    assert((e >= 0 ==> 0 <= k <= e) && (e < 0 ==> e <= k <= 0)) by (nonlinear_arith)
        requires
            k * sc == t * d,
            e * sc == dist * d,
            0 < t < dist,
            sc > 0,
    ;
    assert((k - e) * sc == (-d) * rad) by (nonlinear_arith)
        requires
            k * sc == t * d,
            e * sc == dist * d,
            t == dist - rad,
    ;
    assert(-rad <= k - e <= rad) by (nonlinear_arith)
        requires
            (k - e) * sc == (-d) * rad,
            -sc <= d <= sc,
            rad > 0,
            sc > 0,
    ;
    crate::vec3::lemma_tdiv_exact(-d, rad);
}

/// A ray from outside a sphere, aimed at its centre along a unit direction,
/// first meets it at the distance to the centre less the radius, where the
/// normal points out of the sphere against the ray. The hit point is taken
/// to fall on the grid of fixed-point values.
pub proof fn lemma_head_on_hit(s: SphereData, r: Ray, dist: int, t_min: int, t_max: int)
    requires
        s.wf(),
        r.wf(),
        r.direction.sum_sq() == SCALE * SCALE,
        0 < s.radius < dist <= LIMIT,
        (s.center.x - r.origin.x) * SCALE == dist * r.direction.x,
        (s.center.y - r.origin.y) * SCALE == dist * r.direction.y,
        (s.center.z - r.origin.z) * SCALE == dist * r.direction.z,
        ((dist - s.radius) * r.direction.x) % (SCALE as int) == 0,
        ((dist - s.radius) * r.direction.y) % (SCALE as int) == 0,
        ((dist - s.radius) * r.direction.z) % (SCALE as int) == 0,
        i64::MIN <= t_min < dist - s.radius < t_max <= i64::MAX,
    ensures
        sphere_hit(s, r, t_min, t_max) == Some(sphere_record(s, r, dist - s.radius)),
        sphere_record(s, r, dist - s.radius).t == dist - s.radius,
        sphere_record(s, r, dist - s.radius).front_face,
        sphere_record(s, r, dist - s.radius).normal == v_neg(r.direction),
{
    let d = r.direction;
    let rad = s.radius as int;
    let sc = SCALE as int;
    let ox = r.origin.x - s.center.x;
    let oy = r.origin.y - s.center.y;
    let oz = r.origin.z - s.center.z;
    // b = -dist * SCALE
    lemma_scaled_offset(ox, oy, oz, d.x as int, d.y as int, d.z as int, dist, sc);
    assert(quad_b(s, r) * sc == -dist * (sc * sc));
    assert(quad_b(s, r) == -dist * sc) by (nonlinear_arith)
        requires
            quad_b(s, r) * sc == -dist * (sc * sc),
            sc > 0,
    ;
    // c = dist^2 - radius^2
    assert(ox * ox + oy * oy + oz * oz == dist * dist) by (nonlinear_arith)
        requires
            (ox * ox + oy * oy + oz * oz) * (sc * sc) == (dist * dist) * (sc * sc),
            sc > 0,
    ;
    assert(quad_c(s, r) == dist * dist - rad * rad);
    assert(discriminant(s, r) == (sc * rad) * (sc * rad)) by (nonlinear_arith)
        requires
            discriminant(s, r) == quad_b(s, r) * quad_b(s, r) - quad_a(r) * quad_c(s, r),
            quad_b(s, r) == -dist * sc,
            quad_a(r) == sc * sc,
            quad_c(s, r) == dist * dist - rad * rad,
    ;
    let q = sc * rad;
    lemma_root((q * q) as nat);
    assert(is_root(q * q, q)) by (nonlinear_arith)
        requires
            q > 0,
            is_root(q * q, q) == (0 <= q && q * q <= q * q < (q + 1) * (q + 1)),
    ;
    lemma_root_unique(q * q, q, root((q * q) as nat) as int);
    assert((-quad_b(s, r) - q) * sc == (dist - rad) * (sc * sc)) by (nonlinear_arith)
        requires
            quad_b(s, r) == -dist * sc,
            q == sc * rad,
    ;
    assert(quad_a(r) > 0);
    crate::vec3::lemma_tdiv_exact(dist - rad, sc * sc);
    assert(near_root(s, r) == dist - rad);
    // the hit point and the outward normal
    let t = dist - rad;
    assert(-sc <= d.x <= sc && -sc <= d.y <= sc && -sc <= d.z <= sc) by (nonlinear_arith)
        requires
            d.x * d.x + d.y * d.y + d.z * d.z == sc * sc,
            sc > 0,
    ;
    lemma_head_on_component(r.origin.x as int, s.center.x as int, d.x as int, t, dist, rad);
    lemma_head_on_component(r.origin.y as int, s.center.y as int, d.y as int, t, dist, rad);
    lemma_head_on_component(r.origin.z as int, s.center.z as int, d.z as int, t, dist, rad);
    let rec = sphere_record(s, r, t);
    assert(rec.front_face) by (nonlinear_arith)
        requires
            rec.front_face == (d.x * (-d.x) + d.y * (-d.y) + d.z * (-d.z) < 0),
            d.x * d.x + d.y * d.y + d.z * d.z == sc * sc,
            sc > 0,
    ;
}

} // verus!
