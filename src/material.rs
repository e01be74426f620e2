//! Material scattering models: diffuse, metal and dielectric.
use vstd::prelude::*;
use rand::rngs::StdRng;
use crate::fixed::{
    div_fx, fx_div, fx_mul, fx_sqrt, is_root, lemma_fx_mul_one, lemma_root, lemma_root_unique,
    lemma_sqrt_one, lemma_tdiv_within, mul_fx, root, sat, sqrt_fx, LIMIT, SCALE,
};
use crate::hittable::HitRecord;
use crate::ray::Ray;
use crate::sampling::{in_unit_ball, random_unit_interval};
use crate::vec3::{
    cos_toward, dot_raw, lemma_tdiv_exact, lemma_unit_bounded, v_add, v_dot, v_neg, v_reflect, v_refract, v_scale, v_unit,
    zero, Color, Vec3,
};

verus! {

/// A diffuse surface.
#[derive(Clone, Copy, Debug, PartialEq, Eq, Structural)]
pub struct Lambertian {
    pub albedo: Color,
}

/// A specular surface, roughened by `fuzz`.
#[derive(Clone, Copy, Debug, PartialEq, Eq, Structural)]
pub struct Metal {
    pub albedo: Color,
    pub fuzz: i64,
}

/// A refractive surface such as glass.
#[derive(Clone, Copy, Debug, PartialEq, Eq, Structural)]
pub struct Dielectric {
    pub ref_idx: i64,
}

/// The material at a surface point.
#[derive(Clone, Copy, Debug, PartialEq, Eq, Structural)]
pub enum Material {
    Lambertian(Lambertian),
    Metal(Metal),
    Dielectric(Dielectric),
}

impl Material {
    pub open spec fn wf(self) -> bool {
        match self {
            Material::Lambertian(m) => m.albedo.wf(),
            Material::Metal(m) => m.albedo.wf() && m.fuzz <= SCALE,
            Material::Dielectric(m) => 0 < m.ref_idx <= LIMIT,
        }
    }
}

/// The random values that one scatter event may draw.
#[derive(Clone, Copy, Debug, PartialEq, Eq, Structural)]
pub struct Sample {
    /// A point of the unit ball.
    pub ball: Vec3,
    /// A unit vector.
    pub unit: Vec3,
    /// A value in `[0, 1)`.
    pub uniform: i64,
}

impl Sample {
    pub open spec fn valid(self) -> bool {
        in_unit_ball(self.ball) && self.unit.wf() && 0 <= self.uniform < SCALE
    }
}

pub open spec fn white() -> Color {
    Vec3 { x: SCALE as i64, y: SCALE as i64, z: SCALE as i64 }
}

/// Diffuse scattering: toward the normal offset by the random unit vector.
pub open spec fn lambertian_scatter(m: Lambertian, rec: HitRecord, unit: Vec3) -> (Color, Ray, bool) {
    (m.albedo, Ray { origin: rec.p, direction: v_add(rec.normal, unit) }, true)
}

/// Specular scattering: the mirror direction offset by `fuzz` times the random
/// point of the unit ball; absorbed unless it leaves the surface.
pub open spec fn metal_scatter(m: Metal, r_in: Ray, rec: HitRecord, ball: Vec3) -> (Color, Ray, bool) {
    let reflected = v_reflect(v_unit(r_in.direction), rec.normal);
    let direction = v_add(reflected, v_scale(ball, m.fuzz as int));
    (m.albedo, Ray { origin: rec.p, direction }, direction.dot_raw(rec.normal) > 0)
}

/// Schlick's approximation of the reflectance at a dielectric boundary.
pub open spec fn schlick_spec(cosine: int, ref_idx: int) -> int {
    let r0 = fx_div(SCALE - ref_idx, SCALE + ref_idx);
    let r0 = fx_mul(r0, r0);
    let k = SCALE - cosine;
    let k2 = fx_mul(k, k);
    let k5 = fx_mul(fx_mul(k2, k2), k);
    r0 + fx_mul(SCALE - r0, k5)
}

/// The ratio of refractive indices met by a ray: entering from outside, or
/// leaving from inside.
pub open spec fn eta_ratio(m: Dielectric, front_face: bool) -> int {
    if front_face {
        fx_div(SCALE as int, m.ref_idx as int)
    } else {
        m.ref_idx as int
    }
}

/// The direction a dielectric sends a ray on: reflected under total internal
/// reflection or when `uniform` falls below the reflectance, refracted
/// otherwise.
pub open spec fn dielectric_direction(m: Dielectric, r_in: Ray, rec: HitRecord, uniform: int) -> Vec3 {
    let eta = eta_ratio(m, rec.front_face);
    let unit_direction = v_unit(r_in.direction);
    let cos_theta = cos_toward(unit_direction, rec.normal);
    let sin_theta = fx_sqrt(SCALE - fx_mul(cos_theta, cos_theta));
    if fx_mul(eta, sin_theta) > SCALE || uniform < schlick_spec(cos_theta, eta) {
        v_reflect(unit_direction, rec.normal)
    } else {
        v_refract(unit_direction, rec.normal, eta)
    }
}

pub open spec fn dielectric_scatter(m: Dielectric, r_in: Ray, rec: HitRecord, uniform: int) -> (Color, Ray, bool) {
    (white(), Ray { origin: rec.p, direction: dielectric_direction(m, r_in, rec, uniform) }, true)
}

/// What a material does with a ray at a hit, given the random values drawn.
pub open spec fn scatter_spec(m: Material, r_in: Ray, rec: HitRecord, s: Sample) -> (Color, Ray, bool) {
    match m {
        Material::Lambertian(l) => lambertian_scatter(l, rec, s.unit),
        Material::Metal(l) => metal_scatter(l, r_in, rec, s.ball),
        Material::Dielectric(l) => dielectric_scatter(l, r_in, rec, s.uniform as int),
    }
}

/// Schlick's approximation of the reflectance at a dielectric boundary.
pub fn schlick(cosine: i64, ref_idx: i64) -> (r: i64)
    requires
        -LIMIT * LIMIT <= cosine <= SCALE,
        0 <= ref_idx <= LIMIT,
    ensures
        r == schlick_spec(cosine as int, ref_idx as int),
{
    let r0 = div_fx(SCALE - ref_idx, SCALE + ref_idx);
    let r0 = mul_fx(r0, r0);
    let k = SCALE - cosine;
    let k2 = mul_fx(k, k);
    let k5 = mul_fx(mul_fx(k2, k2), k);
    r0 + mul_fx(SCALE - r0, k5)
}

impl Lambertian {
    pub fn new(albedo: Color) -> (r: Lambertian)
        ensures
            r.albedo == albedo,
    {
        Lambertian { albedo }
    }

    /// Diffuse scattering with the given random unit vector.
    pub fn scatter_with(&self, _r_in: &Ray, rec: &HitRecord, unit: Vec3) -> (r: (Color, Ray, bool))
        requires
            rec.wf(),
            unit.wf(),
        ensures
            r == lambertian_scatter(*self, *rec, unit),
            r.1.wf(),
    {
        (self.albedo, Ray::new(rec.p(), rec.normal().add(unit)), true)
    }

    /// Diffuse scattering toward a random direction.
    pub fn scatter(&self, r_in: &Ray, rec: &HitRecord, rng: &mut StdRng) -> (r: (Color, Ray, bool))
        requires
            rec.wf(),
        ensures
            exists|unit: Vec3| unit.wf() && r == lambertian_scatter(*self, *rec, unit),
    {
        let unit = Vec3::random_unit_vector(rng);
        self.scatter_with(r_in, rec, unit)
    }
}

impl Metal {
    /// A metal whose fuzz is at most one.
    pub fn new(albedo: Color, fuzz: i64) -> (r: Metal)
        ensures
            r.albedo == albedo,
            r.fuzz == (if fuzz < SCALE {
                fuzz
            } else {
                SCALE
            }),
    {
        let fuzz = if fuzz < SCALE {
            fuzz
        } else {
            SCALE
        };
        Metal { albedo, fuzz }
    }

    /// Specular scattering with the given random point of the unit ball.
    pub fn scatter_with(&self, r_in: &Ray, rec: &HitRecord, ball: Vec3) -> (r: (Color, Ray, bool))
        requires
            r_in.wf(),
            rec.wf(),
            ball.wf(),
        ensures
            r == metal_scatter(*self, *r_in, *rec, ball),
            r.1.wf(),
    {
        let reflected = r_in.direction().unitize().reflect(rec.normal());
        let scattered = Ray::new(rec.p(), reflected.add(ball.scale(self.fuzz)));
        let attenuation = self.albedo;
        (attenuation, scattered, dot_raw(scattered.direction(), rec.normal()) > 0)
    }

    /// Specular scattering, roughened by a random point of the unit ball.
    pub fn scatter(&self, r_in: &Ray, rec: &HitRecord, rng: &mut StdRng) -> (r: (Color, Ray, bool))
        requires
            r_in.wf(),
            rec.wf(),
        ensures
            exists|ball: Vec3| in_unit_ball(ball) && r == metal_scatter(*self, *r_in, *rec, ball),
    {
        let ball = Vec3::random_in_unit_sphere(rng);
        self.scatter_with(r_in, rec, ball)
    }
}

impl Dielectric {
    pub fn new(ref_idx: i64) -> (r: Dielectric)
        requires
            0 < ref_idx <= LIMIT,
        ensures
            r.ref_idx == ref_idx,
    {
        Dielectric { ref_idx }
    }

    /// Reflection or refraction, chosen by `uniform` in `[0, 1)`.
    pub fn scatter_with(&self, r_in: &Ray, rec: &HitRecord, uniform: i64) -> (r: (Color, Ray, bool))
        requires
            0 < self.ref_idx <= LIMIT,
            r_in.wf(),
            rec.wf(),
        ensures
            r == dielectric_scatter(*self, *r_in, *rec, uniform as int),
            r.0.wf(),
            r.1.wf(),
    {
        let attenuation = Vec3 { x: SCALE, y: SCALE, z: SCALE };
        let etai_over_etat = if rec.front() {
            div_fx(SCALE, self.ref_idx)
        } else {
            self.ref_idx
        };
        let unit_direction = r_in.direction().unitize();
        proof {
            if rec.front_face {
                assert((SCALE * SCALE) as int / (self.ref_idx as int) >= 0) by (nonlinear_arith)
                    requires
                        self.ref_idx > 0,
                ;
            }
        }
        let val = -unit_direction.dot(rec.normal());
        let cos_theta = if val < SCALE {
            val
        } else {
            SCALE
        };
        let sin_theta = sqrt_fx(SCALE - mul_fx(cos_theta, cos_theta));
        let direction = if mul_fx(etai_over_etat, sin_theta) > SCALE {
            unit_direction.reflect(rec.normal())
        } else if uniform < schlick(cos_theta, etai_over_etat) {
            unit_direction.reflect(rec.normal())
        } else {
            unit_direction.refract(rec.normal(), etai_over_etat)
        };
        (attenuation, Ray::new(rec.p(), direction), true)
    }

    /// Reflection or refraction, chosen at random by the reflectance.
    pub fn scatter(&self, r_in: &Ray, rec: &HitRecord, rng: &mut StdRng) -> (r: (Color, Ray, bool))
        requires
            0 < self.ref_idx <= LIMIT,
            r_in.wf(),
            rec.wf(),
        ensures
            exists|u: int| 0 <= u < SCALE && r == dielectric_scatter(*self, *r_in, *rec, u),
    {
        let u = random_unit_interval(rng);
        self.scatter_with(r_in, rec, u)
    }
}

impl Material {
    /// What the material does with a ray at a hit, given the random values drawn.
    pub fn scatter_with(&self, r_in: &Ray, rec: &HitRecord, s: &Sample) -> (r: (Color, Ray, bool))
        requires
            self.wf(),
            r_in.wf(),
            rec.wf(),
            s.valid(),
        ensures
            r == scatter_spec(*self, *r_in, *rec, *s),
            r.0.wf(),
            r.1.wf(),
    {
        match self {
            Material::Lambertian(m) => m.scatter_with(r_in, rec, s.unit),
            Material::Metal(m) => m.scatter_with(r_in, rec, s.ball),
            Material::Dielectric(m) => m.scatter_with(r_in, rec, s.uniform),
        }
    }

    /// The attenuation and the scattered ray, or `false` where the ray is absorbed.
    pub fn scatter(&self, r_in: &Ray, rec: &HitRecord, rng: &mut StdRng) -> (r: (Color, Ray, bool))
        requires
            self.wf(),
            r_in.wf(),
            rec.wf(),
        ensures
            exists|s: Sample| s.valid() && r == scatter_spec(*self, *r_in, *rec, s),
            r.0.wf(),
            r.1.wf(),
    {
        let zero = Vec3 { x: 0, y: 0, z: 0 };
        match self {
            Material::Lambertian(m) => {
                let unit = Vec3::random_unit_vector(rng);
                let r = m.scatter_with(r_in, rec, unit);
                proof {
                    let s = Sample { ball: zero, unit, uniform: 0 };
                    assert(s.valid() && r == scatter_spec(*self, *r_in, *rec, s));
                }
                r
            },
            Material::Metal(m) => {
                let ball = Vec3::random_in_unit_sphere(rng);
                let r = m.scatter_with(r_in, rec, ball);
                proof {
                    let s = Sample { ball, unit: zero, uniform: 0 };
                    assert(s.valid() && r == scatter_spec(*self, *r_in, *rec, s));
                }
                r
            },
            Material::Dielectric(m) => {
                let u = random_unit_interval(rng);
                let r = m.scatter_with(r_in, rec, u);
                proof {
                    let s = Sample { ball: zero, unit: zero, uniform: u };
                    assert(s.valid() && r == scatter_spec(*self, *r_in, *rec, s));
                }
                r
            },
        }
    }
}

/// A dielectric of refractive index one lets a ray that meets it head-on
/// pass straight through, whatever value is drawn.
pub proof fn lemma_index_one_passes_straight(m: Dielectric, r_in: Ray, rec: HitRecord, uniform: int)
    requires
        m.ref_idx == SCALE,
        v_unit(r_in.direction).sum_sq() == SCALE * SCALE,
        rec.normal == v_neg(v_unit(r_in.direction)),
        0 <= uniform < SCALE,
    ensures
        dielectric_direction(m, r_in, rec, uniform) == v_unit(r_in.direction),
{
    let u = v_unit(r_in.direction);
    let n = rec.normal;
    let sc = SCALE as int;
    assert(u.wf());
    lemma_fx_mul_one(sc);
    assert(fx_div(sc, sc) == sc) by {
        lemma_tdiv_exact(sc, sc);
        assert(sc * SCALE == sc * sc);
    }
    let eta = eta_ratio(m, rec.front_face);
    assert(eta == sc);
    assert(u.dot_raw(n) == -(sc * sc)) by (nonlinear_arith)
        requires
            n.x == -u.x,
            n.y == -u.y,
            n.z == -u.z,
            u.x * u.x + u.y * u.y + u.z * u.z == sc * sc,
            u.dot_raw(n) == u.x * n.x + u.y * n.y + u.z * n.z,
    ;
    lemma_tdiv_exact(-sc, sc);
    assert(v_dot(u, n) == -sc);
    assert(cos_toward(u, n) == sc);
    assert(fx_mul(sc, sc) == sc);
    assert(fx_sqrt(0) == 0);
    assert(fx_mul(eta, 0) == 0);
    lemma_tdiv_exact(0, 2 * sc);
    assert(fx_div(0, 2 * sc) == 0);
    assert(fx_mul(0, 0) == 0);
    assert(schlick_spec(sc, sc) == 0);
    lemma_sqrt_one();
    lemma_fx_mul_one(u.x as int);
    lemma_fx_mul_one(u.y as int);
    lemma_fx_mul_one(u.z as int);
    lemma_fx_mul_one(n.x as int);
    lemma_fx_mul_one(n.y as int);
    lemma_fx_mul_one(n.z as int);
    lemma_fx_mul_one(0);
    assert(v_scale(n, sc) == n);
    assert(v_add(u, n) == zero());
    assert(v_scale(zero(), sc) == zero());
    assert(v_refract(u, n, sc) == u);
}

/// A dielectric of refractive index one does not bend the rays it lets
/// through: when the draw is not below the reflectance, and the squared cosine
/// of incidence falls on the fixed-point grid, the scattered direction is the
/// incoming unit direction.
pub proof fn lemma_index_one_refracts_straight(m: Dielectric, r_in: Ray, rec: HitRecord, uniform: int)
    requires
        m.ref_idx == SCALE,
        -SCALE <= rec.normal.x <= SCALE,
        -SCALE <= rec.normal.y <= SCALE,
        -SCALE <= rec.normal.z <= SCALE,
        0 <= cos_toward(v_unit(r_in.direction), rec.normal),
        (cos_toward(v_unit(r_in.direction), rec.normal) * cos_toward(
            v_unit(r_in.direction),
            rec.normal,
        )) % (SCALE as int) == 0,
        uniform >= schlick_spec(cos_toward(v_unit(r_in.direction), rec.normal), SCALE as int),
    ensures
        dielectric_direction(m, r_in, rec, uniform) == v_unit(r_in.direction),
{
    let u = v_unit(r_in.direction);
    let n = rec.normal;
    let sc = SCALE as int;
    let c = cos_toward(u, n);
    lemma_unit_bounded(r_in.direction);
    lemma_fx_mul_one(sc);
    assert(fx_div(sc, sc) == sc) by {
        lemma_tdiv_exact(sc, sc);
    }
    assert(eta_ratio(m, rec.front_face) == sc);
    // the squared cosine
    let q = c * c / sc;
    assert(c * c == q * sc) by (nonlinear_arith)
        requires
            (c * c) % sc == 0,
            q == c * c / sc,
            sc > 0,
    ;
    lemma_tdiv_exact(q, sc);
    assert(0 <= q <= sc) by (nonlinear_arith)
        requires
            c * c == q * sc,
            0 <= c <= sc,
            sc > 0,
    ;
    assert(fx_mul(c, c) == q);
    // no total internal reflection
    let x = sc - q;
    if x > 0 {
        lemma_root((x * sc) as nat);
        let l = root((x * sc) as nat) as int;
        assert(l <= sc) by (nonlinear_arith)
            requires
                l * l <= x * sc,
                0 < x <= sc,
                l >= 0,
        ;
    }
    let sin_theta = fx_sqrt(sc - q);
    assert(0 <= sin_theta <= sc);
    lemma_fx_mul_one(sin_theta);
    assert(!(fx_mul(sc, sin_theta) > sc));
    // the refracted direction
    lemma_fx_mul_one(x);
    assert(sc - fx_mul(fx_mul(sc, sc), sc - fx_mul(c, c)) == q);
    if q > 0 {
        lemma_root((q * sc) as nat);
        assert(is_root(q * sc, c)) by (nonlinear_arith)
            requires
                c * c == q * sc,
                c >= 0,
        ;
        lemma_root_unique(q * sc, c, root((q * sc) as nat) as int);
    } else {
        assert(c == 0) by (nonlinear_arith)
            requires
                c * c == q * sc,
                q <= 0,
                c >= 0,
                sc > 0,
        ;
    }
    assert(fx_sqrt(q) == c);
    lemma_component_round_trip(u.x as int, n.x as int, c);
    lemma_component_round_trip(u.y as int, n.y as int, c);
    lemma_component_round_trip(u.z as int, n.z as int, c);
    let mn = v_scale(n, c);
    let sum = v_add(u, mn);
    lemma_fx_mul_one(sum.x as int);
    lemma_fx_mul_one(sum.y as int);
    lemma_fx_mul_one(sum.z as int);
    assert(v_scale(sum, sc) == sum);
    assert(v_refract(u, n, sc) == u);
}

/// Adding `c n` to a coordinate of a unit vector and taking it away again
/// leaves the coordinate unchanged.
proof fn lemma_component_round_trip(u: int, n: int, c: int)
    requires
        -SCALE <= u <= SCALE,
        -SCALE <= n <= SCALE,
        0 <= c <= SCALE,
    ensures
        -SCALE <= fx_mul(c, n) <= SCALE,
        sat(u + fx_mul(c, n)) == u + fx_mul(c, n),
        sat(u + fx_mul(c, n) - fx_mul(c, n)) == u,
{
    let sc = SCALE as int;
    assert(-(sc * sc) <= c * n <= sc * sc) by (nonlinear_arith)
        requires
            -sc <= n <= sc,
            0 <= c <= sc,
    ;
    lemma_tdiv_within(c * n, sc, sc);
}

} // verus!
