use raytracer::fixed::SCALE;
use raytracer::hittable::{HitRecord, Hittable, HittableList, SphereData};
use raytracer::material::{Dielectric, Lambertian, Material, Metal, Sample};
use raytracer::ray::Ray;
use raytracer::vec3::Vec3;

fn v(x: i64, y: i64, z: i64) -> Vec3 {
    Vec3::new((x, y, z))
}

fn grey() -> Material {
    Material::Lambertian(Lambertian::new(v(500_000, 500_000, 500_000)))
}

fn sphere(z: i64, radius: i64) -> SphereData {
    SphereData::new(v(0, 0, z), radius, grey())
}

fn down_z() -> Ray {
    Ray::new(v(0, 0, 0), v(0, 0, -SCALE))
}

#[test]
fn head_on_hit_at_distance_less_radius() {
    let s = sphere(-3 * SCALE, SCALE / 2);
    let h = s.hit(&down_z(), 1000, i64::MAX).unwrap();
    assert_eq!(h.t(), 2_500_000);
    assert_eq!(h.p(), v(0, 0, -2_500_000));
    assert_eq!(h.normal(), v(0, 0, SCALE));
    assert!(h.front());
    assert_eq!(h.mat_ptr(), grey());
}

#[test]
fn hit_from_inside_takes_far_root_with_inward_normal() {
    let s = sphere(0, SCALE);
    let h = s.hit(&down_z(), 1000, i64::MAX).unwrap();
    assert_eq!(h.t(), SCALE);
    assert_eq!(h.p(), v(0, 0, -SCALE));
    assert!(!h.front());
    assert_eq!(h.normal(), v(0, 0, SCALE));
}

#[test]
fn hits_outside_interval_are_discarded() {
    let s = sphere(-3 * SCALE, SCALE / 2);
    assert!(s.hit(&down_z(), 1000, 2_500_000).is_none());
    assert_eq!(s.hit(&down_z(), 2_500_000, i64::MAX).unwrap().t(), 3_500_000);
    assert!(s.hit(&Ray::new(v(0, 0, 0), v(0, SCALE, 0)), 1000, i64::MAX).is_none());
}

#[test]
fn degenerate_sphere_and_ray_meet_nothing() {
    assert!(sphere(-3 * SCALE, 0).hit(&down_z(), 1000, i64::MAX).is_none());
    let still = Ray::new(v(0, 0, 0), v(0, 0, 0));
    assert!(sphere(-3 * SCALE, SCALE).hit(&still, 1000, i64::MAX).is_none());
}

#[test]
fn collection_returns_closest_member_hit() {
    let near = Hittable::Sphere(sphere(-SCALE, SCALE / 2));
    let far = Hittable::Sphere(sphere(-3 * SCALE, SCALE / 2));
    let r = down_z();
    let near_hit = near.hit(&r, 1000, i64::MAX);
    let far_hit = far.hit(&r, 1000, i64::MAX);
    assert_eq!(near_hit.unwrap().t, 500_000);
    assert_eq!(far_hit.unwrap().t, 2_500_000);
    let mut world = HittableList::new();
    world.add(far);
    world.add(near);
    assert_eq!(world.hit(&r, 1000, i64::MAX), near_hit);
    let mut other = HittableList::new();
    other.add(near);
    other.add(far);
    assert_eq!(other.hit(&r, 1000, i64::MAX), near_hit);
    assert_eq!(world.hit(&r, 600_000, i64::MAX).unwrap().t, 1_500_000);
    assert_eq!(world.hit(&r, 1000, 400_000), None);
}

#[test]
fn empty_or_cleared_collection_hits_nothing() {
    let mut world = HittableList::new();
    assert!(world.hit(&down_z(), 1000, i64::MAX).is_none());
    world.add(Hittable::Sphere(sphere(-SCALE, SCALE / 2)));
    assert!(world.hit(&down_z(), 1000, i64::MAX).is_some());
    world.clear();
    assert!(world.hit(&down_z(), 1000, i64::MAX).is_none());
}

#[test]
fn face_normal_faces_against_ray() {
    let mut rec = HitRecord::new(grey());
    rec.set_face_normal(&down_z(), v(0, 0, -SCALE));
    assert!(!rec.front());
    assert_eq!(rec.normal(), v(0, 0, SCALE));
    rec.set_face_normal(&down_z(), v(0, 0, SCALE));
    assert!(rec.front());
    assert_eq!(rec.normal(), v(0, 0, SCALE));
    rec.set_t(5);
    rec.set_p(v(1, 2, 3));
    rec.set_mat_ptr(Material::Dielectric(Dielectric::new(SCALE)));
    assert_eq!(rec.t(), 5);
    assert_eq!(rec.p(), v(1, 2, 3));
    assert_eq!(rec.mat_ptr(), Material::Dielectric(Dielectric::new(SCALE)));
}

fn record_at_top() -> HitRecord {
    let mut rec = HitRecord::new(grey());
    rec.set_p(v(0, 0, -SCALE / 2));
    rec.set_face_normal(&down_z(), v(0, 0, SCALE));
    rec
}

#[test]
fn lambertian_scatters_around_normal() {
    let m = Lambertian::new(v(100_000, 200_000, 300_000));
    let (att, ray, ok) = m.scatter_with(&down_z(), &record_at_top(), v(SCALE, 0, 0));
    assert!(ok);
    assert_eq!(att, v(100_000, 200_000, 300_000));
    assert_eq!(ray.origin(), v(0, 0, -SCALE / 2));
    assert_eq!(ray.direction(), v(SCALE, 0, SCALE));
}

#[test]
fn metal_reflects_and_absorbs_into_surface() {
    let m = Metal::new(v(SCALE, SCALE, SCALE), 0);
    let (att, ray, ok) = m.scatter_with(&down_z(), &record_at_top(), v(0, 0, 0));
    assert!(ok);
    assert_eq!(att, v(SCALE, SCALE, SCALE));
    assert_eq!(ray.direction(), v(0, 0, SCALE));
    let rough = Metal::new(v(SCALE, SCALE, SCALE), 3 * SCALE);
    assert_eq!(rough.fuzz, SCALE);
    let (_, ray, ok) = rough.scatter_with(&down_z(), &record_at_top(), v(0, 0, -999_000));
    assert!(ok);
    assert_eq!(ray.direction(), v(0, 0, 1_000));
    let (_, ray, ok) = rough.scatter_with(&down_z(), &record_at_top(), v(0, 0, -2 * SCALE));
    assert!(!ok);
    assert_eq!(ray.direction(), v(0, 0, -SCALE));
}

#[test]
fn dielectric_of_index_one_passes_straight() {
    let m = Dielectric::new(SCALE);
    for u in [0, 500_000, SCALE - 1] {
        let (att, ray, ok) = m.scatter_with(&down_z(), &record_at_top(), u);
        assert!(ok);
        assert_eq!(att, v(SCALE, SCALE, SCALE));
        assert_eq!(ray.direction(), v(0, 0, -SCALE));
    }
    let slanted = Ray::new(v(0, 0, 0), v(SCALE, 0, -SCALE));
    let (_, ray, _) = m.scatter_with(&slanted, &record_at_top(), 500_000);
    let unit = slanted.direction().unitize();
    assert!((ray.direction().x - unit.x).abs() <= 10);
    assert!((ray.direction().z - unit.z).abs() <= 10);
}

#[test]
fn dielectric_reflects_under_total_internal_reflection() {
    let m = Dielectric::new(1_500_000);
    let mut rec = HitRecord::new(Material::Dielectric(m));
    let inside = Ray::new(v(0, 0, 0), v(SCALE, 0, -100_000));
    rec.set_face_normal(&inside, v(0, 0, -SCALE));
    assert!(!rec.front());
    let (_, ray, ok) = m.scatter_with(&inside, &rec, SCALE - 1);
    assert!(ok);
    let unit = inside.direction().unitize();
    assert_eq!(ray.direction(), unit.reflect(rec.normal()));
}

#[test]
fn dielectric_reflects_when_draw_below_reflectance() {
    let m = Dielectric::new(1_500_000);
    let slanted = Ray::new(v(0, 0, 0), v(SCALE, 0, -100_000));
    let rec = record_at_top();
    let unit = slanted.direction().unitize();
    let (_, reflected, _) = m.scatter_with(&slanted, &rec, 0);
    assert_eq!(reflected.direction(), unit.reflect(rec.normal()));
    let (_, refracted, _) = m.scatter_with(&slanted, &rec, SCALE - 1);
    assert_ne!(refracted.direction(), unit.reflect(rec.normal()));
    assert!(refracted.direction().z < 0);
}

#[test]
fn material_dispatch_uses_matching_sample() {
    let s = Sample { ball: v(0, 0, 0), unit: v(SCALE, 0, 0), uniform: 0 };
    let m = grey();
    let (att, ray, ok) = m.scatter_with(&down_z(), &record_at_top(), &s);
    assert!(ok);
    assert_eq!(att, v(500_000, 500_000, 500_000));
    assert_eq!(ray.direction(), v(SCALE, 0, SCALE));
}

#[test]
fn ray_at_parameter() {
    let r = Ray::new(v(SCALE, 0, 0), v(0, 2 * SCALE, 0));
    assert_eq!(r.at(1_500_000), v(SCALE, 3 * SCALE, 0));
}

#[test]
fn dielectric_of_index_one_may_reflect_oblique_rays() {
    let m = Dielectric::new(SCALE);
    let slanted = Ray::new(v(0, 0, 0), v(SCALE, 0, -SCALE));
    let rec = record_at_top();
    let unit = slanted.direction().unitize();
    let (_, ray, ok) = m.scatter_with(&slanted, &rec, 0);
    assert!(ok);
    assert_eq!(ray.direction(), unit.reflect(rec.normal()));
    assert_eq!(ray.direction(), v(unit.x, 0, -unit.z));
}

#[test]
fn dielectric_of_index_one_refracts_oblique_ray_straight() {
    let m = Dielectric::new(SCALE);
    let slanted = Ray::new(v(0, 0, 0), v(800_000, 0, -600_000));
    let (_, ray, ok) = m.scatter_with(&slanted, &record_at_top(), 500_000);
    assert!(ok);
    assert_eq!(ray.direction(), v(800_000, 0, -600_000));
    assert_eq!(raytracer::material::schlick(600_000, SCALE), 10_240);
}
