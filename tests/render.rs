use rand::rngs::StdRng;
use rand::SeedableRng;
use raytracer::camera::Camera;
use raytracer::fixed::SCALE;
use raytracer::hittable::{Hittable, HittableList, SphereData};
use raytracer::material::{Dielectric, Lambertian, Material, Metal, Sample};
use raytracer::ray::Ray;
use raytracer::render::{background_color, ray_color, ray_color_with};
use raytracer::sampling::random_unit_interval;
use raytracer::screen::Screen;
use raytracer::vec3::Vec3;

fn v(x: i64, y: i64, z: i64) -> Vec3 {
    Vec3::new((x, y, z))
}

fn grey() -> Material {
    Material::Lambertian(Lambertian::new(v(500_000, 500_000, 500_000)))
}

/// One sphere of radius one half at `(0, 0, -1)`.
fn one_sphere() -> HittableList {
    let mut world = HittableList::new();
    world.add(Hittable::Sphere(SphereData::new(v(0, 0, -SCALE), SCALE / 2, grey())));
    world
}

fn mixed_scene() -> HittableList {
    let mut world = one_sphere();
    world.add(Hittable::Sphere(SphereData::new(
        v(0, -100_500_000, -SCALE),
        100 * SCALE,
        Material::Lambertian(Lambertian::new(v(800_000, 800_000, 0))),
    )));
    world.add(Hittable::Sphere(SphereData::new(
        v(SCALE, 0, -SCALE),
        SCALE / 2,
        Material::Metal(Metal::new(v(800_000, 600_000, 200_000), 300_000)),
    )));
    world.add(Hittable::Sphere(SphereData::new(
        v(-SCALE, 0, -SCALE),
        SCALE / 2,
        Material::Dielectric(Dielectric::new(1_500_000)),
    )));
    world
}

fn camera() -> Camera {
    Camera::new(v(0, 0, 0), v(0, 0, -SCALE), v(0, SCALE, 0), 2 * SCALE, SCALE)
}

#[test]
fn background_gradient_exact_values() {
    let up = Ray::new(v(0, 0, 0), v(0, 3 * SCALE, 0));
    assert_eq!(background_color(&up), v(500_000, 700_000, SCALE));
    let down = Ray::new(v(0, 0, 0), v(0, -SCALE, 0));
    assert_eq!(background_color(&down), v(SCALE, SCALE, SCALE));
    let level = Ray::new(v(0, 0, 0), v(0, 0, 2 * SCALE));
    assert_eq!(background_color(&level), v(750_000, 850_000, SCALE));
}

#[test]
fn missing_ray_takes_background_in_any_scene() {
    let up = Ray::new(v(0, 0, 0), v(0, SCALE, 0));
    let mut rng = StdRng::seed_from_u64(1);
    for world in [HittableList::new(), one_sphere()] {
        for depth in [1, 5, 50] {
            assert_eq!(ray_color(&up, &world, depth, &mut rng), background_color(&up));
        }
    }
    let mut rng = StdRng::seed_from_u64(2);
    let sideways = Ray::new(v(0, 0, 0), v(SCALE, 0, 3 * SCALE));
    assert_eq!(ray_color(&sideways, &mixed_scene(), 10, &mut rng), background_color(&sideways));
}

#[test]
fn exhausted_depth_gives_black() {
    let mut rng = StdRng::seed_from_u64(3);
    let up = Ray::new(v(0, 0, 0), v(0, SCALE, 0));
    assert_eq!(ray_color(&up, &one_sphere(), 0, &mut rng), v(0, 0, 0));
    assert_eq!(ray_color(&up, &one_sphere(), -4, &mut rng), v(0, 0, 0));
}

#[test]
fn one_diffuse_bounce_attenuates_background() {
    let head_on = Ray::new(v(0, 0, 0), v(0, 0, -SCALE));
    let samples = vec![Sample { ball: v(0, 0, 0), unit: v(0, 0, SCALE), uniform: 0 }];
    let c = ray_color_with(&head_on, &one_sphere(), 2, &vec![samples[0], samples[0]]);
    assert_eq!(c, v(375_000, 425_000, 500_000));
    assert_eq!(ray_color_with(&head_on, &one_sphere(), 1, &samples), v(0, 0, 0));
}

#[test]
fn two_by_two_scene_is_non_negative_and_misses_are_brighter() {
    let world = one_sphere();
    let cam = camera();
    let mut rng = StdRng::seed_from_u64(4);
    let mut screen = Screen::empty_screen(2, 2);
    for j in 0..2 {
        for i in 0..2 {
            let c = cam.sample_pixel(&world, i, j, 2, 2, 1, 1, &mut rng);
            assert!(c.x >= 0 && c.y >= 0 && c.z >= 0);
            screen.color_pixel(i as usize, j as usize, c, 1);
        }
    }
    let lines = screen.ppm_lines();
    assert_eq!(lines.len(), 7);
    assert_eq!(lines[0], "P3");
    assert_eq!(lines[1], "2 2");
    assert_eq!(lines[2], "255");
    let hit = ray_color(&cam.get_ray(SCALE / 2, SCALE / 2), &world, 1, &mut rng);
    let miss_ray = cam.get_ray(3 * SCALE / 2, 3 * SCALE / 2);
    let miss = ray_color(&miss_ray, &world, 1, &mut rng);
    assert_eq!(hit, v(0, 0, 0));
    assert_eq!(miss, background_color(&miss_ray));
    assert!(miss.x > hit.x && miss.y > hit.y && miss.z > hit.z);
}

#[test]
fn colors_stay_non_negative_in_mixed_scene() {
    let world = mixed_scene();
    let cam = camera();
    let mut rng = StdRng::seed_from_u64(5);
    for j in 0..4 {
        for i in 0..4 {
            let c = cam.sample_pixel(&world, i, j, 4, 4, 8, 10, &mut rng);
            assert!(c.x >= 0 && c.y >= 0 && c.z >= 0);
        }
    }
}

fn spread(samples: i32, seeds: u64) -> f64 {
    let world = one_sphere();
    let cam = camera();
    let mut values = Vec::new();
    for seed in 0..seeds {
        let mut rng = StdRng::seed_from_u64(seed);
        let c = cam.sample_pixel(&world, 0, 0, 2, 2, samples, 2, &mut rng);
        values.push(c.y as f64 / samples as f64);
    }
    let mean = values.iter().sum::<f64>() / values.len() as f64;
    let var = values.iter().map(|x| (x - mean) * (x - mean)).sum::<f64>() / values.len() as f64;
    var.sqrt()
}

#[test]
fn more_samples_reduce_spread_of_pixel_average() {
    let few = spread(4, 40);
    let many = spread(64, 40);
    assert!(few > 0.0);
    assert!(many < few / 2.0);
}

#[test]
fn camera_rays_through_viewport() {
    let cam = camera();
    assert_eq!(cam.lower_left_corner, v(-SCALE, -SCALE, -SCALE));
    assert_eq!(cam.horizontal, v(2 * SCALE, 0, 0));
    assert_eq!(cam.vertical, v(0, 2 * SCALE, 0));
    let r = cam.get_ray(SCALE / 2, SCALE / 2);
    assert_eq!(r.origin(), v(0, 0, 0));
    assert_eq!(r.direction(), v(0, 0, -SCALE));
    assert_eq!(cam.get_ray(0, SCALE).direction(), v(-SCALE, SCALE, -SCALE));
}

#[test]
fn pixel_average_is_gamma_corrected() {
    let mut screen = Screen::empty_screen(2, 1);
    screen.color_pixel(1, 0, v(500_000, 2 * SCALE, 0), 2);
    assert_eq!(screen.color_array[1], v(500_000, SCALE, 0));
    assert_eq!(screen.color_array[0], v(0, 0, 0));
}

#[test]
fn ppm_lines_list_rows_from_top() {
    let screen = Screen::new(
        vec![v(SCALE, 0, 0), v(0, SCALE, 0), v(0, 0, SCALE), v(500_000, 500_000, 500_000)],
        2,
        2,
    );
    let lines = screen.ppm_lines();
    assert_eq!(
        lines,
        vec!["P3", "2 2", "255", "0 255 0", "128 128 128", "255 0 0", "0 0 255"]
    );
}

#[test]
fn random_values_stay_in_range() {
    let mut rng = StdRng::seed_from_u64(6);
    let mut seen = std::collections::BTreeSet::new();
    for _ in 0..200 {
        let u = random_unit_interval(&mut rng);
        assert!((0..SCALE).contains(&u));
        seen.insert(u);
        let p = Vec3::random_in_unit_sphere(&mut rng);
        let l = p.x as i128 * p.x as i128 + p.y as i128 * p.y as i128 + p.z as i128 * p.z as i128;
        assert!(l < (SCALE as i128) * (SCALE as i128));
        let q = Vec3::random_unit_vector(&mut rng);
        assert!((q.length() - SCALE).abs() <= 10);
        let r = Vec3::random(&mut rng);
        assert!((0..SCALE).contains(&r.x) && (0..SCALE).contains(&r.y) && (0..SCALE).contains(&r.z));
        let s = Vec3::random_from_range(&mut rng, -5, 5);
        assert!((-5..5).contains(&s.x) && (-5..5).contains(&s.y) && (-5..5).contains(&s.z));
    }
    assert!(seen.len() > 150);
}
