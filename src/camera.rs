//! A pinhole camera: the rays through points of its viewport, and the
//! jittered estimate of a pixel's colour.
use vstd::prelude::*;
use rand::rngs::StdRng;
use crate::fixed::{tdiv, SCALE};
use crate::hittable::HittableList;
use crate::render::{all_valid, path_color, ray_color};
use crate::material::Sample;
use crate::ray::Ray;
use crate::sampling::random_unit_interval;
use crate::vec3::{
    v_add, v_cross, v_scale, v_sub, v_unit, zero, Color, Point3, Vec3,
};

verus! {

pub struct Camera {
    pub origin: Point3,
    pub lower_left_corner: Point3,
    pub vertical: Vec3,
    pub horizontal: Vec3,
}

impl Camera {
    pub open spec fn wf(self) -> bool {
        self.origin.wf() && self.lower_left_corner.wf() && self.vertical.wf()
            && self.horizontal.wf()
    }
}

/// The camera at `lookfrom` facing `lookat`, with `vup` giving the upward
/// direction, and a viewport one unit in front of it of the given height and
/// of width `aspect_ratio` times that.
pub open spec fn camera_spec(
    lookfrom: Point3,
    lookat: Point3,
    vup: Vec3,
    viewport_height: int,
    aspect_ratio: int,
) -> Camera {
    let viewport_width = crate::fixed::fx_mul(aspect_ratio, viewport_height);
    let w = v_unit(v_sub(lookfrom, lookat));
    let u = v_unit(v_cross(vup, w));
    let v = v_cross(w, u);
    let horizontal = v_scale(u, viewport_width);
    let vertical = v_scale(v, viewport_height);
    let lower_left_corner = v_sub(
        v_sub(v_sub(lookfrom, v_scale(horizontal, SCALE / 2)), v_scale(vertical, SCALE / 2)),
        w,
    );
    Camera { origin: lookfrom, lower_left_corner, vertical, horizontal }
}

/// The ray from the camera through the viewport point at `(u, v)`, both
/// between zero and one from the lower left corner.
pub open spec fn camera_ray(c: Camera, u: int, v: int) -> Ray {
    Ray {
        origin: c.origin,
        direction: v_sub(
            v_add(v_add(c.lower_left_corner, v_scale(c.horizontal, u)), v_scale(c.vertical, v)),
            c.origin,
        ),
    }
}

/// The viewport coordinate of pixel `i` of `n`, offset by `jitter` in `[0, 1)`.
pub open spec fn pixel_coord(i: int, jitter: int, n: int) -> int {
    tdiv(i * SCALE + jitter, n - 1)
}

/// A colour that one jittered sample of pixel `(i, j)` may estimate.
pub open spec fn pixel_sample(
    cam: Camera,
    world: Seq<crate::hittable::Hittable>,
    i: int,
    j: int,
    image_width: int,
    image_height: int,
    depth: int,
    c: Color,
) -> bool {
    exists|du: int, dv: int, s: Seq<Sample>|
        0 <= du < SCALE && 0 <= dv < SCALE && all_valid(s) && c == #[trigger] path_color(
            world,
            camera_ray(cam, pixel_coord(i, du, image_width), pixel_coord(j, dv, image_height)),
            depth,
            s,
        )
}

/// The sum of the colours, added in order.
pub open spec fn sum_colors(cs: Seq<Color>) -> Color
    decreases cs.len(),
{
    if cs.len() == 0 {
        zero()
    } else {
        v_add(sum_colors(cs.drop_last()), cs.last())
    }
}

impl Camera {
    pub fn new(lookfrom: Point3, lookat: Point3, vup: Vec3, viewport_height: i64, aspect_ratio: i64) -> (r: Camera)
        requires
            lookfrom.wf(),
            lookat.wf(),
            vup.wf(),
        ensures
            r == camera_spec(lookfrom, lookat, vup, viewport_height as int, aspect_ratio as int),
            r.wf(),
    {
        let viewport_width = crate::fixed::mul_fx(aspect_ratio, viewport_height);
        let w = lookfrom.sub(lookat).unitize();
        let u = vup.cross(w).unitize();
        let v = w.cross(u);
        let horizontal = u.scale(viewport_width);
        let vertical = v.scale(viewport_height);
        let lower_left_corner = lookfrom.sub(horizontal.scale(SCALE / 2)).sub(
            vertical.scale(SCALE / 2),
        ).sub(w);
        Camera { origin: lookfrom, lower_left_corner, vertical, horizontal }
    }

    /// The ray through the viewport point at `(u, v)`.
    pub fn get_ray(&self, u: i64, v: i64) -> (r: Ray)
        requires
            self.wf(),
        ensures
            r == camera_ray(*self, u as int, v as int),
            r.wf(),
    {
        Ray::new(
            self.origin,
            self.lower_left_corner.add(self.horizontal.scale(u)).add(self.vertical.scale(v)).sub(
                self.origin,
            ),
        )
    }

    /// The sum of `samples_per_pixel` colour estimates of pixel `(i, j)` of an
    /// image `image_width` by `image_height`, each through a point drawn at
    /// random within the pixel.
    pub fn sample_pixel(
        &self,
        world: &HittableList,
        i: i32,
        j: i32,
        image_width: i32,
        image_height: i32,
        samples_per_pixel: i32,
        max_depth: i32,
        rng: &mut StdRng,
    ) -> (c: Color)
        requires
            self.wf(),
            world.wf(),
            1 < image_width,
            1 < image_height,
            0 <= i < image_width,
            0 <= j < image_height,
        ensures
            exists|cs: Seq<Color>|
                cs.len() == (if samples_per_pixel > 0 {
                    samples_per_pixel as int
                } else {
                    0
                }) && (forall|k: int|
                    0 <= k < cs.len() ==> pixel_sample(
                        *self,
                        world.objects@,
                        i as int,
                        j as int,
                        image_width as int,
                        image_height as int,
                        max_depth as int,
                        #[trigger] cs[k],
                    )) && c == sum_colors(cs),
            c.wf(),
    {
        let mut pixel_color = Vec3 { x: 0, y: 0, z: 0 };
        let ghost mut cs: Seq<Color> = Seq::empty();
        let mut k: i32 = 0;
        while k < samples_per_pixel
            invariant
                self.wf(),
                world.wf(),
                1 < image_width,
                1 < image_height,
                0 <= i < image_width,
                0 <= j < image_height,
                0 <= k,
                samples_per_pixel > 0 ==> k <= samples_per_pixel,
                samples_per_pixel <= 0 ==> k == 0,
                cs.len() == k,
                forall|m: int|
                    0 <= m < cs.len() ==> pixel_sample(
                        *self,
                        world.objects@,
                        i as int,
                        j as int,
                        image_width as int,
                        image_height as int,
                        max_depth as int,
                        #[trigger] cs[m],
                    ),
                pixel_color == sum_colors(cs),
                pixel_color.wf(),
            decreases samples_per_pixel - k,
        {
            let du = random_unit_interval(rng);
            let dv = random_unit_interval(rng);
            proof {
                assert(0 <= i * SCALE + du < 0x7fff_ffff_ffff_ffff) by (nonlinear_arith)
                    requires
                        0 <= i < 0x8000_0000,
                        0 <= du < SCALE,
                ;
                assert(0 <= j * SCALE + dv < 0x7fff_ffff_ffff_ffff) by (nonlinear_arith)
                    requires
                        0 <= j < 0x8000_0000,
                        0 <= dv < SCALE,
                ;
            }
            let u = (i as i64 * SCALE + du) / (image_width as i64 - 1);
            let v = (j as i64 * SCALE + dv) / (image_height as i64 - 1);
            let r = self.get_ray(u, v);
            let c = ray_color(&r, world, max_depth, rng);
            proof {
                let s = choose|s: Seq<Sample>|
                    all_valid(s) && #[trigger] path_color(world.objects@, r, max_depth as int, s) == c;
                assert(pixel_sample(
                    *self,
                    world.objects@,
                    i as int,
                    j as int,
                    image_width as int,
                    image_height as int,
                    max_depth as int,
                    c,
                )) by {
                    assert(r == camera_ray(
                        *self,
                        pixel_coord(i as int, du as int, image_width as int),
                        pixel_coord(j as int, dv as int, image_height as int),
                    ));
                }
                let old_cs = cs;
                cs = cs.push(c);
                assert(cs.drop_last() =~= old_cs);
                assert forall|m: int| 0 <= m < cs.len() implies pixel_sample(
                    *self,
                    world.objects@,
                    i as int,
                    j as int,
                    image_width as int,
                    image_height as int,
                    max_depth as int,
                    #[trigger] cs[m],
                ) by {
                    if m < old_cs.len() {
                        assert(cs[m] == old_cs[m]);
                    }
                }
            }
            pixel_color.add_assign(c);
            k = k + 1;
        }
        proof {
            assert(cs.len() == (if samples_per_pixel > 0 {
                samples_per_pixel as int
            } else {
                0
            }));
        }
        pixel_color
    }
}

} // verus!
