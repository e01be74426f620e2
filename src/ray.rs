//! Rays: an origin and a direction.
use vstd::prelude::*;
use crate::vec3::{v_add, v_scale, Point3, Vec3};

verus! {

#[derive(Clone, Copy, Debug, PartialEq, Eq, Structural)]
pub struct Ray {
    pub origin: Point3,
    pub direction: Vec3,
}

impl Ray {
    pub open spec fn wf(self) -> bool {
        self.origin.wf() && self.direction.wf()
    }

    pub fn new(origin: Point3, direction: Vec3) -> (r: Ray)
        ensures
            r.origin == origin,
            r.direction == direction,
    {
        Ray { origin, direction }
    }

    pub fn origin(&self) -> (r: Point3)
        ensures
            r == self.origin,
    {
        self.origin
    }

    pub fn direction(&self) -> (r: Vec3)
        ensures
            r == self.direction,
    {
        self.direction
    }

    /// The point `origin + t * direction`.
    pub fn at(&self, t: i64) -> (r: Point3)
        requires
            self.wf(),
        ensures
            r == ray_at(*self, t as int),
            r.wf(),
    {
        self.origin.add(self.direction.scale(t))
    }
}

pub open spec fn ray_at(r: Ray, t: int) -> Point3 {
    v_add(r.origin, v_scale(r.direction, t))
}

} // verus!
