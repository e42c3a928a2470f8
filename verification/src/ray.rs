use vstd::prelude::*;
use crate::fixed::{DMAX, MULB, OPB, WMAX};
use crate::vec3::{bounded, vadd, vscale, Point3, Vec3, V3};

verus! {

/// The mathematical value of a ray.
pub ghost struct Rayg {
    pub orig: V3,
    pub dir: V3,
    pub time: int,
}

/// A parametric line `origin + t * direction`, tagged with the shutter time
/// at which it was cast.
#[derive(Clone, Copy, PartialEq, Eq, Structural, Debug)]
pub struct Ray {
    pub origin: Point3,
    pub direction: Vec3,
    pub time: i128,
}

impl View for Ray {
    type V = Rayg;

    open spec fn view(&self) -> Rayg {
        Rayg { orig: self.origin@, dir: self.direction@, time: self.time as int }
    }
}

/// A well-formed ray: origin and time within the world bound, direction
/// within the direction bound.
pub open spec fn ray_wf(r: Rayg) -> bool {
    bounded(r.orig, WMAX as int) && bounded(r.dir, DMAX as int) && -WMAX <= r.time <= WMAX
}

/// The point reached at parameter `t`: `origin + t * direction`.
pub open spec fn ray_at(r: Rayg, t: int) -> V3 {
    vadd(r.orig, vscale(t, r.dir))
}

impl Ray {
    pub fn new(origin: Point3, direction: Vec3, time: i128) -> (r: Ray)
        ensures
            r@.orig == origin@,
            r@.dir == direction@,
            r@.time == time as int,
    {
        Ray { origin, direction, time }
    }

    pub fn origin(&self) -> (r: Point3)
        ensures
            r@ == self@.orig,
    {
        self.origin
    }

    pub fn direction(&self) -> (r: Vec3)
        ensures
            r@ == self@.dir,
    {
        self.direction
    }

    pub fn time(&self) -> (r: i128)
        ensures
            r == self@.time,
    {
        self.time
    }

    /// The point reached at parameter `t`.
    pub fn at(&self, t: i128) -> (r: Point3)
        requires
            bounded(self@.orig, OPB as int),
            bounded(self@.dir, MULB as int),
            -MULB <= t <= MULB,
            bounded(vscale(t as int, self@.dir), OPB as int),
        ensures
            r@ == ray_at(self@, t as int),
    {
        let s = self.direction.scale(t);
        self.origin.plus(&s)
    }
}

} // verus!
