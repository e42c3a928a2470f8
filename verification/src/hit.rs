use vstd::prelude::*;
use std::sync::Arc;
use crate::fixed::{NORMB, SCALE, WMAX};
use crate::material::{material_wf, Material};
use crate::ray::Ray;
use crate::vec3::{bounded, vdot, vlsq, vneg, Point3, V3, Vec3};

verus! {

/// The mathematical content of a hit record.
pub ghost struct HitInfo {
    pub p: V3,
    pub normal: V3,
    pub mat: Material,
    pub t: int,
    pub u: int,
    pub v: int,
    pub front_face: bool,
}

/// The outcome of a successful ray/object intersection: the hit point, the
/// oriented unit normal, the surface material, the ray parameter, surface
/// coordinates, and which face was struck.
pub struct HitRecord {
    pub p: Point3,
    pub normal: Vec3,
    pub mat: Arc<Material>,
    pub t: i128,
    pub u: i128,
    pub v: i128,
    pub front_face: bool,
}

impl View for HitRecord {
    type V = HitInfo;

    open spec fn view(&self) -> HitInfo {
        HitInfo {
            p: self.p@,
            normal: self.normal@,
            mat: *self.mat,
            t: self.t as int,
            u: self.u as int,
            v: self.v as int,
            front_face: self.front_face,
        }
    }
}

/// A well-formed hit: point within the world cube, a roughly unit normal,
/// surface coordinates within `[0, 1]`, and a well-formed material.
pub open spec fn hit_wf(h: HitInfo) -> bool {
    &&& bounded(h.p, WMAX as int)
    &&& bounded(h.normal, NORMB as int)
    &&& 0 <= vlsq(h.normal) <= 2 * SCALE
    &&& -WMAX <= h.t <= WMAX
    &&& 0 <= h.u <= SCALE
    &&& 0 <= h.v <= SCALE
    &&& material_wf(h.mat)
}

/// Whether the incoming direction strikes the outward side of a surface.
pub open spec fn is_front(dir: V3, outward: V3) -> bool {
    vdot(dir, outward) < 0
}

/// The stored normal: the outward normal flipped, when needed, to oppose
/// the incoming direction.
pub open spec fn oriented(dir: V3, outward: V3) -> V3 {
    if is_front(dir, outward) {
        outward
    } else {
        vneg(outward)
    }
}

/// Compute the face flag and the oriented normal for an incoming ray.
pub fn face_normal(ray: &Ray, outward_normal: &Vec3) -> (r: (bool, Vec3))
    requires
        bounded(ray@.dir, crate::fixed::OPB as int),
        bounded(outward_normal@, crate::fixed::OPB as int),
    ensures
        r.0 == is_front(ray@.dir, outward_normal@),
        r.1@ == oriented(ray@.dir, outward_normal@),
{
    let d = crate::vec3::dot(&ray.direction, outward_normal);
    let front = d < 0;
    let normal = if front {
        *outward_normal
    } else {
        outward_normal.negate()
    };
    (front, normal)
}

impl HitRecord {
    /// Store the outward normal oriented against the incoming ray, and
    /// remember which face was struck.
    pub fn set_face_normal(&mut self, ray: &Ray, outward_normal: &Vec3)
        requires
            bounded(ray@.dir, crate::fixed::OPB as int),
            bounded(outward_normal@, crate::fixed::OPB as int),
        ensures
            final(self)@.front_face == is_front(ray@.dir, outward_normal@),
            final(self)@.normal == oriented(ray@.dir, outward_normal@),
            final(self)@.p == old(self)@.p,
            final(self)@.mat == old(self)@.mat,
            final(self)@.t == old(self)@.t,
            final(self)@.u == old(self)@.u,
            final(self)@.v == old(self)@.v,
    {
        let (front, normal) = face_normal(ray, outward_normal);
        self.front_face = front;
        self.normal = normal;
    }
}

} // verus!
