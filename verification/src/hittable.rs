use vstd::prelude::*;
use std::sync::Arc;
use crate::aabb::{aabb_wf, box_union, surrounding_box, Aabbg, AABB};
use crate::fixed::{fmul, fquot, fsqrt, ABMAX, DMAX, NORMB, SCALE, WMAX};
use crate::hit::{hit_wf, is_front, oriented, HitInfo, HitRecord};
use crate::material::{material_wf, Material};
use crate::ray::{ray_at, ray_wf, Ray, Rayg};
use crate::vec3::{bounded, vadd, vdot, vlsq, vsub, Point3, V3, Vec3};

verus! {

broadcast use vstd::std_specs::vec::axiom_vec_index_decreases,
    vstd::std_specs::vec::axiom_vec_decreases_to_view, vstd::seq::axiom_seq_index_decreases;

/// Padding that gives a flat rectangle's bounding box nonzero thickness.
pub const EPS_PAD: i128 = 7;

/// Anything a ray can intersect: primitives, composition wrappers, a
/// volumetric medium, flat lists and bounding-volume-hierarchy nodes.
pub enum Object {
    Sphere { center: Point3, radius: i128, mat: Arc<Material> },
    MovingSphere {
        center0: Point3,
        center1: Point3,
        time0: i128,
        time1: i128,
        radius: i128,
        mat: Arc<Material>,
    },
    XyRect { x0: i128, x1: i128, y0: i128, y1: i128, k: i128, mat: Arc<Material> },
    XzRect { x0: i128, x1: i128, z0: i128, z1: i128, k: i128, mat: Arc<Material> },
    YzRect { y0: i128, y1: i128, z0: i128, z1: i128, k: i128, mat: Arc<Material> },
    Cuboid { cuboid_min: Point3, cuboid_max: Point3, sides: Vec<Object> },
    Translate { child: Box<Object>, offset: Vec3 },
    RotateY { child: Box<Object>, sin_theta: i128, cos_theta: i128, has_box: bool, bbox: AABB },
    ConstantMedium { boundary: Box<Object>, phase: Arc<Material>, neg_inv_density: i128 },
    List { objects: Vec<Object> },
    Bvh { left: Box<Object>, right: Box<Object>, bbox: AABB },
}

/// Well-formedness of every parameter a scene object carries.
pub open spec fn object_wf(o: Object) -> bool
    decreases o,
{
    match o {
        Object::Sphere { center, radius, mat } => bounded(center@, WMAX as int) && 1 <= radius
            <= WMAX && material_wf(*mat),
        Object::MovingSphere { center0, center1, time0, time1, radius, mat } => bounded(
            center0@,
            WMAX as int,
        ) && bounded(center1@, WMAX as int) && 1 <= radius <= WMAX && -WMAX <= time0 && time0
            + SCALE <= time1 && time1 <= WMAX && material_wf(*mat),
        Object::XyRect { x0, x1, y0, y1, k, mat } => -WMAX <= x0 < x1 <= WMAX && -WMAX <= y0
            < y1 <= WMAX && -WMAX <= k <= WMAX && material_wf(*mat),
        Object::XzRect { x0, x1, z0, z1, k, mat } => -WMAX <= x0 < x1 <= WMAX && -WMAX <= z0
            < z1 <= WMAX && -WMAX <= k <= WMAX && material_wf(*mat),
        Object::YzRect { y0, y1, z0, z1, k, mat } => -WMAX <= y0 < y1 <= WMAX && -WMAX <= z0
            < z1 <= WMAX && -WMAX <= k <= WMAX && material_wf(*mat),
        Object::Cuboid { cuboid_min, cuboid_max, sides } => bounded(cuboid_min@, WMAX as int)
            && bounded(cuboid_max@, WMAX as int) && seq_wf(sides@),
        Object::Translate { child, offset } => bounded(offset@, WMAX as int) && object_wf(
            *child,
        ),
        Object::RotateY { child, sin_theta, cos_theta, has_box, bbox } => -SCALE <= sin_theta
            <= SCALE && -SCALE <= cos_theta <= SCALE && aabb_wf(bbox@) && object_wf(*child),
        Object::ConstantMedium { boundary, phase, neg_inv_density } => -WMAX
            <= neg_inv_density < 0 && material_wf(*phase) && object_wf(*boundary),
        Object::List { objects } => seq_wf(objects@),
        Object::Bvh { left, right, bbox } => aabb_wf(bbox@) && object_wf(*left) && object_wf(
            *right,
        ),
    }
}

/// Well-formedness of every object of a sequence.
pub open spec fn seq_wf(s: Seq<Object>) -> bool
    decreases s,
{
    forall|i: int| 0 <= i < s.len() ==> object_wf(#[trigger] s[i])
}

/// Whether an object's intersection outcome is a function of the ray alone:
/// true of everything but a participating medium, whose free-flight
/// distance is drawn at random.
pub open spec fn deterministic(o: Object) -> bool
    decreases o,
{
    match o {
        Object::Cuboid { cuboid_min, cuboid_max, sides } => seq_deterministic(sides@),
        Object::Translate { child, offset } => deterministic(*child),
        Object::RotateY { child, .. } => deterministic(*child),
        Object::ConstantMedium { .. } => false,
        Object::List { objects } => seq_deterministic(objects@),
        Object::Bvh { left, right, bbox } => deterministic(*left) && deterministic(*right),
        _ => true,
    }
}

pub open spec fn seq_deterministic(s: Seq<Object>) -> bool
    decreases s,
{
    forall|i: int| 0 <= i < s.len() ==> deterministic(#[trigger] s[i])
}

/// The linearly interpolated center of a moving sphere at a given time.
pub open spec fn moving_center(c0: V3, c1: V3, t0: int, t1: int, time: int) -> V3 {
    vadd(c0, crate::vec3::vscale(crate::fixed::fquot(time - t0, t1 - t0), vsub(c1, c0)))
}

/// A vector with all three components equal.
pub open spec fn vfill(k: int) -> V3 {
    V3 { x: k, y: k, z: k }
}

/// The bounding box an object reports over the time interval
/// `[tm0, tm1]`; `None` stands for "no finite box is available".
pub open spec fn object_box(o: Object, tm0: int, tm1: int) -> Option<Aabbg>
    decreases o,
{
    match o {
        Object::Sphere { center, radius, mat } => Option::Some(
            Aabbg {
                min: vsub(center@, vfill(radius as int)),
                max: vadd(center@, vfill(radius as int)),
            },
        ),
        Object::MovingSphere { center0, center1, time0, time1, radius, mat } => {
            let ca = moving_center(center0@, center1@, time0 as int, time1 as int, tm0);
            let cb = moving_center(center0@, center1@, time0 as int, time1 as int, tm1);
            if bounded(ca, WMAX as int) && bounded(cb, WMAX as int) {
                Option::Some(
                    box_union(
                        Aabbg {
                            min: vsub(ca, vfill(radius as int)),
                            max: vadd(ca, vfill(radius as int)),
                        },
                        Aabbg {
                            min: vsub(cb, vfill(radius as int)),
                            max: vadd(cb, vfill(radius as int)),
                        },
                    ),
                )
            } else {
                Option::None
            }
        },
        Object::XyRect { x0, x1, y0, y1, k, mat } => Option::Some(
            Aabbg {
                min: V3 { x: x0 as int, y: y0 as int, z: k - EPS_PAD },
                max: V3 { x: x1 as int, y: y1 as int, z: k + EPS_PAD },
            },
        ),
        Object::XzRect { x0, x1, z0, z1, k, mat } => Option::Some(
            Aabbg {
                min: V3 { x: x0 as int, y: k - EPS_PAD, z: z0 as int },
                max: V3 { x: x1 as int, y: k + EPS_PAD, z: z1 as int },
            },
        ),
        Object::YzRect { y0, y1, z0, z1, k, mat } => Option::Some(
            Aabbg {
                min: V3 { x: k - EPS_PAD, y: y0 as int, z: z0 as int },
                max: V3 { x: k + EPS_PAD, y: y1 as int, z: z1 as int },
            },
        ),
        Object::Cuboid { cuboid_min, cuboid_max, sides } => Option::Some(
            Aabbg { min: cuboid_min@, max: cuboid_max@ },
        ),
        Object::Translate { child, offset } => match object_box(*child, tm0, tm1) {
            Option::None => Option::None,
            Option::Some(b) => {
                let shifted = Aabbg {
                    min: vadd(b.min, offset@),
                    max: vadd(b.max, offset@),
                };
                if aabb_wf(shifted) {
                    Option::Some(shifted)
                } else {
                    Option::None
                }
            },
        },
        Object::RotateY { child, sin_theta, cos_theta, has_box, bbox } => if has_box {
            Option::Some(bbox@)
        } else {
            Option::None
        },
        Object::ConstantMedium { boundary, phase, neg_inv_density } => object_box(
            *boundary,
            tm0,
            tm1,
        ),
        Object::List { objects } => seq_box(objects@, tm0, tm1),
        Object::Bvh { left, right, bbox } => Option::Some(bbox@),
    }
}

/// The union of the boxes of the objects from index `i` on; `None` when
/// any member lacks a box.
pub open spec fn seq_box_from(s: Seq<Object>, i: int, tm0: int, tm1: int) -> Option<Aabbg>
    decreases s, s.len() - i,
{
    if i < 0 || i >= s.len() {
        Option::None
    } else {
        match object_box(s[i], tm0, tm1) {
            Option::None => Option::None,
            Option::Some(b) => if i == s.len() - 1 {
                Option::Some(b)
            } else {
                match seq_box_from(s, i + 1, tm0, tm1) {
                    Option::None => Option::None,
                    Option::Some(rest) => Option::Some(box_union(b, rest)),
                }
            },
        }
    }
}

/// The union of the boxes of a sequence of objects; `None` for an empty
/// sequence or when any member lacks a box.
pub open spec fn seq_box(s: Seq<Object>, tm0: int, tm1: int) -> Option<Aabbg>
    decreases s, s.len() + 1,
{
    seq_box_from(s, 0, tm0, tm1)
}

/// Clamp a scalar to one unit in magnitude.
pub open spec fn clamp_s(x: int) -> int {
    if x > SCALE {
        SCALE as int
    } else if x < -SCALE {
        -SCALE as int
    } else {
        x
    }
}

/// Componentwise fixed-point division of a vector by a scalar.
pub open spec fn vdiv_scalar(v: V3, k: int) -> V3 {
    V3 {
        x: crate::fixed::fquot(v.x, k),
        y: crate::fixed::fquot(v.y, k),
        z: crate::fixed::fquot(v.z, k),
    }
}

/// A piecewise-rational azimuth in `[0, 4]` whole units, one unit per
/// quadrant of `(x, y)`: an exactly computable stand-in for `atan2`.
pub open spec fn diamond(y: int, x: int) -> int {
    if x == 0 && y == 0 {
        0
    } else if y >= 0 && x >= 0 {
        crate::fixed::fquot(y, x + y)
    } else if y >= 0 {
        SCALE + crate::fixed::fquot(-x, (-x) + y)
    } else if x < 0 {
        2 * SCALE + crate::fixed::fquot(-y, (-x) + (-y))
    } else {
        3 * SCALE + crate::fixed::fquot(x, x + (-y))
    }
}

/// Surface coordinates of a point on the unit sphere: the azimuth of
/// `(-z, x)` wrapped into `[0, 1)` and a linear latitude in `y`, both
/// exactly computable stand-ins for the spherical-angle formulas.
pub open spec fn sphere_u(n: V3) -> int {
    let u0 = crate::fixed::fdiv(diamond(-n.z, n.x), 4) + SCALE / 2;
    if u0 >= SCALE {
        u0 - SCALE
    } else {
        u0
    }
}

pub open spec fn sphere_v(n: V3) -> int {
    crate::fixed::fdiv(SCALE + clamp_s(n.y), 2)
}

/// The record a sphere produces for an accepted root.
pub open spec fn sphere_make_hit(
    center: V3,
    radius: int,
    mat: Material,
    rg: Rayg,
    root: int,
) -> HitInfo {
    let p = ray_at(rg, root);
    let outward = vdiv_scalar(vsub(p, center), radius);
    HitInfo {
        p: p,
        normal: oriented(rg.dir, outward),
        mat: mat,
        t: root,
        u: sphere_u(outward),
        v: sphere_v(outward),
        front_face: is_front(rg.dir, outward),
    }
}

/// Whether a quadratic root is accepted: inside the parameter interval,
/// with the hit point inside the world cube and a usable unit normal.
pub open spec fn sphere_root_ok(
    center: V3,
    radius: int,
    rg: Rayg,
    root: int,
    t0: int,
    t1: int,
) -> bool {
    t0 <= root <= t1 && {
        let p = ray_at(rg, root);
        let outward = vdiv_scalar(vsub(p, center), radius);
        bounded(p, WMAX as int) && bounded(outward, NORMB as int) && vlsq(outward) <= 2 * SCALE
    }
}

/// The analytic sphere intersection: the nearer accepted root of the
/// fixed-point quadratic, if any.
pub open spec fn sphere_hit(
    center: V3,
    radius: int,
    mat: Material,
    rg: Rayg,
    t0: int,
    t1: int,
) -> Option<HitInfo> {
    let oc = vsub(rg.orig, center);
    let a = vlsq(rg.dir);
    let half_b = vdot(oc, rg.dir);
    let c = vlsq(oc) - fmul(radius, radius);
    let disc = fmul(half_b, half_b) - fmul(a, c);
    if disc < 0 || a <= 0 {
        Option::None
    } else {
        let sq = fsqrt(disc);
        let r1 = fquot(-half_b - sq, a);
        let r2 = fquot(-half_b + sq, a);
        if sphere_root_ok(center, radius, rg, r1, t0, t1) {
            Option::Some(sphere_make_hit(center, radius, mat, rg, r1))
        } else if sphere_root_ok(center, radius, rg, r2, t0, t1) {
            Option::Some(sphere_make_hit(center, radius, mat, rg, r2))
        } else {
            Option::None
        }
    }
}

/// An axis-aligned rectangle intersection: the single plane crossing,
/// rejected outside the extent.  The components of the hit point are read
/// through `comp` with `ax`/`ay` naming the in-plane axes and `az` the
/// fixed axis; `nrm` is the outward axis normal.
pub open spec fn rect_hit(
    ax: int,
    ay: int,
    az: int,
    x0: int,
    x1: int,
    y0: int,
    y1: int,
    k: int,
    mat: Material,
    nrm: V3,
    rg: Rayg,
    t0: int,
    t1: int,
) -> Option<HitInfo> {
    let oz = crate::aabb::comp(rg.orig, az);
    let dz = crate::aabb::comp(rg.dir, az);
    if dz == 0 {
        Option::None
    } else {
        let t = fquot(k - oz, dz);
        if !(t0 <= t <= t1) {
            Option::None
        } else {
            let p = ray_at(rg, t);
            let x = crate::aabb::comp(p, ax);
            let y = crate::aabb::comp(p, ay);
            if x < x0 || x > x1 || y < y0 || y > y1 || !bounded(p, WMAX as int) {
                Option::None
            } else {
                Option::Some(
                    HitInfo {
                        p: p,
                        normal: oriented(rg.dir, nrm),
                        mat: mat,
                        t: t,
                        u: fquot(x - x0, x1 - x0),
                        v: fquot(y - y0, y1 - y0),
                        front_face: is_front(rg.dir, nrm),
                    },
                )
            }
        }
    }
}

/// The closest hit over the objects from index `i` on: each accepted hit
/// shrinks the far bound, so a later equal-parameter hit replaces an
/// earlier one, exactly as the linear scan does.
pub open spec fn scan_from(s: Seq<Object>, i: int, rg: Rayg, t0: int, t1: int) -> Option<
    HitInfo,
>
    decreases s, s.len() - i,
{
    if i < 0 || i >= s.len() {
        Option::None
    } else {
        match object_hit(s[i], rg, t0, t1) {
            Option::None => scan_from(s, i + 1, rg, t0, t1),
            Option::Some(h) => match scan_from(s, i + 1, rg, t0, h.t) {
                Option::Some(h2) => Option::Some(h2),
                Option::None => Option::Some(h),
            },
        }
    }
}

/// The forward rotation of a vector about the y axis (into an object's
/// local frame).
pub open spec fn rot_fwd(c: int, s: int, v: V3) -> V3 {
    V3 { x: fmul(c, v.x) - fmul(s, v.z), y: v.y, z: fmul(s, v.x) + fmul(c, v.z) }
}

/// The backward rotation (out of the local frame).
pub open spec fn rot_bwd(c: int, s: int, v: V3) -> V3 {
    V3 { x: fmul(c, v.x) + fmul(s, v.z), y: v.y, z: -fmul(s, v.x) + fmul(c, v.z) }
}

/// The deterministic intersection semantics of an object: what `hit`
/// returns for every variant whose outcome is a function of the ray alone.
/// A participating medium, whose outcome is stochastic, is given no
/// deterministic hit.
pub open spec fn object_hit(o: Object, rg: Rayg, t0: int, t1: int) -> Option<HitInfo>
    decreases o, 0int,
{
    match o {
        Object::Sphere { center, radius, mat } => sphere_hit(
            center@,
            radius as int,
            *mat,
            rg,
            t0,
            t1,
        ),
        Object::MovingSphere { center0, center1, time0, time1, radius, mat } => {
            let c = moving_center(center0@, center1@, time0 as int, time1 as int, rg.time);
            if bounded(c, WMAX as int) {
                sphere_hit(c, radius as int, *mat, rg, t0, t1)
            } else {
                Option::None
            }
        },
        Object::XyRect { x0, x1, y0, y1, k, mat } => rect_hit(
            0,
            1,
            2,
            x0 as int,
            x1 as int,
            y0 as int,
            y1 as int,
            k as int,
            *mat,
            V3 { x: 0, y: 0, z: SCALE as int },
            rg,
            t0,
            t1,
        ),
        Object::XzRect { x0, x1, z0, z1, k, mat } => rect_hit(
            0,
            2,
            1,
            x0 as int,
            x1 as int,
            z0 as int,
            z1 as int,
            k as int,
            *mat,
            V3 { x: 0, y: SCALE as int, z: 0 },
            rg,
            t0,
            t1,
        ),
        Object::YzRect { y0, y1, z0, z1, k, mat } => rect_hit(
            1,
            2,
            0,
            y0 as int,
            y1 as int,
            z0 as int,
            z1 as int,
            k as int,
            *mat,
            V3 { x: SCALE as int, y: 0, z: 0 },
            rg,
            t0,
            t1,
        ),
        Object::Cuboid { cuboid_min, cuboid_max, sides } => scan_from(sides@, 0, rg, t0, t1),
        Object::Translate { child, offset } => {
            let moved = Rayg { orig: vsub(rg.orig, offset@), dir: rg.dir, time: rg.time };
            if !bounded(moved.orig, WMAX as int) {
                Option::None
            } else {
                match object_hit(*child, moved, t0, t1) {
                    Option::None => Option::None,
                    Option::Some(h) => {
                        let p2 = vadd(h.p, offset@);
                        if !bounded(p2, WMAX as int) {
                            Option::None
                        } else {
                            Option::Some(
                                HitInfo {
                                    p: p2,
                                    normal: oriented(moved.dir, h.normal),
                                    mat: h.mat,
                                    t: h.t,
                                    u: h.u,
                                    v: h.v,
                                    front_face: is_front(moved.dir, h.normal),
                                },
                            )
                        }
                    },
                }
            }
        },
        Object::RotateY { child, sin_theta, cos_theta, has_box, bbox } => {
            let c = cos_theta as int;
            let s = sin_theta as int;
            let ro = rot_fwd(c, s, rg.orig);
            let rd = rot_fwd(c, s, rg.dir);
            if !bounded(ro, WMAX as int) || !bounded(rd, DMAX as int) {
                Option::None
            } else {
                let rotated = Rayg { orig: ro, dir: rd, time: rg.time };
                match object_hit(*child, rotated, t0, t1) {
                    Option::None => Option::None,
                    Option::Some(h) => {
                        let p2 = rot_bwd(c, s, h.p);
                        let n2 = rot_bwd(c, s, h.normal);
                        if !bounded(p2, WMAX as int) || !bounded(n2, NORMB as int) || vlsq(n2)
                            > 2 * SCALE {
                            Option::None
                        } else {
                            Option::Some(
                                HitInfo {
                                    p: p2,
                                    normal: oriented(rd, n2),
                                    mat: h.mat,
                                    t: h.t,
                                    u: h.u,
                                    v: h.v,
                                    front_face: is_front(rd, n2),
                                },
                            )
                        }
                    },
                }
            }
        },
        Object::ConstantMedium { boundary, phase, neg_inv_density } => Option::None,
        Object::List { objects } => scan_from(objects@, 0, rg, t0, t1),
        Object::Bvh { left, right, bbox } => {
            if !crate::aabb::aabb_hit_spec(bbox@, rg, t0, t1) {
                Option::None
            } else {
                match object_hit(*left, rg, t0, t1) {
                    Option::Some(hl) => match object_hit(*right, rg, t0, hl.t) {
                        Option::Some(hr) => Option::Some(hr),
                        Option::None => Option::Some(hl),
                    },
                    Option::None => object_hit(*right, rg, t0, t1),
                }
            }
        },
    }
}

/// Spec-level image of an exec hit result.
pub open spec fn rec_view(o: Option<HitRecord>) -> Option<HitInfo> {
    match o {
        Option::None => Option::None,
        Option::Some(r) => Option::Some(r@),
    }
}

/// Spec-level image of an exec box result.
pub open spec fn box_view(o: Option<AABB>) -> Option<Aabbg> {
    match o {
        Option::None => Option::None,
        Option::Some(b) => Option::Some(b@),
    }
}

impl Object {
    /// The bounding box over the time interval `[tm0, tm1]`, or `None`
    /// where no finite box exists.
    pub fn bounding_box(&self, tm0: i128, tm1: i128) -> (res: Option<AABB>)
        requires
            object_wf(*self),
            -WMAX <= tm0 <= WMAX,
            -WMAX <= tm1 <= WMAX,
        ensures
            box_view(res) == object_box(*self, tm0 as int, tm1 as int),
            res matches Some(b) ==> aabb_wf(b@),
        decreases *self,
    {
        match self {
            Object::Sphere { center, radius, mat } => {
                let rv = Vec3::with_value(*radius);
                Some(AABB::new(center.minus(&rv), center.plus(&rv)))
            },
            Object::MovingSphere { center0, center1, time0, time1, radius, mat } => {
                let ca = moving_center_at(&center0, &center1, *time0, *time1, tm0);
                let cb = moving_center_at(&center0, &center1, *time0, *time1, tm1);
                if ca.within(WMAX) && cb.within(WMAX) {
                    let rv = Vec3::with_value(*radius);
                    let box0 = AABB::new(ca.minus(&rv), ca.plus(&rv));
                    let box1 = AABB::new(cb.minus(&rv), cb.plus(&rv));
                    Some(surrounding_box(&box0, &box1))
                } else {
                    None
                }
            },
            Object::XyRect { x0, x1, y0, y1, k, mat } => Some(
                AABB::new(
                    Vec3::with_values(*x0, *y0, *k - EPS_PAD),
                    Vec3::with_values(*x1, *y1, *k + EPS_PAD),
                ),
            ),
            Object::XzRect { x0, x1, z0, z1, k, mat } => Some(
                AABB::new(
                    Vec3::with_values(*x0, *k - EPS_PAD, *z0),
                    Vec3::with_values(*x1, *k + EPS_PAD, *z1),
                ),
            ),
            Object::YzRect { y0, y1, z0, z1, k, mat } => Some(
                AABB::new(
                    Vec3::with_values(*k - EPS_PAD, *y0, *z0),
                    Vec3::with_values(*k + EPS_PAD, *y1, *z1),
                ),
            ),
            Object::Cuboid { cuboid_min, cuboid_max, sides } => Some(
                AABB::new(*cuboid_min, *cuboid_max),
            ),
            Object::Translate { child, offset } => {
                match child.bounding_box(tm0, tm1) {
                    None => None,
                    Some(b) => {
                        let shifted = AABB::new(
                            b.minimum.plus(offset),
                            b.maximum.plus(offset),
                        );
                        if shifted.minimum.within(ABMAX) && shifted.maximum.within(ABMAX) {
                            Some(shifted)
                        } else {
                            None
                        }
                    },
                }
            },
            Object::RotateY { child, sin_theta, cos_theta, has_box, bbox } => {
                if *has_box {
                    Some(*bbox)
                } else {
                    None
                }
            },
            Object::ConstantMedium { boundary, phase, neg_inv_density } => boundary
                .bounding_box(tm0, tm1),
            Object::List { objects } => list_bounding_box(objects, tm0, tm1),
            Object::Bvh { left, right, bbox } => Some(*bbox),
        }
    }
}

/// The union of the boxes of a vector of objects, gathered from the last
/// member back to the first.
pub fn list_bounding_box(objects: &Vec<Object>, tm0: i128, tm1: i128) -> (res: Option<AABB>)
    requires
        seq_wf(objects@),
        -WMAX <= tm0 <= WMAX,
        -WMAX <= tm1 <= WMAX,
    ensures
        box_view(res) == seq_box(objects@, tm0 as int, tm1 as int),
        res matches Some(b) ==> aabb_wf(b@),
    decreases objects,
{
    let ghost s = objects@;
    let n = objects.len();
    if n == 0 {
        return None;
    }
    let mut i: usize = n;
    let mut out: Option<AABB> = None;
    while i > 0
        invariant
            0 <= i <= n,
            n == s.len(),
            s == objects@,
            seq_wf(s),
            -WMAX <= tm0 <= WMAX,
            -WMAX <= tm1 <= WMAX,
            i == n ==> out is None,
            i < n ==> (out matches Some(acc) && aabb_wf(acc@) && seq_box_from(
                s,
                i as int,
                tm0 as int,
                tm1 as int,
            ) == Option::Some(acc@)),
        decreases i,
    {
        i = i - 1;
        match objects[i].bounding_box(tm0, tm1) {
            None => {
                proof {
                    lemma_seq_box_from_none(s, 0, i as int, tm0 as int, tm1 as int);
                }
                return None;
            },
            Some(bi) => {
                if i == n - 1 {
                    out = Some(bi);
                } else {
                    let acc = out.unwrap();
                    out = Some(surrounding_box(&bi, &acc));
                }
            },
        }
    }
    out
}

/// The interpolated center of a moving sphere at time `t`.
pub fn moving_center_at(c0: &Vec3, c1: &Vec3, time0: i128, time1: i128, t: i128) -> (r: Vec3)
    requires
        bounded(c0@, WMAX as int),
        bounded(c1@, WMAX as int),
        -WMAX <= time0,
        time0 + SCALE <= time1,
        time1 <= WMAX,
        -WMAX <= t <= WMAX,
    ensures
        r@ == moving_center(c0@, c1@, time0 as int, time1 as int, t as int),
{
    let num: i128 = t - time0;
    let den: i128 = time1 - time0;
    proof {
        assert((num as int) * SCALE <= (2 * WMAX as int) * (den as int) && -((2 * WMAX as int)
            * (den as int)) <= (num as int) * SCALE) by (nonlinear_arith)
            requires -(2 * WMAX as int) <= num as int <= 2 * (WMAX as int) && SCALE as int
                <= den as int && SCALE as int == 65536;
        crate::fixed::lemma_fdiv_bounded((num as int) * SCALE, den as int, 2 * WMAX as int);
    }
    let frac = crate::fixed::fp_div(num, den);
    let diff = c1.minus(c0);
    proof {
        crate::vec3::lemma_scale_bound(
            frac as int,
            diff@,
            2 * WMAX as int,
            2 * WMAX as int,
            288230376151711744,
        );
    }
    let scaled = diff.scale(frac);
    c0.plus(&scaled)
}

/// A fixed-point quotient of a numerator within its denominator lies in
/// `[0, 1]`.
proof fn lemma_fquot_unit(num: int, den: int)
    requires
        0 <= num <= den,
        1 <= den,
    ensures
        0 <= fquot(num, den) <= SCALE,
{
    assert(num * SCALE <= (SCALE as int) * den && -((SCALE as int) * den) <= num * SCALE)
        by (nonlinear_arith)
        requires 0 <= num <= den && 1 <= den && SCALE as int == 65536;
    crate::fixed::lemma_fdiv_bounded(num * SCALE, den, SCALE as int);
    crate::fixed::lemma_fdiv_props(num * SCALE, den);
    assert(fquot(num, den) * den >= 0 ==> fquot(num, den) >= 0) by (nonlinear_arith)
        requires 1 <= den;
    assert(num * SCALE >= 0) by (nonlinear_arith)
        requires 0 <= num;
    assert(fquot(num, den) >= 0) by (nonlinear_arith)
        requires
            num * SCALE >= 0,
            num * SCALE < (fquot(num, den) + 1) * den,
            1 <= den;
}

/// Exec division for the unit-interval quotients of surface coordinates.
fn fquot_unit_e(num: i128, den: i128) -> (r: i128)
    requires
        0 <= num <= den,
        1 <= den <= 549755813888,
    ensures
        r == fquot(num as int, den as int),
        0 <= r <= SCALE,
{
    proof {
        lemma_fquot_unit(num as int, den as int);
    }
    crate::fixed::floor_div(num * SCALE, den)
}

/// The exec piecewise-rational azimuth; mirrors `diamond`.
fn diamond_e(y: i128, x: i128) -> (r: i128)
    requires
        -NORMB <= y <= NORMB,
        -NORMB <= x <= NORMB,
    ensures
        r == diamond(y as int, x as int),
        0 <= r <= 4 * SCALE,
{
    if x == 0 && y == 0 {
        0
    } else if y >= 0 && x >= 0 {
        fquot_unit_e(y, x + y)
    } else if y >= 0 {
        SCALE + fquot_unit_e(-x, (-x) + y)
    } else if x < 0 {
        2 * SCALE + fquot_unit_e(-y, (-x) + (-y))
    } else {
        3 * SCALE + fquot_unit_e(x, x + (-y))
    }
}

/// The exec sphere surface coordinates; mirrors `sphere_u` / `sphere_v`.
fn sphere_uv_e(n: &Vec3) -> (r: (i128, i128))
    requires
        bounded(n@, NORMB as int),
    ensures
        r.0 == sphere_u(n@),
        r.1 == sphere_v(n@),
        0 <= r.0 <= SCALE,
        0 <= r.1 <= SCALE,
{
    let d = diamond_e(-n.e2, n.e0);
    proof {
        crate::fixed::lemma_fdiv_bounded(d as int, 4, SCALE as int);
        crate::fixed::lemma_fdiv_props(d as int, 4);
        assert(crate::fixed::fdiv(d as int, 4) >= 0) by (nonlinear_arith)
            requires
                0 <= d as int,
                crate::fixed::fdiv(d as int, 4) * 4 <= d as int,
                (d as int) < (crate::fixed::fdiv(d as int, 4) + 1) * 4;
    }
    let u0 = crate::fixed::floor_div(d, 4) + SCALE / 2;
    let u = if u0 >= SCALE {
        u0 - SCALE
    } else {
        u0
    };
    let cy: i128 = if n.e1 > SCALE {
        SCALE
    } else if n.e1 < -SCALE {
        -SCALE
    } else {
        n.e1
    };
    proof {
        crate::fixed::lemma_fdiv_bounded(SCALE as int + cy as int, 2, SCALE as int);
        crate::fixed::lemma_fdiv_props(SCALE as int + cy as int, 2);
        assert(crate::fixed::fdiv(SCALE as int + cy as int, 2) >= 0) by (nonlinear_arith)
            requires
                0 <= SCALE as int + cy as int,
                crate::fixed::fdiv(SCALE as int + cy as int, 2) * 2 <= SCALE as int
                    + cy as int,
                (SCALE as int + cy as int) < (crate::fixed::fdiv(SCALE as int + cy as int, 2)
                    + 1) * 2;
    }
    let v = crate::fixed::floor_div(SCALE + cy, 2);
    (u, v)
}

/// The exec quadratic sphere intersection; mirrors `sphere_hit`.
pub fn sphere_hit_e(
    center: &Vec3,
    radius: i128,
    mat: &Arc<Material>,
    ray: &Ray,
    t_min: i128,
    t_max: i128,
) -> (res: Option<HitRecord>)
    requires
        bounded(center@, WMAX as int),
        1 <= radius <= WMAX,
        material_wf(**mat),
        ray_wf(ray@),
        -WMAX <= t_min <= WMAX,
        -WMAX <= t_max <= WMAX,
    ensures
        rec_view(res) == sphere_hit(
            center@,
            radius as int,
            **mat,
            ray@,
            t_min as int,
            t_max as int,
        ),
        res matches Some(r) ==> hit_wf(r@) && t_min <= r.t <= t_max && r@.mat == **mat,
{
    let oc = ray.origin.minus(center);
    let dir = ray.direction;
    proof {
        crate::vec3::lemma_dot_bound(dir@, dir@, DMAX as int, DMAX as int,
            3458764513820540928);
        crate::vec3::lemma_dot_bound(oc@, dir@, 2 * WMAX as int, DMAX as int,
            1729382256910270464);
        crate::vec3::lemma_dot_bound(oc@, oc@, 2 * WMAX as int, 2 * WMAX as int,
            864691128455135232);
        assert(radius as int * (radius as int) <= (WMAX as int) * (WMAX as int) && 0
            <= radius as int * (radius as int)) by (nonlinear_arith)
            requires 1 <= radius as int <= WMAX as int;
        assert((WMAX as int) * (WMAX as int) <= 72057594037927936 * (SCALE as int));
        crate::fixed::lemma_fdiv_bounded(radius as int * (radius as int), SCALE as int,
            72057594037927936);
    }
    let a = dir.length_squared();
    let half_b = crate::vec3::dot(&oc, &dir);
    let c = oc.length_squared() - crate::fixed::fp_mul(radius, radius);
    proof {
        assert(half_b as int * (half_b as int) <= 81129638414606681695789005144064 * (
        SCALE as int) && -(81129638414606681695789005144064 * (SCALE as int)) <= half_b
            as int * (half_b as int)) by (nonlinear_arith)
            requires -1729382256910270464 <= half_b as int <= 1729382256910270464
                && SCALE as int == 65536;
        crate::fixed::lemma_fdiv_bounded(half_b as int * (half_b as int), SCALE as int,
            81129638414606681695789005144064);
        assert(a as int * (c as int) <= 81129638414606681695789005144064 * (SCALE as int)
            && -(81129638414606681695789005144064 * (SCALE as int)) <= a as int * (c as int))
            by (nonlinear_arith)
            requires -3458764513820540928 <= a as int <= 3458764513820540928
                && -1152921504606846976 <= c as int <= 1152921504606846976 && SCALE as int
                == 65536;
        crate::fixed::lemma_fdiv_bounded(a as int * (c as int), SCALE as int,
            81129638414606681695789005144064);
    }
    let disc = crate::fixed::fp_mul(half_b, half_b) - crate::fixed::fp_mul(a, c);
    if disc < 0 || a <= 0 {
        return None;
    }
    let sq = crate::fixed::fp_sqrt(disc);
    proof {
        assert(sq <= 4611686018427387904) by (nonlinear_arith)
            requires
                0 <= sq,
                sq * sq <= disc * SCALE,
                0 <= disc <= 2 * 81129638414606681695789005144064,
                SCALE as int == 65536;
    }
    let r1 = crate::fixed::fp_div(-half_b - sq, a);
    let r2 = crate::fixed::fp_div(-half_b + sq, a);
    if let Some(rec) = sphere_try_root(center, radius, mat, ray, t_min, t_max, r1) {
        return Some(rec);
    }
    if let Some(rec) = sphere_try_root(center, radius, mat, ray, t_min, t_max, r2) {
        return Some(rec);
    }
    None
}

/// Test one quadratic root against the interval and the world guards, and
/// build the record when it is accepted; mirrors `sphere_root_ok` and
/// `sphere_make_hit`.
fn sphere_try_root(
    center: &Vec3,
    radius: i128,
    mat: &Arc<Material>,
    ray: &Ray,
    t_min: i128,
    t_max: i128,
    root: i128,
) -> (res: Option<HitRecord>)
    requires
        bounded(center@, WMAX as int),
        1 <= radius <= WMAX,
        material_wf(**mat),
        ray_wf(ray@),
        -WMAX <= t_min <= WMAX,
        -WMAX <= t_max <= WMAX,
    ensures
        res is Some <==> sphere_root_ok(
            center@,
            radius as int,
            ray@,
            root as int,
            t_min as int,
            t_max as int,
        ),
        res matches Some(r) ==> r@ == sphere_make_hit(
            center@,
            radius as int,
            **mat,
            ray@,
            root as int,
        ) && hit_wf(r@) && t_min <= r.t <= t_max && r@.mat == **mat,
{
    if root < t_min || t_max < root {
        return None;
    }
    proof {
        crate::vec3::lemma_scale_bound(root as int, ray@.dir, WMAX as int, DMAX as int,
            288230376151711744);
    }
    let p = ray.at(root);
    if !p.within(WMAX) {
        return None;
    }
    let diffp = p.minus(center);
    proof {
        crate::fixed::lemma_fdiv_bounded(diffp@.x * SCALE, radius as int,
            9007199254740992);
        crate::fixed::lemma_fdiv_bounded(diffp@.y * SCALE, radius as int,
            9007199254740992);
        crate::fixed::lemma_fdiv_bounded(diffp@.z * SCALE, radius as int,
            9007199254740992);
        assert(diffp@.x * SCALE <= 9007199254740992 * (radius as int) && -(9007199254740992 * (
        radius as int)) <= diffp@.x * SCALE && diffp@.y * SCALE <= 9007199254740992 * (
        radius as int) && -(9007199254740992 * (radius as int)) <= diffp@.y * SCALE && diffp@.z
            * SCALE <= 9007199254740992 * (radius as int) && -(9007199254740992 * (
        radius as int)) <= diffp@.z * SCALE) by (nonlinear_arith)
            requires bounded(diffp@, 2 * WMAX as int) && 1 <= radius as int && SCALE as int
                == 65536 && WMAX as int == 68719476736;
    }
    let outward = Vec3 {
        e0: crate::fixed::floor_div(diffp.e0 * SCALE, radius),
        e1: crate::fixed::floor_div(diffp.e1 * SCALE, radius),
        e2: crate::fixed::floor_div(diffp.e2 * SCALE, radius),
    };
    proof {
        assert(outward@ == vdiv_scalar(vsub(ray_at(ray@, root as int), center@),
            radius as int));
    }
    if !outward.within(NORMB) {
        return None;
    }
    let olsq = outward.length_squared();
    if olsq > 2 * SCALE {
        return None;
    }
    let (front, normal) = crate::hit::face_normal(ray, &outward);
    let (u, v) = sphere_uv_e(&outward);
    proof {
        assert(vlsq(crate::vec3::vneg(outward@)) == vlsq(outward@)) by {
            let w = outward@;
            assert((-w.x) * (-w.x) == w.x * w.x && (-w.y) * (-w.y) == w.y * w.y && (-w.z) * (
            -w.z) == w.z * w.z) by (nonlinear_arith);
        }
    }
    Some(
        HitRecord {
            p,
            normal,
            mat: crate::material::arc_clone(mat),
            t: root,
            u,
            v,
            front_face: front,
        },
    )
}

/// Read one component of a vector by axis index.
fn get_comp(v: &Vec3, a: usize) -> (r: i128)
    requires
        a < 3,
    ensures
        r == crate::aabb::comp(v@, a as int),
{
    if a == 0 {
        v.e0
    } else if a == 1 {
        v.e1
    } else {
        v.e2
    }
}

/// The exec axis-aligned rectangle intersection; mirrors `rect_hit`.
fn rect_hit_e(
    ax: usize,
    ay: usize,
    az: usize,
    x0: i128,
    x1: i128,
    y0: i128,
    y1: i128,
    k: i128,
    nrm: Vec3,
    mat: &Arc<Material>,
    ray: &Ray,
    t_min: i128,
    t_max: i128,
) -> (res: Option<HitRecord>)
    requires
        ax < 3,
        ay < 3,
        az < 3,
        -WMAX <= x0 < x1 <= WMAX,
        -WMAX <= y0 < y1 <= WMAX,
        -WMAX <= k <= WMAX,
        bounded(nrm@, NORMB as int),
        vlsq(nrm@) <= 2 * SCALE,
        material_wf(**mat),
        ray_wf(ray@),
        -WMAX <= t_min <= WMAX,
        -WMAX <= t_max <= WMAX,
    ensures
        rec_view(res) == rect_hit(
            ax as int,
            ay as int,
            az as int,
            x0 as int,
            x1 as int,
            y0 as int,
            y1 as int,
            k as int,
            **mat,
            nrm@,
            ray@,
            t_min as int,
            t_max as int,
        ),
        res matches Some(r) ==> hit_wf(r@) && t_min <= r.t <= t_max && r@.mat == **mat,
{
    let oz = get_comp(&ray.origin, az);
    let dz = get_comp(&ray.direction, az);
    if dz == 0 {
        return None;
    }
    let t = crate::fixed::fp_div(k - oz, dz);
    if t < t_min || t > t_max {
        return None;
    }
    proof {
        crate::vec3::lemma_scale_bound(t as int, ray@.dir, WMAX as int, DMAX as int,
            288230376151711744);
    }
    let p = ray.at(t);
    let x = get_comp(&p, ax);
    let y = get_comp(&p, ay);
    if x < x0 || x > x1 || y < y0 || y > y1 || !p.within(WMAX) {
        return None;
    }
    let u = fquot_unit_e(x - x0, x1 - x0);
    let v = fquot_unit_e(y - y0, y1 - y0);
    let (front, normal) = crate::hit::face_normal(ray, &nrm);
    proof {
        crate::vec3::lemma_vlsq_nonneg(nrm@);
        assert(vlsq(crate::vec3::vneg(nrm@)) == vlsq(nrm@)) by {
            let w = nrm@;
            assert((-w.x) * (-w.x) == w.x * w.x && (-w.y) * (-w.y) == w.y * w.y && (-w.z) * (
            -w.z) == w.z * w.z) by (nonlinear_arith);
        }
    }
    Some(
        HitRecord {
            p,
            normal,
            mat: crate::material::arc_clone(mat),
            t,
            u,
            v,
            front_face: front,
        },
    )
}

/// The exec linear scan of a vector of objects, keeping the closest hit by
/// shrinking the far bound; mirrors `scan_from` at index zero.
pub fn scan_objects(objects: &Vec<Object>, ray: &Ray, t_min: i128, t_max: i128) -> (res:
    Option<HitRecord>)
    requires
        seq_wf(objects@),
        ray_wf(ray@),
        -WMAX <= t_min <= WMAX,
        -WMAX <= t_max <= WMAX,
    ensures
        seq_deterministic(objects@) ==> rec_view(res) == scan_from(
            objects@,
            0,
            ray@,
            t_min as int,
            t_max as int,
        ),
        res matches Some(r) ==> hit_wf(r@) && t_min <= r.t <= t_max,
    decreases objects,
{
    let ghost s = objects@;
    let n = objects.len();
    let mut best: Option<HitRecord> = None;
    let mut closest: i128 = t_max;
    let mut i: usize = 0;
    while i < n
        invariant
            0 <= i <= n,
            n == s.len(),
            s == objects@,
            seq_wf(s),
            ray_wf(ray@),
            -WMAX <= t_min <= WMAX,
            -WMAX <= t_max <= WMAX,
            best is None ==> closest == t_max,
            best matches Some(r) ==> hit_wf(r@) && t_min <= r.t <= t_max && closest == r.t,
            -WMAX <= closest <= WMAX,
            seq_deterministic(s) ==> scan_from(s, 0, ray@, t_min as int, t_max as int) == (
            match scan_from(s, i as int, ray@, t_min as int, closest as int) {
                Option::Some(h2) => Option::Some(h2),
                Option::None => rec_view(best),
            }),
        decreases n - i,
    {
        let ghost old_best = best;
        let ghost old_closest = closest;
        match objects[i].hit(ray, t_min, closest) {
            None => {
                proof {
                    if seq_deterministic(s) {
                        assert(deterministic(s[i as int]));
                        assert(object_hit(s[i as int], ray@, t_min as int, old_closest as int)
                            is None);
                        assert(scan_from(s, i as int, ray@, t_min as int, old_closest as int)
                            == scan_from(s, i as int + 1, ray@, t_min as int,
                        old_closest as int));
                    }
                }
            },
            Some(rec) => {
                proof {
                    if seq_deterministic(s) {
                        assert(deterministic(s[i as int]));
                        assert(object_hit(s[i as int], ray@, t_min as int, old_closest as int)
                            == Option::Some(rec@));
                        assert(scan_from(s, i as int, ray@, t_min as int, old_closest as int)
                            == (match scan_from(s, i as int + 1, ray@, t_min as int,
                        rec@.t) {
                            Option::Some(h2) => Option::Some(h2),
                            Option::None => Option::Some(rec@),
                        }));
                    }
                }
                closest = rec.t;
                best = Some(rec);
            },
        }
        i = i + 1;
    }
    proof {
        assert(scan_from(s, n as int, ray@, t_min as int, closest as int) is None);
    }
    best
}

impl Object {
    /// Intersect a ray with this object inside the parameter interval
    /// `[t_min, t_max]`.  For every object free of participating media the
    /// result is exactly the deterministic semantics `object_hit`; a medium
    /// draws a random free-flight distance, and its result is constrained
    /// only by the general guarantees: any hit is well formed, lies in the
    /// interval, and carries the medium's phase material.
    pub fn hit(&self, ray: &Ray, t_min: i128, t_max: i128) -> (res: Option<HitRecord>)
        requires
            object_wf(*self),
            ray_wf(ray@),
            -WMAX <= t_min <= WMAX,
            -WMAX <= t_max <= WMAX,
        ensures
            deterministic(*self) ==> rec_view(res) == object_hit(
                *self,
                ray@,
                t_min as int,
                t_max as int,
            ),
            res matches Some(r) ==> hit_wf(r@) && t_min <= r.t <= t_max,
        decreases *self, 1int,
    {
        match self {
            Object::Sphere { center, radius, mat } => sphere_hit_e(
                center,
                *radius,
                mat,
                ray,
                t_min,
                t_max,
            ),
            Object::MovingSphere { center0, center1, time0, time1, radius, mat } => {
                let c = moving_center_at(center0, center1, *time0, *time1, ray.time);
                if c.within(WMAX) {
                    sphere_hit_e(&c, *radius, mat, ray, t_min, t_max)
                } else {
                    None
                }
            },
            Object::XyRect { x0, x1, y0, y1, k, mat } => {
                let nrm = Vec3::with_values(0, 0, SCALE);
                proof {
                    lemma_unit_axis_lsq(nrm@);
                }
                rect_hit_e(0, 1, 2, *x0, *x1, *y0, *y1, *k, nrm, mat, ray, t_min, t_max)
            },
            Object::XzRect { x0, x1, z0, z1, k, mat } => {
                let nrm = Vec3::with_values(0, SCALE, 0);
                proof {
                    lemma_unit_axis_lsq(nrm@);
                }
                rect_hit_e(0, 2, 1, *x0, *x1, *z0, *z1, *k, nrm, mat, ray, t_min, t_max)
            },
            Object::YzRect { y0, y1, z0, z1, k, mat } => {
                let nrm = Vec3::with_values(SCALE, 0, 0);
                proof {
                    lemma_unit_axis_lsq(nrm@);
                }
                rect_hit_e(1, 2, 0, *y0, *y1, *z0, *z1, *k, nrm, mat, ray, t_min, t_max)
            },
            Object::Cuboid { cuboid_min, cuboid_max, sides } => scan_objects(
                sides,
                ray,
                t_min,
                t_max,
            ),
            Object::Translate { child, offset } => {
                let moved = Ray::new(
                    ray.origin.minus(offset),
                    ray.direction,
                    ray.time,
                );
                if !moved.origin.within(WMAX) {
                    return None;
                }
                match child.hit(&moved, t_min, t_max) {
                    None => None,
                    Some(rec) => {
                        let p2 = rec.p.plus(offset);
                        if !p2.within(WMAX) {
                            return None;
                        }
                        let (front, normal) = crate::hit::face_normal(&moved, &rec.normal);
                        proof {
                            lemma_vneg_lsq(rec@.normal);
                        }
                        Some(
                            HitRecord {
                                p: p2,
                                normal,
                                mat: rec.mat,
                                t: rec.t,
                                u: rec.u,
                                v: rec.v,
                                front_face: front,
                            },
                        )
                    },
                }
            },
            Object::RotateY { child, sin_theta, cos_theta, has_box, bbox } => {
                let ro = rot_fwd_e(*cos_theta, *sin_theta, &ray.origin, WMAX);
                let rd = rot_fwd_e(*cos_theta, *sin_theta, &ray.direction, DMAX);
                if !ro.within(WMAX) || !rd.within(DMAX) {
                    return None;
                }
                let rotated = Ray::new(ro, rd, ray.time);
                match child.hit(&rotated, t_min, t_max) {
                    None => None,
                    Some(rec) => {
                        let p2 = rot_bwd_e(*cos_theta, *sin_theta, &rec.p, WMAX);
                        let n2 = rot_bwd_e(*cos_theta, *sin_theta, &rec.normal, NORMB);
                        if !p2.within(WMAX) || !n2.within(NORMB) {
                            return None;
                        }
                        let nlsq = n2.length_squared();
                        if nlsq > 2 * SCALE {
                            return None;
                        }
                        let (front, normal) = crate::hit::face_normal(&rotated, &n2);
                        proof {
                            lemma_vneg_lsq(n2@);
                        }
                        Some(
                            HitRecord {
                                p: p2,
                                normal,
                                mat: rec.mat,
                                t: rec.t,
                                u: rec.u,
                                v: rec.v,
                                front_face: front,
                            },
                        )
                    },
                }
            },
            Object::ConstantMedium { boundary, phase, neg_inv_density } => medium_hit(
                boundary,
                phase,
                *neg_inv_density,
                ray,
                t_min,
                t_max,
            ),
            Object::List { objects } => scan_objects(objects, ray, t_min, t_max),
            Object::Bvh { left, right, bbox } => {
                if !bbox.hit(ray, t_min, t_max) {
                    return None;
                }
                match left.hit(ray, t_min, t_max) {
                    Some(hl) => match right.hit(ray, t_min, hl.t) {
                        Some(hr) => Some(hr),
                        None => Some(hl),
                    },
                    None => right.hit(ray, t_min, t_max),
                }
            },
        }
    }
}

/// The squared length of a unit axis vector is exactly one.
proof fn lemma_unit_axis_lsq(n: V3)
    requires
        (n.x == SCALE || n.x == 0) && (n.y == SCALE || n.y == 0) && (n.z == SCALE || n.z == 0),
        n.x + n.y + n.z == SCALE,
    ensures
        vlsq(n) == SCALE,
        bounded(n, NORMB as int),
{
    assert(n.x * n.x + n.y * n.y + n.z * n.z == (SCALE as int) * (SCALE as int))
        by (nonlinear_arith)
        requires (n.x == SCALE as int || n.x == 0) && (n.y == SCALE as int || n.y == 0) && (
        n.z == SCALE as int || n.z == 0) && n.x + n.y + n.z == SCALE as int;
    crate::fixed::lemma_fdiv_exact(SCALE as int, SCALE as int);
    assert((SCALE as int) * (SCALE as int) == (SCALE as int) * (SCALE as int));
}

/// Negation preserves the squared length.
proof fn lemma_vneg_lsq(v: V3)
    ensures
        vlsq(crate::vec3::vneg(v)) == vlsq(v),
{
    assert((-v.x) * (-v.x) == v.x * v.x && (-v.y) * (-v.y) == v.y * v.y && (-v.z) * (-v.z)
        == v.z * v.z) by (nonlinear_arith);
}

/// The exec forward rotation about the y axis; mirrors `rot_fwd`.
fn rot_fwd_e(c: i128, s: i128, v: &Vec3, vb: i128) -> (r: Vec3)
    requires
        -SCALE <= c <= SCALE,
        -SCALE <= s <= SCALE,
        bounded(v@, vb as int),
        0 < vb <= ABMAX,
    ensures
        r@ == rot_fwd(c as int, s as int, v@),
{
    proof {
        lemma_rot_terms(c as int, s as int, v@, vb as int);
    }
    Vec3 {
        e0: crate::fixed::fp_mul(c, v.e0) - crate::fixed::fp_mul(s, v.e2),
        e1: v.e1,
        e2: crate::fixed::fp_mul(s, v.e0) + crate::fixed::fp_mul(c, v.e2),
    }
}

/// The exec backward rotation about the y axis; mirrors `rot_bwd`.
fn rot_bwd_e(c: i128, s: i128, v: &Vec3, vb: i128) -> (r: Vec3)
    requires
        -SCALE <= c <= SCALE,
        -SCALE <= s <= SCALE,
        bounded(v@, vb as int),
        0 < vb <= ABMAX,
    ensures
        r@ == rot_bwd(c as int, s as int, v@),
{
    proof {
        lemma_rot_terms(c as int, s as int, v@, vb as int);
    }
    Vec3 {
        e0: crate::fixed::fp_mul(c, v.e0) + crate::fixed::fp_mul(s, v.e2),
        e1: v.e1,
        e2: -crate::fixed::fp_mul(s, v.e0) + crate::fixed::fp_mul(c, v.e2),
    }
}

/// Scaling by a factor within one unit cannot grow a component beyond its
/// own bound.
proof fn lemma_rot_terms(c: int, s: int, v: V3, vb: int)
    requires
        -SCALE <= c <= SCALE,
        -SCALE <= s <= SCALE,
        bounded(v, vb),
        0 < vb <= ABMAX,
    ensures
        -vb <= fmul(c, v.x) <= vb,
        -vb <= fmul(s, v.x) <= vb,
        -vb <= fmul(c, v.z) <= vb,
        -vb <= fmul(s, v.z) <= vb,
{
    assert(c * v.x <= vb * (SCALE as int) && -(vb * (SCALE as int)) <= c * v.x && s * v.x
        <= vb * (SCALE as int) && -(vb * (SCALE as int)) <= s * v.x && c * v.z <= vb * (
    SCALE as int) && -(vb * (SCALE as int)) <= c * v.z && s * v.z <= vb * (SCALE as int)
        && -(vb * (SCALE as int)) <= s * v.z) by (nonlinear_arith)
        requires -SCALE <= c <= SCALE && -SCALE <= s <= SCALE && bounded(v, vb) && 0 < vb;
    crate::fixed::lemma_fdiv_bounded(c * v.x, SCALE as int, vb);
    crate::fixed::lemma_fdiv_bounded(s * v.x, SCALE as int, vb);
    crate::fixed::lemma_fdiv_bounded(c * v.z, SCALE as int, vb);
    crate::fixed::lemma_fdiv_bounded(s * v.z, SCALE as int, vb);
}

/// The entry/exit interval a constant medium's deterministic prelude
/// yields: the two boundary crossings, clipped to the query interval and
/// to nonnegative parameters; `None` on every deterministic failure (the
/// boundary missed outright, no second crossing, or an empty clipped
/// interval).
pub open spec fn medium_entry_exit(
    boundary: Object,
    rg: Rayg,
    t0: int,
    t1: int,
) -> Option<(int, int)> {
    match object_hit(boundary, rg, -WMAX as int, WMAX as int) {
        Option::None => Option::None,
        Option::Some(h1) => if h1.t + 7 > WMAX {
            Option::None
        } else {
            match object_hit(boundary, rg, h1.t + 7, WMAX as int) {
                Option::None => Option::None,
                Option::Some(h2) => {
                    let e0 = if h1.t < t0 {
                        t0
                    } else {
                        h1.t
                    };
                    let x0 = if h2.t > t1 {
                        t1
                    } else {
                        h2.t
                    };
                    if e0 >= x0 {
                        Option::None
                    } else {
                        let e1 = if e0 < 0 {
                            0
                        } else {
                            e0
                        };
                        if e1 >= x0 {
                            Option::None
                        } else {
                            Option::Some((e1, x0))
                        }
                    }
                },
            }
        },
    }
}

/// What a constant medium returns once its free-flight value `nl` (the
/// negated log of the uniform draw) is fixed: a hit at
/// `entry + ((-1/density) * nl) / |direction|` when that flight ends
/// inside the boundary and the point stays representable, else nothing.
pub open spec fn medium_sample_hit(
    entry: int,
    exit: int,
    rg: Rayg,
    niv: int,
    nl: int,
    phase: Material,
    t0: int,
    t1: int,
) -> Option<HitInfo> {
    let len = crate::vec3::vlen(rg.dir);
    if len == 0 {
        Option::None
    } else {
        let dist = crate::fixed::fdiv((exit - entry) * len, SCALE as int);
        let hd = fmul(-niv, nl);
        if hd > dist {
            Option::None
        } else {
            let t = entry + crate::fixed::fdiv(hd * SCALE, len);
            if t < t0 || t > t1 {
                Option::None
            } else {
                let p = ray_at(rg, t);
                if !bounded(p, WMAX as int) {
                    Option::None
                } else {
                    Option::Some(
                        HitInfo {
                            p: p,
                            normal: V3 { x: SCALE as int, y: 0, z: 0 },
                            mat: phase,
                            t: t,
                            u: 0,
                            v: 0,
                            front_face: true,
                        },
                    )
                }
            }
        }
    }
}

/// The flight step of a constant medium, taking the drawn free-flight
/// value as an argument: exactly `medium_sample_hit`.
fn medium_flight_e(
    entry: i128,
    exit: i128,
    ray: &Ray,
    neg_inv_density: i128,
    nl: i128,
    phase: &Arc<Material>,
    t_min: i128,
    t_max: i128,
) -> (res: Option<HitRecord>)
    requires
        0 <= entry < exit <= WMAX,
        -WMAX <= neg_inv_density < 0,
        0 <= nl <= 772242,
        material_wf(**phase),
        ray_wf(ray@),
        -WMAX <= t_min <= WMAX,
        -WMAX <= t_max <= WMAX,
    ensures
        rec_view(res) == medium_sample_hit(
            entry as int,
            exit as int,
            ray@,
            neg_inv_density as int,
            nl as int,
            **phase,
            t_min as int,
            t_max as int,
        ),
        res matches Some(r) ==> hit_wf(r@) && t_min <= r.t <= t_max,
{
    proof {
        crate::vec3::lemma_vlsq_nonneg(ray@.dir);
        crate::fixed::lemma_fsqrt_props(vlsq(ray@.dir));
        crate::vec3::lemma_dot_bound(ray@.dir, ray@.dir, DMAX as int, DMAX as int,
            3458764513820540928);
    }
    let ray_length = ray.direction.length();
    if ray_length == 0 {
        return None;
    }
    proof {
        assert(ray_length <= 2000000000000) by (nonlinear_arith)
            requires
                0 <= ray_length,
                ray_length * ray_length <= vlsq(ray@.dir) * SCALE,
                vlsq(ray@.dir) <= 3458764513820540928,
                SCALE as int == 65536;
        assert((exit - entry) as int * (ray_length as int) >= 0 && (exit - entry) as int * (
        ray_length as int) <= 137438953472 * 2000000000000) by (nonlinear_arith)
            requires 0 <= (exit - entry) as int <= 2 * (WMAX as int) && 0 <= ray_length
                as int <= 2000000000000 && WMAX as int == 68719476736;
        crate::fixed::lemma_fdiv_bounded((exit - entry) as int * (ray_length as int),
            SCALE as int, 4194304000000000000);
    }
    let distance_inside = crate::fixed::floor_div((exit - entry) * ray_length, SCALE);
    proof {
        assert((-neg_inv_density) as int * (nl as int) >= 0 && (-neg_inv_density) as int * (
        nl as int) <= (WMAX as int) * (17 * crate::fixed::LN2_FX as int))
            by (nonlinear_arith)
            requires 0 < (-neg_inv_density) as int <= WMAX as int && 0 <= nl as int <= 17
                * (crate::fixed::LN2_FX as int);
        crate::fixed::lemma_fdiv_bounded((-neg_inv_density) as int * (nl as int),
            SCALE as int, 810390077440);
        assert((WMAX as int) * (17 * crate::fixed::LN2_FX as int) <= 810390077440 * (
        SCALE as int));
    }
    let hit_distance = crate::fixed::fp_mul(-neg_inv_density, nl);
    if hit_distance > distance_inside {
        return None;
    }
    let offset = crate::fixed::floor_div(hit_distance * SCALE, ray_length);
    let t = entry + offset;
    if t < t_min || t > t_max {
        return None;
    }
    proof {
        crate::vec3::lemma_scale_bound(t as int, ray@.dir, WMAX as int, DMAX as int,
            288230376151711744);
    }
    let p = ray.at(t);
    if !p.within(WMAX) {
        return None;
    }
    let nrm = Vec3::with_values(SCALE, 0, 0);
    proof {
        lemma_unit_axis_lsq(nrm@);
    }
    Some(
        HitRecord {
            p,
            normal: nrm,
            mat: crate::material::arc_clone(phase),
            t,
            u: 0,
            v: 0,
            front_face: true,
        },
    )
}

/// The stochastic intersection of a constant-density medium: the two
/// boundary crossings clipped to the interval, then an exponential
/// free-flight draw against the distance inside.  The clipping is fully
/// deterministic: when the boundary is free of media it fails exactly when
/// `medium_entry_exit` says so, and any returned hit is the flight step's
/// result for the value the draw produced.
fn medium_hit(
    boundary: &Box<Object>,
    phase: &Arc<Material>,
    neg_inv_density: i128,
    ray: &Ray,
    t_min: i128,
    t_max: i128,
) -> (res: Option<HitRecord>)
    requires
        object_wf(**boundary),
        material_wf(**phase),
        -WMAX <= neg_inv_density < 0,
        ray_wf(ray@),
        -WMAX <= t_min <= WMAX,
        -WMAX <= t_max <= WMAX,
    ensures
        res matches Some(r) ==> hit_wf(r@) && t_min <= r.t <= t_max,
        deterministic(**boundary) && medium_entry_exit(
            **boundary,
            ray@,
            t_min as int,
            t_max as int,
        ) is None ==> res is None,
        deterministic(**boundary) ==> (medium_entry_exit(
            **boundary,
            ray@,
            t_min as int,
            t_max as int,
        ) matches Some(ee) ==> exists|nl: int|
            0 <= nl <= 772242 && rec_view(res) == #[trigger] medium_sample_hit(
                ee.0,
                ee.1,
                ray@,
                neg_inv_density as int,
                nl,
                **phase,
                t_min as int,
                t_max as int,
            )),
    decreases **boundary, 2int,
{
    let ghost det = deterministic(**boundary);
    let ghost gee = medium_entry_exit(**boundary, ray@, t_min as int, t_max as int);
    let rec1 = match boundary.hit(ray, -WMAX, WMAX) {
        None => {
            proof {
                if det {
                    assert(gee is None);
                }
            }
            return None;
        },
        Some(r) => r,
    };
    if rec1.t + 7 > WMAX {
        proof {
            if det {
                assert(gee is None);
            }
        }
        return None;
    }
    let rec2 = match boundary.hit(ray, rec1.t + 7, WMAX) {
        None => {
            proof {
                if det {
                    assert(gee is None);
                }
            }
            return None;
        },
        Some(r) => r,
    };
    let mut t1: i128 = rec1.t;
    let mut t2: i128 = rec2.t;
    if t1 < t_min {
        t1 = t_min;
    }
    if t2 > t_max {
        t2 = t_max;
    }
    if t1 >= t2 {
        proof {
            if det {
                assert(gee is None);
            }
        }
        return None;
    }
    if t1 < 0 {
        t1 = 0;
    }
    if t1 >= t2 {
        proof {
            if det {
                assert(gee is None);
            }
        }
        return None;
    }
    proof {
        if det {
            assert(medium_entry_exit(**boundary, ray@, t_min as int, t_max as int)
                == Option::Some((t1 as int, t2 as int)));
        }
    }
    let u = crate::rng::rand_range(1, SCALE + 1);
    let nl = crate::fixed::neg_ln_unit(u);
    let res = medium_flight_e(t1, t2, ray, neg_inv_density, nl, phase, t_min, t_max);
    proof {
        if det {
            match gee {
                Option::Some(ee) => {
                    assert(ee.0 == t1 as int && ee.1 == t2 as int);
                    assert(0 <= nl as int <= 772242 && rec_view(res) == medium_sample_hit(
                        ee.0,
                        ee.1,
                        ray@,
                        neg_inv_density as int,
                        nl as int,
                        **phase,
                        t_min as int,
                        t_max as int,
                    ));
                },
                Option::None => {},
            }
        }
    }
    res
}

/// One corner of a box, selected axiswise: flag 0 picks the minimum.
pub open spec fn corner_of(b: Aabbg, i: int, j: int, k: int) -> V3 {
    V3 {
        x: if i == 0 {
            b.min.x
        } else {
            b.max.x
        },
        y: if j == 0 {
            b.min.y
        } else {
            b.max.y
        },
        z: if k == 0 {
            b.min.z
        } else {
            b.max.z
        },
    }
}

/// Whether a corner of the child's box, rotated about the y axis, lies
/// inside the cached box `bb`.
pub open spec fn rotated_corner_in(c: int, sn: int, b: Aabbg, bb: Aabbg, i: int, j: int, k: int) -> bool {
    let p = corner_of(b, i, j, k);
    let nx = fmul(c, p.x) + fmul(sn, p.z);
    let nz = -fmul(sn, p.x) + fmul(c, p.z);
    &&& bb.min.x <= nx <= bb.max.x
    &&& bb.min.y <= p.y <= bb.max.y
    &&& bb.min.z <= nz <= bb.max.z
}

impl Object {
    /// A sphere from its center, radius and material.
    pub fn sphere(center: Point3, radius: i128, mat: &Arc<Material>) -> (r: Object)
        requires
            bounded(center@, WMAX as int),
            1 <= radius <= WMAX,
            material_wf(**mat),
        ensures
            object_wf(r),
            r matches Object::Sphere { center: c, radius: rad, mat: m } && c == center && rad
                == radius && *m == **mat,
    {
        Object::Sphere { center, radius, mat: crate::material::arc_clone(mat) }
    }

    /// A sphere whose center moves linearly between two keyframes.
    pub fn moving_sphere(
        center0: Point3,
        center1: Point3,
        time0: i128,
        time1: i128,
        radius: i128,
        mat: &Arc<Material>,
    ) -> (r: Object)
        requires
            bounded(center0@, WMAX as int),
            bounded(center1@, WMAX as int),
            1 <= radius <= WMAX,
            -WMAX <= time0,
            time0 + SCALE <= time1,
            time1 <= WMAX,
            material_wf(**mat),
        ensures
            object_wf(r),
            r matches Object::MovingSphere {
                center0: c0,
                center1: c1,
                time0: u0,
                time1: u1,
                radius: rad,
                mat: m,
            } && c0 == center0 && c1 == center1 && u0 == time0 && u1 == time1 && rad == radius
                && *m == **mat,
    {
        Object::MovingSphere {
            center0,
            center1,
            time0,
            time1,
            radius,
            mat: crate::material::arc_clone(mat),
        }
    }

    /// A rectangle in the plane `z == k`.
    pub fn xy_rect(x0: i128, x1: i128, y0: i128, y1: i128, k: i128, mat: &Arc<Material>) -> (
        r: Object)
        requires
            -WMAX <= x0 < x1 <= WMAX,
            -WMAX <= y0 < y1 <= WMAX,
            -WMAX <= k <= WMAX,
            material_wf(**mat),
        ensures
            object_wf(r),
            r matches Object::XyRect { x0: a0, x1: a1, y0: b0, y1: b1, k: kk, mat: m } && a0
                == x0 && a1 == x1 && b0 == y0 && b1 == y1 && kk == k && *m == **mat,
    {
        Object::XyRect { x0, x1, y0, y1, k, mat: crate::material::arc_clone(mat) }
    }

    /// A rectangle in the plane `y == k`.
    pub fn xz_rect(x0: i128, x1: i128, z0: i128, z1: i128, k: i128, mat: &Arc<Material>) -> (
        r: Object)
        requires
            -WMAX <= x0 < x1 <= WMAX,
            -WMAX <= z0 < z1 <= WMAX,
            -WMAX <= k <= WMAX,
            material_wf(**mat),
        ensures
            object_wf(r),
            r matches Object::XzRect { x0: a0, x1: a1, z0: b0, z1: b1, k: kk, mat: m } && a0
                == x0 && a1 == x1 && b0 == z0 && b1 == z1 && kk == k && *m == **mat,
    {
        Object::XzRect { x0, x1, z0, z1, k, mat: crate::material::arc_clone(mat) }
    }

    /// A rectangle in the plane `x == k`.
    pub fn yz_rect(y0: i128, y1: i128, z0: i128, z1: i128, k: i128, mat: &Arc<Material>) -> (
        r: Object)
        requires
            -WMAX <= y0 < y1 <= WMAX,
            -WMAX <= z0 < z1 <= WMAX,
            -WMAX <= k <= WMAX,
            material_wf(**mat),
        ensures
            object_wf(r),
            r matches Object::YzRect { y0: a0, y1: a1, z0: b0, z1: b1, k: kk, mat: m } && a0
                == y0 && a1 == y1 && b0 == z0 && b1 == z1 && kk == k && *m == **mat,
    {
        Object::YzRect { y0, y1, z0, z1, k, mat: crate::material::arc_clone(mat) }
    }

    /// An axis-aligned box from two opposite corners, composed of its six
    /// faces.
    pub fn cuboid(p0: Point3, p1: Point3, mat: &Arc<Material>) -> (r: Object)
        requires
            bounded(p0@, WMAX as int),
            bounded(p1@, WMAX as int),
            p0@.x < p1@.x,
            p0@.y < p1@.y,
            p0@.z < p1@.z,
            material_wf(**mat),
        ensures
            object_wf(r),
            r matches Object::Cuboid { cuboid_min, cuboid_max, sides } && cuboid_min == p0
                && cuboid_max == p1 && cuboid_sides_ok(sides@, p0, p1, **mat),
    {
        let mut sides: Vec<Object> = Vec::new();
        push_wf(&mut sides, Object::xy_rect(p0.e0, p1.e0, p0.e1, p1.e1, p1.e2, mat));
        push_wf(&mut sides, Object::xy_rect(p0.e0, p1.e0, p0.e1, p1.e1, p0.e2, mat));
        push_wf(&mut sides, Object::xz_rect(p0.e0, p1.e0, p0.e2, p1.e2, p1.e1, mat));
        push_wf(&mut sides, Object::xz_rect(p0.e0, p1.e0, p0.e2, p1.e2, p0.e1, mat));
        push_wf(&mut sides, Object::yz_rect(p0.e1, p1.e1, p0.e2, p1.e2, p1.e0, mat));
        push_wf(&mut sides, Object::yz_rect(p0.e1, p1.e1, p0.e2, p1.e2, p0.e0, mat));
        proof {
            assert(cuboid_sides_ok(sides@, p0, p1, **mat));
        }
        Object::Cuboid { cuboid_min: p0, cuboid_max: p1, sides }
    }

    /// A child shifted by a displacement.
    pub fn translate(child: Object, displacement: Vec3) -> (r: Object)
        requires
            object_wf(child),
            bounded(displacement@, WMAX as int),
        ensures
            object_wf(r),
            r matches Object::Translate { child: c, offset } && *c == child && offset
                == displacement,
    {
        let ghost g = child;
        let b = Box::new(child);
        let r = Object::Translate { child: b, offset: displacement };
        proof {
            assert(*b == g);
        }
        r
    }

    /// A child rotated about the y axis; the rotation is given by the sine
    /// and cosine of its angle.  The stored box encloses the eight rotated
    /// corners of the child's box; a child without one, or corners leaving
    /// the representable range, leave the node without a box.
    pub fn rotate_y(child: Object, sin_theta: i128, cos_theta: i128) -> (r: Object)
        requires
            object_wf(child),
            -SCALE <= sin_theta <= SCALE,
            -SCALE <= cos_theta <= SCALE,
        ensures
            object_wf(r),
            r matches Object::RotateY { child: c, sin_theta: s, cos_theta: cc, has_box, bbox }
                && *c == child && s == sin_theta && cc == cos_theta && (object_box(
                child,
                0,
                SCALE as int,
            ) is None ==> !has_box) && (has_box ==> (
            object_box(child, 0, SCALE as int) matches Some(cb) && forall|i: int, j: int, k: int|
                0 <= i < 2 && 0 <= j < 2 && 0 <= k < 2 ==> #[trigger] rotated_corner_in(
                    cos_theta as int,
                    sin_theta as int,
                    cb,
                    bbox@,
                    i,
                    j,
                    k,
                ))),
    {
        let cb = child.bounding_box(0, SCALE);
        let mut has_box = false;
        let mut bbox = AABB::zero();
        match cb {
            None => {},
            Some(b) => {
                let mut minx: i128 = 2 * ABMAX;
                let mut miny: i128 = 2 * ABMAX;
                let mut minz: i128 = 2 * ABMAX;
                let mut maxx: i128 = -2 * ABMAX;
                let mut maxy: i128 = -2 * ABMAX;
                let mut maxz: i128 = -2 * ABMAX;
                let mut idx: usize = 0;
                while idx < 8
                    invariant
                        -SCALE <= sin_theta <= SCALE,
                        -SCALE <= cos_theta <= SCALE,
                        aabb_wf(b@),
                        idx <= 8,
                        -2 * ABMAX <= minx <= 2 * ABMAX,
                        -2 * ABMAX <= miny <= 2 * ABMAX,
                        -2 * ABMAX <= minz <= 2 * ABMAX,
                        -2 * ABMAX <= maxx <= 2 * ABMAX,
                        -2 * ABMAX <= maxy <= 2 * ABMAX,
                        -2 * ABMAX <= maxz <= 2 * ABMAX,
                        forall|i: int, j: int, k: int| 0 <= i < 2 && 0 <= j < 2 && 0 <= k < 2
                            && i + 2 * j + 4 * k < idx ==> #[trigger] corner_in_acc(
                            cos_theta as int,
                            sin_theta as int,
                            b@,
                            i,
                            j,
                            k,
                            minx as int,
                            maxx as int,
                            miny as int,
                            maxy as int,
                            minz as int,
                            maxz as int,
                        ),
                    decreases 8 - idx,
                {
                    let ghost oldmnx = minx as int;
                    let ghost oldmxx = maxx as int;
                    let ghost oldmny = miny as int;
                    let ghost oldmxy = maxy as int;
                    let ghost oldmnz = minz as int;
                    let ghost oldmxz = maxz as int;
                    let gi = idx % 2;
                    let gj = (idx / 2) % 2;
                    let gk = (idx / 4) % 2;
                    let x = if gi == 0 {
                        b.minimum.e0
                    } else {
                        b.maximum.e0
                    };
                    let y = if gj == 0 {
                        b.minimum.e1
                    } else {
                        b.maximum.e1
                    };
                    let z = if gk == 0 {
                        b.minimum.e2
                    } else {
                        b.maximum.e2
                    };
                    proof {
                        lemma_rot_terms(cos_theta as int, sin_theta as int,
                            V3 { x: x as int, y: y as int, z: z as int }, ABMAX as int);
                        assert(V3 { x: x as int, y: y as int, z: z as int } == corner_of(
                            b@,
                            gi as int,
                            gj as int,
                            gk as int,
                        ));
                        assert(gi + 2 * gj + 4 * gk == idx) by (nonlinear_arith)
                            requires
                                gi as int == (idx as int) % 2,
                                gj as int == ((idx as int) / 2) % 2,
                                gk as int == ((idx as int) / 4) % 2,
                                0 <= idx < 8;
                    }
                    let newx = crate::fixed::fp_mul(cos_theta, x) + crate::fixed::fp_mul(
                        sin_theta,
                        z,
                    );
                    let newz = -crate::fixed::fp_mul(sin_theta, x) + crate::fixed::fp_mul(
                        cos_theta,
                        z,
                    );
                    if newx < minx {
                        minx = newx;
                    }
                    if newx > maxx {
                        maxx = newx;
                    }
                    if y < miny {
                        miny = y;
                    }
                    if y > maxy {
                        maxy = y;
                    }
                    if newz < minz {
                        minz = newz;
                    }
                    if newz > maxz {
                        maxz = newz;
                    }
                    proof {
                        assert forall|i: int, j: int, k: int| 0 <= i < 2 && 0 <= j < 2 && 0
                            <= k < 2 && i + 2 * j + 4 * k < idx + 1 implies
                            #[trigger] corner_in_acc(
                            cos_theta as int,
                            sin_theta as int,
                            b@,
                            i,
                            j,
                            k,
                            minx as int,
                            maxx as int,
                            miny as int,
                            maxy as int,
                            minz as int,
                            maxz as int,
                        ) by {
                            if i + 2 * j + 4 * k < idx {
                                assert(corner_in_acc(cos_theta as int, sin_theta as int, b@,
                                    i, j, k, oldmnx, oldmxx, oldmny, oldmxy, oldmnz,
                                    oldmxz));
                            } else {
                                assert(i == gi as int && j == gj as int && k == gk as int)
                                    by (nonlinear_arith)
                                    requires
                                        0 <= i < 2 && 0 <= j < 2 && 0 <= k < 2,
                                        i + 2 * j + 4 * k == idx as int,
                                        gi as int + 2 * (gj as int) + 4 * (gk as int) == idx
                                            as int,
                                        0 <= gi < 2 && 0 <= gj < 2 && 0 <= gk < 2;
                            }
                        }
                    }
                    idx = idx + 1;
                }
                let lo = Vec3::with_values(minx, miny, minz);
                let hi = Vec3::with_values(maxx, maxy, maxz);
                if lo.within(ABMAX) && hi.within(ABMAX) {
                    has_box = true;
                    bbox = AABB::new(lo, hi);
                    proof {
                        assert forall|i: int, j: int, k: int| 0 <= i < 2 && 0 <= j < 2 && 0
                            <= k < 2 implies #[trigger] rotated_corner_in(
                            cos_theta as int,
                            sin_theta as int,
                            b@,
                            bbox@,
                            i,
                            j,
                            k,
                        ) by {
                            assert(i + 2 * j + 4 * k < 8);
                            assert(corner_in_acc(cos_theta as int, sin_theta as int, b@, i,
                                j, k, minx as int, maxx as int, miny as int, maxy as int,
                                minz as int, maxz as int));
                        }
                    }
                }
            },
        }
        let ghost g = child;
        let bc = Box::new(child);
        let r = Object::RotateY { child: bc, sin_theta, cos_theta, has_box, bbox };
        proof {
            assert(*bc == g);
        }
        r
    }

    /// A constant-density participating medium bounded by a child shape;
    /// the stored scale is the negated reciprocal of the density.
    pub fn constant_medium(boundary: Object, density: i128, phase: &Arc<Material>) -> (r:
        Object)
        requires
            object_wf(boundary),
            1 <= density <= WMAX,
            material_wf(**phase),
        ensures
            object_wf(r),
            r matches Object::ConstantMedium { boundary: b, phase: ph, neg_inv_density: n }
                && *b == boundary && *ph == **phase && n as int == crate::fixed::fdiv(
                -(SCALE as int * SCALE),
                density as int,
            ),
    {
        proof {
            crate::fixed::lemma_fdiv_props(-(SCALE as int * SCALE), density as int);
            crate::fixed::lemma_fdiv_bounded(-(SCALE as int * SCALE), density as int,
                SCALE as int * SCALE);
            assert(crate::fixed::fdiv(-(SCALE as int * SCALE), density as int) < 0)
                by (nonlinear_arith)
                requires
                    crate::fixed::fdiv(-(SCALE as int * SCALE), density as int) * (
                    density as int) <= -(SCALE as int * SCALE),
                    1 <= density as int,
                    SCALE as int == 65536;
        }
        let neg_inv_density = crate::fixed::floor_div(-(SCALE * SCALE), density);
        let ghost g = boundary;
        let bb = Box::new(boundary);
        let r = Object::ConstantMedium {
            boundary: bb,
            phase: crate::material::arc_clone(phase),
            neg_inv_density,
        };
        proof {
            assert(*bb == g);
        }
        r
    }
}

/// A rotated corner held within the running componentwise accumulators.
pub open spec fn corner_in_acc(
    c: int,
    sn: int,
    b: Aabbg,
    i: int,
    j: int,
    k: int,
    mnx: int,
    mxx: int,
    mny: int,
    mxy: int,
    mnz: int,
    mxz: int,
) -> bool {
    let p = corner_of(b, i, j, k);
    let nx = fmul(c, p.x) + fmul(sn, p.z);
    let nz = -fmul(sn, p.x) + fmul(c, p.z);
    &&& mnx <= nx <= mxx
    &&& mny <= p.y <= mxy
    &&& mnz <= nz <= mxz
}

/// The six faces of a box with corners `p0` and `p1`: paired rectangles in
/// each axis plane at the far and near coordinate, every one spanning the
/// box's full extent and carrying the box's material.
pub open spec fn cuboid_sides_ok(sides: Seq<Object>, p0: Point3, p1: Point3, m: Material) -> bool {
    &&& sides.len() == 6
    &&& sides[0] matches Object::XyRect { x0, x1, y0, y1, k, mat } && x0 == p0.e0 && x1
        == p1.e0 && y0 == p0.e1 && y1 == p1.e1 && k == p1.e2 && *mat == m
    &&& sides[1] matches Object::XyRect { x0, x1, y0, y1, k, mat } && x0 == p0.e0 && x1
        == p1.e0 && y0 == p0.e1 && y1 == p1.e1 && k == p0.e2 && *mat == m
    &&& sides[2] matches Object::XzRect { x0, x1, z0, z1, k, mat } && x0 == p0.e0 && x1
        == p1.e0 && z0 == p0.e2 && z1 == p1.e2 && k == p1.e1 && *mat == m
    &&& sides[3] matches Object::XzRect { x0, x1, z0, z1, k, mat } && x0 == p0.e0 && x1
        == p1.e0 && z0 == p0.e2 && z1 == p1.e2 && k == p0.e1 && *mat == m
    &&& sides[4] matches Object::YzRect { y0, y1, z0, z1, k, mat } && y0 == p0.e1 && y1
        == p1.e1 && z0 == p0.e2 && z1 == p1.e2 && k == p1.e0 && *mat == m
    &&& sides[5] matches Object::YzRect { y0, y1, z0, z1, k, mat } && y0 == p0.e1 && y1
        == p1.e1 && z0 == p0.e2 && z1 == p1.e2 && k == p0.e0 && *mat == m
}

/// Push a well-formed object, keeping the sequence well formed.
pub fn push_wf(v: &mut Vec<Object>, o: Object)
    requires
        seq_wf(old(v)@),
        object_wf(o),
    ensures
        final(v)@ == old(v)@.push(o),
        seq_wf(final(v)@),
{
    let ghost prev = v@;
    v.push(o);
    proof {
        assert forall|j: int| 0 <= j < v@.len() implies object_wf(#[trigger] v@[j]) by {
            if j < prev.len() {
                assert(v@[j] == prev[j]);
            }
        }
    }
}

/// A flat, ordered collection of objects, scanned linearly for the closest
/// hit.
pub struct HittableList {
    pub objects: Vec<Object>,
}

/// Well-formedness of a list: every member is well formed.
pub open spec fn list_wf(l: HittableList) -> bool {
    seq_wf(l.objects@)
}

impl HittableList {
    pub fn new() -> (r: HittableList)
        ensures
            r.objects@.len() == 0,
            list_wf(r),
    {
        HittableList { objects: Vec::new() }
    }

    pub fn with_value(object: Object) -> (r: HittableList)
        requires
            object_wf(object),
        ensures
            r.objects@.len() == 1,
            r.objects@[0] == object,
            list_wf(r),
    {
        let mut objects = Vec::new();
        objects.push(object);
        HittableList { objects }
    }

    pub fn clear(&mut self)
        ensures
            final(self).objects@.len() == 0,
    {
        self.objects = Vec::new();
    }

    pub fn add(&mut self, object: Object)
        requires
            object_wf(object),
        ensures
            final(self).objects@ == old(self).objects@.push(object),
            list_wf(*old(self)) ==> list_wf(*final(self)),
    {
        self.objects.push(object);
        proof {
            if list_wf(*old(self)) {
                assert forall|i: int| 0 <= i < self.objects@.len() implies object_wf(
                    #[trigger] self.objects@[i]) by {
                    if i < self.objects@.len() - 1 {
                        assert(self.objects@[i] == old(self).objects@[i]);
                    }
                }
            }
        }
    }

    /// The closest hit over the members, or `None`.
    pub fn hit(&self, ray: &Ray, t_min: i128, t_max: i128) -> (res: Option<HitRecord>)
        requires
            list_wf(*self),
            ray_wf(ray@),
            -WMAX <= t_min <= WMAX,
            -WMAX <= t_max <= WMAX,
        ensures
            seq_deterministic(self.objects@) ==> rec_view(res) == scan_from(
                self.objects@,
                0,
                ray@,
                t_min as int,
                t_max as int,
            ),
            res matches Some(r) ==> hit_wf(r@) && t_min <= r.t <= t_max,
    {
        scan_objects(&self.objects, ray, t_min, t_max)
    }

    /// The union of the members' boxes, or `None`.
    pub fn bounding_box(&self, tm0: i128, tm1: i128) -> (res: Option<AABB>)
        requires
            list_wf(*self),
            -WMAX <= tm0 <= WMAX,
            -WMAX <= tm1 <= WMAX,
        ensures
            box_view(res) == seq_box(self.objects@, tm0 as int, tm1 as int),
            res matches Some(b) ==> aabb_wf(b@),
    {
        list_bounding_box(&self.objects, tm0, tm1)
    }

    /// Wrap the list as a scene object.
    pub fn into_object(self) -> (r: Object)
        ensures
            r == (Object::List { objects: self.objects }),
    {
        let ghost v = self.objects;
        let r = Object::List { objects: self.objects };
        proof {
            assert(r matches Object::List { objects } && objects == v);
        }
        r
    }
}

/// A missing box anywhere in the tail makes every enclosing scan miss its
/// box too.
proof fn lemma_seq_box_from_none(s: Seq<Object>, j: int, i: int, tm0: int, tm1: int)
    requires
        0 <= j <= i < s.len(),
        object_box(s[i], tm0, tm1) is None || seq_box_from(s, i, tm0, tm1) is None,
    ensures
        seq_box_from(s, j, tm0, tm1) is None,
    decreases i - j,
{
    if j == i {
    } else {
        lemma_seq_box_from_none(s, j + 1, i, tm0, tm1);
    }
}

} // verus!
