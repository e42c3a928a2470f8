use vstd::prelude::*;
use crate::aabb::aabb_hit_spec;
use crate::fixed::{fquot, fsqrt, lemma_fdiv_mono, lemma_fsqrt_props, SCALE, WMAX};
use crate::hit::HitInfo;
use crate::hittable::{object_hit, scan_from, Object};
use crate::ray::Rayg;
use crate::vec3::{bounded, V3};

verus! {

broadcast use vstd::std_specs::vec::axiom_vec_index_decreases,
    vstd::std_specs::vec::axiom_vec_decreases_to_view, vstd::seq::axiom_seq_index_decreases;

/// A hit result cut down to a tighter far bound.
pub open spec fn truncate_hit(r: Option<HitInfo>, t1p: int) -> Option<HitInfo> {
    match r {
        Option::Some(h) => if h.t <= t1p {
            Option::Some(h)
        } else {
            Option::None
        },
        Option::None => Option::None,
    }
}

/// Every hit of the deterministic semantics lies inside the query
/// interval, and its point lies inside the world cube.
pub proof fn lemma_hit_in_interval(o: Object, rg: Rayg, t0: int, t1: int)
    ensures
        object_hit(o, rg, t0, t1) matches Some(h) ==> t0 <= h.t <= t1 && bounded(
            h.p,
            WMAX as int,
        ),
    decreases o, 1int,
{
    match o {
        Object::Cuboid { cuboid_min, cuboid_max, sides } => {
            lemma_scan_in_interval(sides@, 0, rg, t0, t1);
        },
        Object::Translate { child, offset } => {
            let moved = Rayg { orig: crate::vec3::vsub(rg.orig, offset@), dir: rg.dir, time:
                rg.time };
            lemma_hit_in_interval(*child, moved, t0, t1);
        },
        Object::RotateY { child, sin_theta, cos_theta, has_box, bbox } => {
            let ro = crate::hittable::rot_fwd(cos_theta as int, sin_theta as int, rg.orig);
            let rd = crate::hittable::rot_fwd(cos_theta as int, sin_theta as int, rg.dir);
            let rotated = Rayg { orig: ro, dir: rd, time: rg.time };
            lemma_hit_in_interval(*child, rotated, t0, t1);
        },
        Object::List { objects } => {
            lemma_scan_in_interval(objects@, 0, rg, t0, t1);
        },
        Object::Bvh { left, right, bbox } => {
            lemma_hit_in_interval(*left, rg, t0, t1);
            lemma_hit_in_interval(*right, rg, t0, t1);
            match object_hit(*left, rg, t0, t1) {
                Option::Some(hl) => {
                    lemma_hit_in_interval(*right, rg, t0, hl.t);
                },
                Option::None => {},
            }
        },
        _ => {},
    }
}

/// Every hit of the scan semantics lies inside the query interval, with
/// its point inside the world cube.
pub proof fn lemma_scan_in_interval(s: Seq<Object>, i: int, rg: Rayg, t0: int, t1: int)
    ensures
        scan_from(s, i, rg, t0, t1) matches Some(h) ==> t0 <= h.t <= t1 && bounded(
            h.p,
            WMAX as int,
        ),
    decreases s, s.len() - i,
{
    if 0 <= i < s.len() {
        lemma_hit_in_interval(s[i], rg, t0, t1);
        match object_hit(s[i], rg, t0, t1) {
            Option::None => {
                lemma_scan_in_interval(s, i + 1, rg, t0, t1);
            },
            Option::Some(h) => {
                lemma_scan_in_interval(s, i + 1, rg, t0, h.t);
            },
        }
    }
}

/// Conservative boxes: at every hierarchy node, any hit of either child,
/// over any parameter interval, passes the node's own slab test.  This is
/// the geometric assumption the pruning rests on; the builder pads flat
/// boxes toward it, and the equivalence law below holds exactly under it.
pub open spec fn covers(o: Object) -> bool
    decreases o,
{
    match o {
        Object::Cuboid { cuboid_min, cuboid_max, sides } => seq_covers(sides@),
        Object::Translate { child, offset } => covers(*child),
        Object::RotateY { child, .. } => covers(*child),
        Object::ConstantMedium { boundary, .. } => covers(*boundary),
        Object::List { objects } => seq_covers(objects@),
        Object::Bvh { left, right, bbox } => covers(*left) && covers(*right) && (forall|
            rg: Rayg,
            a: int,
            b: int,
        |
            #[trigger] object_hit(*left, rg, a, b) is Some ==> aabb_hit_spec(bbox@, rg, a, b))
            && (forall|rg: Rayg, a: int, b: int|
            #[trigger] object_hit(*right, rg, a, b) is Some ==> aabb_hit_spec(
                bbox@,
                rg,
                a,
                b,
            )),
        _ => true,
    }
}

pub open spec fn seq_covers(s: Seq<Object>) -> bool
    decreases s,
{
    forall|i: int| 0 <= i < s.len() ==> covers(#[trigger] s[i])
}

/// Two accepted sphere roots are ordered: the near root never exceeds the
/// far one.
proof fn lemma_sphere_roots_ordered(hb: int, sq: int, a: int)
    requires
        a >= 1,
        sq >= 0,
    ensures
        fquot(-hb - sq, a) <= fquot(-hb + sq, a),
{
    assert((-hb - sq) * SCALE <= (-hb + sq) * SCALE) by (nonlinear_arith)
        requires sq >= 0 && SCALE as int == 65536;
    lemma_fdiv_mono((-hb - sq) * SCALE, (-hb + sq) * SCALE, a);
}

/// Shrinking the far bound of the query interval truncates the result:
/// the hit inside the tighter interval is the hit inside the wider one
/// when that lies near enough, and nothing otherwise.
pub proof fn lemma_hit_restrict(o: Object, rg: Rayg, t0: int, t1: int, t1p: int)
    requires
        covers(o),
        t1p <= t1,
    ensures
        object_hit(o, rg, t0, t1p) == truncate_hit(object_hit(o, rg, t0, t1), t1p),
    decreases o, 1int,
{
    match o {
        Object::Sphere { center, radius, mat } => {
            lemma_sphere_quadratic_facts(center@, radius as int, rg);
        },
        Object::MovingSphere { center0, center1, time0, time1, radius, mat } => {
            let c = crate::hittable::moving_center(center0@, center1@, time0 as int,
                time1 as int, rg.time);
            if bounded(c, WMAX as int) {
                lemma_sphere_quadratic_facts(c, radius as int, rg);
            }
        },
        Object::Cuboid { cuboid_min, cuboid_max, sides } => {
            lemma_scan_restrict(sides@, 0, rg, t0, t1, t1p);
        },
        Object::Translate { child, offset } => {
            let moved = Rayg { orig: crate::vec3::vsub(rg.orig, offset@), dir: rg.dir, time:
                rg.time };
            lemma_hit_restrict(*child, moved, t0, t1, t1p);
        },
        Object::RotateY { child, sin_theta, cos_theta, has_box, bbox } => {
            let ro = crate::hittable::rot_fwd(cos_theta as int, sin_theta as int, rg.orig);
            let rd = crate::hittable::rot_fwd(cos_theta as int, sin_theta as int, rg.dir);
            let rotated = Rayg { orig: ro, dir: rd, time: rg.time };
            lemma_hit_restrict(*child, rotated, t0, t1, t1p);
        },
        Object::List { objects } => {
            lemma_scan_restrict(objects@, 0, rg, t0, t1, t1p);
        },
        Object::Bvh { left, right, bbox } => {
            lemma_hit_restrict(*left, rg, t0, t1, t1p);
            if aabb_hit_spec(bbox@, rg, t0, t1p) {
                crate::aabb::lemma_slab_widen(bbox@, rg, t0, t1p, t1);
                match object_hit(*left, rg, t0, t1) {
                    Option::None => {
                        lemma_hit_restrict(*right, rg, t0, t1, t1p);
                    },
                    Option::Some(hl) => {
                        if hl.t <= t1p {
                            lemma_hit_in_interval(*right, rg, t0, hl.t);
                        } else {
                            lemma_hit_restrict(*right, rg, t0, hl.t, t1p);
                        }
                    },
                }
            } else {
                // The tighter box test fails: any near-enough hit of the
                // wider query would force it to pass, so none exists.
                match object_hit(*left, rg, t0, t1) {
                    Option::None => {
                        match object_hit(*right, rg, t0, t1) {
                            Option::None => {},
                            Option::Some(h) => {
                                if h.t <= t1p {
                                    lemma_hit_restrict(*right, rg, t0, t1, t1p);
                                    assert(object_hit(*right, rg, t0, t1p) is Some);
                                }
                            },
                        }
                    },
                    Option::Some(hl) => {
                        if hl.t <= t1p {
                            lemma_hit_restrict(*left, rg, t0, t1, t1p);
                            assert(object_hit(*left, rg, t0, t1p) is Some);
                        } else {
                            match object_hit(*right, rg, t0, hl.t) {
                                Option::None => {},
                                Option::Some(hr) => {
                                    if hr.t <= t1p {
                                        lemma_hit_restrict(*right, rg, t0, hl.t, hr.t);
                                        lemma_hit_in_interval(*right, rg, t0, hl.t);
                                        assert(object_hit(*right, rg, t0, hr.t) is Some);
                                        crate::aabb::lemma_slab_widen(bbox@, rg, t0, hr.t,
                                            t1p);
                                    }
                                },
                            }
                        }
                    },
                }
            }
        },
        _ => {},
    }
}

/// The scan analogue of `lemma_hit_restrict`.
pub proof fn lemma_scan_restrict(s: Seq<Object>, i: int, rg: Rayg, t0: int, t1: int, t1p: int)
    requires
        seq_covers(s),
        t1p <= t1,
    ensures
        scan_from(s, i, rg, t0, t1p) == truncate_hit(scan_from(s, i, rg, t0, t1), t1p),
    decreases s, s.len() - i,
{
    if 0 <= i < s.len() {
        lemma_hit_restrict(s[i], rg, t0, t1, t1p);
        lemma_hit_in_interval(s[i], rg, t0, t1);
        match object_hit(s[i], rg, t0, t1) {
            Option::None => {
                lemma_scan_restrict(s, i + 1, rg, t0, t1, t1p);
            },
            Option::Some(h) => {
                if h.t <= t1p {
                    lemma_scan_in_interval(s, i + 1, rg, t0, h.t);
                } else {
                    lemma_scan_restrict(s, i + 1, rg, t0, h.t, t1p);
                }
            },
        }
    }
}

/// The objects a hierarchy was built over, in tree order; any other object
/// is its own single leaf.
pub open spec fn leaves(o: Object) -> Seq<Object>
    decreases o,
{
    match o {
        Object::Bvh { left, right, bbox } => leaves(*left) + leaves(*right),
        _ => seq![o],
    }
}

/// Scanning a concatenation from inside the second part ignores the first.
proof fn lemma_scan_shift(s1: Seq<Object>, s2: Seq<Object>, k: int, rg: Rayg, t0: int, t1: int)
    requires
        0 <= k <= s2.len(),
    ensures
        scan_from(s1 + s2, s1.len() + k, rg, t0, t1) == scan_from(s2, k, rg, t0, t1),
    decreases s2.len() - k,
{
    let s = s1 + s2;
    if k < s2.len() {
        assert(s[s1.len() + k] == s2[k]);
        match object_hit(s2[k], rg, t0, t1) {
            Option::None => {
                lemma_scan_shift(s1, s2, k + 1, rg, t0, t1);
            },
            Option::Some(h) => {
                lemma_scan_shift(s1, s2, k + 1, rg, t0, h.t);
            },
        }
    }
}

/// Scanning a concatenation first scans the front part, then the back part
/// under the tightened bound — exactly the shape of a hierarchy node.
proof fn lemma_scan_append(s1: Seq<Object>, s2: Seq<Object>, i: int, rg: Rayg, t0: int, t1: int)
    requires
        0 <= i <= s1.len(),
    ensures
        scan_from(s1 + s2, i, rg, t0, t1) == (match scan_from(s1, i, rg, t0, t1) {
            Option::None => scan_from(s2, 0, rg, t0, t1),
            Option::Some(h) => match scan_from(s2, 0, rg, t0, h.t) {
                Option::Some(h2) => Option::Some(h2),
                Option::None => Option::Some(h),
            },
        }),
    decreases s1.len() - i,
{
    let s = s1 + s2;
    if i == s1.len() {
        lemma_scan_shift(s1, s2, 0, rg, t0, t1);
    } else {
        assert(s[i] == s1[i]);
        match object_hit(s1[i], rg, t0, t1) {
            Option::None => {
                lemma_scan_append(s1, s2, i + 1, rg, t0, t1);
            },
            Option::Some(h) => {
                lemma_scan_append(s1, s2, i + 1, rg, t0, h.t);
            },
        }
    }
}

/// TESTABLE LAW: hierarchy/linear-scan equivalence.  For any ray and any
/// parameter interval, the hit reported through a bounding-volume
/// hierarchy — whatever random axis choices shaped the tree — equals the
/// hit of an exhaustive linear scan over the objects it was built from,
/// provided every node's box is conservative (`covers`).  The builder's
/// own contract pins the other half of the attachment: the bag of a built
/// tree's leaves equals the bag of the input objects (`build_bvh` with
/// `lemma_obj_mset_is_leaves`), and each built node's box is the union of
/// its children's.
pub proof fn lemma_bvh_matches_linear_scan(o: Object, rg: Rayg, t0: int, t1: int)
    requires
        covers(o),
    ensures
        object_hit(o, rg, t0, t1) == scan_from(leaves(o), 0, rg, t0, t1),
    decreases o,
{
    match o {
        Object::Bvh { left, right, bbox } => {
            let s1 = leaves(*left);
            let s2 = leaves(*right);
            assert(leaves(o) == s1 + s2);
            lemma_scan_append(s1, s2, 0, rg, t0, t1);
            lemma_bvh_matches_linear_scan(*left, rg, t0, t1);
            if aabb_hit_spec(bbox@, rg, t0, t1) {
                match object_hit(*left, rg, t0, t1) {
                    Option::None => {
                        lemma_bvh_matches_linear_scan(*right, rg, t0, t1);
                    },
                    Option::Some(hl) => {
                        lemma_bvh_matches_linear_scan(*right, rg, t0, hl.t);
                    },
                }
            } else {
                match object_hit(*left, rg, t0, t1) {
                    Option::Some(hl) => {
                        assert(aabb_hit_spec(bbox@, rg, t0, t1));
                    },
                    Option::None => {
                        lemma_bvh_matches_linear_scan(*right, rg, t0, t1);
                        match object_hit(*right, rg, t0, t1) {
                            Option::Some(hr) => {
                                assert(aabb_hit_spec(bbox@, rg, t0, t1));
                            },
                            Option::None => {},
                        }
                    },
                }
            }
        },
        _ => {
            assert(leaves(o) == seq![o]);
            assert(leaves(o)[0] == o);
            match object_hit(o, rg, t0, t1) {
                Option::Some(h) => {
                    assert(scan_from(leaves(o), 1, rg, t0, h.t) is None);
                },
                Option::None => {
                    assert(scan_from(leaves(o), 1, rg, t0, t1) is None);
                },
            }
        },
    }
}

/// TESTABLE LAW: reflection is an involution.  Reflecting a vector about a
/// unit normal twice returns the original vector.  The hypotheses exclude
/// fixed-point rounding: the normal is exactly unit length and the scaled
/// products divide evenly; on other inputs the floor operations can shift
/// the result by single fraction units.
pub proof fn lemma_reflect_involution(v: V3, n: V3)
    requires
        n.x * n.x + n.y * n.y + n.z * n.z == SCALE * SCALE,
        (v.x * n.x + v.y * n.y + v.z * n.z) % (SCALE as int) == 0,
        (2 * crate::vec3::vdot(v, n) * n.x) % (SCALE as int) == 0,
        (2 * crate::vec3::vdot(v, n) * n.y) % (SCALE as int) == 0,
        (2 * crate::vec3::vdot(v, n) * n.z) % (SCALE as int) == 0,
    ensures
        crate::vec3::vreflect(crate::vec3::vreflect(v, n), n) == v,
{
    let s = v.x * n.x + v.y * n.y + v.z * n.z;
    let d = crate::vec3::vdot(v, n);
    vstd::arithmetic::div_mod::lemma_fundamental_div_mod(s, SCALE as int);
    assert(d * SCALE == s);
    let px = 2 * d * n.x;
    let py = 2 * d * n.y;
    let pz = 2 * d * n.z;
    vstd::arithmetic::div_mod::lemma_fundamental_div_mod(px, SCALE as int);
    vstd::arithmetic::div_mod::lemma_fundamental_div_mod(py, SCALE as int);
    vstd::arithmetic::div_mod::lemma_fundamental_div_mod(pz, SCALE as int);
    let ex = crate::fixed::fmul(2 * d, n.x);
    let ey = crate::fixed::fmul(2 * d, n.y);
    let ez = crate::fixed::fmul(2 * d, n.z);
    assert(2 * d * n.x == (2 * d) * n.x && 2 * d * n.y == (2 * d) * n.y && 2 * d * n.z == (2
        * d) * n.z) by (nonlinear_arith);
    assert(ex * SCALE == px && ey * SCALE == py && ez * SCALE == pz);
    let w = crate::vec3::vreflect(v, n);
    assert(w == (V3 { x: v.x - ex, y: v.y - ey, z: v.z - ez }));
    let s2 = w.x * n.x + w.y * n.y + w.z * n.z;
    assert(ex * n.x * SCALE == 2 * d * (n.x * n.x)) by (nonlinear_arith)
        requires ex * SCALE == 2 * d * n.x;
    assert(ey * n.y * SCALE == 2 * d * (n.y * n.y)) by (nonlinear_arith)
        requires ey * SCALE == 2 * d * n.y;
    assert(ez * n.z * SCALE == 2 * d * (n.z * n.z)) by (nonlinear_arith)
        requires ez * SCALE == 2 * d * n.z;
    assert((ex * n.x + ey * n.y + ez * n.z) * SCALE == ex * n.x * SCALE + ey * n.y * SCALE
        + ez * n.z * SCALE) by (nonlinear_arith);
    assert(2 * d * (n.x * n.x) + 2 * d * (n.y * n.y) + 2 * d * (n.z * n.z) == 2 * d * (n.x
        * n.x + n.y * n.y + n.z * n.z)) by (nonlinear_arith);
    assert(ex * n.x + ey * n.y + ez * n.z == 2 * d * SCALE) by (nonlinear_arith)
        requires
            (ex * n.x + ey * n.y + ez * n.z) * SCALE == 2 * d * (SCALE as int * SCALE),
            SCALE as int == 65536;
    assert(s2 == s - (ex * n.x + ey * n.y + ez * n.z)) by (nonlinear_arith)
        requires w.x == v.x - ex && w.y == v.y - ey && w.z == v.z - ez && s == v.x * n.x + v.y
            * n.y + v.z * n.z && s2 == w.x * n.x + w.y * n.y + w.z * n.z;
    assert(s2 == -(d * SCALE));
    let d2 = crate::vec3::vdot(w, n);
    crate::fixed::lemma_fdiv_exact(-d, SCALE as int);
    assert((-d) * SCALE == -(d * SCALE)) by (nonlinear_arith);
    assert(d2 == -d);
    let fx = crate::fixed::fmul(2 * d2, n.x);
    let fy = crate::fixed::fmul(2 * d2, n.y);
    let fz = crate::fixed::fmul(2 * d2, n.z);
    crate::fixed::lemma_fdiv_exact(-ex, SCALE as int);
    crate::fixed::lemma_fdiv_exact(-ey, SCALE as int);
    crate::fixed::lemma_fdiv_exact(-ez, SCALE as int);
    assert((2 * d2) * n.x == (-ex) * SCALE && (2 * d2) * n.y == (-ey) * SCALE && (2 * d2)
        * n.z == (-ez) * SCALE) by (nonlinear_arith)
        requires d2 == -d && ex * SCALE == (2 * d) * n.x && ey * SCALE == (2 * d) * n.y && ez
            * SCALE == (2 * d) * n.z;
    assert(fx == -ex && fy == -ey && fz == -ez);
    let r2 = crate::vec3::vreflect(w, n);
    assert(r2 == (V3 { x: w.x - fx, y: w.y - fy, z: w.z - fz }));
    assert(r2 == v);
}

/// TESTABLE LAW: refraction at normal incidence with equal indices leaves
/// the direction unchanged: a unit direction entering head-on against an
/// exactly unit normal, with a refraction ratio of one, refracts to itself.
pub proof fn lemma_refract_normal_incidence(n: V3)
    requires
        n.x * n.x + n.y * n.y + n.z * n.z == SCALE * SCALE,
    ensures
        crate::vec3::vrefract(crate::vec3::vneg(n), n, SCALE as int) == crate::vec3::vneg(n),
{
    let uv = crate::vec3::vneg(n);
    crate::fixed::lemma_fdiv_exact(SCALE as int, SCALE as int);
    assert(crate::vec3::vdot(crate::vec3::vneg(uv), n) == SCALE) by {
        assert(crate::vec3::vneg(uv) == n);
        assert((SCALE as int) * SCALE == SCALE as int * (SCALE as int));
    }
    crate::fixed::lemma_fdiv_exact(n.x, SCALE as int);
    crate::fixed::lemma_fdiv_exact(n.y, SCALE as int);
    crate::fixed::lemma_fdiv_exact(n.z, SCALE as int);
    assert(SCALE as int * n.x == n.x * SCALE && SCALE as int * n.y == n.y * SCALE
        && SCALE as int * n.z == n.z * SCALE) by (nonlinear_arith);
    assert(crate::vec3::vscale(SCALE as int, n) == n);
    assert(crate::vec3::vadd(uv, n) == crate::vec3::vzero());
    crate::fixed::lemma_fdiv_exact(0, SCALE as int);
    assert(SCALE as int * 0 == 0) by (nonlinear_arith);
    assert(crate::vec3::vscale(SCALE as int, crate::vec3::vzero()) == crate::vec3::vzero());
    assert(crate::vec3::vlsq(crate::vec3::vzero()) == 0) by {
        assert(0 * 0 == 0) by (nonlinear_arith);
    }
    crate::fixed::lemma_fsqrt_unique(SCALE as int, SCALE as int);
    assert(fsqrt(SCALE as int) == SCALE);
    assert(crate::vec3::vrefract(uv, n, SCALE as int) == crate::vec3::vadd(
        crate::vec3::vzero(),
        crate::vec3::vneg(crate::vec3::vscale(SCALE as int, n)),
    ));
    assert(crate::vec3::vadd(crate::vec3::vzero(), crate::vec3::vneg(n)) == uv);
}

/// TESTABLE LAW: translating an object by an offset and back is invisible
/// to intersection.  Wrapping a child in one translation and then its
/// inverse reproduces the child's own hit: same parameter, point, surface
/// coordinates and material, and — off grazing incidence — the same
/// normal.  (The orientation flag is recomputed by each wrapper, so it is
/// not compared here; the guards ask only that the shifted positions stay
/// inside the world cube.)
#[verifier::rlimit(100)]
#[verifier::spinoff_prover]
pub proof fn lemma_translate_round_trip(outer: Object, rg: Rayg, t0: int, t1: int)
    requires
        bounded(rg.orig, WMAX as int),
    ensures
        outer matches Object::Translate { child: c1, offset: off1 } ==> (
        *c1 matches Object::Translate { child: c2, offset: off2 } ==> ((off1@
            == crate::vec3::vneg(off2@) && bounded(crate::vec3::vadd(rg.orig, off2@),
            WMAX as int)) ==> (match object_hit(*c2, rg, t0, t1) {
            Option::None => object_hit(outer, rg, t0, t1) is None,
            Option::Some(h) => if bounded(crate::vec3::vadd(h.p, off2@), WMAX as int) {
                object_hit(outer, rg, t0, t1) matches Some(h2) && h2.t == h.t && h2.p == h.p
                    && h2.u == h.u && h2.v == h.v && h2.mat == h.mat && (crate::vec3::vdot(
                    rg.dir,
                    h.normal,
                ) < 0 ==> h2.normal == h.normal)
            } else {
                true
            },
        }))),
{
    match outer {
        Object::Translate { child: c1, offset: off1 } => {
            match *c1 {
                Object::Translate { child: c2, offset: off2 } => {
                    if off1@ == crate::vec3::vneg(off2@) && bounded(
                        crate::vec3::vadd(rg.orig, off2@),
                        WMAX as int,
                    ) {
                        reveal_with_fuel(object_hit, 2);
                        let moved1 = Rayg {
                            orig: crate::vec3::vsub(rg.orig, off1@),
                            dir: rg.dir,
                            time: rg.time,
                        };
                        assert(moved1.orig == crate::vec3::vadd(rg.orig, off2@));
                        let moved2 = Rayg {
                            orig: crate::vec3::vsub(moved1.orig, off2@),
                            dir: rg.dir,
                            time: rg.time,
                        };
                        assert(moved2.orig == rg.orig);
                        assert(moved2 == rg);
                        lemma_hit_in_interval(*c2, rg, t0, t1);
                        match object_hit(*c2, rg, t0, t1) {
                            Option::None => {},
                            Option::Some(h) => {
                                if bounded(crate::vec3::vadd(h.p, off2@), WMAX as int) {
                                    let p2 = crate::vec3::vadd(h.p, off2@);
                                    assert(crate::vec3::vadd(p2, off1@) == h.p);
                                }
                            },
                        }
                    }
                },
                _ => {},
            }
        },
        _ => {},
    }
}

/// The hit parameter alone, for statements indifferent to which of two
/// equally close surfaces reports.
pub open spec fn hit_t(r: Option<HitInfo>) -> Option<int> {
    match r {
        Option::Some(h) => Option::Some(h.t),
        Option::None => Option::None,
    }
}

/// A scan over elements none of which hits finds nothing.
proof fn lemma_scan_all_none(s: Seq<Object>, i: int, rg: Rayg, t0: int, t1: int)
    requires
        forall|j: int| i <= j < s.len() ==> object_hit(#[trigger] s[j], rg, t0, t1) is None,
    ensures
        scan_from(s, i, rg, t0, t1) is None,
    decreases s.len() - i,
{
    if 0 <= i < s.len() {
        lemma_scan_all_none(s, i + 1, rg, t0, t1);
    }
}

/// The scan computes the closest accepted hit: a `None` scan means no
/// element hits, and a successful scan's parameter is attained by some
/// element and undercut by none.
pub proof fn lemma_scan_is_min(s: Seq<Object>, i: int, rg: Rayg, t0: int, t1: int)
    requires
        seq_covers(s),
        0 <= i,
    ensures
        scan_from(s, i, rg, t0, t1) is None ==> forall|j: int| i <= j < s.len()
            ==> object_hit(#[trigger] s[j], rg, t0, t1) is None,
        scan_from(s, i, rg, t0, t1) matches Some(h) ==> (exists|j: int|
            i <= j < s.len() && hit_t(object_hit(#[trigger] s[j], rg, t0, t1))
                == Option::Some(h.t)) && (forall|j: int| i <= j < s.len()
            ==> (match object_hit(#[trigger] s[j], rg, t0, t1) {
                Option::Some(g) => g.t >= h.t,
                Option::None => true,
            })),
    decreases s.len() - i,
{
    if 0 <= i < s.len() {
        lemma_hit_in_interval(s[i], rg, t0, t1);
        match object_hit(s[i], rg, t0, t1) {
            Option::None => {
                lemma_scan_is_min(s, i + 1, rg, t0, t1);
                match scan_from(s, i + 1, rg, t0, t1) {
                    Option::None => {
                        assert forall|j: int| i <= j < s.len() implies object_hit(
                            #[trigger] s[j],
                            rg,
                            t0,
                            t1,
                        ) is None by {}
                    },
                    Option::Some(h) => {
                        let w = choose|j: int|
                            i + 1 <= j < s.len() && hit_t(object_hit(
                                #[trigger] s[j],
                                rg,
                                t0,
                                t1,
                            )) == Option::Some(h.t);
                        assert(i <= w < s.len() && hit_t(object_hit(s[w], rg, t0, t1))
                            == Option::Some(h.t));
                    },
                }
            },
            Option::Some(g) => {
                lemma_scan_is_min(s, i + 1, rg, t0, g.t);
                lemma_scan_in_interval(s, i + 1, rg, t0, g.t);
                assert forall|j: int| i + 1 <= j < s.len() implies object_hit(
                    #[trigger] s[j],
                    rg,
                    t0,
                    g.t,
                ) == truncate_hit(object_hit(s[j], rg, t0, t1), g.t) by {
                    assert(covers(s[j]));
                    lemma_hit_restrict(s[j], rg, t0, t1, g.t);
                }
                match scan_from(s, i + 1, rg, t0, g.t) {
                    Option::None => {
                        assert(hit_t(object_hit(s[i], rg, t0, t1)) == Option::Some(g.t));
                    },
                    Option::Some(h2) => {
                        let w = choose|j: int|
                            i + 1 <= j < s.len() && hit_t(object_hit(
                                #[trigger] s[j],
                                rg,
                                t0,
                                g.t,
                            )) == Option::Some(h2.t);
                        assert(hit_t(object_hit(s[w], rg, t0, t1)) == Option::Some(h2.t));
                        assert forall|j: int| i <= j < s.len() implies (
                        match object_hit(#[trigger] s[j], rg, t0, t1) {
                            Option::Some(g2) => g2.t >= h2.t,
                            Option::None => true,
                        }) by {
                            if j > i {
                                match object_hit(s[j], rg, t0, t1) {
                                    Option::Some(g2) => {
                                        if g2.t <= g.t {
                                            assert(object_hit(s[j], rg, t0, g.t)
                                                == Option::Some(g2));
                                        }
                                    },
                                    Option::None => {},
                                }
                            }
                        }
                    },
                }
            },
        }
    }
}

/// Scans over the same bag of objects agree on whether anything is hit and
/// at which parameter: the scan order decides only which of two exactly
/// cotangent surfaces reports.
pub proof fn lemma_scan_bag_determines_t(
    s1: Seq<Object>,
    s2: Seq<Object>,
    rg: Rayg,
    t0: int,
    t1: int,
)
    requires
        seq_covers(s1),
        seq_covers(s2),
        s1.to_multiset() == s2.to_multiset(),
    ensures
        hit_t(scan_from(s1, 0, rg, t0, t1)) == hit_t(scan_from(s2, 0, rg, t0, t1)),
{
    broadcast use vstd::seq_lib::group_to_multiset_ensures;

    lemma_scan_is_min(s1, 0, rg, t0, t1);
    lemma_scan_is_min(s2, 0, rg, t0, t1);
    assert forall|j: int| #![trigger s2[j]] 0 <= j < s2.len() implies exists|i: int|
        0 <= i < s1.len() && #[trigger] s1[i] == s2[j] by {
        assert(s2.contains(s2[j]));
        assert(s2.to_multiset().count(s2[j]) > 0);
        assert(s1.contains(s2[j]));
    }
    assert forall|j: int| #![trigger s1[j]] 0 <= j < s1.len() implies exists|i: int|
        0 <= i < s2.len() && #[trigger] s2[i] == s1[j] by {
        assert(s1.contains(s1[j]));
        assert(s1.to_multiset().count(s1[j]) > 0);
        assert(s2.contains(s1[j]));
    }
    match scan_from(s1, 0, rg, t0, t1) {
        Option::None => {
            assert forall|j: int| 0 <= j < s2.len() implies object_hit(
                #[trigger] s2[j],
                rg,
                t0,
                t1,
            ) is None by {
                let i = choose|i: int| 0 <= i < s1.len() && #[trigger] s1[i] == s2[j];
                assert(object_hit(s1[i], rg, t0, t1) is None);
            }
            lemma_scan_all_none(s2, 0, rg, t0, t1);
        },
        Option::Some(h1) => {
            let w1 = choose|j: int|
                0 <= j < s1.len() && hit_t(object_hit(#[trigger] s1[j], rg, t0, t1))
                    == Option::Some(h1.t);
            let w2 = choose|i: int| 0 <= i < s2.len() && #[trigger] s2[i] == s1[w1];
            match scan_from(s2, 0, rg, t0, t1) {
                Option::None => {
                    assert(object_hit(s2[w2], rg, t0, t1) is None);
                },
                Option::Some(h2) => {
                    assert(h1.t >= h2.t) by {
                        assert(hit_t(object_hit(s2[w2], rg, t0, t1)) == Option::Some(h1.t));
                    }
                    assert(h2.t >= h1.t) by {
                        let v1 = choose|j: int|
                            0 <= j < s2.len() && hit_t(object_hit(
                                #[trigger] s2[j],
                                rg,
                                t0,
                                t1,
                            )) == Option::Some(h2.t);
                        let v2 = choose|i: int| 0 <= i < s1.len() && #[trigger] s1[i] == s2[v1];
                        assert(hit_t(object_hit(s1[v2], rg, t0, t1)) == Option::Some(h2.t));
                    }
                },
            }
        },
    }
}

/// Conservative boxes pass from a tree to each of its leaves.
proof fn lemma_covers_leaves(o: Object)
    requires
        covers(o),
    ensures
        seq_covers(leaves(o)),
    decreases o,
{
    match o {
        Object::Bvh { left, right, bbox } => {
            lemma_covers_leaves(*left);
            lemma_covers_leaves(*right);
            let a = leaves(*left);
            let b = leaves(*right);
            assert forall|i: int| 0 <= i < (a + b).len() implies covers(
                #[trigger] (a + b)[i]) by {
                if i < a.len() {
                    assert((a + b)[i] == a[i]);
                } else {
                    assert((a + b)[i] == b[i - a.len()]);
                }
            }
        },
        _ => {
            assert(leaves(o)[0] == o);
        },
    }
}

/// TESTABLE LAW: rebuild invariance.  Two hierarchies standing for the
/// same bag of objects — however the random axis draws shaped or ordered
/// them — agree on whether a ray hits and at which parameter, under
/// conservative boxes.  (Which of two exactly cotangent surfaces reports
/// can still differ with the leaf order, so the full records are not
/// compared.)
pub proof fn lemma_rebuilds_agree(b1: Object, b2: Object, rg: Rayg, t0: int, t1: int)
    requires
        covers(b1),
        covers(b2),
        crate::bvh::obj_mset(b1) == crate::bvh::obj_mset(b2),
    ensures
        hit_t(object_hit(b1, rg, t0, t1)) == hit_t(object_hit(b2, rg, t0, t1)),
{
    lemma_bvh_matches_linear_scan(b1, rg, t0, t1);
    lemma_bvh_matches_linear_scan(b2, rg, t0, t1);
    lemma_covers_leaves(b1);
    lemma_covers_leaves(b2);
    lemma_obj_mset_is_leaves(b1);
    lemma_obj_mset_is_leaves(b2);
    lemma_scan_bag_determines_t(leaves(b1), leaves(b2), rg, t0, t1);
}

/// The tree's leaf sequence carries exactly the bag of objects the tree
/// stands for: the law below and the builder's bag contract meet here.
pub proof fn lemma_obj_mset_is_leaves(o: Object)
    ensures
        crate::bvh::obj_mset(o) == leaves(o).to_multiset(),
    decreases o,
{
    broadcast use vstd::seq_lib::group_to_multiset_ensures, vstd::multiset::group_multiset_axioms;

    match o {
        Object::Bvh { left, right, bbox } => {
            lemma_obj_mset_is_leaves(*left);
            lemma_obj_mset_is_leaves(*right);
            crate::bvh::lemma_to_multiset_concat(leaves(*left), leaves(*right));
        },
        _ => {
            let s = seq![o];
            assert(s =~= Seq::<Object>::empty().push(o));
            Seq::<Object>::empty().to_multiset_ensures();
            assert(Seq::<Object>::empty().to_multiset().len() == 0);
            assert(s.to_multiset() =~= Seq::<Object>::empty().to_multiset().insert(o));
            assert(Seq::<Object>::empty().to_multiset().insert(o)
                =~= vstd::multiset::Multiset::singleton(o));
        },
    }
}

/// The ordering facts of a sphere's quadratic: its far root never lies
/// below its near root.
proof fn lemma_sphere_quadratic_facts(center: V3, radius: int, rg: Rayg)
    ensures
        ({
            let oc = crate::vec3::vsub(rg.orig, center);
            let a = crate::vec3::vlsq(rg.dir);
            let half_b = crate::vec3::vdot(oc, rg.dir);
            let c = crate::vec3::vlsq(oc) - crate::fixed::fmul(radius, radius);
            let disc = crate::fixed::fmul(half_b, half_b) - crate::fixed::fmul(a, c);
            disc >= 0 && a >= 1 ==> fquot(-half_b - fsqrt(disc), a) <= fquot(
                -half_b + fsqrt(disc),
                a,
            )
        }),
{
    let oc = crate::vec3::vsub(rg.orig, center);
    let a = crate::vec3::vlsq(rg.dir);
    let half_b = crate::vec3::vdot(oc, rg.dir);
    let c = crate::vec3::vlsq(oc) - crate::fixed::fmul(radius, radius);
    let disc = crate::fixed::fmul(half_b, half_b) - crate::fixed::fmul(a, c);
    if disc >= 0 && a >= 1 {
        lemma_fsqrt_props(disc);
        lemma_sphere_roots_ordered(half_b, fsqrt(disc), a);
    }
}

} // verus!
