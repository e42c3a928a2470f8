use vstd::prelude::*;
use crate::fixed::{
    fdiv, fmul, fquot, fsqrt, iabs, floor_div, fp_mul, fp_sqrt, lemma_fdiv_bounded,
    lemma_fdiv_props, lemma_fsqrt_props, DIVB, DMAX, MULB, NORMB, OPB, SCALE, SQB, UNITB,
};

verus! {

/// The mathematical value of a vector: three unbounded fixed-point scalars.
pub ghost struct V3 {
    pub x: int,
    pub y: int,
    pub z: int,
}

/// A three-component vector of fixed-point scalars; doubles as a point and
/// as a color (red, green, blue, each with `SCALE` standing for 1.0).
#[derive(Clone, Copy, PartialEq, Eq, Structural, Debug)]
pub struct Vec3 {
    pub e0: i128,
    pub e1: i128,
    pub e2: i128,
}

pub type Point3 = Vec3;

pub type Color = Vec3;

impl View for Vec3 {
    type V = V3;

    open spec fn view(&self) -> V3 {
        V3 { x: self.e0 as int, y: self.e1 as int, z: self.e2 as int }
    }
}

/// All three components within magnitude `m`.
pub open spec fn bounded(v: V3, m: int) -> bool {
    -m <= v.x <= m && -m <= v.y <= m && -m <= v.z <= m
}

pub open spec fn vzero() -> V3 {
    V3 { x: 0, y: 0, z: 0 }
}

pub open spec fn vadd(a: V3, b: V3) -> V3 {
    V3 { x: a.x + b.x, y: a.y + b.y, z: a.z + b.z }
}

pub open spec fn vsub(a: V3, b: V3) -> V3 {
    V3 { x: a.x - b.x, y: a.y - b.y, z: a.z - b.z }
}

pub open spec fn vneg(a: V3) -> V3 {
    V3 { x: -a.x, y: -a.y, z: -a.z }
}

/// Componentwise fixed-point scaling by the scalar `k`.
pub open spec fn vscale(k: int, a: V3) -> V3 {
    V3 { x: fmul(k, a.x), y: fmul(k, a.y), z: fmul(k, a.z) }
}

/// Componentwise fixed-point product (used for color attenuation).
pub open spec fn vmul(a: V3, b: V3) -> V3 {
    V3 { x: fmul(a.x, b.x), y: fmul(a.y, b.y), z: fmul(a.z, b.z) }
}

/// The fixed-point dot product: exact sum of products, scaled down once.
pub open spec fn vdot(a: V3, b: V3) -> int {
    fdiv(a.x * b.x + a.y * b.y + a.z * b.z, SCALE as int)
}

/// The fixed-point cross product, each component scaled down once.
pub open spec fn vcross(a: V3, b: V3) -> V3 {
    V3 {
        x: fdiv(a.y * b.z - a.z * b.y, SCALE as int),
        y: fdiv(a.z * b.x - a.x * b.z, SCALE as int),
        z: fdiv(a.x * b.y - a.y * b.x, SCALE as int),
    }
}

pub open spec fn vlsq(a: V3) -> int {
    vdot(a, a)
}

pub open spec fn vlen(a: V3) -> int {
    fsqrt(vlsq(a))
}

/// Normalization; a vector of length zero is returned unchanged.
pub open spec fn vunit(a: V3) -> V3 {
    let l = vlen(a);
    if l == 0 {
        a
    } else {
        V3 { x: fquot(a.x, l), y: fquot(a.y, l), z: fquot(a.z, l) }
    }
}

/// Mirror reflection of `v` about the normal `n`.
pub open spec fn vreflect(v: V3, n: V3) -> V3 {
    vsub(v, vscale(2 * vdot(v, n), n))
}

/// Snell refraction of the unit direction `uv` at a surface with unit normal
/// `n`, for the given ratio of refractive indices.
pub open spec fn vrefract(uv: V3, n: V3, etai_over_etat: int) -> V3 {
    let cos_theta = if vdot(vneg(uv), n) <= SCALE {
        vdot(vneg(uv), n)
    } else {
        SCALE as int
    };
    let r_out_perp = vscale(etai_over_etat, vadd(uv, vscale(cos_theta, n)));
    let k = iabs(SCALE - vlsq(r_out_perp));
    let r_out_parallel = vneg(vscale(fsqrt(k), n));
    vadd(r_out_perp, r_out_parallel)
}

impl Vec3 {
    /// The zero vector.
    pub fn new() -> (r: Vec3)
        ensures
            r@ == vzero(),
    {
        Vec3 { e0: 0, e1: 0, e2: 0 }
    }

    /// All three components set to `e`.
    pub fn with_value(e: i128) -> (r: Vec3)
        ensures
            r@ == (V3 { x: e as int, y: e as int, z: e as int }),
    {
        Vec3 { e0: e, e1: e, e2: e }
    }

    pub fn with_values(e0: i128, e1: i128, e2: i128) -> (r: Vec3)
        ensures
            r@ == (V3 { x: e0 as int, y: e1 as int, z: e2 as int }),
    {
        Vec3 { e0, e1, e2 }
    }

    pub fn x(&self) -> (r: i128)
        ensures
            r == self@.x,
    {
        self.e0
    }

    pub fn y(&self) -> (r: i128)
        ensures
            r == self@.y,
    {
        self.e1
    }

    pub fn z(&self) -> (r: i128)
        ensures
            r == self@.z,
    {
        self.e2
    }

    /// Componentwise sum.
    pub fn plus(&self, o: &Vec3) -> (r: Vec3)
        requires
            bounded(self@, OPB as int),
            bounded(o@, OPB as int),
        ensures
            r@ == vadd(self@, o@),
    {
        Vec3 { e0: self.e0 + o.e0, e1: self.e1 + o.e1, e2: self.e2 + o.e2 }
    }

    /// Componentwise difference.
    pub fn minus(&self, o: &Vec3) -> (r: Vec3)
        requires
            bounded(self@, OPB as int),
            bounded(o@, OPB as int),
        ensures
            r@ == vsub(self@, o@),
    {
        Vec3 { e0: self.e0 - o.e0, e1: self.e1 - o.e1, e2: self.e2 - o.e2 }
    }

    pub fn negate(&self) -> (r: Vec3)
        requires
            bounded(self@, OPB as int),
        ensures
            r@ == vneg(self@),
    {
        Vec3 { e0: -self.e0, e1: -self.e1, e2: -self.e2 }
    }

    /// Fixed-point scaling by the scalar `k`.
    pub fn scale(&self, k: i128) -> (r: Vec3)
        requires
            bounded(self@, MULB as int),
            -MULB <= k <= MULB,
        ensures
            r@ == vscale(k as int, self@),
    {
        Vec3 {
            e0: fp_mul(k, self.e0),
            e1: fp_mul(k, self.e1),
            e2: fp_mul(k, self.e2),
        }
    }

    /// Componentwise fixed-point product.
    pub fn mul_color(&self, o: &Vec3) -> (r: Vec3)
        requires
            bounded(self@, MULB as int),
            bounded(o@, MULB as int),
        ensures
            r@ == vmul(self@, o@),
    {
        Vec3 {
            e0: fp_mul(self.e0, o.e0),
            e1: fp_mul(self.e1, o.e1),
            e2: fp_mul(self.e2, o.e2),
        }
    }

    pub fn length_squared(&self) -> (r: i128)
        requires
            bounded(self@, OPB as int),
        ensures
            r == vlsq(self@),
            0 <= r,
    {
        proof {
            lemma_sq_nonneg(self@.x);
            lemma_sq_nonneg(self@.y);
            lemma_sq_nonneg(self@.z);
            assert(self@.x * self@.x <= OPB * OPB && self@.y * self@.y <= OPB * OPB
                && self@.z * self@.z <= OPB * OPB) by (nonlinear_arith)
                requires bounded(self@, OPB as int);
            lemma_fdiv_bounded(
                self@.x * self@.x + self@.y * self@.y + self@.z * self@.z,
                SCALE as int,
                3 * OPB * OPB,
            );
            lemma_fdiv_props(
                self@.x * self@.x + self@.y * self@.y + self@.z * self@.z,
                SCALE as int,
            );
        }
        let s: i128 = self.e0 * self.e0 + self.e1 * self.e1 + self.e2 * self.e2;
        floor_div(s, SCALE)
    }

    pub fn length(&self) -> (r: i128)
        requires
            bounded(self@, OPB as int),
        ensures
            r == vlen(self@),
            0 <= r,
    {
        let lsq = self.length_squared();
        proof {
            lemma_lsq_le_sqb(self@);
        }
        fp_sqrt(lsq)
    }

    /// Normalization; the zero-length vector is returned unchanged.  The
    /// result's components never exceed `UNITB` in magnitude.
    pub fn unit_vector(&self) -> (r: Vec3)
        requires
            bounded(self@, DMAX as int),
        ensures
            r@ == vunit(self@),
            bounded(r@, UNITB as int),
    {
        proof {
            lemma_dmax_ops(self@);
        }
        let l = self.length();
        if l == 0 {
            proof {
                lemma_small_lsq_small_components(self@);
            }
            *self
        } else {
            proof {
                lemma_unit_component_bound(self@);
            }
            let r = Vec3 {
                e0: fp_div_by_len(self.e0, l),
                e1: fp_div_by_len(self.e1, l),
                e2: fp_div_by_len(self.e2, l),
            };
            r
        }
    }

    /// True exactly when every component is zero: the only vectors below the
    /// fixed-point resolution threshold.
    pub fn near_zero(&self) -> (r: bool)
        ensures
            r == (self@ == vzero()),
    {
        self.e0 == 0 && self.e1 == 0 && self.e2 == 0
    }

    /// Runtime check that all components are within magnitude `m`.
    pub fn within(&self, m: i128) -> (r: bool)
        requires
            0 <= m,
        ensures
            r == bounded(self@, m as int),
    {
        -m <= self.e0 && self.e0 <= m && -m <= self.e1 && self.e1 <= m && -m <= self.e2
            && self.e2 <= m
    }
}

/// Fixed-point division of one component by a (positive) length.
fn fp_div_by_len(c: i128, l: i128) -> (r: i128)
    requires
        1 <= l,
        -DIVB <= c <= DIVB,
    ensures
        r == fquot(c as int, l as int),
{
    floor_div(c * SCALE, l)
}

proof fn lemma_sq_nonneg(a: int)
    ensures
        a * a >= 0,
{
    assert(a * a >= 0) by (nonlinear_arith);
}

/// The squared length of any vector with `OPB`-bounded components fits
/// under the square-root operand bound.
proof fn lemma_lsq_le_sqb(v: V3)
    requires
        bounded(v, OPB as int),
    ensures
        0 <= vlsq(v) <= SQB,
{
    lemma_sq_nonneg(v.x);
    lemma_sq_nonneg(v.y);
    lemma_sq_nonneg(v.z);
    assert(v.x * v.x <= OPB * OPB && v.y * v.y <= OPB * OPB && v.z * v.z <= OPB * OPB)
        by (nonlinear_arith)
        requires bounded(v, OPB as int);
    assert(3 * (OPB as int) * (OPB as int) <= SQB * SCALE);
    lemma_fdiv_bounded(v.x * v.x + v.y * v.y + v.z * v.z, SCALE as int, SQB as int);
    lemma_fdiv_props(v.x * v.x + v.y * v.y + v.z * v.z, SCALE as int);
}

proof fn lemma_dmax_ops(v: V3)
    requires
        bounded(v, DMAX as int),
    ensures
        bounded(v, OPB as int),
{
}

/// A vector whose fixed-point squared length is zero has every component
/// below one whole unit's worth of resolution.
proof fn lemma_small_lsq_small_components(v: V3)
    requires
        bounded(v, OPB as int),
        vlen(v) == 0,
    ensures
        bounded(v, UNITB as int),
{
    lemma_lsq_le_sqb(v);
    let s = v.x * v.x + v.y * v.y + v.z * v.z;
    lemma_fdiv_props(s, SCALE as int);
    let lsq = vlsq(v);
    lemma_fsqrt_zero(lsq);
    assert(s < (lsq + 1) * SCALE);
    lemma_sq_nonneg(v.x);
    lemma_sq_nonneg(v.y);
    lemma_sq_nonneg(v.z);
    assert(v.x * v.x <= s && v.y * v.y <= s && v.z * v.z <= s);
    assert(-UNITB <= v.x <= UNITB) by (nonlinear_arith)
        requires v.x * v.x < 65536 && UNITB as int == 16908288;
    assert(-UNITB <= v.y <= UNITB) by (nonlinear_arith)
        requires v.y * v.y < 65536 && UNITB as int == 16908288;
    assert(-UNITB <= v.z <= UNITB) by (nonlinear_arith)
        requires v.z * v.z < 65536 && UNITB as int == 16908288;
}

/// The square root of zero is zero; and a zero root forces a zero operand
/// region.
proof fn lemma_fsqrt_zero(x: int)
    requires
        0 <= x,
        fsqrt(x) == 0,
    ensures
        x * SCALE < 1,
        x == 0,
{
    lemma_fsqrt_props(x);
    assert(x * SCALE < (0 + 1) * (0 + 1));
    assert(x * SCALE >= x) by (nonlinear_arith)
        requires 0 <= x;
}

/// Components of a nonzero-length vector divided by its length stay within
/// `UNITB`.
proof fn lemma_unit_component_bound(v: V3)
    requires
        bounded(v, DMAX as int),
        vlen(v) >= 1,
    ensures
        -DIVB <= v.x <= DIVB,
        -DIVB <= v.y <= DIVB,
        -DIVB <= v.z <= DIVB,
        bounded(
            V3 {
                x: fquot(v.x, vlen(v)),
                y: fquot(v.y, vlen(v)),
                z: fquot(v.z, vlen(v)),
            },
            UNITB as int,
        ),
{
    let l = vlen(v);
    let s = v.x * v.x + v.y * v.y + v.z * v.z;
    lemma_lsq_le_sqb(v);
    let lsq = vlsq(v);
    lemma_fsqrt_props(lsq);
    lemma_fdiv_props(s, SCALE as int);
    assert(s < (lsq + 1) * SCALE);
    assert(lsq * SCALE < (l + 1) * (l + 1));
    lemma_sq_nonneg(v.x);
    lemma_sq_nonneg(v.y);
    lemma_sq_nonneg(v.z);
    lemma_unit_one_component(v.x, l, s, lsq);
    lemma_unit_one_component(v.y, l, s, lsq);
    lemma_unit_one_component(v.z, l, s, lsq);
}

/// One component of the normalization bound: `|c| <= l + 256` forces the
/// quotient within `UNITB`.
proof fn lemma_unit_one_component(c: int, l: int, s: int, lsq: int)
    requires
        1 <= l,
        c * c <= s,
        s < (lsq + 1) * SCALE,
        lsq * SCALE < (l + 1) * (l + 1),
        0 <= lsq,
    ensures
        -UNITB <= fquot(c, l) <= UNITB,
{
    // |c| <= l + 256, since c^2 < (l+1)^2 + (256)^2 + small <= (l + 257)^2.
    assert(c * c < (lsq + 1) * SCALE);
    assert((lsq + 1) * SCALE <= lsq * SCALE + SCALE) by (nonlinear_arith);
    assert(c * c < (l + 1) * (l + 1) + SCALE);
    assert(-(l + 257) <= c <= l + 257) by (nonlinear_arith)
        requires c * c < (l + 1) * (l + 1) + SCALE as int && 1 <= l && SCALE as int == 65536;
    // fquot(c, l) = fdiv(c * SCALE, l) with |c * SCALE| <= (l + 257) * SCALE
    //            <= l * (SCALE + 257 * SCALE) = l * K with K < UNITB.
    let kk = 258 * (SCALE as int);
    assert(c * SCALE <= (l + 257) * SCALE && -((l + 257) * SCALE) <= c * SCALE)
        by (nonlinear_arith)
        requires -(l + 257) <= c <= l + 257;
    assert((l + 257) * SCALE <= l * kk) by (nonlinear_arith)
        requires 1 <= l && SCALE as int == 65536 && kk == 258 * (SCALE as int);
    lemma_fdiv_bounded(c * SCALE, l, kk);
    assert(kk <= UNITB);
}

/// A squared length is never negative.
pub proof fn lemma_vlsq_nonneg(v: V3)
    ensures
        vlsq(v) >= 0,
{
    lemma_sq_nonneg(v.x);
    lemma_sq_nonneg(v.y);
    lemma_sq_nonneg(v.z);
    lemma_fdiv_props(v.x * v.x + v.y * v.y + v.z * v.z, SCALE as int);
    assert(vlsq(v) >= 0) by (nonlinear_arith)
        requires
            v.x * v.x + v.y * v.y + v.z * v.z >= 0,
            v.x * v.x + v.y * v.y + v.z * v.z < (vlsq(v) + 1) * (SCALE as int),
            SCALE as int == 65536;
}

/// The fixed-point dot product of two vectors.
pub fn dot(u: &Vec3, v: &Vec3) -> (r: i128)
    requires
        bounded(u@, OPB as int),
        bounded(v@, OPB as int),
    ensures
        r == vdot(u@, v@),
{
    proof {
        assert(u@.x * v@.x <= OPB * OPB && u@.x * v@.x >= -(OPB * OPB)
            && u@.y * v@.y <= OPB * OPB && u@.y * v@.y >= -(OPB * OPB)
            && u@.z * v@.z <= OPB * OPB && u@.z * v@.z >= -(OPB * OPB)) by (nonlinear_arith)
            requires bounded(u@, OPB as int) && bounded(v@, OPB as int);
        lemma_fdiv_abs_helper(u@.x * v@.x + u@.y * v@.y + u@.z * v@.z);
    }
    let s: i128 = u.e0 * v.e0 + u.e1 * v.e1 + u.e2 * v.e2;
    floor_div(s, SCALE)
}

proof fn lemma_fdiv_abs_helper(s: int)
    requires
        -(3 * OPB * OPB) <= s <= 3 * OPB * OPB,
    ensures
        -(3 * OPB * OPB) <= fdiv(s, SCALE as int) <= 3 * OPB * OPB,
{
    lemma_fdiv_bounded(s, SCALE as int, 3 * OPB * OPB);
    assert(s <= 3 * OPB * OPB * SCALE && -(3 * OPB * OPB * SCALE) <= s) by (nonlinear_arith)
        requires -(3 * OPB * OPB) <= s <= 3 * OPB * OPB;
}

/// The fixed-point cross product of two vectors.
pub fn cross(u: &Vec3, v: &Vec3) -> (r: Vec3)
    requires
        bounded(u@, OPB as int),
        bounded(v@, OPB as int),
    ensures
        r@ == vcross(u@, v@),
{
    proof {
        assert(forall|a: int, b: int|
            -OPB <= a <= OPB && -OPB <= b <= OPB ==> -(OPB * OPB) <= #[trigger] (a * b)
                <= OPB * OPB) by (nonlinear_arith);
        lemma_cross_div(u@.y * v@.z - u@.z * v@.y);
        lemma_cross_div(u@.z * v@.x - u@.x * v@.z);
        lemma_cross_div(u@.x * v@.y - u@.y * v@.x);
    }
    Vec3 {
        e0: floor_div(u.e1 * v.e2 - u.e2 * v.e1, SCALE),
        e1: floor_div(u.e2 * v.e0 - u.e0 * v.e2, SCALE),
        e2: floor_div(u.e0 * v.e1 - u.e1 * v.e0, SCALE),
    }
}

/// Componentwise scaling bound: a factor within `kb` applied to a vector
/// within `vb` stays within `rb` whenever `kb * vb <= rb * SCALE`.
pub proof fn lemma_scale_bound(k: int, v: V3, kb: int, vb: int, rb: int)
    requires
        0 <= kb,
        0 <= vb,
        0 <= rb,
        -kb <= k <= kb,
        bounded(v, vb),
        kb * vb <= rb * (SCALE as int),
    ensures
        bounded(vscale(k, v), rb),
{
    assert(-(rb * (SCALE as int)) <= k * v.x <= rb * (SCALE as int) && -(rb * (
    SCALE as int)) <= k * v.y <= rb * (SCALE as int) && -(rb * (SCALE as int)) <= k * v.z
        <= rb * (SCALE as int)) by (nonlinear_arith)
        requires 0 <= kb && 0 <= vb && -kb <= k <= kb && bounded(v, vb) && kb * vb <= rb * (
        SCALE as int);
    lemma_fdiv_bounded(k * v.x, SCALE as int, rb);
    lemma_fdiv_bounded(k * v.y, SCALE as int, rb);
    lemma_fdiv_bounded(k * v.z, SCALE as int, rb);
}

/// Dot-product bound: vectors within `ub` and `vb` have a dot product
/// within `rb` whenever `3 * ub * vb <= rb * SCALE`.
pub proof fn lemma_dot_bound(u: V3, v: V3, ub: int, vb: int, rb: int)
    requires
        0 <= ub,
        0 <= vb,
        0 <= rb,
        bounded(u, ub),
        bounded(v, vb),
        3 * ub * vb <= rb * (SCALE as int),
    ensures
        -rb <= vdot(u, v) <= rb,
{
    assert(-(ub * vb) <= u.x * v.x <= ub * vb && -(ub * vb) <= u.y * v.y <= ub * vb && -(ub
        * vb) <= u.z * v.z <= ub * vb) by (nonlinear_arith)
        requires 0 <= ub && 0 <= vb && bounded(u, ub) && bounded(v, vb);
    assert(3 * ub * vb == 3 * (ub * vb)) by (nonlinear_arith);
    lemma_fdiv_bounded(u.x * v.x + u.y * v.y + u.z * v.z, SCALE as int, rb);
}

/// Mirror reflection of `v` about the normal `n`, as used by metal
/// scattering: `v - 2*dot(v,n)*n`.
pub fn reflect(v: &Vec3, n: &Vec3) -> (r: Vec3)
    requires
        bounded(v@, UNITB as int),
        bounded(n@, NORMB as int),
    ensures
        r@ == vreflect(v@, n@),
        bounded(r@, 1073741824),
{
    proof {
        lemma_dot_bound(v@, n@, UNITB as int, NORMB as int, 101449728);
    }
    let d = dot(v, n);
    let k: i128 = 2 * d;
    proof {
        lemma_scale_bound(2 * vdot(v@, n@), n@, 202899456, NORMB as int, 405798912);
    }
    let s = n.scale(k);
    v.minus(&s)
}

/// Snell refraction of the unit direction `uv` at a surface with normal `n`,
/// decomposed into perpendicular and parallel components.
pub fn refract(uv: &Vec3, n: &Vec3, etai_over_etat: i128) -> (r: Vec3)
    requires
        bounded(uv@, UNITB as int),
        bounded(n@, NORMB as int),
        0 < etai_over_etat <= 262144,
    ensures
        r@ == vrefract(uv@, n@, etai_over_etat as int),
        bounded(r@, DMAX as int),
{
    let minus_uv = uv.negate();
    proof {
        lemma_dot_bound(minus_uv@, n@, UNITB as int, NORMB as int, 101449728);
    }
    let d0 = dot(&minus_uv, n);
    let cos_theta: i128 = if d0 <= SCALE {
        d0
    } else {
        SCALE
    };
    proof {
        lemma_scale_bound(cos_theta as int, n@, 101449728, NORMB as int, 202899456);
    }
    let cn = n.scale(cos_theta);
    let s = uv.plus(&cn);
    proof {
        lemma_scale_bound(etai_over_etat as int, s@, 262144, 219807744, 879230976);
    }
    let r_out_perp = s.scale(etai_over_etat);
    let lsq = r_out_perp.length_squared();
    proof {
        lemma_dot_bound(r_out_perp@, r_out_perp@, 879230976, 879230976, 36000000000000);
    }
    let k: i128 = if SCALE - lsq >= 0 {
        SCALE - lsq
    } else {
        -(SCALE - lsq)
    };
    let sq = fp_sqrt(k);
    proof {
        assert(sq <= 1540000000) by (nonlinear_arith)
            requires
                sq * sq <= k * SCALE,
                0 <= sq,
                0 <= k <= 36000000065536,
                SCALE as int == 65536;
        lemma_scale_bound(sq as int, n@, 1540000000, NORMB as int, 3080000000);
    }
    let rp = n.scale(sq);
    let r_out_parallel = rp.negate();
    r_out_perp.plus(&r_out_parallel)
}

proof fn lemma_cross_div(s: int)
    requires
        -(2 * OPB * OPB) <= s <= 2 * OPB * OPB,
    ensures
        -(2 * OPB * OPB) <= fdiv(s, SCALE as int) <= 2 * OPB * OPB,
{
    lemma_fdiv_bounded(s, SCALE as int, 2 * OPB * OPB);
    assert(s <= 2 * OPB * OPB * SCALE && -(2 * OPB * OPB * SCALE) <= s) by (nonlinear_arith)
        requires -(2 * OPB * OPB) <= s <= 2 * OPB * OPB;
}

} // verus!
