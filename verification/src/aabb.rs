use vstd::prelude::*;
use crate::fixed::{ABMAX, DMAX, SCALE, WMAX};
use crate::ray::{ray_wf, Ray, Rayg};
use crate::vec3::{bounded, Point3, V3};

verus! {

/// Largest magnitude of a slab-test numerator (a box corner minus an origin).
pub const NUMB: i128 = 343597383680;

/// The mathematical value of an axis-aligned box: two corner points.
pub ghost struct Aabbg {
    pub min: V3,
    pub max: V3,
}

/// An axis-aligned bounding box, stored as its two corner points.
#[derive(Clone, Copy, PartialEq, Eq, Structural, Debug)]
pub struct AABB {
    pub minimum: Point3,
    pub maximum: Point3,
}

impl View for AABB {
    type V = Aabbg;

    open spec fn view(&self) -> Aabbg {
        Aabbg { min: self.minimum@, max: self.maximum@ }
    }
}

/// A well-formed box has all corner components within `ABMAX`.
pub open spec fn aabb_wf(b: Aabbg) -> bool {
    bounded(b.min, ABMAX as int) && bounded(b.max, ABMAX as int)
}

/// Strictly less-than on fractions with positive denominators:
/// `an/ad < bn/bd`.
pub open spec fn frac_lt(an: int, ad: int, bn: int, bd: int) -> bool {
    an * bd < bn * ad
}

/// Less-or-equal on fractions with positive denominators.
pub open spec fn frac_le(an: int, ad: int, bn: int, bd: int) -> bool {
    an * bd <= bn * ad
}

/// Component `a` (0, 1 or 2) of a vector.
pub open spec fn comp(v: V3, a: int) -> int {
    if a == 0 {
        v.x
    } else if a == 1 {
        v.y
    } else {
        v.z
    }
}

/// Positive denominator of the slab fractions of an axis: `|direction|`.
pub open spec fn slab_den(r: Rayg, a: int) -> int {
    if comp(r.dir, a) >= 0 {
        comp(r.dir, a)
    } else {
        -comp(r.dir, a)
    }
}

/// Numerator of the entry parameter of an axis slab (meaningful only when
/// the direction component is nonzero).
pub open spec fn slab_lo_n(b: Aabbg, r: Rayg, a: int) -> int {
    if comp(r.dir, a) > 0 {
        comp(b.min, a) - comp(r.orig, a)
    } else {
        comp(r.orig, a) - comp(b.max, a)
    }
}

/// Numerator of the exit parameter of an axis slab.
pub open spec fn slab_hi_n(b: Aabbg, r: Rayg, a: int) -> int {
    if comp(r.dir, a) > 0 {
        comp(b.max, a) - comp(r.orig, a)
    } else {
        comp(r.orig, a) - comp(b.min, a)
    }
}

/// An axis with a zero direction component passes only when the origin lies
/// within that slab.
pub open spec fn slab_contains0(b: Aabbg, r: Rayg, a: int) -> bool {
    comp(r.dir, a) == 0 ==> comp(b.min, a) <= comp(r.orig, a) <= comp(b.max, a)
}

/// Numerator of lower-bound candidate `i`: the axis entries where the
/// direction is nonzero (0..2), with `t_min` standing in elsewhere and at 3.
pub open spec fn low_n(b: Aabbg, r: Rayg, t0: int, i: int) -> int {
    if 0 <= i < 3 && comp(r.dir, i) != 0 {
        slab_lo_n(b, r, i)
    } else {
        t0
    }
}

pub open spec fn low_d(r: Rayg, i: int) -> int {
    if 0 <= i < 3 && comp(r.dir, i) != 0 {
        slab_den(r, i)
    } else {
        SCALE as int
    }
}

/// Numerator of upper-bound candidate `j`: axis exits, with `t_max` at 3.
pub open spec fn up_n(b: Aabbg, r: Rayg, t1: int, j: int) -> int {
    if 0 <= j < 3 && comp(r.dir, j) != 0 {
        slab_hi_n(b, r, j)
    } else {
        t1
    }
}

pub open spec fn up_d(r: Rayg, j: int) -> int {
    if 0 <= j < 3 && comp(r.dir, j) != 0 {
        slab_den(r, j)
    } else {
        SCALE as int
    }
}

/// One comparison of the reference slab test: lower candidate `i` lies
/// strictly below upper candidate `j`.
pub open spec fn pair_ok(b: Aabbg, r: Rayg, t0: int, t1: int, i: int, j: int) -> bool {
    frac_lt(low_n(b, r, t0, i), low_d(r, i), up_n(b, r, t1, j), up_d(r, j))
}

/// The reference slab test: the ray parameter interval `(t0, t1)` meets all
/// three slabs in a nonempty open interval.  This is the brute-force
/// per-axis interval intersection stated directly: every lower bound lies
/// strictly below every upper bound, and every degenerate axis contains the
/// origin.
pub open spec fn aabb_hit_spec(b: Aabbg, r: Rayg, t0: int, t1: int) -> bool {
    &&& forall|a: int| 0 <= a < 3 ==> #[trigger] slab_contains0(b, r, a)
    &&& forall|i: int, j: int| 0 <= i < 4 && 0 <= j < 4 ==> #[trigger] pair_ok(b, r, t0, t1, i, j)
}

/// Componentwise union of two boxes.
pub open spec fn box_union(a: Aabbg, b: Aabbg) -> Aabbg {
    Aabbg {
        min: V3 {
            x: if a.min.x <= b.min.x { a.min.x } else { b.min.x },
            y: if a.min.y <= b.min.y { a.min.y } else { b.min.y },
            z: if a.min.z <= b.min.z { a.min.z } else { b.min.z },
        },
        max: V3 {
            x: if a.max.x >= b.max.x { a.max.x } else { b.max.x },
            y: if a.max.y >= b.max.y { a.max.y } else { b.max.y },
            z: if a.max.z >= b.max.z { a.max.z } else { b.max.z },
        },
    }
}

impl AABB {
    pub fn new(minimum: Point3, maximum: Point3) -> (r: AABB)
        ensures
            r@.min == minimum@,
            r@.max == maximum@,
    {
        AABB { minimum, maximum }
    }

    /// The all-zero box, standing in where no box is available.
    pub fn zero() -> (r: AABB)
        ensures
            r@.min == (V3 { x: 0, y: 0, z: 0 }),
            r@.max == (V3 { x: 0, y: 0, z: 0 }),
            aabb_wf(r@),
    {
        AABB {
            minimum: Point3 { e0: 0, e1: 0, e2: 0 },
            maximum: Point3 { e0: 0, e1: 0, e2: 0 },
        }
    }

    pub fn min(&self) -> (r: Point3)
        ensures
            r@ == self@.min,
    {
        self.minimum
    }

    pub fn max(&self) -> (r: Point3)
        ensures
            r@ == self@.max,
    {
        self.maximum
    }

    /// The slab test: whether the ray crosses the box inside the open
    /// parameter interval `(t_min, t_max)`, decided by exact fraction
    /// comparisons.  Agrees with the brute-force per-axis interval
    /// intersection `aabb_hit_spec`.
    #[verifier::rlimit(100)]
    #[verifier::spinoff_prover]
    pub fn hit(&self, ray: &Ray, t_min: i128, t_max: i128) -> (res: bool)
        requires
            aabb_wf(self@),
            ray_wf(ray@),
            -WMAX <= t_min <= WMAX,
            -WMAX <= t_max <= WMAX,
        ensures
            res == aabb_hit_spec(self@, ray@, t_min as int, t_max as int),
    {
        let ghost b = self@;
        let ghost r = ray@;
        let ghost t0 = t_min as int;
        let ghost t1 = t_max as int;
        let mut lon: i128 = t_min;
        let mut lod: i128 = SCALE;
        let mut hin: i128 = t_max;
        let mut hid: i128 = SCALE;

        proof {
            lemma_frac_le_refl(t0, SCALE as int);
            lemma_frac_le_refl(t1, SCALE as int);
            assert(low_n(b, r, t0, 3) == t0 && low_d(r, 3) == SCALE as int);
            assert(up_n(b, r, t1, 3) == t1 && up_d(r, 3) == SCALE as int);
        }

        let ghost mut wi: int = 3;
        let ghost mut wj: int = 3;
        let mut a: usize = 0;
        while a < 3
            invariant
                aabb_wf(b),
                ray_wf(r),
                b == self@,
                r == ray@,
                t0 == t_min as int,
                t1 == t_max as int,
                -WMAX <= t0 <= WMAX,
                -WMAX <= t1 <= WMAX,
                a <= 3,
                -NUMB <= lon <= NUMB,
                -NUMB <= hin <= NUMB,
                1 <= lod <= DMAX,
                1 <= hid <= DMAX,
                frac_le(t0, SCALE as int, lon as int, lod as int),
                frac_le(hin as int, hid as int, t1, SCALE as int),
                forall|i: int| 0 <= i < a ==> frac_le(
                    #[trigger] low_n(b, r, t0, i),
                    low_d(r, i),
                    lon as int,
                    lod as int,
                ),
                forall|j: int| 0 <= j < a ==> frac_le(
                    hin as int,
                    hid as int,
                    #[trigger] up_n(b, r, t1, j),
                    up_d(r, j),
                ),
                forall|x: int| 0 <= x < a ==> #[trigger] slab_contains0(b, r, x),
                frac_lt(lon as int, lod as int, hin as int, hid as int) || a == 0,
                wi == 3 || 0 <= wi < a,
                wj == 3 || 0 <= wj < a,
                lon as int == low_n(b, r, t0, wi) && lod as int == low_d(r, wi),
                hin as int == up_n(b, r, t1, wj) && hid as int == up_d(r, wj),
            decreases 3 - a,
        {
            let (o, d, mn, mx) = if a == 0 {
                (ray.origin.e0, ray.direction.e0, self.minimum.e0, self.maximum.e0)
            } else if a == 1 {
                (ray.origin.e1, ray.direction.e1, self.minimum.e1, self.maximum.e1)
            } else {
                (ray.origin.e2, ray.direction.e2, self.minimum.e2, self.maximum.e2)
            };
            let ghost ag = a as int;
            proof {
                assert(o == comp(r.orig, ag) && d == comp(r.dir, ag) && mn == comp(b.min, ag)
                    && mx == comp(b.max, ag));
            }
            if d == 0 {
                if !(mn <= o && o <= mx) {
                    proof {
                        assert(!slab_contains0(b, r, ag));
                    }
                    return false;
                }
                if !frac_lt_e(lon, lod, hin, hid) {
                    proof {
                        assert(!pair_ok(b, r, t0, t1, wi, wj));
                        assert(0 <= wi < 4 && 0 <= wj < 4);
                    }
                    return false;
                }
                proof {
                    assert(slab_contains0(b, r, ag));
                    assert(low_n(b, r, t0, ag) == t0 && low_d(r, ag) == SCALE as int);
                    assert(up_n(b, r, t1, ag) == t1 && up_d(r, ag) == SCALE as int);
                    assert forall|i: int| 0 <= i < ag + 1 implies frac_le(
                        #[trigger] low_n(b, r, t0, i),
                        low_d(r, i),
                        lon as int,
                        lod as int,
                    ) by {
                        if i == ag {
                            assert(frac_le(t0, SCALE as int, lon as int, lod as int));
                        }
                    }
                    assert forall|j: int| 0 <= j < ag + 1 implies frac_le(
                        hin as int,
                        hid as int,
                        #[trigger] up_n(b, r, t1, j),
                        up_d(r, j),
                    ) by {
                        if j == ag {
                            assert(frac_le(hin as int, hid as int, t1, SCALE as int));
                        }
                    }
                }
            } else {
                let den: i128 = if d > 0 { d } else { -d };
                let an: i128 = if d > 0 { mn - o } else { o - mx };
                let bn: i128 = if d > 0 { mx - o } else { o - mn };
                proof {
                    assert(den == slab_den(r, ag));
                    assert(an == slab_lo_n(b, r, ag));
                    assert(bn == slab_hi_n(b, r, ag));
                    assert(low_n(b, r, t0, ag) == an as int && low_d(r, ag) == den as int);
                    assert(up_n(b, r, t1, ag) == bn as int && up_d(r, ag) == den as int);
                }
                let ghost oln = lon as int;
                let ghost old_ = lod as int;
                let ghost ohn = hin as int;
                let ghost ohd = hid as int;
                let lo_changed = frac_lt_e(lon, lod, an, den);
                if lo_changed {
                    lon = an;
                    lod = den;
                    proof {
                        wi = ag;
                    }
                }
                let hi_changed = frac_lt_e(bn, den, hin, hid);
                if hi_changed {
                    hin = bn;
                    hid = den;
                    proof {
                        wj = ag;
                    }
                }
                proof {
                    // The new lower pair dominates the old pair and the new
                    // axis entry; symmetrically for the upper pair.
                    lemma_frac_total(oln, old_, an as int, den as int);
                    lemma_frac_total(bn as int, den as int, ohn, ohd);
                    assert(frac_le(oln, old_, lon as int, lod as int));
                    assert(frac_le(an as int, den as int, lon as int, lod as int));
                    assert(frac_le(hin as int, hid as int, ohn, ohd));
                    assert(frac_le(hin as int, hid as int, bn as int, den as int));
                    lemma_frac_le_trans(t0, SCALE as int, oln, old_, lon as int, lod as int);
                    lemma_frac_le_trans(hin as int, hid as int, ohn, ohd, t1, SCALE as int);
                    assert forall|i: int| 0 <= i < ag + 1 implies frac_le(
                        #[trigger] low_n(b, r, t0, i),
                        low_d(r, i),
                        lon as int,
                        lod as int,
                    ) by {
                        if i < ag {
                            lemma_frac_le_trans(low_n(b, r, t0, i), low_d(r, i), oln, old_,
                                lon as int, lod as int);
                        }
                    }
                    assert forall|j: int| 0 <= j < ag + 1 implies frac_le(
                        hin as int,
                        hid as int,
                        #[trigger] up_n(b, r, t1, j),
                        up_d(r, j),
                    ) by {
                        if j < ag {
                            lemma_frac_le_trans(hin as int, hid as int, ohn, ohd,
                                up_n(b, r, t1, j), up_d(r, j));
                        }
                    }
                    assert(slab_contains0(b, r, ag));
                }
                if !frac_lt_e(lon, lod, hin, hid) {
                    proof {
                        assert(!pair_ok(b, r, t0, t1, wi, wj));
                        assert(0 <= wi < 4 && 0 <= wj < 4);
                    }
                    return false;
                }
            }
            a = a + 1;
        }
        proof {
            assert forall|i: int, j: int| 0 <= i < 4 && 0 <= j < 4 implies #[trigger] pair_ok(
                b, r, t0, t1, i, j) by {
                assert(low_d(r, i) >= 1 && up_d(r, j) >= 1);
                if i == 3 {
                    assert(frac_le(low_n(b, r, t0, i), low_d(r, i), lon as int, lod as int));
                } else {
                    assert(frac_le(low_n(b, r, t0, i), low_d(r, i), lon as int, lod as int));
                }
                if j == 3 {
                    assert(frac_le(hin as int, hid as int, up_n(b, r, t1, j), up_d(r, j)));
                } else {
                    assert(frac_le(hin as int, hid as int, up_n(b, r, t1, j), up_d(r, j)));
                }
                lemma_frac_le_lt(low_n(b, r, t0, i), low_d(r, i), lon as int, lod as int,
                    hin as int, hid as int);
                lemma_frac_lt_le(low_n(b, r, t0, i), low_d(r, i), hin as int, hid as int,
                    up_n(b, r, t1, j), up_d(r, j));
            }
        }
        true
    }
}

/// Exact comparison `an/ad < bn/bd` by cross multiplication.
fn frac_lt_e(an: i128, ad: i128, bn: i128, bd: i128) -> (r: bool)
    requires
        1 <= ad <= DMAX,
        1 <= bd <= DMAX,
        -NUMB <= an <= NUMB,
        -NUMB <= bn <= NUMB,
    ensures
        r == frac_lt(an as int, ad as int, bn as int, bd as int),
{
    proof {
        assert(an * bd <= NUMB * DMAX && an * bd >= -(NUMB * DMAX) && bn * ad <= NUMB * DMAX
            && bn * ad >= -(NUMB * DMAX)) by (nonlinear_arith)
            requires 1 <= ad <= DMAX && 1 <= bd <= DMAX && -NUMB <= an <= NUMB
                && -NUMB <= bn <= NUMB;
    }
    an * bd < bn * ad
}

/// Fractions with positive denominators are totally ordered: when one
/// comparison fails, the opposite non-strict comparison holds.
proof fn lemma_frac_total(an: int, ad: int, bn: int, bd: int)
    ensures
        frac_lt(an, ad, bn, bd) || frac_le(bn, bd, an, ad),
{
}

proof fn lemma_frac_le_refl(n: int, d: int)
    ensures
        frac_le(n, d, n, d),
{
}

/// Transitivity of the fraction order (non-strict).
proof fn lemma_frac_le_trans(an: int, ad: int, bn: int, bd: int, cn: int, cd: int)
    requires
        1 <= ad,
        1 <= bd,
        1 <= cd,
        frac_le(an, ad, bn, bd),
        frac_le(bn, bd, cn, cd),
    ensures
        frac_le(an, ad, cn, cd),
{
    assert(an * bd * cd <= bn * ad * cd) by (nonlinear_arith)
        requires an * bd <= bn * ad && 1 <= cd;
    assert(bn * cd * ad <= cn * bd * ad) by (nonlinear_arith)
        requires bn * cd <= cn * bd && 1 <= ad;
    assert(an * bd * cd == an * cd * bd && bn * ad * cd == bn * cd * ad && cn * bd * ad == cn
        * ad * bd) by (nonlinear_arith);
    assert(an * cd <= cn * ad) by (nonlinear_arith)
        requires an * cd * bd <= cn * ad * bd && 1 <= bd;
}

/// A non-strict bound below a strict bound is strict.
proof fn lemma_frac_le_lt(an: int, ad: int, bn: int, bd: int, cn: int, cd: int)
    requires
        1 <= ad,
        1 <= bd,
        1 <= cd,
        frac_le(an, ad, bn, bd),
        frac_lt(bn, bd, cn, cd),
    ensures
        frac_lt(an, ad, cn, cd),
{
    assert(an * bd * cd <= bn * ad * cd) by (nonlinear_arith)
        requires an * bd <= bn * ad && 1 <= cd;
    assert(bn * cd * ad < cn * bd * ad) by (nonlinear_arith)
        requires bn * cd < cn * bd && 1 <= ad;
    assert(an * bd * cd == an * cd * bd && bn * ad * cd == bn * cd * ad && cn * bd * ad == cn
        * ad * bd) by (nonlinear_arith);
    assert(an * cd < cn * ad) by (nonlinear_arith)
        requires an * cd * bd < cn * ad * bd && 1 <= bd;
}

/// A strict bound below a non-strict bound is strict.
proof fn lemma_frac_lt_le(an: int, ad: int, bn: int, bd: int, cn: int, cd: int)
    requires
        1 <= ad,
        1 <= bd,
        1 <= cd,
        frac_lt(an, ad, bn, bd),
        frac_le(bn, bd, cn, cd),
    ensures
        frac_lt(an, ad, cn, cd),
{
    assert(an * bd * cd < bn * ad * cd) by (nonlinear_arith)
        requires an * bd < bn * ad && 1 <= cd;
    assert(bn * cd * ad <= cn * bd * ad) by (nonlinear_arith)
        requires bn * cd <= cn * bd && 1 <= ad;
    assert(an * bd * cd == an * cd * bd && bn * ad * cd == bn * cd * ad && cn * bd * ad == cn
        * ad * bd) by (nonlinear_arith);
    assert(an * cd < cn * ad) by (nonlinear_arith)
        requires an * cd * bd < cn * ad * bd && 1 <= bd;
}

/// Widening the parameter interval preserves a passing slab test.
pub proof fn lemma_slab_widen(b: Aabbg, r: Rayg, t0: int, t1p: int, t1: int)
    requires
        t1p <= t1,
        aabb_hit_spec(b, r, t0, t1p),
    ensures
        aabb_hit_spec(b, r, t0, t1),
{
    assert forall|i: int, j: int| 0 <= i < 4 && 0 <= j < 4 implies #[trigger] pair_ok(
        b, r, t0, t1, i, j) by {
        assert(pair_ok(b, r, t0, t1p, i, j));
        assert(low_d(r, i) >= 1 && up_d(r, j) >= 1);
        if j == 3 || comp(r.dir, j) == 0 {
            assert(up_n(b, r, t1, j) == t1 && up_n(b, r, t1p, j) == t1p && up_d(r, j)
                == SCALE as int);
            assert(frac_le(t1p, SCALE as int, t1, SCALE as int)) by (nonlinear_arith)
                requires t1p <= t1 && SCALE as int == 65536;
            lemma_frac_lt_le(low_n(b, r, t0, i), low_d(r, i), t1p, SCALE as int, t1,
                SCALE as int);
        } else {
            assert(up_n(b, r, t1, j) == up_n(b, r, t1p, j));
        }
    }
}

/// A negative-valued fraction lies strictly below a positive-valued one.
proof fn lemma_neg_lt_pos(ln: int, ld: int, un: int, ud: int)
    requires
        1 <= ld,
        1 <= ud,
        ln < 0,
        un > 0,
    ensures
        frac_lt(ln, ld, un, ud),
{
    assert(ln * ud < 0) by (nonlinear_arith)
        requires ln < 0 && 1 <= ud;
    assert(un * ld > 0) by (nonlinear_arith)
        requires un > 0 && 1 <= ld;
}

/// A ray whose origin lies strictly inside a box always passes the slab
/// test on any parameter interval that strictly contains zero.
pub proof fn lemma_origin_inside_hits(b: Aabbg, r: Rayg, t0: int, t1: int)
    requires
        b.min.x < r.orig.x < b.max.x,
        b.min.y < r.orig.y < b.max.y,
        b.min.z < r.orig.z < b.max.z,
        t0 < 0 < t1,
    ensures
        aabb_hit_spec(b, r, t0, t1),
{
    assert forall|a: int| 0 <= a < 3 implies #[trigger] slab_contains0(b, r, a) by {}
    assert forall|i: int, j: int| 0 <= i < 4 && 0 <= j < 4 implies #[trigger] pair_ok(
        b, r, t0, t1, i, j) by {
        assert(low_n(b, r, t0, i) < 0);
        assert(up_n(b, r, t1, j) > 0);
        assert(low_d(r, i) >= 1 && up_d(r, j) >= 1);
        lemma_neg_lt_pos(low_n(b, r, t0, i), low_d(r, i), up_n(b, r, t1, j), up_d(r, j));
    }
}

/// The componentwise union of two boxes.
pub fn surrounding_box(box0: &AABB, box1: &AABB) -> (r: AABB)
    ensures
        r@ == box_union(box0@, box1@),
{
    let small = Point3 {
        e0: if box0.minimum.e0 <= box1.minimum.e0 { box0.minimum.e0 } else { box1.minimum.e0 },
        e1: if box0.minimum.e1 <= box1.minimum.e1 { box0.minimum.e1 } else { box1.minimum.e1 },
        e2: if box0.minimum.e2 <= box1.minimum.e2 { box0.minimum.e2 } else { box1.minimum.e2 },
    };
    let big = Point3 {
        e0: if box0.maximum.e0 >= box1.maximum.e0 { box0.maximum.e0 } else { box1.maximum.e0 },
        e1: if box0.maximum.e1 >= box1.maximum.e1 { box0.maximum.e1 } else { box1.maximum.e1 },
        e2: if box0.maximum.e2 >= box1.maximum.e2 { box0.maximum.e2 } else { box1.maximum.e2 },
    };
    AABB { minimum: small, maximum: big }
}

} // verus!
