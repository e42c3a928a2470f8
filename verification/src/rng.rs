use vstd::prelude::*;
use crate::fixed::{SCALE, UNITB};
use crate::vec3::{bounded, vlsq, vunit, Vec3};

verus! {

/// Relies on rand's `Rng::gen_range` on the thread-local generator: a
/// uniform draw from the half-open range `[lo, hi)`; it panics only on an
/// empty range, which the precondition rules out.
#[verifier::external_body]
pub fn rand_range(lo: i128, hi: i128) -> (r: i128)
    requires
        lo < hi,
    ensures
        lo <= r < hi,
{
    rand::Rng::gen_range(&mut rand::thread_rng(), lo..hi)
}

/// Relies on rand's `Rng::gen_range` on the thread-local generator: a
/// uniform coordinate-axis index.
#[verifier::external_body]
pub fn rand_axis() -> (r: usize)
    ensures
        r < 3,
{
    rand::Rng::gen_range(&mut rand::thread_rng(), 0..3usize)
}

/// A uniform fixed-point sample from `[0, 1)`.
pub fn rand_unit_scalar() -> (r: i128)
    ensures
        0 <= r < SCALE,
{
    rand_range(0, SCALE)
}

/// Rejection sampling of a point inside the unit ball.  After a bounded
/// number of tries a fixed interior point stands in, so that the result
/// always has a squared length below one.
pub fn random_in_unit_sphere() -> (r: Vec3)
    ensures
        bounded(r@, SCALE as int),
        0 <= vlsq(r@) < SCALE,
{
    let mut tries: usize = 0;
    while tries < 64
        invariant
            tries <= 64,
        decreases 64 - tries,
    {
        let p = Vec3::with_values(
            rand_range(-SCALE, SCALE + 1),
            rand_range(-SCALE, SCALE + 1),
            rand_range(-SCALE, SCALE + 1),
        );
        let lsq = p.length_squared();
        if lsq < SCALE {
            return p;
        }
        tries = tries + 1;
    }
    let f = Vec3::with_values(SCALE / 2, 0, 0);
    let flsq = f.length_squared();
    proof {
        assert(vlsq(f@) == crate::fixed::fdiv((32768 as int) * (32768 as int), SCALE as int));
    }
    if flsq < SCALE {
        f
    } else {
        Vec3::with_values(0, 0, 0)
    }
}

impl Vec3 {
    /// A vector with each component drawn uniformly from `[0, 1]`.
    pub fn random() -> (r: Vec3)
        ensures
            bounded(r@, SCALE as int),
    {
        Vec3::with_values(
            rand_range(0, SCALE + 1),
            rand_range(0, SCALE + 1),
            rand_range(0, SCALE + 1),
        )
    }

    /// A vector with each component drawn uniformly from `[min, max]`.
    pub fn random_range(min: i128, max: i128) -> (r: Vec3)
        requires
            min <= max,
            -crate::fixed::OPB <= min,
            max <= crate::fixed::OPB,
        ensures
            min <= r@.x <= max,
            min <= r@.y <= max,
            min <= r@.z <= max,
    {
        Vec3::with_values(
            rand_range(min, max + 1),
            rand_range(min, max + 1),
            rand_range(min, max + 1),
        )
    }
}

/// Rejection sampling of a point inside the unit disk of the xy-plane,
/// with the same bounded-tries fallback as the ball sampler.
pub fn random_in_unit_disk() -> (r: Vec3)
    ensures
        bounded(r@, SCALE as int),
        0 <= vlsq(r@) < SCALE,
        r@.z == 0,
{
    let mut tries: usize = 0;
    while tries < 64
        invariant
            tries <= 64,
        decreases 64 - tries,
    {
        let p = Vec3::with_values(
            rand_range(-SCALE, SCALE + 1),
            rand_range(-SCALE, SCALE + 1),
            0,
        );
        let lsq = p.length_squared();
        if lsq < SCALE {
            return p;
        }
        tries = tries + 1;
    }
    let f = Vec3::with_values(SCALE / 2, 0, 0);
    let flsq = f.length_squared();
    proof {
        assert(vlsq(f@) == crate::fixed::fdiv((32768 as int) * (32768 as int), SCALE as int));
    }
    if flsq < SCALE {
        f
    } else {
        Vec3::with_values(0, 0, 0)
    }
}

/// A unit-ball sample turned to lie in the hemisphere around `normal`.
pub fn random_in_hemisphere(normal: &Vec3) -> (r: Vec3)
    requires
        bounded(normal@, crate::fixed::OPB as int),
    ensures
        bounded(r@, SCALE as int),
        0 <= vlsq(r@) < SCALE,
{
    let in_unit_sphere = random_in_unit_sphere();
    let d = crate::vec3::dot(&in_unit_sphere, normal);
    if d > 0 {
        in_unit_sphere
    } else {
        proof {
            let v = in_unit_sphere@;
            assert((-v.x) * (-v.x) == v.x * v.x && (-v.y) * (-v.y) == v.y * v.y && (-v.z) * (
            -v.z) == v.z * v.z) by (nonlinear_arith);
        }
        in_unit_sphere.negate()
    }
}

/// A random direction of roughly unit length: a unit-ball sample passed
/// through fixed-point normalization.
pub fn random_unit_vector() -> (r: Vec3)
    ensures
        bounded(r@, UNITB as int),
        exists|s: Vec3| bounded(s@, SCALE as int) && 0 <= vlsq(s@) < SCALE && r@ == vunit(
            #[trigger] s@),
{
    let s = random_in_unit_sphere();
    let r = s.unit_vector();
    proof {
        assert(bounded(s@, SCALE as int) && 0 <= vlsq(s@) < SCALE && r@ == vunit(s@));
    }
    r
}

} // verus!
