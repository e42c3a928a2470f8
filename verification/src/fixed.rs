use vstd::prelude::*;
use vstd::arithmetic::div_mod::{
    lemma_div_nonincreasing, lemma_fundamental_div_mod, lemma_fundamental_div_mod_converse,
    lemma_mod_division_less_than_divisor, lemma_mod_pos_bound,
};

verus! {

/// Every scalar in this crate is a fixed-point number: an integer count of
/// fraction units of size `1 / SCALE`.  One whole world unit is `SCALE`
/// fraction units.
pub const SCALE: i128 = 65536;

/// Largest magnitude allowed for world coordinates, times and ray parameters
/// (about a million world units).  Geometry outside this cube is not modelled.
pub const WMAX: i128 = 68719476736;

/// Largest magnitude allowed for a ray direction component.
pub const DMAX: i128 = 274877906944;

/// Bound under which componentwise vector arithmetic cannot overflow `i128`.
pub const OPB: i128 = 1152921504606846976;

/// Bound on the factors accepted by `fp_mul`.
pub const MULB: i128 = 4611686018427387904;

/// Bound on the numerator accepted by `fp_div`.
pub const DIVB: i128 = 1267650600228229401496703205376;

/// Bound on the operand accepted by `fp_sqrt`.
pub const SQB: i128 = 1298074214633706907132624082305023;

/// Bound on the components of a normalized vector (258 whole units; the
/// fixed-point normalization of a very short vector can overshoot 1.0).
pub const UNITB: i128 = 16908288;

/// Largest magnitude allowed for a bounding-box corner component (wider than
/// `WMAX`, since rotated corners can leave the world cube).
pub const ABMAX: i128 = 274877906944;

/// Bound on the components of a surface normal handed out by a hit record.
pub const NORMB: i128 = 131072;

/// Bound on the components of a texture or attenuation color (1024 whole
/// units of radiance).
pub const COLORB: i128 = 67108864;

/// Floor division: for `b != 0`, the unique `q` with `q*|b| <= sign(b)*a < (q+1)*|b|`
/// when `b > 0`, i.e. rounding toward negative infinity.
pub open spec fn fdiv(a: int, b: int) -> int {
    if b > 0 {
        a / b
    } else {
        (-a) / (-b)
    }
}

/// The fixed-point product: the exact integer product scaled back down,
/// rounded toward negative infinity.
pub open spec fn fmul(a: int, b: int) -> int {
    fdiv(a * b, SCALE as int)
}

/// The fixed-point quotient, rounded toward negative infinity.
pub open spec fn fquot(a: int, b: int) -> int {
    fdiv(a * SCALE, b)
}

/// The floor of the square root of a natural number, defined by counting up.
pub open spec fn isqrt_rec(n: nat) -> int
    decreases n,
{
    if n == 0 {
        0
    } else {
        let r = isqrt_rec((n - 1) as nat);
        if n < (r + 1) * (r + 1) {
            r
        } else {
            r + 1
        }
    }
}

/// The fixed-point square root of a nonnegative scalar: the floor of the
/// real square root taken at fixed-point precision.
pub open spec fn fsqrt(x: int) -> int {
    isqrt_rec((x * SCALE) as nat)
}

/// The floor square root brackets its argument between consecutive squares.
pub proof fn lemma_isqrt_rec_props(n: nat)
    ensures
        0 <= isqrt_rec(n),
        isqrt_rec(n) * isqrt_rec(n) <= n,
        n < (isqrt_rec(n) + 1) * (isqrt_rec(n) + 1),
    decreases n,
{
    if n == 0 {
    } else {
        lemma_isqrt_rec_props((n - 1) as nat);
        let r = isqrt_rec((n - 1) as nat);
        if n < (r + 1) * (r + 1) {
        } else {
            assert((r + 1) * (r + 1) == n);
            assert(n < ((r + 1) + 1) * ((r + 1) + 1)) by (nonlinear_arith)
                requires 0 <= r && (r + 1) * (r + 1) == n as int;
        }
    }
}

/// The bracketing property of `fsqrt` for nonnegative operands.
pub proof fn lemma_fsqrt_props(x: int)
    requires
        0 <= x,
    ensures
        0 <= fsqrt(x),
        fsqrt(x) * fsqrt(x) <= x * SCALE,
        x * SCALE < (fsqrt(x) + 1) * (fsqrt(x) + 1),
{
    assert(0 <= x * SCALE) by (nonlinear_arith)
        requires 0 <= x && 0 < SCALE as int;
    lemma_isqrt_rec_props((x * SCALE) as nat);
}

/// Magnitude of an integer.
pub open spec fn iabs(a: int) -> int {
    if a >= 0 {
        a
    } else {
        -a
    }
}

/// The defining property of floor division by a positive divisor.
pub proof fn lemma_fdiv_props(a: int, b: int)
    requires
        b >= 1,
    ensures
        fdiv(a, b) * b <= a,
        a < (fdiv(a, b) + 1) * b,
{
    lemma_fundamental_div_mod(a, b);
    lemma_mod_division_less_than_divisor(a, b);
    let q = a / b;
    let r = a % b;
    assert(a == b * q + r);
    assert(0 <= r < b);
    assert(b * q == q * b && (q + 1) * b == q * b + b) by (nonlinear_arith);
}

/// A dividend within `k` multiples of the divisor yields a quotient within `k`.
pub proof fn lemma_fdiv_bounded(a: int, b: int, k: int)
    requires
        b >= 1,
        0 <= k,
        -(k * b) <= a <= k * b,
    ensures
        -k <= fdiv(a, b) <= k,
{
    lemma_fdiv_props(a, b);
    let q = fdiv(a, b);
    if q > k {
        assert(q * b >= (k + 1) * b) by (nonlinear_arith)
            requires b >= 1 && q >= k + 1;
        assert((k + 1) * b == k * b + b) by (nonlinear_arith);
    }
    if q < -k {
        assert((q + 1) * b <= -(k * b)) by (nonlinear_arith)
            requires b >= 1 && q + 1 <= -k;
    }
}

/// Exact division: when the divisor divides evenly, floor division inverts
/// the multiplication.
pub proof fn lemma_fdiv_exact(q: int, b: int)
    requires
        b >= 1,
    ensures
        fdiv(q * b, b) == q,
{
    lemma_fundamental_div_mod_converse(q * b, b, q, 0);
}

/// Floor division by a positive divisor is monotone in the dividend.
pub proof fn lemma_fdiv_mono(a1: int, a2: int, b: int)
    requires
        b >= 1,
        a1 <= a2,
    ensures
        fdiv(a1, b) <= fdiv(a2, b),
{
    lemma_fdiv_props(a1, b);
    lemma_fdiv_props(a2, b);
    let q1 = fdiv(a1, b);
    let q2 = fdiv(a2, b);
    if q1 > q2 {
        assert(q1 * b >= (q2 + 1) * b) by (nonlinear_arith)
            requires b >= 1 && q1 >= q2 + 1;
    }
}

/// The fixed-point square root is fully determined by its bracketing property.
pub proof fn lemma_fsqrt_unique(x: int, r: int)
    requires
        0 <= r,
        r * r <= x * SCALE,
        x * SCALE < (r + 1) * (r + 1),
    ensures
        fsqrt(x) == r,
{
    assert(0 <= x) by (nonlinear_arith)
        requires 0 <= r && r * r <= x * SCALE && 0 < SCALE as int;
    lemma_fsqrt_props(x);
    let c = fsqrt(x);
    if c < r {
        assert((c + 1) * (c + 1) <= r * r) by (nonlinear_arith)
            requires 0 <= c + 1 <= r;
    }
    if c > r {
        assert((r + 1) * (r + 1) <= c * c) by (nonlinear_arith)
            requires 0 <= r + 1 <= c;
    }
}

/// Floor division of an `i128` by a positive `i128`, rounding toward
/// negative infinity (unlike Rust's `/`, which truncates toward zero).
pub fn floor_div(a: i128, b: i128) -> (q: i128)
    requires
        1 <= b,
        a != i128::MIN,
    ensures
        q == fdiv(a as int, b as int),
{
    if a >= 0 {
        let q0: u128 = (a as u128) / (b as u128);
        proof {
            lemma_div_nonincreasing(a as int, b as int);
        }
        q0 as i128
    } else {
        let m: u128 = (-a) as u128;
        let d: u128 = b as u128;
        let q0: u128 = m / d;
        let r0: u128 = m % d;
        proof {
            lemma_fundamental_div_mod(m as int, d as int);
            lemma_mod_pos_bound(m as int, d as int);
            lemma_div_nonincreasing(m as int, d as int);
        }
        if r0 == 0 {
            proof {
                assert(a as int == (-(q0 as int)) * (b as int) + 0) by (nonlinear_arith)
                    requires
                        m as int == (d as int) * ((m as int) / (d as int)) + ((m as int) % (
                        d as int)),
                        q0 as int == (m as int) / (d as int),
                        r0 as int == (m as int) % (d as int),
                        r0 == 0,
                        a as int == -(m as int),
                        d as int == b as int;
                lemma_fundamental_div_mod_converse(a as int, b as int, -(q0 as int), 0);
            }
            -(q0 as i128)
        } else {
            proof {
                assert(a as int == (-(q0 as int) - 1) * (b as int) + ((b as int) - (
                r0 as int))) by (nonlinear_arith)
                    requires
                        m as int == (d as int) * ((m as int) / (d as int)) + ((m as int) % (
                        d as int)),
                        q0 as int == (m as int) / (d as int),
                        r0 as int == (m as int) % (d as int),
                        a as int == -(m as int),
                        d as int == b as int;
                assert(q0 as int <= (m as int) - 1) by (nonlinear_arith)
                    requires
                        m as int == (d as int) * (q0 as int) + (r0 as int),
                        1 <= r0 as int,
                        1 <= d as int,
                        0 <= q0 as int;
                lemma_fundamental_div_mod_converse(
                    a as int,
                    b as int,
                    -(q0 as int) - 1,
                    (b as int) - (r0 as int),
                );
            }
            -(q0 as i128) - 1
        }
    }
}

/// The fixed-point product of two scalars.
pub fn fp_mul(a: i128, b: i128) -> (r: i128)
    requires
        -MULB <= a <= MULB,
        -MULB <= b <= MULB,
    ensures
        r == fmul(a as int, b as int),
{
    proof {
        assert((a as int) * (b as int) <= MULB * MULB && (a as int) * (b as int) >= -(MULB * MULB))
            by (nonlinear_arith)
            requires -MULB <= a <= MULB && -MULB <= b <= MULB;
    }
    let p: i128 = a * b;
    floor_div(p, SCALE)
}

/// The fixed-point quotient of two scalars.
pub fn fp_div(a: i128, b: i128) -> (r: i128)
    requires
        b != 0,
        b != i128::MIN,
        -DIVB <= a <= DIVB,
    ensures
        r == fquot(a as int, b as int),
{
    let n: i128 = a * SCALE;
    if b > 0 {
        floor_div(n, b)
    } else {
        floor_div(-n, -b)
    }
}

/// The fixed-point square root of a nonnegative scalar.
pub fn fp_sqrt(x: i128) -> (r: i128)
    requires
        0 <= x <= SQB,
    ensures
        r == fsqrt(x as int),
        0 <= r,
        r * r <= x * SCALE,
        x * SCALE < (r + 1) * (r + 1),
{
    let m: i128 = x * SCALE;
    let s: u128 = isqrt_u128(m as u128);
    proof {
        assert(m as int == (x as int) * (SCALE as int));
        assert((m as u128) as int == m as int);
        lemma_fsqrt_unique(x as int, s as int);
    }
    s as i128
}

/// Integer square root by bisection: the floor of the real square root.
fn isqrt_u128(n: u128) -> (r: u128)
    requires
        n < 85070591730234615865843651857942052864,
    ensures
        r * r <= n,
        n < (r + 1) * (r + 1),
        r < 9223372036854775808,
{
    let mut lo: u128 = 0;
    let mut hi: u128 = 9223372036854775808;
    proof {
        assert(hi * hi > n);
    }
    while lo + 1 < hi
        invariant
            lo < hi,
            hi <= 9223372036854775808,
            lo * lo <= n,
            n < hi * hi,
        decreases hi - lo,
    {
        let mid: u128 = lo + (hi - lo) / 2;
        proof {
            assert(mid * mid <= 9223372036854775808 * 9223372036854775808) by (nonlinear_arith)
                requires mid <= 9223372036854775808;
        }
        if mid * mid <= n {
            lo = mid;
        } else {
            hi = mid;
        }
    }
    lo
}

/// Fixed-point value of the natural log of two.
pub const LN2_FX: i128 = 45426;

/// A fixed-point approximation of `-ln(u / SCALE)` for `u` in `(0, 1]`,
/// computed by binary normalization and repeated squaring of the mantissa.
/// Its contract gives only sign and magnitude: the value feeds a stochastic
/// free-flight sample, where no caller relies on the exact figure.
pub fn neg_ln_unit(u: i128) -> (r: i128)
    requires
        1 <= u <= SCALE,
    ensures
        0 <= r <= 17 * LN2_FX,
{
    let mut x = u;
    let mut k: i128 = 0;
    while x < SCALE && k < 17
        invariant
            1 <= x <= 2 * SCALE,
            0 <= k <= 17,
        decreases 17 - k,
    {
        x = x * 2;
        k = k + 1;
    }
    if x < SCALE {
        x = SCALE;
    }
    if x >= 2 * SCALE {
        x = 2 * SCALE - 1;
    }
    let mut m = x;
    let mut acc: i128 = 0;
    let mut sh: i128 = LN2_FX / 2;
    let mut i: usize = 0;
    while i < 16
        invariant
            SCALE <= m < 2 * SCALE,
            0 <= acc,
            acc <= i * 45426,
            0 <= sh <= LN2_FX,
            i <= 16,
        decreases 16 - i,
    {
        proof {
            assert(m as int * (m as int) <= (4 * SCALE as int - 3) * SCALE && (SCALE as int)
                * (SCALE as int) <= m as int * (m as int)) by (nonlinear_arith)
                requires SCALE <= m as int && (m as int) < 2 * (SCALE as int) && SCALE as int
                    == 65536;
            lemma_fdiv_bounded(m as int * (m as int), SCALE as int, 4 * SCALE as int - 3);
            lemma_fdiv_props(m as int * (m as int), SCALE as int);
            assert(fmul(m as int, m as int) >= SCALE as int) by (nonlinear_arith)
                requires
                    (SCALE as int) * (SCALE as int) <= m as int * (m as int),
                    m as int * (m as int) < (fmul(m as int, m as int) + 1) * (SCALE as int),
                    SCALE as int == 65536;
        }
        m = fp_mul(m, m);
        if m >= 2 * SCALE {
            proof {
                lemma_fdiv_props(m as int, 2);
            }
            m = floor_div(m, 2);
            acc = acc + sh;
        }
        proof {
            lemma_fdiv_props(sh as int, 2);
        }
        sh = floor_div(sh, 2);
        i = i + 1;
    }
    let res = k * LN2_FX - acc;
    if res < 0 {
        0
    } else {
        res
    }
}

} // verus!
