use vstd::prelude::*;
use std::sync::Arc;
use crate::fixed::{
    fdiv, fmul, fquot, fsqrt, floor_div, fp_mul, fp_sqrt, lemma_fdiv_bounded, lemma_fdiv_exact,
    COLORB, DMAX, SCALE, WMAX,
};
use crate::hit::{hit_wf, HitInfo, HitRecord};
use crate::ray::{ray_wf, Ray, Rayg};
use crate::rng::{rand_unit_scalar, random_in_unit_sphere, random_unit_vector};
use crate::texture::{texture_value, texture_wf, Texture};
use crate::vec3::{
    bounded, dot, reflect, refract, vadd, vdot, vlsq, vneg, vreflect, vrefract, vscale, vunit,
    vzero, Color, Point3, V3, Vec3,
};

verus! {

/// Relies on `Arc::clone` from std: the returned handle refers to the same
/// value as the argument.
#[verifier::external_body]
pub fn arc_clone<T>(a: &Arc<T>) -> (r: Arc<T>)
    ensures
        r == *a,
{
    Arc::clone(a)
}

/// How light interacts with a surface: each variant scatters an incoming
/// ray into an attenuated outgoing ray, or absorbs it; lights emit instead.
#[allow(inconsistent_fields)]
pub enum Material {
    /// Diffuse: scatters about the surface normal, tinted by a texture.
    Lambertian { albedo: Arc<Texture> },
    /// Reflective: mirrors the incoming direction, roughened by `fuzz`.
    Metal { albedo: Color, fuzz: i128 },
    /// Glass: always scatters, choosing reflection or refraction.
    Dielectric { ir: i128 },
    /// A light source: absorbs everything and emits its texture's color.
    DiffuseLight { emit: Arc<Texture> },
    /// A phase function for volumes: scatters uniformly in all directions.
    Isotropic { albedo: Arc<Texture> },
}

/// Well-formedness of a material's parameters.
pub open spec fn material_wf(m: Material) -> bool {
    match m {
        Material::Lambertian { albedo } => texture_wf(*albedo),
        Material::Metal { albedo, fuzz } => bounded(albedo@, COLORB as int) && 0 <= fuzz
            <= SCALE,
        Material::Dielectric { ir } => 16384 <= ir <= 262144,
        Material::DiffuseLight { emit } => texture_wf(*emit),
        Material::Isotropic { albedo } => texture_wf(*albedo),
    }
}

/// The diffuse scatter direction: the unit normal plus a random unit
/// vector, with the normal alone standing in for a degenerate sum.
pub open spec fn lambertian_dir(normal: V3, s: V3) -> V3 {
    let d = vadd(normal, s);
    if d == vzero() {
        normal
    } else {
        d
    }
}

/// The metal scatter direction: the mirrored unit direction plus a fuzz
/// sample.
pub open spec fn metal_dir(unit_in: V3, normal: V3, fuzz: int, s: V3) -> V3 {
    vadd(vreflect(unit_in, normal), vscale(fuzz, s))
}

/// The Schlick reflectance approximation at fixed-point precision.
pub open spec fn schlick(cos: int, ratio: int) -> int {
    let r0 = fquot(SCALE - ratio, SCALE + ratio);
    let r0s = fmul(r0, r0);
    let d = SCALE - cos;
    let d2 = fmul(d, d);
    let d4 = fmul(d2, d2);
    let d5 = fmul(d4, d);
    r0s + fmul(SCALE - r0s, d5)
}

/// The glass scatter direction: reflection under total internal reflection
/// or a winning reflectance draw, refraction otherwise.
pub open spec fn dielectric_dir(ir: int, front: bool, ud: V3, n: V3, su: int) -> V3 {
    let ratio = if front {
        fquot(SCALE as int, ir)
    } else {
        ir
    };
    let cosr = vdot(vneg(ud), n);
    let cos = if cosr > SCALE {
        SCALE as int
    } else if cosr < -SCALE {
        -SCALE as int
    } else {
        cosr
    };
    let sin2 = SCALE - fmul(cos, cos);
    let sint = fsqrt(sin2);
    if fmul(ratio, sint) > SCALE || schlick(cos, ratio) > su {
        vreflect(ud, n)
    } else {
        vrefract(ud, n, ratio)
    }
}

/// The spec-level image of an exec scatter result.
pub open spec fn scatter_view(o: Option<(Color, Ray)>) -> Option<(V3, Rayg)> {
    match o {
        Option::None => Option::None,
        Option::Some((c, r)) => Option::Some((c@, r@)),
    }
}

/// What a scatter may return, given the vector sample `sv` and the scalar
/// sample `su` that the material drew.
pub open spec fn scatter_rel(
    m: Material,
    rin: Rayg,
    rec: HitInfo,
    sv: V3,
    su: int,
    out: Option<(V3, Rayg)>,
) -> bool {
    match m {
        Material::Lambertian { albedo } => out == Option::Some(
            (
                texture_value(*albedo, rec.u, rec.v, rec.p),
                Rayg { orig: rec.p, dir: lambertian_dir(rec.normal, vunit(sv)), time: rin.time },
            ),
        ),
        Material::Metal { albedo, fuzz } => {
            let dir = metal_dir(vunit(rin.dir), rec.normal, fuzz as int, sv);
            if vdot(dir, rec.normal) > 0 {
                out == Option::Some(
                    (albedo@, Rayg { orig: rec.p, dir: dir, time: rin.time }),
                )
            } else {
                out is None
            }
        },
        Material::Dielectric { ir } => out == Option::Some(
            (
                V3 { x: SCALE as int, y: SCALE as int, z: SCALE as int },
                Rayg {
                    orig: rec.p,
                    dir: dielectric_dir(ir as int, rec.front_face, vunit(rin.dir), rec.normal, su),
                    time: rin.time,
                },
            ),
        ),
        Material::DiffuseLight { emit } => out is None,
        Material::Isotropic { albedo } => out == Option::Some(
            (
                texture_value(*albedo, rec.u, rec.v, rec.p),
                Rayg { orig: rec.p, dir: sv, time: rin.time },
            ),
        ),
    }
}

/// The radiance a material emits on its own.
pub open spec fn emitted_spec(m: Material, u: int, v: int, p: V3) -> V3 {
    match m {
        Material::DiffuseLight { emit } => texture_value(*emit, u, v, p),
        _ => vzero(),
    }
}

impl Material {
    /// A diffuse material over a shared texture.
    pub fn lambertian(albedo: &Arc<Texture>) -> (r: Material)
        requires
            texture_wf(**albedo),
        ensures
            r matches Material::Lambertian { albedo: b } && *b == **albedo,
            material_wf(r),
    {
        Material::Lambertian { albedo: arc_clone(albedo) }
    }

    /// A diffuse material of one color.
    pub fn lambertian_color(albedo: Color) -> (r: Material)
        requires
            bounded(albedo@, COLORB as int),
        ensures
            r matches Material::Lambertian { albedo: b } && *b == (Texture::SolidColor {
                color_value: albedo,
            }),
            material_wf(r),
    {
        Material::Lambertian { albedo: Arc::new(Texture::SolidColor { color_value: albedo }) }
    }

    /// A reflective material; fuzz is clamped into `[0, 1]`.
    pub fn metal(albedo: Color, f: i128) -> (r: Material)
        requires
            bounded(albedo@, COLORB as int),
        ensures
            r matches Material::Metal { albedo: a, fuzz } && a == albedo && fuzz == (if f < 0 {
                0int
            } else if f < SCALE {
                f as int
            } else {
                SCALE as int
            }),
            material_wf(r),
    {
        Material::Metal {
            albedo,
            fuzz: if f < 0 {
                0
            } else if f < SCALE {
                f
            } else {
                SCALE
            },
        }
    }

    /// A glass material with the given index of refraction.
    pub fn dielectric(index_of_refraction: i128) -> (r: Material)
        requires
            16384 <= index_of_refraction <= 262144,
        ensures
            r == (Material::Dielectric { ir: index_of_refraction }),
            material_wf(r),
    {
        Material::Dielectric { ir: index_of_refraction }
    }

    /// A light source over a shared texture.
    pub fn diffuse_light(emit: &Arc<Texture>) -> (r: Material)
        requires
            texture_wf(**emit),
        ensures
            r matches Material::DiffuseLight { emit: b } && *b == **emit,
            material_wf(r),
    {
        Material::DiffuseLight { emit: arc_clone(emit) }
    }

    /// A light source of one color.
    pub fn diffuse_light_color(color: Color) -> (r: Material)
        requires
            bounded(color@, COLORB as int),
        ensures
            r matches Material::DiffuseLight { emit: b } && *b == (Texture::SolidColor {
                color_value: color,
            }),
            material_wf(r),
    {
        Material::DiffuseLight { emit: Arc::new(Texture::SolidColor { color_value: color }) }
    }

    /// A phase function of one color.
    pub fn isotropic_color(albedo: Color) -> (r: Material)
        requires
            bounded(albedo@, COLORB as int),
        ensures
            r matches Material::Isotropic { albedo: b } && *b == (Texture::SolidColor {
                color_value: albedo,
            }),
            material_wf(r),
    {
        Material::Isotropic { albedo: Arc::new(Texture::SolidColor { color_value: albedo }) }
    }

    /// A phase function over a shared texture.
    pub fn isotropic(albedo: &Arc<Texture>) -> (r: Material)
        requires
            texture_wf(**albedo),
        ensures
            r matches Material::Isotropic { albedo: b } && *b == **albedo,
            material_wf(r),
    {
        Material::Isotropic { albedo: arc_clone(albedo) }
    }

    /// The radiance this material emits at surface coordinates `(u, v)` and
    /// point `p`; zero for everything but a light.
    pub fn emitted(&self, u: i128, v: i128, p: &Point3) -> (r: Color)
        requires
            material_wf(*self),
            bounded(p@, WMAX as int),
        ensures
            r@ == emitted_spec(*self, u as int, v as int, p@),
            bounded(r@, COLORB as int),
    {
        match self {
            Material::DiffuseLight { emit } => emit.value(u, v, p),
            _ => Vec3::with_values(0, 0, 0),
        }
    }

    /// Scatter an incoming ray at a hit.  The result is `None` when the ray
    /// is absorbed, else the attenuation color and the outgoing ray.  The
    /// outgoing ray always starts at the hit point, keeps the incoming
    /// ray's time, and is well formed; which direction it takes is pinned
    /// down by `scatter_rel` relative to the random samples drawn.
    pub fn scatter(&self, r_in: &Ray, rec: &HitRecord) -> (out: Option<(Color, Ray)>)
        requires
            material_wf(*self),
            ray_wf(r_in@),
            hit_wf(rec@),
        ensures
            exists|sv: V3, su: int|
                bounded(sv, SCALE as int) && 0 <= vlsq(sv) < SCALE && 0 <= su < SCALE
                    && #[trigger] scatter_rel(*self, r_in@, rec@, sv, su, scatter_view(out)),
            out matches Some(p) ==> ray_wf(p.1@) && bounded(p.0@, COLORB as int) && p.1@.orig
                == rec@.p && p.1@.time == r_in@.time,
            self is DiffuseLight ==> out is None,
            self is Lambertian || self is Dielectric || self is Isotropic ==> out is Some,
            self matches Material::Metal { albedo, fuzz } ==> (fuzz == 0 ==> ({
                let dir = vreflect(vunit(r_in@.dir), rec@.normal);
                if vdot(dir, rec@.normal) > 0 {
                    scatter_view(out) == Option::Some(
                        (albedo@, Rayg { orig: rec@.p, dir: dir, time: r_in@.time }),
                    )
                } else {
                    out is None
                }
            })),
    {
        match self {
            Material::Lambertian { albedo } => {
                let s = random_unit_vector();
                let mut scatter_direction = rec.normal.plus(&s);
                if scatter_direction.near_zero() {
                    scatter_direction = rec.normal;
                }
                let scattered = Ray::new(rec.p, scatter_direction, r_in.time);
                let attenuation = albedo.value(rec.u, rec.v, &rec.p);
                proof {
                    let w = choose|w: Vec3|
                        bounded(w@, SCALE as int) && 0 <= vlsq(w@) < SCALE && s@ == vunit(
                            #[trigger] w@);
                    assert(scattered@.dir == lambertian_dir(rec@.normal, vunit(w@)));
                    assert(scatter_rel(*self, r_in@, rec@, w@, 0,
                        scatter_view(Some((attenuation, scattered)))));
                }
                Some((attenuation, scattered))
            },
            Material::Metal { albedo, fuzz } => {
                let unit_in = r_in.direction.unit_vector();
                let reflected = reflect(&unit_in, &rec.normal);
                let s = random_in_unit_sphere();
                let fz = s.scale(*fuzz);
                proof {
                    crate::vec3::lemma_scale_bound(
                        *fuzz as int,
                        s@,
                        SCALE as int,
                        SCALE as int,
                        SCALE as int,
                    );
                }
                let dir = reflected.plus(&fz);
                let d = dot(&dir, &rec.normal);
                proof {
                    assert(dir@ == metal_dir(vunit(r_in@.dir), rec@.normal, *fuzz as int, s@));
                    if *fuzz == 0 {
                        lemma_fdiv_exact(0, SCALE as int);
                        assert(fmul(0, s@.x) == 0 && fmul(0, s@.y) == 0 && fmul(0, s@.z) == 0)
                            by {
                            assert(0 * s@.x == 0 && 0 * s@.y == 0 && 0 * s@.z == 0);
                            assert(fdiv(0, SCALE as int) == 0) by {
                                lemma_fdiv_exact(0, SCALE as int);
                            }
                        }
                        assert(vscale(0, s@) == vzero());
                        assert(dir@ == vreflect(vunit(r_in@.dir), rec@.normal));
                    }
                }
                if d > 0 {
                    let scattered = Ray::new(rec.p, dir, r_in.time);
                    proof {
                        assert(scatter_rel(*self, r_in@, rec@, s@, 0,
                            scatter_view(Some((*albedo, scattered)))));
                    }
                    Some((*albedo, scattered))
                } else {
                    proof {
                        assert(scatter_rel(*self, r_in@, rec@, s@, 0, scatter_view(
                            None::<(Color, Ray)>)));
                    }
                    None
                }
            },
            Material::Dielectric { ir } => {
                let refraction_ratio: i128;
                if rec.front_face {
                    proof {
                        assert((SCALE as int) * (SCALE as int) <= (4 * SCALE as int) * (
                        ir as int)) by (nonlinear_arith)
                            requires 16384 <= ir as int && SCALE as int == 65536;
                        lemma_fdiv_bounded(
                            (SCALE as int) * (SCALE as int),
                            ir as int,
                            4 * SCALE as int,
                        );
                        crate::fixed::lemma_fdiv_props((SCALE as int) * (SCALE as int),
                            ir as int);
                        assert(fdiv((SCALE as int) * (SCALE as int), ir as int) >= 1)
                            by (nonlinear_arith)
                            requires
                                fdiv((SCALE as int) * (SCALE as int), ir as int) * (ir as int)
                                    <= (SCALE as int) * (SCALE as int),
                                (SCALE as int) * (SCALE as int) < (fdiv((SCALE as int) * (
                                SCALE as int), ir as int) + 1) * (ir as int),
                                16384 <= ir as int <= 262144,
                                SCALE as int == 65536;
                    }
                    refraction_ratio = fp_div_pos(SCALE, *ir);
                } else {
                    refraction_ratio = *ir;
                }
                let unit_direction = r_in.direction.unit_vector();
                let minus_ud = unit_direction.negate();
                proof {
                    crate::vec3::lemma_dot_bound(
                        minus_ud@,
                        rec@.normal,
                        crate::fixed::UNITB as int,
                        crate::fixed::NORMB as int,
                        101449728,
                    );
                }
                let cosr = dot(&minus_ud, &rec.normal);
                let cos_theta: i128 = if cosr > SCALE {
                    SCALE
                } else if cosr < -SCALE {
                    -SCALE
                } else {
                    cosr
                };
                proof {
                    assert(cos_theta as int * (cos_theta as int) <= SCALE as int * (
                    SCALE as int) && 0 <= cos_theta as int * (cos_theta as int))
                        by (nonlinear_arith)
                        requires -SCALE <= cos_theta <= SCALE;
                    lemma_fdiv_bounded(cos_theta as int * (cos_theta as int), SCALE as int,
                        SCALE as int);
                    crate::fixed::lemma_fdiv_props(cos_theta as int * (cos_theta as int),
                        SCALE as int);
                    assert(0 <= fmul(cos_theta as int, cos_theta as int))
                        by (nonlinear_arith)
                        requires
                            fmul(cos_theta as int, cos_theta as int) * (SCALE as int) <= (
                            cos_theta as int) * (cos_theta as int),
                            (cos_theta as int) * (cos_theta as int) < (fmul(cos_theta as int,
                            cos_theta as int) + 1) * (SCALE as int),
                            0 <= (cos_theta as int) * (cos_theta as int),
                            SCALE as int == 65536;
                }
                let sin2: i128 = SCALE - fp_mul(cos_theta, cos_theta);
                let sin_theta = fp_sqrt(sin2);
                proof {
                    assert(sin_theta <= 92682) by (nonlinear_arith)
                        requires
                            0 <= sin_theta,
                            sin_theta * sin_theta <= sin2 * SCALE,
                            0 <= sin2 <= SCALE as int,
                            SCALE as int == 65536;
                }
                let cannot_refract = fp_mul(refraction_ratio, sin_theta) > SCALE;
                let su = rand_unit_scalar();
                let refl = reflectance(cos_theta, refraction_ratio);
                let dir = if cannot_refract || refl > su {
                    reflect(&unit_direction, &rec.normal)
                } else {
                    refract(&unit_direction, &rec.normal, refraction_ratio)
                };
                let scattered = Ray::new(rec.p, dir, r_in.time);
                let attenuation = Vec3::with_values(SCALE, SCALE, SCALE);
                proof {
                    assert(dir@ == dielectric_dir(*ir as int, rec@.front_face, vunit(
                        r_in@.dir), rec@.normal, su as int));
                    assert(scatter_rel(*self, r_in@, rec@, vzero(), su as int,
                        scatter_view(Some((attenuation, scattered)))));
                    lemma_fdiv_exact(0, SCALE as int);
                    assert(fdiv(0, SCALE as int) == 0);
                    let z = vzero();
                    assert(z.x == 0 && z.y == 0 && z.z == 0);
                    assert(z.x * z.x + z.y * z.y + z.z * z.z == 0) by (nonlinear_arith)
                        requires z.x == 0 && z.y == 0 && z.z == 0;
                    assert(vdot(z, z) == fdiv(0, SCALE as int));
                    assert(vlsq(z) == 0);
                    assert(bounded(z, SCALE as int));
                }
                Some((attenuation, scattered))
            },
            Material::DiffuseLight { emit } => {
                proof {
                    assert(scatter_rel(*self, r_in@, rec@, vzero(), 0, scatter_view(
                        None::<(Color, Ray)>)));
                    lemma_fdiv_exact(0, SCALE as int);
                    assert(fdiv(0, SCALE as int) == 0);
                    let z = vzero();
                    assert(z.x == 0 && z.y == 0 && z.z == 0);
                    assert(z.x * z.x + z.y * z.y + z.z * z.z == 0) by (nonlinear_arith)
                        requires z.x == 0 && z.y == 0 && z.z == 0;
                    assert(vdot(z, z) == fdiv(0, SCALE as int));
                    assert(vlsq(z) == 0);
                    assert(bounded(z, SCALE as int));
                }
                None
            },
            Material::Isotropic { albedo } => {
                let s = random_in_unit_sphere();
                let scattered = Ray::new(rec.p, s, r_in.time);
                let attenuation = albedo.value(rec.u, rec.v, &rec.p);
                proof {
                    assert(scatter_rel(*self, r_in@, rec@, s@, 0,
                        scatter_view(Some((attenuation, scattered)))));
                }
                Some((attenuation, scattered))
            },
        }
    }
}

/// Fixed-point division by a known-positive divisor.
fn fp_div_pos(a: i128, b: i128) -> (r: i128)
    requires
        1 <= b,
        -crate::fixed::DIVB <= a <= crate::fixed::DIVB,
    ensures
        r == fquot(a as int, b as int),
{
    floor_div(a * SCALE, b)
}

/// The Schlick reflectance at fixed-point precision; mirrors `schlick`.
fn reflectance(cosine: i128, ref_idx: i128) -> (r: i128)
    requires
        -SCALE <= cosine <= SCALE,
        1 <= ref_idx <= 16 * SCALE,
    ensures
        r == schlick(cosine as int, ref_idx as int),
{
    proof {
        assert((SCALE as int - ref_idx as int) * SCALE <= (3 * SCALE as int) * (SCALE as int
            + ref_idx as int) && -((3 * SCALE as int) * (SCALE as int + ref_idx as int)) <= (
        SCALE as int - ref_idx as int) * SCALE) by (nonlinear_arith)
            requires 1 <= ref_idx as int <= 16 * (SCALE as int) && SCALE as int == 65536;
        lemma_fdiv_bounded(
            (SCALE as int - ref_idx as int) * SCALE,
            SCALE as int + ref_idx as int,
            3 * SCALE as int,
        );
    }
    let r0 = floor_div((SCALE - ref_idx) * SCALE, SCALE + ref_idx);
    proof {
        assert(r0 as int * (r0 as int) <= (9 * SCALE as int) * (SCALE as int) && -((9
            * SCALE as int) * (SCALE as int)) <= r0 as int * (r0 as int))
            by (nonlinear_arith)
            requires -(3 * SCALE as int) <= r0 as int <= 3 * (SCALE as int) && SCALE as int
                == 65536;
        lemma_fdiv_bounded(r0 as int * (r0 as int), SCALE as int, 9 * SCALE as int);
    }
    let r0s = fp_mul(r0, r0);
    let d: i128 = SCALE - cosine;
    proof {
        assert(d as int * (d as int) <= (4 * SCALE as int) * SCALE && 0 <= d as int * (
        d as int)) by (nonlinear_arith)
            requires 0 <= d as int <= 2 * (SCALE as int) && SCALE as int == 65536;
        lemma_fdiv_bounded(d as int * (d as int), SCALE as int, 4 * SCALE as int);
    }
    let d2 = fp_mul(d, d);
    proof {
        assert(d2 as int * (d2 as int) <= (16 * SCALE as int) * SCALE && -((16 * SCALE as int)
            * SCALE) <= d2 as int * (d2 as int)) by (nonlinear_arith)
            requires -(4 * SCALE as int) <= d2 as int <= 4 * (SCALE as int) && SCALE as int
                == 65536;
        lemma_fdiv_bounded(d2 as int * (d2 as int), SCALE as int, 16 * SCALE as int);
    }
    let d4 = fp_mul(d2, d2);
    proof {
        assert(d4 as int * (d as int) <= (32 * SCALE as int) * SCALE && -((32 * SCALE as int)
            * SCALE) <= d4 as int * (d as int)) by (nonlinear_arith)
            requires -(16 * SCALE as int) <= d4 as int <= 16 * (SCALE as int) && 0 <= d as int
                <= 2 * (SCALE as int) && SCALE as int == 65536;
        lemma_fdiv_bounded(d4 as int * (d as int), SCALE as int, 32 * SCALE as int);
    }
    let d5 = fp_mul(d4, d);
    proof {
        assert((SCALE as int - r0s as int) * (d5 as int) <= (320 * SCALE as int) * SCALE && -((
        320 * SCALE as int) * SCALE) <= (SCALE as int - r0s as int) * (d5 as int))
            by (nonlinear_arith)
            requires -(9 * SCALE as int) <= r0s as int <= 9 * (SCALE as int) && -(32
                * SCALE as int) <= d5 as int <= 32 * (SCALE as int) && SCALE as int == 65536;
        lemma_fdiv_bounded((SCALE as int - r0s as int) * (d5 as int), SCALE as int,
            320 * SCALE as int);
    }
    r0s + fp_mul(SCALE - r0s, d5)
}

} // verus!
