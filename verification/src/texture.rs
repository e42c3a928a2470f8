use vstd::prelude::*;
use crate::fixed::{fdiv, floor_div, lemma_fdiv_bounded, lemma_fdiv_props, COLORB, SCALE, WMAX};
use crate::vec3::{bounded, Color, Point3, V3, Vec3};

verus! {

/// Fixed-point value of pi, used by the checker pattern's sine-sign lattice.
pub const PI_FX: i128 = 205887;

/// A surface texture: a color as a function of surface coordinates and the
/// world-space hit point.
pub enum Texture {
    /// The same color everywhere.
    SolidColor { color_value: Color },
    /// Alternating cells given by the sign of `sin(10x)*sin(10y)*sin(10z)`,
    /// evaluated exactly on the fixed-point grid with `PI_FX` for pi.
    Checker { odd: Box<Texture>, even: Box<Texture> },
    /// A raster of 8-bit RGB triplets sampled by surface coordinates; an
    /// empty raster stands for a missing asset and yields debug cyan.
    Image { data: Vec<u8>, width: usize, height: usize },
}

/// Well-formedness: colors within range, rasters sized consistently.
pub open spec fn texture_wf(t: Texture) -> bool
    decreases t,
{
    match t {
        Texture::SolidColor { color_value } => bounded(color_value@, COLORB as int),
        Texture::Checker { odd, even } => texture_wf(*odd) && texture_wf(*even),
        Texture::Image { data, width, height } => data@.len() == width * height * 3 && width
            <= 16384 && height <= 16384,
    }
}

/// Whether the checker pattern selects the odd texture at point `p`: the
/// parity of the total number of half-turns of the three scaled coordinates.
pub open spec fn checker_picks_odd(p: V3) -> bool {
    (fdiv(10 * p.x, PI_FX as int) + fdiv(10 * p.y, PI_FX as int) + fdiv(
        10 * p.z,
        PI_FX as int,
    )) % 2 == 1
}

/// Clamp a scalar into `[0, SCALE]`.
pub open spec fn clamp01(u: int) -> int {
    if u < 0 {
        0
    } else if u > SCALE {
        SCALE as int
    } else {
        u
    }
}

/// The color of a texture at surface coordinates `(u, v)` and point `p`.
pub open spec fn texture_value(t: Texture, u: int, v: int, p: V3) -> V3
    decreases t,
{
    match t {
        Texture::SolidColor { color_value } => color_value@,
        Texture::Checker { odd, even } => if checker_picks_odd(p) {
            texture_value(*odd, u, v, p)
        } else {
            texture_value(*even, u, v, p)
        },
        Texture::Image { data, width, height } => if width == 0 || height == 0 {
            V3 { x: 0, y: SCALE as int, z: SCALE as int }
        } else {
            let uc = clamp01(u);
            let vc = SCALE - clamp01(v);
            let i0 = fdiv(uc * width, SCALE as int);
            let j0 = fdiv(vc * height, SCALE as int);
            let i = if i0 > width - 1 {
                width - 1
            } else {
                i0
            };
            let j = if j0 > height - 1 {
                height - 1
            } else {
                j0
            };
            let idx = 3 * (j * width + i);
            V3 {
                x: fdiv(data@[idx] * SCALE, 255),
                y: fdiv(data@[idx + 1] * SCALE, 255),
                z: fdiv(data@[idx + 2] * SCALE, 255),
            }
        },
    }
}

impl Texture {
    /// A texture of one color.
    pub fn solid_color(color_value: Color) -> (r: Texture)
        requires
            bounded(color_value@, COLORB as int),
        ensures
            r == (Texture::SolidColor { color_value }),
            texture_wf(r),
    {
        Texture::SolidColor { color_value }
    }

    /// A solid color from three channel values.
    pub fn with_values(red: i128, green: i128, blue: i128) -> (r: Texture)
        requires
            -COLORB <= red <= COLORB,
            -COLORB <= green <= COLORB,
            -COLORB <= blue <= COLORB,
        ensures
            texture_wf(r),
            forall|u: int, v: int, p: V3| texture_value(r, u, v, p) == (V3 {
                x: red as int,
                y: green as int,
                z: blue as int,
            }),
    {
        Texture::SolidColor { color_value: Vec3::with_values(red, green, blue) }
    }

    /// A checker of two textures.
    pub fn checker(odd: Texture, even: Texture) -> (r: Texture)
        requires
            texture_wf(odd),
            texture_wf(even),
        ensures
            texture_wf(r),
            forall|u: int, v: int, p: V3| #[trigger] texture_value(r, u, v, p)
                == if checker_picks_odd(p) {
                    texture_value(odd, u, v, p)
                } else {
                    texture_value(even, u, v, p)
                },
    {
        let ghost odd0 = odd;
        let ghost even0 = even;
        let bo = Box::new(odd);
        let be = Box::new(even);
        let r = Texture::Checker { odd: bo, even: be };
        proof {
            assert(*bo == odd0 && *be == even0);
            assert(texture_wf(r));
            assert forall|u: int, v: int, p: V3| #[trigger] texture_value(r, u, v, p)
                == if checker_picks_odd(p) {
                    texture_value(odd0, u, v, p)
                } else {
                    texture_value(even0, u, v, p)
                } by {
                assert(texture_value(r, u, v, p) == if checker_picks_odd(p) {
                    texture_value(*bo, u, v, p)
                } else {
                    texture_value(*be, u, v, p)
                });
            }
        }
        r
    }

    /// A checker of two solid colors.
    pub fn checker_colors(odd: Color, even: Color) -> (r: Texture)
        requires
            bounded(odd@, COLORB as int),
            bounded(even@, COLORB as int),
        ensures
            texture_wf(r),
            forall|u: int, v: int, p: V3| #[trigger] texture_value(r, u, v, p)
                == if checker_picks_odd(p) {
                    odd@
                } else {
                    even@
                },
    {
        let bo = Box::new(Texture::SolidColor { color_value: odd });
        let be = Box::new(Texture::SolidColor { color_value: even });
        let r = Texture::Checker { odd: bo, even: be };
        proof {
            assert(*bo == (Texture::SolidColor { color_value: odd }) && *be == (
            Texture::SolidColor { color_value: even }));
            assert(texture_wf(Texture::SolidColor { color_value: odd }));
            assert(texture_wf(Texture::SolidColor { color_value: even }));
            assert(texture_wf(r));
            assert forall|u: int, v: int, p: V3| #[trigger] texture_value(r, u, v, p)
                == if checker_picks_odd(p) {
                    odd@
                } else {
                    even@
                } by {
                assert(texture_value(Texture::SolidColor { color_value: odd }, u, v, p)
                    == odd@);
                assert(texture_value(Texture::SolidColor { color_value: even }, u, v, p)
                    == even@);
                assert(texture_value(r, u, v, p) == if checker_picks_odd(p) {
                    texture_value(*bo, u, v, p)
                } else {
                    texture_value(*be, u, v, p)
                });
            }
        }
        r
    }

    /// An image texture over an RGB byte raster; a raster whose size does
    /// not match the dimensions is replaced by the missing-asset raster.
    pub fn image_texture(data: Vec<u8>, width: usize, height: usize) -> (r: Texture)
        ensures
            texture_wf(r),
    {
        if width >= 1 && width <= 16384 && height >= 1 && height <= 16384 {
            proof {
                assert((width as int) * (height as int) <= 268435456 && (width as int) * (
                height as int) >= 0) by (nonlinear_arith)
                    requires 1 <= width as int <= 16384 && 1 <= height as int <= 16384;
            }
            let cells: usize = width * height;
            let want: usize = cells * 3;
            if data.len() == want {
                return Texture::Image { data, width, height };
            }
        }
        Texture::Image { data: Vec::new(), width: 0, height: 0 }
    }

    /// The color of this texture at `(u, v)` and point `p`.
    pub fn value(&self, u: i128, v: i128, p: &Point3) -> (r: Color)
        requires
            texture_wf(*self),
            bounded(p@, WMAX as int),
        ensures
            r@ == texture_value(*self, u as int, v as int, p@),
            bounded(r@, COLORB as int),
        decreases *self,
    {
        match self {
            Texture::SolidColor { color_value } => *color_value,
            Texture::Checker { odd, even } => {
                let k1 = floor_div(10 * p.e0, PI_FX);
                let k2 = floor_div(10 * p.e1, PI_FX);
                let k3 = floor_div(10 * p.e2, PI_FX);
                let m: i128 = k1 + k2 + k3;
                proof {
                    lemma_fdiv_bounded(10 * p@.x, PI_FX as int, WMAX as int);
                    lemma_fdiv_bounded(10 * p@.y, PI_FX as int, WMAX as int);
                    lemma_fdiv_bounded(10 * p@.z, PI_FX as int, WMAX as int);
                    vstd::arithmetic::div_mod::lemma_fundamental_div_mod(m as int, 2);
                }
                let odd_pick = m - 2 * floor_div(m, 2) == 1;
                proof {
                    assert(m as int % 2 == m as int - 2 * fdiv(m as int, 2));
                    assert(odd_pick == checker_picks_odd(p@));
                }
                if odd_pick {
                    odd.value(u, v, p)
                } else {
                    even.value(u, v, p)
                }
            },
            Texture::Image { data, width, height } => {
                if *width == 0 || *height == 0 {
                    Vec3::with_values(0, SCALE, SCALE)
                } else {
                    let uc: i128 = if u < 0 {
                        0
                    } else if u > SCALE {
                        SCALE
                    } else {
                        u
                    };
                    let vc: i128 = SCALE - (if v < 0 {
                        0
                    } else if v > SCALE {
                        SCALE
                    } else {
                        v
                    });
                    let wi = *width;
                    let hi = *height;
                    proof {
                        assert(uc as int * (wi as int) <= wi as int * (SCALE as int) && 0
                            <= uc as int * (wi as int)) by (nonlinear_arith)
                            requires 0 <= uc <= SCALE as int && 0 <= wi as int;
                        assert(vc as int * (hi as int) <= hi as int * (SCALE as int) && 0
                            <= vc as int * (hi as int)) by (nonlinear_arith)
                            requires 0 <= vc <= SCALE as int && 0 <= hi as int;
                        assert(wi as int * (SCALE as int) == (wi as int) * (SCALE as int));
                        lemma_fdiv_bounded(uc as int * (wi as int), SCALE as int, wi as int);
                        lemma_fdiv_bounded(vc as int * (hi as int), SCALE as int, hi as int);
                        lemma_fdiv_props(uc as int * (wi as int), SCALE as int);
                        lemma_fdiv_props(vc as int * (hi as int), SCALE as int);
                    }
                    let i0: i128 = floor_div(uc * (wi as i128), SCALE);
                    let j0: i128 = floor_div(vc * (hi as i128), SCALE);
                    let i: usize = if i0 > (wi as i128) - 1 {
                        wi - 1
                    } else {
                        i0 as usize
                    };
                    let j: usize = if j0 > (hi as i128) - 1 {
                        hi - 1
                    } else {
                        j0 as usize
                    };
                    proof {
                        assert(i < wi && j < hi);
                        assert((j as int) * (wi as int) + (i as int) <= 16384 * 16384 + 16384
                            && 0 <= (j as int) * (wi as int) + (i as int))
                            by (nonlinear_arith)
                            requires (i as int) < wi as int <= 16384 && (j as int) < hi
                                as int <= 16384 && 0 <= i as int && 0 <= j as int;
                    }
                    let idx: usize = 3 * (j * wi + i);
                    proof {
                        assert(3 * ((j as int) * (wi as int) + i as int) + 2 < 3 * ((
                        wi as int) * (hi as int))) by (nonlinear_arith)
                            requires (i as int) < wi as int && (j as int) < hi as int && 0
                                <= i as int && 0 <= j as int;
                    }
                    let b0 = data[idx];
                    let b1 = data[idx + 1];
                    let b2 = data[idx + 2];
                    proof {
                        lemma_fdiv_bounded(b0 as int * SCALE, 255, COLORB as int);
                        lemma_fdiv_bounded(b1 as int * SCALE, 255, COLORB as int);
                        lemma_fdiv_bounded(b2 as int * SCALE, 255, COLORB as int);
                    }
                    Vec3::with_values(
                        floor_div((b0 as i128) * SCALE, 255),
                        floor_div((b1 as i128) * SCALE, 255),
                        floor_div((b2 as i128) * SCALE, 255),
                    )
                }
            },
        }
    }
}

} // verus!
