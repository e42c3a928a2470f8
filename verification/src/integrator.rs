use vstd::prelude::*;
use crate::fixed::{COLORB, DMAX, SCALE, WMAX};
use crate::hit::{hit_wf, HitInfo};
use crate::hittable::{deterministic, object_hit, object_wf, Object};
use crate::material::{emitted_spec, scatter_rel, Material};
use crate::ray::{ray_wf, Ray, Rayg};
use crate::vec3::{bounded, vadd, vlsq, vmul, vzero, Color, V3, Vec3};

verus! {

/// The near clip of the path tracer: hits closer than about a thousandth
/// of a unit are ignored, so a scattered ray cannot re-hit its own surface.
pub const T_EPS: i128 = 66;

/// Clamp a radiance component so accumulated products stay representable.
pub open spec fn rad_clamp(x: int) -> int {
    if x > DMAX {
        DMAX as int
    } else if x < -DMAX {
        -DMAX as int
    } else {
        x
    }
}

/// Componentwise radiance clamp.
pub open spec fn vrad_clamp(c: V3) -> V3 {
    V3 { x: rad_clamp(c.x), y: rad_clamp(c.y), z: rad_clamp(c.z) }
}

/// One fold step of the accumulated radiance: emitted plus attenuated
/// carry, clamped.
pub open spec fn fold_step(emitted: V3, attenuation: V3, acc: V3) -> V3 {
    vrad_clamp(vadd(emitted, vmul(attenuation, acc)))
}

/// The backward fold of the bounce stack from index `j` on, seeded with
/// the terminal color: `acc = emitted + attenuation * acc`, deepest bounce
/// first.
pub open spec fn fold_from(pairs: Seq<(V3, V3)>, j: int, seed: V3) -> V3
    decreases pairs.len() - j,
{
    if j < 0 || j >= pairs.len() {
        seed
    } else {
        fold_step(pairs[j].0, pairs[j].1, fold_from(pairs, j + 1, seed))
    }
}

/// The mathematical pairs a bounce stack holds.
pub open spec fn views_of(s: Seq<(Color, Color)>) -> Seq<(V3, V3)> {
    Seq::new(s.len(), |i: int| (s[i].0@, s[i].1@))
}

/// One scattering event of the walk: some well-formed hit — the hit the
/// deterministic semantics dictates, when the scene is free of media —
/// whose material emitted the pair's first color and may scatter the
/// incoming ray into the outgoing one with the pair's second color as
/// attenuation, for some admissible random samples.
pub open spec fn bounce_ok(world: Object, r_in: Rayg, pair: (V3, V3), r_out: Rayg) -> bool {
    exists|h: HitInfo, sv: V3, su: int|
        #![trigger scatter_rel(h.mat, r_in, h, sv, su, Option::Some((pair.1, r_out)))]
        (deterministic(world) ==> object_hit(world, r_in, T_EPS as int, WMAX as int)
            == Option::Some(h)) && hit_wf(h) && pair.0 == emitted_spec(h.mat, h.u, h.v, h.p)
            && bounded(sv, SCALE as int) && 0 <= vlsq(sv) < SCALE && 0 <= su < SCALE
            && scatter_rel(h.mat, r_in, h, sv, su, Option::Some((pair.1, r_out)))
}

/// A terminal color the walk may end on: black for an exhausted bounce
/// budget or an absorbing dark surface, the background for a miss, or a
/// light's own emission.
pub open spec fn terminal_ok(world: Object, last: Rayg, seed: V3, background: V3) -> bool {
    ||| seed == vzero()
    ||| (seed == background && (deterministic(world) ==> object_hit(
        world,
        last,
        T_EPS as int,
        WMAX as int,
    ) is None))
    ||| exists|h: HitInfo|
        (deterministic(world) ==> object_hit(world, last, T_EPS as int, WMAX as int)
            == Option::Some(h)) && h.mat is DiffuseLight && #[trigger] emitted_spec(
            h.mat,
            h.u,
            h.v,
            h.p,
        ) == seed
}

/// A whole light path: consecutive bounces, then a terminal event on the
/// last ray.
pub open spec fn walk_ok(
    world: Object,
    rays: Seq<Rayg>,
    pairs: Seq<(V3, V3)>,
    seed: V3,
    background: V3,
) -> bool {
    &&& rays.len() == pairs.len() + 1
    &&& forall|i: int| 0 <= i < pairs.len() ==> #[trigger] bounce_ok(
        world,
        rays[i],
        pairs[i],
        rays[i + 1],
    )
    &&& terminal_ok(world, rays[pairs.len() as int], seed, background)
}

/// Exec componentwise radiance clamp.
fn vrad_clamp_e(c: Vec3) -> (r: Vec3)
    ensures
        r@ == vrad_clamp(c@),
        bounded(r@, DMAX as int),
{
    Vec3 {
        e0: if c.e0 > DMAX {
            DMAX
        } else if c.e0 < -DMAX {
            -DMAX
        } else {
            c.e0
        },
        e1: if c.e1 > DMAX {
            DMAX
        } else if c.e1 < -DMAX {
            -DMAX
        } else {
            c.e1
        },
        e2: if c.e2 > DMAX {
            DMAX
        } else if c.e2 < -DMAX {
            -DMAX
        } else {
            c.e2
        },
    }
}

/// Estimate the radiance a ray carries out of the scene: follow it through
/// up to `depth` scattering events, then fold the collected emission and
/// attenuation pairs from the last bounce back to the first as
/// `acc = emitted + attenuation * acc`, clamped into the radiance range.
///
/// The result is exactly that fold over some light path the scene admits
/// (`walk_ok`); with the bounce budget exhausted it is black, and on a
/// deterministic scene a miss returns exactly the background and a light
/// exactly its emission.
pub fn ray_color(ray0: Ray, background: &Color, world: &Object, depth: u64) -> (res: Color)
    requires
        object_wf(*world),
        ray_wf(ray0@),
        bounded(background@, COLORB as int),
    ensures
        depth == 0 ==> res@ == vzero(),
        depth > 0 && deterministic(*world) && object_hit(
            *world,
            ray0@,
            T_EPS as int,
            WMAX as int,
        ) is None ==> res@ == background@,
        depth > 0 && deterministic(*world) ==> (object_hit(
            *world,
            ray0@,
            T_EPS as int,
            WMAX as int,
        ) matches Some(h) ==> (h.mat is DiffuseLight ==> res@ == emitted_spec(
            h.mat,
            h.u,
            h.v,
            h.p,
        ))),
        exists|rays: Seq<Rayg>, pairs: Seq<(V3, V3)>, seed: V3|
            #![trigger walk_ok(*world, rays, pairs, seed, background@)]
            rays[0] == ray0@ && pairs.len() <= depth && walk_ok(
                *world,
                rays,
                pairs,
                seed,
                background@,
            ) && res@ == fold_from(pairs, 0, seed),
        bounded(res@, DMAX as int),
{
    let mut ray = ray0;
    let mut stack: Vec<(Color, Color)> = Vec::new();
    let mut final_color = Vec3::with_values(0, 0, 0);
    let mut d: u64 = 0;
    let ghost mut grays: Seq<Rayg> = seq![ray0@];
    while d < depth
        invariant_except_break
            final_color@ == vzero(),
        invariant
            object_wf(*world),
            ray_wf(ray@),
            bounded(background@, COLORB as int),
            d <= depth,
            stack@.len() <= d,
            forall|i: int| 0 <= i < stack@.len() ==> entry_ok(#[trigger] stack@[i]),
            grays.len() == stack@.len() + 1,
            grays[0] == ray0@,
            grays[grays.len() - 1] == ray@,
            forall|i: int| 0 <= i < stack@.len() ==> #[trigger] bounce_ok(
                *world,
                grays[i],
                (stack@[i].0@, stack@[i].1@),
                grays[i + 1],
            ),
            d == 0 ==> ray == ray0 && stack@.len() == 0,
            d > 0 ==> !(deterministic(*world) && object_hit(
                *world,
                ray0@,
                T_EPS as int,
                WMAX as int,
            ) is None),
            d > 0 ==> !(deterministic(*world) && (object_hit(
                *world,
                ray0@,
                T_EPS as int,
                WMAX as int,
            ) matches Some(h) && h.mat is DiffuseLight)),
        ensures
            forall|i: int| 0 <= i < stack@.len() ==> entry_ok(#[trigger] stack@[i]),
            bounded(final_color@, COLORB as int) || final_color@ == vzero(),
            stack@.len() <= depth,
            grays.len() == stack@.len() + 1,
            grays[0] == ray0@,
            forall|i: int| 0 <= i < stack@.len() ==> #[trigger] bounce_ok(
                *world,
                grays[i],
                (stack@[i].0@, stack@[i].1@),
                grays[i + 1],
            ),
            terminal_ok(*world, grays[stack@.len() as int], final_color@, background@),
            depth == 0 ==> stack@.len() == 0 && final_color@ == vzero(),
            depth > 0 && deterministic(*world) && object_hit(
                *world,
                ray0@,
                T_EPS as int,
                WMAX as int,
            ) is None ==> final_color@ == background@ && stack@.len() == 0,
            depth > 0 && deterministic(*world) ==> (object_hit(
                *world,
                ray0@,
                T_EPS as int,
                WMAX as int,
            ) matches Some(h) ==> (h.mat is DiffuseLight ==> final_color@ == emitted_spec(
                h.mat,
                h.u,
                h.v,
                h.p,
            ) && stack@.len() == 0)),
        decreases depth - d,
    {
        match world.hit(&ray, T_EPS, WMAX) {
            None => {
                final_color = *background;
                break;
            },
            Some(rec) => {
                let emitted = rec.mat.emitted(rec.u, rec.v, &rec.p);
                match rec.mat.scatter(&ray, &rec) {
                    None => {
                        final_color = emitted;
                        proof {
                            if !(rec@.mat is DiffuseLight) {
                                assert(emitted@ == vzero());
                            }
                        }
                        break;
                    },
                    Some((attenuation, scattered)) => {
                        let ghost prev = stack@;
                        let ghost prev_rays = grays;
                        let ghost rin = ray@;
                        proof {
                            let (sv0, su0) = choose|sv: V3, su: int|
                                bounded(sv, SCALE as int) && 0 <= vlsq(sv) < SCALE && 0 <= su
                                    < SCALE && #[trigger] scatter_rel(
                                    *rec.mat,
                                    rin,
                                    rec@,
                                    sv,
                                    su,
                                    crate::material::scatter_view(
                                        Some((attenuation, scattered)),
                                    ),
                                );
                            assert(scatter_rel(rec@.mat, rin, rec@, sv0, su0,
                                Option::Some((attenuation@, scattered@))));
                            assert(bounce_ok(*world, rin, (emitted@, attenuation@),
                                scattered@));
                            grays = grays.push(scattered@);
                        }
                        stack.push((emitted, attenuation));
                        ray = scattered;
                        proof {
                            assert forall|i: int| 0 <= i < stack@.len() implies entry_ok(
                                #[trigger] stack@[i]) by {
                                if i < prev.len() {
                                    assert(stack@[i] == prev[i]);
                                }
                            }
                            assert forall|i: int| 0 <= i < stack@.len() implies
                                #[trigger] bounce_ok(
                                *world,
                                grays[i],
                                (stack@[i].0@, stack@[i].1@),
                                grays[i + 1],
                            ) by {
                                if i < prev.len() {
                                    assert(stack@[i] == prev[i]);
                                    assert(grays[i] == prev_rays[i]);
                                    assert(grays[i + 1] == prev_rays[i + 1]);
                                    assert(bounce_ok(*world, prev_rays[i],
                                        (prev[i].0@, prev[i].1@), prev_rays[i + 1]));
                                } else {
                                    assert(grays[i] == rin && stack@[i] == (emitted,
                                        attenuation) && grays[i + 1] == scattered@);
                                }
                            }
                        }
                    },
                }
            },
        }
        d = d + 1;
    }
    let ghost pairs = views_of(stack@);
    let ghost seed = final_color@;
    let mut acc = final_color;
    proof {
        assert(forall|i: int| 0 <= i < stack@.len() ==> entry_ok(#[trigger] stack@[i]));
        assert(pairs.len() == stack@.len());
        assert(fold_from(pairs, pairs.len() as int, seed) == seed);
    }
    let mut j: usize = stack.len();
    while j > 0
        invariant
            j <= stack@.len(),
            forall|i: int| 0 <= i < stack@.len() ==> entry_ok(#[trigger] stack@[i]),
            pairs == views_of(stack@),
            pairs.len() == stack@.len(),
            bounded(acc@, DMAX as int) || acc@ == seed,
            bounded(seed, COLORB as int) || seed == vzero(),
            acc@ == fold_from(pairs, j as int, seed),
        decreases j,
    {
        j = j - 1;
        let (emitted, attenuation) = (stack[j].0, stack[j].1);
        let prod = attenuation.mul_color(&acc);
        proof {
            lemma_vmul_bound(attenuation@, acc@);
            assert(pairs[j as int] == (stack@[j as int].0@, stack@[j as int].1@));
        }
        let summed = emitted.plus(&prod);
        acc = vrad_clamp_e(summed);
    }
    proof {
        assert(acc@ == fold_from(pairs, 0, seed));
        assert(walk_ok(*world, grays, pairs, seed, background@)) by {
            assert forall|i: int| 0 <= i < pairs.len() implies #[trigger] bounce_ok(
                *world,
                grays[i],
                pairs[i],
                grays[i + 1],
            ) by {
                assert(pairs[i] == (stack@[i].0@, stack@[i].1@));
                assert(bounce_ok(*world, grays[i], (stack@[i].0@, stack@[i].1@),
                    grays[i + 1]));
            }
        }
    }
    acc
}

/// A bounded emission/attenuation pair on the bounce stack.
pub open spec fn entry_ok(e: (Color, Color)) -> bool {
    bounded(e.0@, COLORB as int) && bounded(e.1@, COLORB as int)
}

/// An attenuation times a clamped radiance stays within vector-addition
/// range.
proof fn lemma_vmul_bound(a: V3, b: V3)
    requires
        bounded(a, COLORB as int),
        bounded(b, DMAX as int) || bounded(b, COLORB as int),
    ensures
        bounded(vmul(a, b), 18014398509481984),
{
    assert(a.x * b.x <= 18014398509481984 * (SCALE as int) && -(18014398509481984 * (
    SCALE as int)) <= a.x * b.x && a.y * b.y <= 18014398509481984 * (SCALE as int) && -(
    18014398509481984 * (SCALE as int)) <= a.y * b.y && a.z * b.z <= 18014398509481984 * (
    SCALE as int) && -(18014398509481984 * (SCALE as int)) <= a.z * b.z) by (nonlinear_arith)
        requires bounded(a, COLORB as int) && (bounded(b, DMAX as int) || bounded(b,
            COLORB as int)) && COLORB as int == 67108864 && DMAX as int == 274877906944
            && SCALE as int == 65536;
    crate::fixed::lemma_fdiv_bounded(a.x * b.x, SCALE as int, 18014398509481984);
    crate::fixed::lemma_fdiv_bounded(a.y * b.y, SCALE as int, 18014398509481984);
    crate::fixed::lemma_fdiv_bounded(a.z * b.z, SCALE as int, 18014398509481984);
}

} // verus!
