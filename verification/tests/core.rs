use ray_tracer::aabb::{surrounding_box, AABB};
use ray_tracer::fixed::{fp_div, fp_mul, fp_sqrt, neg_ln_unit, SCALE};
use ray_tracer::ray::Ray;
use ray_tracer::texture::Texture;
use ray_tracer::vec3::{cross, dot, reflect, refract, Vec3};

const ONE: i128 = SCALE;

#[test]
fn fixed_point_products_round_down() {
    assert_eq!(fp_mul(ONE, ONE), ONE);
    assert_eq!(fp_mul(ONE / 2, ONE / 2), ONE / 4);
    assert_eq!(fp_mul(3 * ONE, -2 * ONE), -6 * ONE);
    assert_eq!(fp_div(ONE, 2 * ONE), ONE / 2);
    assert_eq!(fp_div(-ONE, 2 * ONE), -ONE / 2);
}

#[test]
fn fixed_point_sqrt_of_perfect_squares() {
    assert_eq!(fp_sqrt(0), 0);
    assert_eq!(fp_sqrt(ONE), ONE);
    assert_eq!(fp_sqrt(4 * ONE), 2 * ONE);
    assert_eq!(fp_sqrt(ONE / 4), ONE / 2);
}

#[test]
fn neg_ln_is_zero_at_one_and_grows_toward_zero() {
    assert_eq!(neg_ln_unit(SCALE), 0);
    let a = neg_ln_unit(SCALE / 2);
    let b = neg_ln_unit(SCALE / 4);
    assert!(a > 0);
    assert!(b > a);
}

#[test]
fn vector_algebra_is_exact() {
    let a = Vec3::with_values(ONE, 2 * ONE, 3 * ONE);
    let b = Vec3::with_values(4 * ONE, 5 * ONE, 6 * ONE);
    let s = a.plus(&b);
    assert_eq!((s.e0, s.e1, s.e2), (5 * ONE, 7 * ONE, 9 * ONE));
    assert_eq!(dot(&a, &b), 32 * ONE);
    let c = cross(&a, &b);
    assert_eq!((c.e0, c.e1, c.e2), (-3 * ONE, 6 * ONE, -3 * ONE));
    assert_eq!(a.length_squared(), 14 * ONE);
    let u = Vec3::with_values(3 * ONE, 4 * ONE, 0).unit_vector();
    assert_eq!((u.e0, u.e1, u.e2), (ONE * 3 / 5, ONE * 4 / 5, 0));
}

#[test]
fn reflect_twice_restores_the_vector() {
    let v = Vec3::with_values(ONE, -ONE, 0);
    let n = Vec3::with_values(0, ONE, 0);
    let w = reflect(&v, &n);
    assert_eq!((w.e0, w.e1, w.e2), (ONE, ONE, 0));
    let v2 = reflect(&w, &n);
    assert_eq!((v2.e0, v2.e1, v2.e2), (v.e0, v.e1, v.e2));
}

#[test]
fn refract_at_normal_incidence_keeps_direction() {
    let n = Vec3::with_values(0, ONE, 0);
    let uv = Vec3::with_values(0, -ONE, 0);
    let r = refract(&uv, &n, ONE);
    assert_eq!((r.e0, r.e1, r.e2), (0, -ONE, 0));
}

#[test]
fn slab_test_agrees_with_per_axis_intersection() {
    let bx = AABB::new(
        Vec3::with_values(-ONE, -ONE, -ONE),
        Vec3::with_values(ONE, ONE, ONE),
    );
    let toward = Ray::new(
        Vec3::with_values(0, 0, 5 * ONE),
        Vec3::with_values(0, 0, -ONE),
        0,
    );
    assert!(bx.hit(&toward, 0, 100 * ONE));
    let away = Ray::new(
        Vec3::with_values(0, 0, 5 * ONE),
        Vec3::with_values(0, 0, ONE),
        0,
    );
    assert!(!bx.hit(&away, 0, 100 * ONE));
    let miss = Ray::new(
        Vec3::with_values(5 * ONE, 0, 5 * ONE),
        Vec3::with_values(0, 0, -ONE),
        0,
    );
    assert!(!bx.hit(&miss, 0, 100 * ONE));
}

#[test]
fn origin_inside_box_always_hits() {
    let bx = AABB::new(
        Vec3::with_values(-2 * ONE, -ONE, -3 * ONE),
        Vec3::with_values(ONE, 2 * ONE, ONE),
    );
    let dirs = [
        Vec3::with_values(ONE, 0, 0),
        Vec3::with_values(0, -ONE, 0),
        Vec3::with_values(ONE, ONE, ONE),
        Vec3::with_values(-ONE, 7, 12345),
        Vec3::with_values(0, 0, 0),
    ];
    for d in dirs {
        let r = Ray::new(Vec3::with_values(0, 0, 0), d, 0);
        assert!(bx.hit(&r, -ONE, 100 * ONE));
    }
}

#[test]
fn degenerate_axis_requires_origin_in_slab() {
    let bx = AABB::new(
        Vec3::with_values(-ONE, -ONE, -ONE),
        Vec3::with_values(ONE, ONE, ONE),
    );
    // The direction has no x component and the origin is outside the x slab.
    let r = Ray::new(
        Vec3::with_values(3 * ONE, 0, 5 * ONE),
        Vec3::with_values(0, 0, -ONE),
        0,
    );
    assert!(!bx.hit(&r, 0, 100 * ONE));
}

#[test]
fn box_union_contains_both() {
    let a = AABB::new(
        Vec3::with_values(-ONE, 0, 0),
        Vec3::with_values(ONE, ONE, ONE),
    );
    let b = AABB::new(
        Vec3::with_values(0, -2 * ONE, 0),
        Vec3::with_values(3 * ONE, 0, ONE / 2),
    );
    let u = surrounding_box(&a, &b);
    assert_eq!((u.minimum.e0, u.minimum.e1, u.minimum.e2), (-ONE, -2 * ONE, 0));
    assert_eq!((u.maximum.e0, u.maximum.e1, u.maximum.e2), (3 * ONE, ONE, ONE));
}

#[test]
fn ray_at_walks_the_parametric_line() {
    let r = Ray::new(
        Vec3::with_values(ONE, 2 * ONE, 3 * ONE),
        Vec3::with_values(0, 0, -ONE),
        0,
    );
    let p = r.at(2 * ONE);
    assert_eq!((p.e0, p.e1, p.e2), (ONE, 2 * ONE, ONE));
}

#[test]
fn checker_texture_alternates_cells() {
    let odd = Vec3::with_values(ONE, 0, 0);
    let even = Vec3::with_values(0, ONE, 0);
    let t = Texture::checker_colors(odd, even);
    // At 0.1 units each scaled coordinate is below one half-turn: even.
    let near = Vec3::with_values(6554, 6554, 6554);
    let c = t.value(0, 0, &near);
    assert_eq!((c.e0, c.e1, c.e2), (0, ONE, 0));
    // At 0.4 units one axis has passed a half-turn while the others have
    // not: odd.
    let far = Vec3::with_values(26214, 6554, 6554);
    let c2 = t.value(0, 0, &far);
    assert_eq!((c2.e0, c2.e1, c2.e2), (ONE, 0, 0));
}

#[test]
fn image_texture_samples_pixels_and_falls_back_to_cyan() {
    let data = vec![255u8, 0, 0, 0, 255, 0, 0, 0, 255, 255, 255, 255];
    let t = Texture::image_texture(data, 2, 2);
    let p = Vec3::with_values(0, 0, 0);
    // u = 0, v = 1 addresses the top-left pixel: pure red.
    let c = t.value(0, ONE, &p);
    assert_eq!((c.e0, c.e1, c.e2), (ONE, 0, 0));
    let missing = Texture::image_texture(Vec::new(), 0, 0);
    let c2 = missing.value(0, 0, &p);
    assert_eq!((c2.e0, c2.e1, c2.e2), (0, ONE, ONE));
}
