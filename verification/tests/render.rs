use std::sync::Arc;

use ray_tracer::bvh::build_bvh;
use ray_tracer::fixed::SCALE;
use ray_tracer::hittable::{HittableList, Object};
use ray_tracer::integrator::ray_color;
use ray_tracer::material::Material;
use ray_tracer::ray::Ray;
use ray_tracer::scene::{Scene, Settings};
use ray_tracer::vec3::Vec3;

const ONE: i128 = SCALE;

fn gray() -> Arc<Material> {
    Arc::new(Material::lambertian_color(Vec3::with_values(
        ONE / 2,
        ONE / 2,
        ONE / 2,
    )))
}

#[test]
fn sphere_hit_through_unit_sphere() {
    let mat = gray();
    let s = Object::sphere(Vec3::with_values(0, 0, 0), ONE, &mat);
    let r = Ray::new(
        Vec3::with_values(0, 0, 5 * ONE),
        Vec3::with_values(0, 0, -ONE),
        0,
    );
    let hit = s.hit(&r, 0, 100 * ONE).expect("the ray passes through the sphere");
    assert_eq!(hit.t, 4 * ONE);
    assert_eq!(hit.p.e2, ONE);
    assert!(hit.front_face);
    assert_eq!((hit.normal.e0, hit.normal.e1, hit.normal.e2), (0, 0, ONE));
}

#[test]
fn sphere_missed_by_offset_ray() {
    let mat = gray();
    let s = Object::sphere(Vec3::with_values(0, 0, 0), ONE, &mat);
    let r = Ray::new(
        Vec3::with_values(2 * ONE, 0, 5 * ONE),
        Vec3::with_values(0, 0, -ONE),
        0,
    );
    assert!(s.hit(&r, 0, 100 * ONE).is_none());
}

#[test]
fn closest_hit_wins_in_a_list() {
    let mat = gray();
    let mut list = HittableList::new();
    list.add(Object::sphere(Vec3::with_values(0, 0, -10 * ONE), ONE, &mat));
    list.add(Object::sphere(Vec3::with_values(0, 0, 0), ONE, &mat));
    let r = Ray::new(
        Vec3::with_values(0, 0, 5 * ONE),
        Vec3::with_values(0, 0, -ONE),
        0,
    );
    let hit = list.hit(&r, 0, 1000 * ONE).expect("both spheres lie on the ray");
    assert_eq!(hit.t, 4 * ONE);
}

fn sample_world() -> Vec<Object> {
    let mat = gray();
    let mut objs = Vec::new();
    objs.push(Object::sphere(Vec3::with_values(0, 0, 0), ONE, &mat));
    objs.push(Object::sphere(Vec3::with_values(3 * ONE, 0, 0), ONE, &mat));
    objs.push(Object::sphere(Vec3::with_values(-3 * ONE, ONE, 0), 2 * ONE, &mat));
    objs.push(Object::xy_rect(-ONE, ONE, -ONE, ONE, -4 * ONE, &mat));
    objs.push(Object::xz_rect(-5 * ONE, 5 * ONE, -5 * ONE, 5 * ONE, -2 * ONE, &mat));
    objs.push(Object::yz_rect(-ONE, ONE, -ONE, ONE, 5 * ONE, &mat));
    objs.push(Object::cuboid(
        Vec3::with_values(6 * ONE, 0, 0),
        Vec3::with_values(8 * ONE, ONE, ONE),
        &mat,
    ));
    objs
}

fn sample_rays() -> Vec<Ray> {
    let mut rays = Vec::new();
    for k in -6i128..7 {
        rays.push(Ray::new(
            Vec3::with_values(k * ONE, ONE / 2, 10 * ONE),
            Vec3::with_values(0, 0, -ONE),
            0,
        ));
        rays.push(Ray::new(
            Vec3::with_values(k * ONE, 8 * ONE, 0),
            Vec3::with_values(ONE / 7, -ONE, 3),
            0,
        ));
    }
    rays
}

#[test]
fn bvh_reports_the_same_hits_as_a_linear_scan() {
    // Rebuild the tree several times: the random axis choices reshape it,
    // but the closest hit must stay what the exhaustive scan finds.
    for _ in 0..3 {
        let scan = HittableList { objects: sample_world() };
        let tree = build_bvh(sample_world(), 0, ONE);
        for r in sample_rays() {
            let a = scan.hit(&r, 0, 1000 * ONE);
            let b = tree.hit(&r, 0, 1000 * ONE);
            match (a, b) {
                (None, None) => {}
                (Some(x), Some(y)) => {
                    assert_eq!(x.t, y.t);
                    assert_eq!((x.p.e0, x.p.e1, x.p.e2), (y.p.e0, y.p.e1, y.p.e2));
                    assert_eq!(
                        (x.normal.e0, x.normal.e1, x.normal.e2),
                        (y.normal.e0, y.normal.e1, y.normal.e2)
                    );
                }
                (a, b) => panic!("scan found {:?} but the tree found {:?}", a.is_some(), b.is_some()),
            }
        }
    }
}

#[test]
fn translate_and_its_inverse_cancel() {
    let mat = gray();
    let plain = Object::sphere(Vec3::with_values(0, 0, 0), ONE, &mat);
    let off = Vec3::with_values(3 * ONE, -2 * ONE, ONE);
    let back = Vec3::with_values(-3 * ONE, 2 * ONE, -ONE);
    let inner = Object::translate(
        Object::sphere(Vec3::with_values(0, 0, 0), ONE, &mat),
        off,
    );
    let wrapped = Object::translate(inner, back);
    for r in sample_rays() {
        let a = plain.hit(&r, 0, 1000 * ONE);
        let b = wrapped.hit(&r, 0, 1000 * ONE);
        match (a, b) {
            (None, None) => {}
            (Some(x), Some(y)) => {
                assert_eq!(x.t, y.t);
                assert_eq!((x.p.e0, x.p.e1, x.p.e2), (y.p.e0, y.p.e1, y.p.e2));
                assert_eq!((x.u, x.v), (y.u, y.v));
            }
            _ => panic!("wrapping in a translation and its inverse changed a hit"),
        }
    }
}

#[test]
fn quarter_turns_forward_and_back_cancel() {
    let mat = gray();
    let plain = Object::sphere(Vec3::with_values(2 * ONE, 0, ONE), ONE, &mat);
    // A quarter turn has an exact fixed-point sine and cosine, so the
    // round trip is free of rounding.
    let inner = Object::rotate_y(
        Object::sphere(Vec3::with_values(2 * ONE, 0, ONE), ONE, &mat),
        ONE,
        0,
    );
    let wrapped = Object::rotate_y(inner, -ONE, 0);
    for r in sample_rays() {
        let a = plain.hit(&r, 0, 1000 * ONE);
        let b = wrapped.hit(&r, 0, 1000 * ONE);
        match (a, b) {
            (None, None) => {}
            (Some(x), Some(y)) => {
                assert_eq!(x.t, y.t);
                assert_eq!((x.p.e0, x.p.e1, x.p.e2), (y.p.e0, y.p.e1, y.p.e2));
            }
            _ => panic!("a quarter turn and its inverse changed a hit"),
        }
    }
}

#[test]
fn lambertian_scatters_from_the_hit_point() {
    let mat = gray();
    let s = Object::sphere(Vec3::with_values(0, 0, 0), ONE, &mat);
    let r = Ray::new(
        Vec3::with_values(0, 0, 5 * ONE),
        Vec3::with_values(0, 0, -ONE),
        7,
    );
    let hit = s.hit(&r, 0, 100 * ONE).unwrap();
    let (attenuation, scattered) = hit.mat.scatter(&r, &hit).expect("diffuse always scatters");
    assert_eq!(
        (attenuation.e0, attenuation.e1, attenuation.e2),
        (ONE / 2, ONE / 2, ONE / 2)
    );
    assert_eq!(
        (scattered.origin.e0, scattered.origin.e1, scattered.origin.e2),
        (hit.p.e0, hit.p.e1, hit.p.e2)
    );
    assert_eq!(scattered.time, 7);
}

#[test]
fn metal_with_zero_fuzz_mirrors_exactly() {
    let shiny = Arc::new(Material::metal(Vec3::with_values(ONE, ONE, ONE), 0));
    let s = Object::sphere(Vec3::with_values(0, 0, 0), ONE, &shiny);
    let r = Ray::new(
        Vec3::with_values(0, 0, 5 * ONE),
        Vec3::with_values(0, 0, -ONE),
        0,
    );
    let hit = s.hit(&r, 0, 100 * ONE).unwrap();
    let (_, scattered) = hit.mat.scatter(&r, &hit).expect("head-on reflection leaves the surface");
    assert_eq!(
        (scattered.direction.e0, scattered.direction.e1, scattered.direction.e2),
        (0, 0, ONE)
    );
}

#[test]
fn dielectric_never_absorbs() {
    let glass = Arc::new(Material::dielectric(98304));
    let s = Object::sphere(Vec3::with_values(0, 0, 0), ONE, &glass);
    let r = Ray::new(
        Vec3::with_values(0, 0, 5 * ONE),
        Vec3::with_values(0, 0, -ONE),
        0,
    );
    let hit = s.hit(&r, 0, 100 * ONE).unwrap();
    for _ in 0..20 {
        let (attenuation, _) = hit.mat.scatter(&r, &hit).expect("glass always scatters");
        assert_eq!((attenuation.e0, attenuation.e1, attenuation.e2), (ONE, ONE, ONE));
    }
}

#[test]
fn light_absorbs_and_emits() {
    let lamp = Arc::new(Material::diffuse_light_color(Vec3::with_values(
        4 * ONE,
        4 * ONE,
        4 * ONE,
    )));
    let s = Object::sphere(Vec3::with_values(0, 0, 0), ONE, &lamp);
    let r = Ray::new(
        Vec3::with_values(0, 0, 5 * ONE),
        Vec3::with_values(0, 0, -ONE),
        0,
    );
    let hit = s.hit(&r, 0, 100 * ONE).unwrap();
    assert!(hit.mat.scatter(&r, &hit).is_none());
    let e = hit.mat.emitted(hit.u, hit.v, &hit.p);
    assert_eq!((e.e0, e.e1, e.e2), (4 * ONE, 4 * ONE, 4 * ONE));
}

#[test]
fn medium_hits_stay_inside_the_interval() {
    let fog = Arc::new(Material::isotropic_color(Vec3::with_values(ONE, ONE, ONE)));
    let boundary = Object::sphere(Vec3::with_values(0, 0, 0), 2 * ONE, &gray());
    let medium = Object::constant_medium(boundary, 5 * ONE, &fog);
    let r = Ray::new(
        Vec3::with_values(0, 0, 5 * ONE),
        Vec3::with_values(0, 0, -ONE),
        0,
    );
    let mut saw_hit = false;
    for _ in 0..100 {
        if let Some(h) = medium.hit(&r, 0, 100 * ONE) {
            saw_hit = true;
            assert!(h.t >= 0 && h.t <= 100 * ONE);
        }
    }
    assert!(saw_hit, "a dense medium scatters at least once in many tries");
}

#[test]
fn depth_zero_returns_black() {
    let mat = gray();
    let world = Object::sphere(Vec3::with_values(0, 0, 0), ONE, &mat);
    let bg = Vec3::with_values(ONE, ONE / 2, ONE / 4);
    let r = Ray::new(
        Vec3::with_values(0, 0, 5 * ONE),
        Vec3::with_values(0, 0, -ONE),
        0,
    );
    let c = ray_color(r, &bg, &world, 0);
    assert_eq!((c.e0, c.e1, c.e2), (0, 0, 0));
}

#[test]
fn empty_scene_returns_the_background() {
    let world = HittableList::new().into_object();
    let bg = Vec3::with_values(45875, 52429, ONE);
    let r = Ray::new(
        Vec3::with_values(ONE, 2 * ONE, 5 * ONE),
        Vec3::with_values(3, -ONE, -ONE),
        0,
    );
    let c = ray_color(r, &bg, &world, 50);
    assert_eq!((c.e0, c.e1, c.e2), (45875, 52429, ONE));
}

#[test]
fn a_light_is_seen_at_exactly_its_emission() {
    let lamp = Arc::new(Material::diffuse_light_color(Vec3::with_values(
        7 * ONE,
        7 * ONE,
        7 * ONE,
    )));
    let world = Object::sphere(Vec3::with_values(0, 0, 0), ONE, &lamp);
    let bg = Vec3::with_values(ONE / 4, ONE / 4, ONE / 4);
    let r = Ray::new(
        Vec3::with_values(0, 0, 5 * ONE),
        Vec3::with_values(0, 0, -ONE),
        0,
    );
    let c = ray_color(r, &bg, &world, 8);
    assert_eq!((c.e0, c.e1, c.e2), (7 * ONE, 7 * ONE, 7 * ONE));
}

#[test]
fn mirror_over_ground_folds_attenuation_into_the_background() {
    // A large diffuse ground sphere and a small zero-fuzz mirror resting
    // on it.  A ray straight down onto the mirror's apex reflects
    // deterministically straight up, misses everything, and picks up the
    // background attenuated by the mirror's albedo -- the whole
    // scatter/attenuate/fold pipeline with an exactly predictable result.
    let ground = Arc::new(Material::lambertian_color(Vec3::with_values(
        ONE / 2,
        ONE / 2,
        ONE / 2,
    )));
    let mirror = Arc::new(Material::metal(
        Vec3::with_values(3 * ONE / 4, 3 * ONE / 4, 3 * ONE / 4),
        0,
    ));
    let mut world = HittableList::new();
    world.add(Object::sphere(
        Vec3::with_values(0, -1000 * ONE, 0),
        1000 * ONE,
        &ground,
    ));
    world.add(Object::sphere(Vec3::with_values(0, ONE / 2, 0), ONE / 2, &mirror));
    let world = world.into_object();
    let bg = Vec3::with_values(ONE / 2, ONE / 2, ONE / 2);
    let r = Ray::new(
        Vec3::with_values(0, 5 * ONE, 0),
        Vec3::with_values(0, -ONE, 0),
        0,
    );
    for depth in [2u64, 3, 10] {
        let c = ray_color(r, &bg, &world, depth);
        assert_eq!((c.e0, c.e1, c.e2), (3 * ONE / 8, 3 * ONE / 8, 3 * ONE / 8));
    }
}

#[test]
fn moving_sphere_follows_its_keyframes() {
    let mat = gray();
    let s = Object::moving_sphere(
        Vec3::with_values(0, 0, 0),
        Vec3::with_values(2 * ONE, 0, 0),
        0,
        ONE,
        ONE,
        &mat,
    );
    // Halfway through the exposure the center sits at x = 1.
    let r = Ray::new(
        Vec3::with_values(ONE, 0, 5 * ONE),
        Vec3::with_values(0, 0, -ONE),
        ONE / 2,
    );
    let hit = s.hit(&r, 0, 100 * ONE).expect("the ray meets the interpolated sphere");
    assert_eq!(hit.t, 4 * ONE);
    assert_eq!(hit.p.e2, ONE);
    // At the start of the exposure the same ray passes a unit to the side.
    let r0 = Ray::new(
        Vec3::with_values(2 * ONE, 0, 5 * ONE),
        Vec3::with_values(0, 0, -ONE),
        0,
    );
    assert!(s.hit(&r0, 0, 100 * ONE).is_none());
}

#[test]
fn translate_shifts_hits_by_the_offset() {
    let mat = gray();
    let shifted = Object::translate(
        Object::sphere(Vec3::with_values(0, 0, 0), ONE, &mat),
        Vec3::with_values(0, 0, -3 * ONE),
    );
    let r = Ray::new(
        Vec3::with_values(0, 0, 5 * ONE),
        Vec3::with_values(0, 0, -ONE),
        0,
    );
    let hit = shifted.hit(&r, 0, 100 * ONE).expect("the shifted sphere lies on the ray");
    assert_eq!(hit.t, 7 * ONE);
    assert_eq!(hit.p.e2, -2 * ONE);
}

#[test]
fn sphere_box_is_center_plus_minus_radius() {
    let mat = gray();
    let s = Object::sphere(Vec3::with_values(ONE, 2 * ONE, 3 * ONE), ONE / 2, &mat);
    let b = s.bounding_box(0, ONE).expect("a sphere always has a box");
    assert_eq!(
        (b.minimum.e0, b.minimum.e1, b.minimum.e2),
        (ONE / 2, 3 * ONE / 2, 5 * ONE / 2)
    );
    assert_eq!(
        (b.maximum.e0, b.maximum.e1, b.maximum.e2),
        (3 * ONE / 2, 5 * ONE / 2, 7 * ONE / 2)
    );
}

#[test]
fn metal_fuzz_is_clamped_into_the_unit_range() {
    let c = Vec3::with_values(ONE / 2, ONE / 2, ONE / 2);
    match Material::metal(c, -ONE / 2) {
        Material::Metal { fuzz, .. } => assert_eq!(fuzz, 0),
        _ => panic!("metal constructor built something else"),
    }
    match Material::metal(c, 3 * ONE) {
        Material::Metal { fuzz, .. } => assert_eq!(fuzz, ONE),
        _ => panic!("metal constructor built something else"),
    }
    match Material::metal(c, ONE / 4) {
        Material::Metal { fuzz, .. } => assert_eq!(fuzz, ONE / 4),
        _ => panic!("metal constructor built something else"),
    }
}

#[test]
fn moving_sphere_reports_static_surface_coordinates() {
    let mat = gray();
    let fixed = Object::sphere(Vec3::with_values(0, 0, 0), ONE, &mat);
    let moving = Object::moving_sphere(
        Vec3::with_values(0, 0, 0),
        Vec3::with_values(0, 0, 0),
        0,
        ONE,
        ONE,
        &mat,
    );
    let r = Ray::new(
        Vec3::with_values(0, 0, 5 * ONE),
        Vec3::with_values(0, 0, -ONE),
        ONE / 2,
    );
    let a = fixed.hit(&r, 0, 100 * ONE).unwrap();
    let b = moving.hit(&r, 0, 100 * ONE).unwrap();
    assert_eq!((a.u, a.v), (b.u, b.v));
    assert_eq!((b.u, b.v), (ONE / 4, ONE / 2));
}

#[test]
fn settings_width_follows_aspect_ratio() {
    let mut s = Settings::new();
    assert_eq!((s.image_width, s.image_height), (1200, 800));
    s.set_wdith(600);
    assert_eq!((s.image_width, s.image_height), (600, 400));
}

#[test]
fn every_scene_builds_well_formed() {
    for i in 0..10 {
        let (world, _view, _bg, settings) = Scene::world_select(i);
        if i == 5 {
            assert_eq!(world.objects.len(), 0);
        } else {
            assert!(world.objects.len() >= 1);
        }
        assert!(settings.max_depth >= 1);
    }
}
