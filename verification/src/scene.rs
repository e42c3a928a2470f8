use vstd::prelude::*;
use std::sync::Arc;
use crate::fixed::{lemma_fdiv_bounded, COLORB, SCALE, WMAX};
use crate::hittable::{list_wf, HittableList, Object};
use crate::material::{material_wf, Material};
use crate::texture::Texture;
use crate::vec3::{bounded, Color, Point3, Vec3, V3};

verus! {

/// Sine and cosine of fifteen degrees, at fixed-point precision.
pub const SIN_15: i128 = 16962;

pub const COS_15: i128 = 63303;

/// Sine and cosine of minus eighteen degrees, at fixed-point precision.
pub const SIN_NEG_18: i128 = -20253;

pub const COS_NEG_18: i128 = 62328;

/// Image dimensions, sampling rate and bounce budget of a render.
pub struct Settings {
    pub aspect_num: u64,
    pub aspect_den: u64,
    pub image_width: u64,
    pub image_height: u64,
    pub samples_per_pixel: u64,
    pub max_depth: u64,
}

impl Settings {
    /// The default settings: a three-by-two viewport, 1200 pixels wide.
    pub fn new() -> (r: Settings)
        ensures
            r.aspect_num == 3,
            r.aspect_den == 2,
            r.image_width == 1200,
            r.image_height == 800,
            r.samples_per_pixel == 500,
            r.max_depth == 50,
    {
        Settings {
            aspect_num: 3,
            aspect_den: 2,
            image_width: 1200,
            image_height: 800,
            samples_per_pixel: 500,
            max_depth: 50,
        }
    }

    /// Change the width, recomputing the height from the aspect ratio.
    pub fn set_wdith(&mut self, width: u64)
        requires
            old(self).aspect_num >= 1,
            old(self).aspect_den <= 16,
            width <= 1000000,
        ensures
            final(self).image_width == width,
            final(self).image_height as int == ((width as int) * (old(self).aspect_den
                as int)) / (old(self).aspect_num as int),
            final(self).aspect_num == old(self).aspect_num,
            final(self).aspect_den == old(self).aspect_den,
            final(self).samples_per_pixel == old(self).samples_per_pixel,
            final(self).max_depth == old(self).max_depth,
    {
        self.image_width = width;
        proof {
            crate::fixed::lemma_fdiv_props((width * self.aspect_den) as int,
                self.aspect_num as int);
            assert((width * self.aspect_den) as int / (self.aspect_num as int) <= (width
                * self.aspect_den) as int) by (nonlinear_arith)
                requires
                    ((width * self.aspect_den) as int / (self.aspect_num as int)) * (
                    self.aspect_num as int) <= (width * self.aspect_den) as int,
                    1 <= self.aspect_num as int,
                    0 <= (width * self.aspect_den) as int / (self.aspect_num as int);
            assert(0 <= (width * self.aspect_den) as int / (self.aspect_num as int));
            assert((width as int) * (self.aspect_den as int) <= 16000000)
                by (nonlinear_arith)
                requires width as int <= 1000000 && self.aspect_den as int <= 16;
        }
        self.image_height = (width * self.aspect_den) / self.aspect_num;
    }
}

/// Where the camera stands and looks, and its lens parameters, all in
/// fixed-point units: what the projection outside this crate consumes.
pub struct ViewSpec {
    pub lookfrom: Point3,
    pub lookat: Point3,
    pub vfov: i128,
    pub aperture: i128,
}

/// The demo scenes: fixed arrangements of objects, materials and textures,
/// assembled from the verified constructors.
pub struct Scene;

/// A whole number of units in fixed-point form.
pub fn fx(units: i128) -> (r: i128)
    requires
        -1048576 <= units <= 1048576,
    ensures
        r == units * SCALE,
        -WMAX <= r <= WMAX,
{
    units * SCALE
}

impl Scene {
    /// The scene picked by number, its camera placement, background color
    /// and settings.
    pub fn world_select(world_i: usize) -> (r: (HittableList, ViewSpec, Color, Settings))
        ensures
            list_wf(r.0),
            bounded(r.2@, COLORB as int),
    {
        let mut settings = Settings::new();
        let sky = Vec3::with_values(45875, 52429, 65536);
        let black = Vec3::with_values(0, 0, 0);
        if world_i == 1 {
            let world = Self::random_scene();
            let view = ViewSpec {
                lookfrom: Vec3::with_values(fx(13), fx(2), fx(3)),
                lookat: Vec3::with_values(0, 0, 0),
                vfov: fx(20),
                aperture: 6554,
            };
            (world, view, sky, settings)
        } else if world_i == 2 {
            let world = Self::two_sphere();
            let view = ViewSpec {
                lookfrom: Vec3::with_values(fx(13), fx(2), fx(3)),
                lookat: Vec3::with_values(0, 0, 0),
                vfov: fx(20),
                aperture: 0,
            };
            (world, view, sky, settings)
        } else if world_i == 3 {
            let world = Self::two_perlin_spheres();
            let view = ViewSpec {
                lookfrom: Vec3::with_values(fx(13), fx(2), fx(3)),
                lookat: Vec3::with_values(0, 0, 0),
                vfov: fx(20),
                aperture: 0,
            };
            (world, view, sky, settings)
        } else if world_i == 4 {
            let world = Self::earth();
            let view = ViewSpec {
                lookfrom: Vec3::with_values(fx(13), fx(2), fx(3)),
                lookat: Vec3::with_values(0, 0, 0),
                vfov: fx(20),
                aperture: 0,
            };
            (world, view, sky, settings)
        } else if world_i == 5 {
            let world = HittableList::new();
            let view = ViewSpec {
                lookfrom: Vec3::with_values(0, 0, 0),
                lookat: Vec3::with_values(0, 0, 0),
                vfov: fx(40),
                aperture: 0,
            };
            (world, view, black, settings)
        } else if world_i == 6 {
            let world = Self::simple_light();
            settings.samples_per_pixel = 400;
            let view = ViewSpec {
                lookfrom: Vec3::with_values(fx(26), fx(3), fx(6)),
                lookat: Vec3::with_values(0, fx(2), 0),
                vfov: fx(20),
                aperture: 0,
            };
            (world, view, black, settings)
        } else if world_i == 7 {
            let world = Self::cornell_box();
            settings.aspect_num = 1;
            settings.aspect_den = 1;
            settings.set_wdith(600);
            settings.samples_per_pixel = 400;
            let view = ViewSpec {
                lookfrom: Vec3::with_values(fx(278), fx(278), fx(-800)),
                lookat: Vec3::with_values(fx(278), fx(278), 0),
                vfov: fx(40),
                aperture: 0,
            };
            (world, view, black, settings)
        } else if world_i == 8 {
            let world = Self::cornell_smoke();
            settings.aspect_num = 1;
            settings.aspect_den = 1;
            settings.set_wdith(600);
            settings.samples_per_pixel = 200;
            let view = ViewSpec {
                lookfrom: Vec3::with_values(fx(278), fx(278), fx(-800)),
                lookat: Vec3::with_values(fx(278), fx(278), 0),
                vfov: fx(40),
                aperture: 0,
            };
            (world, view, black, settings)
        } else {
            let world = Self::final_scene();
            settings.aspect_num = 1;
            settings.aspect_den = 1;
            settings.set_wdith(800);
            settings.samples_per_pixel = 10000;
            let view = ViewSpec {
                lookfrom: Vec3::with_values(fx(478), fx(278), fx(-600)),
                lookat: Vec3::with_values(fx(278), fx(278), 0),
                vfov: fx(40),
                aperture: 0,
            };
            (world, view, black, settings)
        }
    }

    /// Two touching checkered spheres.
    pub fn two_sphere() -> (r: HittableList)
        ensures
            list_wf(r),
    {
        let mut objects = HittableList::new();
        let odd = Vec3::with_values(13107, 19661, 6554);
        let even = Vec3::with_values(58982, 58982, 58982);
        let checker = Arc::new(Texture::checker_colors(odd, even));
        let mat = Arc::new(Material::lambertian(&checker));
        objects.add(Object::sphere(Vec3::with_values(0, fx(-10), 0), fx(10), &mat));
        objects.add(Object::sphere(Vec3::with_values(0, fx(10), 0), fx(10), &mat));
        objects
    }

    /// A gray ground sphere and a gray ball; the procedural noise the
    /// original surfaces carry is outside this crate, so a solid tone
    /// stands in.
    pub fn two_perlin_spheres() -> (r: HittableList)
        ensures
            list_wf(r),
    {
        let mut objects = HittableList::new();
        let gray = Arc::new(Material::lambertian_color(Vec3::with_values(47841, 47841,
            47841)));
        objects.add(Object::sphere(Vec3::with_values(0, fx(-1000), 0), fx(1000), &gray));
        objects.add(Object::sphere(Vec3::with_values(0, fx(2), 0), fx(2), &gray));
        objects
    }

    /// A globe; with no raster loaded the missing-asset color shows.
    pub fn earth() -> (r: HittableList)
        ensures
            list_wf(r),
    {
        Self::earth_with_image(Vec::new(), 0, 0)
    }

    /// A globe textured by a caller-supplied RGB raster.
    pub fn earth_with_image(data: Vec<u8>, width: usize, height: usize) -> (r: HittableList)
        ensures
            list_wf(r),
    {
        let mut objects = HittableList::new();
        let tex = Arc::new(Texture::image_texture(data, width, height));
        let mat = Arc::new(Material::lambertian(&tex));
        objects.add(Object::sphere(Vec3::with_values(0, 0, 0), fx(2), &mat));
        objects
    }

    /// A ground sphere, a ball and a rectangular light.
    pub fn simple_light() -> (r: HittableList)
        ensures
            list_wf(r),
    {
        let mut objects = HittableList::new();
        let gray = Arc::new(Material::lambertian_color(Vec3::with_values(47841, 47841,
            47841)));
        objects.add(Object::sphere(Vec3::with_values(0, fx(-1000), 0), fx(1000), &gray));
        objects.add(Object::sphere(Vec3::with_values(0, fx(2), 0), fx(2), &gray));
        let difflight = Arc::new(Material::diffuse_light_color(Vec3::with_values(fx(4), fx(4),
            fx(4))));
        objects.add(Object::xy_rect(fx(3), fx(5), fx(1), fx(3), fx(-2), &difflight));
        objects
    }

    /// The five walls, light and two rotated boxes of the classic box room.
    pub fn cornell_box() -> (r: HittableList)
        ensures
            list_wf(r),
    {
        let mut objects = HittableList::new();
        let red = Arc::new(Material::lambertian_color(Vec3::with_values(42598, 3277, 3277)));
        let white = Arc::new(Material::lambertian_color(Vec3::with_values(47841, 47841,
            47841)));
        let green = Arc::new(Material::lambertian_color(Vec3::with_values(7864, 29491,
            9830)));
        let light = Arc::new(Material::diffuse_light_color(Vec3::with_values(fx(15), fx(15),
            fx(15))));
        objects.add(Object::yz_rect(0, fx(555), 0, fx(555), fx(555), &green));
        objects.add(Object::yz_rect(0, fx(555), 0, fx(555), 0, &red));
        objects.add(Object::xz_rect(fx(213), fx(343), fx(227), fx(332), fx(554), &light));
        objects.add(Object::xz_rect(0, fx(555), 0, fx(555), 0, &white));
        objects.add(Object::xz_rect(0, fx(555), 0, fx(555), fx(555), &white));
        objects.add(Object::xy_rect(0, fx(555), 0, fx(555), fx(555), &white));
        let box1 = Object::cuboid(
            Vec3::with_values(0, 0, 0),
            Vec3::with_values(fx(165), fx(330), fx(165)),
            &white,
        );
        let box1 = Object::rotate_y(box1, SIN_15, COS_15);
        let box1 = Object::translate(box1, Vec3::with_values(fx(265), 0, fx(295)));
        objects.add(box1);
        let box2 = Object::cuboid(
            Vec3::with_values(0, 0, 0),
            Vec3::with_values(fx(165), fx(165), fx(165)),
            &white,
        );
        let box2 = Object::rotate_y(box2, SIN_NEG_18, COS_NEG_18);
        let box2 = Object::translate(box2, Vec3::with_values(fx(130), 0, fx(65)));
        objects.add(box2);
        objects
    }

    /// The box room with its two boxes filled by smoke and fog media.
    pub fn cornell_smoke() -> (r: HittableList)
        ensures
            list_wf(r),
    {
        let mut objects = HittableList::new();
        let red = Arc::new(Material::lambertian_color(Vec3::with_values(42598, 3277, 3277)));
        let white = Arc::new(Material::lambertian_color(Vec3::with_values(47841, 47841,
            47841)));
        let green = Arc::new(Material::lambertian_color(Vec3::with_values(7864, 29491,
            9830)));
        let light = Arc::new(Material::diffuse_light_color(Vec3::with_values(fx(7), fx(7),
            fx(7))));
        objects.add(Object::yz_rect(0, fx(555), 0, fx(555), fx(555), &green));
        objects.add(Object::yz_rect(0, fx(555), 0, fx(555), 0, &red));
        objects.add(Object::xz_rect(fx(113), fx(443), fx(127), fx(432), fx(554), &light));
        objects.add(Object::xz_rect(0, fx(555), 0, fx(555), fx(555), &white));
        objects.add(Object::xz_rect(0, fx(555), 0, fx(555), 0, &white));
        objects.add(Object::xy_rect(0, fx(555), 0, fx(555), fx(555), &white));
        let box1 = Object::cuboid(
            Vec3::with_values(0, 0, 0),
            Vec3::with_values(fx(165), fx(330), fx(165)),
            &white,
        );
        let box1 = Object::rotate_y(box1, SIN_15, COS_15);
        let box1 = Object::translate(box1, Vec3::with_values(fx(265), 0, fx(295)));
        let box2 = Object::cuboid(
            Vec3::with_values(0, 0, 0),
            Vec3::with_values(fx(165), fx(165), fx(165)),
            &white,
        );
        let box2 = Object::rotate_y(box2, SIN_NEG_18, COS_NEG_18);
        let box2 = Object::translate(box2, Vec3::with_values(fx(130), 0, fx(65)));
        let smoke = Arc::new(Material::isotropic_color(Vec3::with_values(0, 0, 0)));
        let fog = Arc::new(Material::isotropic_color(Vec3::with_values(65536, 65536, 65536)));
        objects.add(Object::constant_medium(box1, 655, &smoke));
        objects.add(Object::constant_medium(box2, 655, &fog));
        objects
    }

    /// The showcase scene: a field of boxes under a light, moving and glass
    /// spheres, media, a globe and a rotated cloud of small spheres.
    pub fn final_scene() -> (r: HittableList)
        ensures
            list_wf(r),
    {
        let ground = Arc::new(Material::lambertian_color(Vec3::with_values(31457, 54395,
            34734)));
        let mut boxes1 = HittableList::new();
        let mut i: usize = 0;
        while i < 20
            invariant
                list_wf(boxes1),
                material_wf(*ground),
            decreases 20 - i,
        {
            let mut j: usize = 0;
            while j < 20
                invariant
                    list_wf(boxes1),
                    material_wf(*ground),
                    i < 20,
                decreases 20 - j,
            {
                let x0: i128 = fx(-1000) + fx(100) * (i as i128);
                let z0: i128 = fx(-1000) + fx(100) * (j as i128);
                let x1: i128 = x0 + fx(100);
                let y1: i128 = crate::rng::rand_range(fx(1), fx(101));
                let z1: i128 = z0 + fx(100);
                boxes1.add(Object::cuboid(
                    Vec3::with_values(x0, 0, z0),
                    Vec3::with_values(x1, y1, z1),
                    &ground,
                ));
                j = j + 1;
            }
            i = i + 1;
        }
        let mut objects = HittableList::new();
        if boxes1.objects.len() >= 1 {
            objects.add(crate::bvh::bvh_from_list(boxes1, 0, SCALE));
        }
        let light = Arc::new(Material::diffuse_light_color(Vec3::with_values(fx(7), fx(7),
            fx(7))));
        objects.add(Object::xz_rect(fx(123), fx(423), fx(147), fx(412), fx(554), &light));
        let center1 = Vec3::with_values(fx(400), fx(400), fx(200));
        let center2 = Vec3::with_values(fx(430), fx(400), fx(200));
        let brown = Arc::new(Material::lambertian_color(Vec3::with_values(45875, 19661,
            6554)));
        objects.add(Object::moving_sphere(center1, center2, 0, SCALE, fx(50), &brown));
        let glass = Arc::new(Material::dielectric(98304));
        objects.add(Object::sphere(Vec3::with_values(fx(260), fx(150), fx(45)), fx(50),
            &glass));
        let steel = Arc::new(Material::metal(Vec3::with_values(52429, 52429, 58982), SCALE));
        objects.add(Object::sphere(Vec3::with_values(0, fx(150), fx(145)), fx(50), &steel));
        let boundary = Object::sphere(Vec3::with_values(fx(360), fx(150), fx(145)), fx(70),
            &glass);
        let haze = Arc::new(Material::isotropic_color(Vec3::with_values(13107, 26214,
            58982)));
        objects.add(Object::constant_medium(boundary, 13107, &haze));
        objects.add(Object::sphere(Vec3::with_values(fx(360), fx(150), fx(145)), fx(70),
            &glass));
        let world_boundary = Object::sphere(Vec3::with_values(0, 0, 0), fx(5000), &glass);
        let mist = Arc::new(Material::isotropic_color(Vec3::with_values(65536, 65536,
            65536)));
        objects.add(Object::constant_medium(world_boundary, 7, &mist));
        let etex = Arc::new(Texture::image_texture(Vec::new(), 0, 0));
        let emat = Arc::new(Material::lambertian(&etex));
        objects.add(Object::sphere(Vec3::with_values(fx(400), fx(200), fx(400)), fx(100),
            &emat));
        let stone = Arc::new(Material::lambertian_color(Vec3::with_values(47841, 47841,
            47841)));
        objects.add(Object::sphere(Vec3::with_values(fx(220), fx(280), fx(300)), fx(80),
            &stone));
        let white = Arc::new(Material::lambertian_color(Vec3::with_values(47841, 47841,
            47841)));
        let mut boxes2 = HittableList::new();
        let mut k: usize = 0;
        while k < 1000
            invariant
                list_wf(boxes2),
                material_wf(*white),
            decreases 1000 - k,
        {
            let cx = crate::rng::rand_range(0, fx(165) + 1);
            let cy = crate::rng::rand_range(0, fx(165) + 1);
            let cz = crate::rng::rand_range(0, fx(165) + 1);
            boxes2.add(Object::sphere(Vec3::with_values(cx, cy, cz), fx(10), &white));
            k = k + 1;
        }
        if boxes2.objects.len() >= 1 {
            let cloud = crate::bvh::bvh_from_list(boxes2, 0, SCALE);
            let cloud = Object::rotate_y(cloud, SIN_15, COS_15);
            let cloud = Object::translate(cloud, Vec3::with_values(fx(-100), fx(270),
                fx(395)));
            objects.add(cloud);
        }
        objects
    }

    /// The random field of small spheres around three large ones.
    pub fn random_scene() -> (r: HittableList)
        ensures
            list_wf(r),
    {
        let mut world = HittableList::new();
        let odd = Vec3::with_values(13107, 19661, 6554);
        let even = Vec3::with_values(58982, 58982, 58982);
        let checker = Arc::new(Texture::checker_colors(odd, even));
        let ground = Arc::new(Material::lambertian(&checker));
        world.add(Object::sphere(Vec3::with_values(0, fx(-1000), 0), fx(1000), &ground));
        let mut a: i128 = -11;
        while a < 11
            invariant
                list_wf(world),
                -11 <= a <= 11,
            decreases 11 - a,
        {
            let mut b: i128 = -11;
            while b < 11
                invariant
                    list_wf(world),
                    -11 <= a < 11,
                    -11 <= b <= 11,
                decreases 11 - b,
            {
                let choose_mat = crate::rng::rand_unit_scalar();
                let cx = fx(a) + crate::rng::rand_range(0, 58983);
                let cz = fx(b) + crate::rng::rand_range(0, 58983);
                let center = Vec3::with_values(cx, 13107, cz);
                let anchor = Vec3::with_values(fx(4), 13107, 0);
                let d = center.minus(&anchor);
                let dist = d.length();
                if dist > 58982 {
                    if choose_mat < 52429 {
                        let c1 = Vec3::random();
                        let c2 = Vec3::random();
                        proof {
                            lemma_unit_product_bound(c1@, c2@);
                        }
                        let albedo = c1.mul_color(&c2);
                        let mat = Arc::new(Material::lambertian_color(albedo));
                        let lift = crate::rng::rand_range(0, 32769);
                        let center2 = Vec3::with_values(cx, 13107 + lift, cz);
                        world.add(Object::moving_sphere(center, center2, 0, SCALE, 13107,
                            &mat));
                    } else if choose_mat < 62259 {
                        let ar = crate::rng::rand_range(32768, 65537);
                        let ag = crate::rng::rand_range(32768, 65537);
                        let ab = crate::rng::rand_range(32768, 65537);
                        let fuzz = crate::rng::rand_range(0, 32769);
                        let mat = Arc::new(Material::metal(Vec3::with_values(ar, ag, ab),
                            fuzz));
                        world.add(Object::sphere(center, 13107, &mat));
                    } else {
                        let mat = Arc::new(Material::dielectric(98304));
                        world.add(Object::sphere(center, 13107, &mat));
                    }
                }
                b = b + 1;
            }
            a = a + 1;
        }
        let glass = Arc::new(Material::dielectric(98304));
        world.add(Object::sphere(Vec3::with_values(0, fx(1), 0), fx(1), &glass));
        let clay = Arc::new(Material::lambertian_color(Vec3::with_values(26214, 13107,
            6554)));
        world.add(Object::sphere(Vec3::with_values(fx(-4), fx(1), 0), fx(1), &clay));
        let steel = Arc::new(Material::metal(Vec3::with_values(45875, 39322, 32768), 0));
        world.add(Object::sphere(Vec3::with_values(fx(4), fx(1), 0), fx(1), &steel));
        world
    }
}

/// The componentwise product of two colors within one unit stays within
/// one unit.
proof fn lemma_unit_product_bound(a: V3, b: V3)
    requires
        bounded(a, SCALE as int),
        bounded(b, SCALE as int),
    ensures
        bounded(crate::vec3::vmul(a, b), SCALE as int),
{
    assert(-(SCALE as int * SCALE) <= a.x * b.x && a.x * b.x <= SCALE as int * SCALE && -(
    SCALE as int * SCALE) <= a.y * b.y && a.y * b.y <= SCALE as int * SCALE && -(
    SCALE as int * SCALE) <= a.z * b.z && a.z * b.z <= SCALE as int * SCALE)
        by (nonlinear_arith)
        requires bounded(a, SCALE as int) && bounded(b, SCALE as int);
    lemma_fdiv_bounded(a.x * b.x, SCALE as int, SCALE as int);
    lemma_fdiv_bounded(a.y * b.y, SCALE as int, SCALE as int);
    lemma_fdiv_bounded(a.z * b.z, SCALE as int, SCALE as int);
}

} // verus!
