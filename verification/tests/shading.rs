//! Tests for materials, the radiance estimator, colors, textures and
//! the camera loops.

use raytracer::vec3::Vec3;
use raytracer::ray::Ray;
use raytracer::sphere::Sphere;
use raytracer::hittable::Hittable;
use raytracer::material::Material;
use raytracer::texture::{Texture, ImageTexture};
use raytracer::image::Image;
use raytracer::color::{mul_color, add_color, channel_byte, color_to_bytes, linear_to_gamma};
use raytracer::camera::{ray_color, background, Camera};
use raytracer::math::FP;

fn v(x: i64, y: i64, z: i64) -> Vec3 {
    Vec3 { x, y, z }
}

fn one_sphere_world() -> (Hittable, Vec<Material>) {
    let world = Hittable::Sphere(Sphere::new(v(0, 0, -10), 2, 0));
    let mats = vec![Material::lambertian(v(FP / 2, FP / 2, FP / 2))];
    (world, mats)
}

#[test]
fn ray_color_depth_zero_is_black() {
    let (world, mats) = one_sphere_world();
    let r = Ray { orig: v(0, 0, 0), dir: v(0, 0, -1) };
    let c = ray_color(&r, &world, &mats, 0);
    assert_eq!(c, v(0, 0, 0));
}

#[test]
fn ray_color_miss_is_sky_gradient() {
    let (world, mats) = one_sphere_world();
    // Straight down the negative y axis: the unit direction has
    // y = -FP, so the blend parameter is zero and the sky is white.
    let r = Ray { orig: v(0, 0, 0), dir: v(0, -FP, 0) };
    let c = ray_color(&r, &world, &mats, 4);
    assert_eq!(c, v(FP, FP, FP));
    // Straight up: the blend parameter is one and the sky is the tint.
    let up = Ray { orig: v(0, 0, 0), dir: v(0, FP, 0) };
    let cu = ray_color(&up, &world, &mats, 4);
    assert_eq!(cu, v(32768, 45875, 65536));
    // A horizontal ray sits halfway between white and the tint.
    let side = Ray { orig: v(0, 0, 0), dir: v(FP, 0, 0) };
    let cs = ray_color(&side, &world, &mats, 4);
    assert_eq!(cs, background(&v(FP, 0, 0)));
    assert_eq!(cs, v(49152, 55705, 65536));
}

#[test]
fn absorptive_attenuation_kills_contribution() {
    let blackc = v(0, 0, 0);
    for c in [v(FP, FP, FP), v(123, 60000, 7), v(0, 0, 0)] {
        assert_eq!(mul_color(&blackc, &c), blackc);
    }
}

#[test]
fn lambertian_scatter_attenuation_in_unit_range() {
    let m = Material::lambertian(v(FP / 3, FP / 5, FP));
    let rec = raytracer::hittable::HitRecord {
        p: v(0, 0, -8),
        normal: v(0, 0, FP),
        mat: 0,
        t: 8 * FP,
        u: FP / 2,
        v: FP / 2,
        front_face: true,
    };
    let r = Ray { orig: v(0, 0, 0), dir: v(0, 0, -1) };
    for _ in 0..16 {
        let (att, scattered) = m.scatter(&r, &rec).expect("diffuse always scatters");
        assert!(0 <= att.x && att.x <= FP);
        assert!(0 <= att.y && att.y <= FP);
        assert!(0 <= att.z && att.z <= FP);
        assert_eq!(scattered.orig, rec.p);
        assert!(scattered.dir != v(0, 0, 0));
    }
}

#[test]
fn metal_attenuation_is_albedo() {
    let m = Material::metal(v(FP, FP / 2, FP / 4), FP / 10);
    let rec = raytracer::hittable::HitRecord {
        p: v(0, 0, -8),
        normal: v(0, 0, FP),
        mat: 0,
        t: 8 * FP,
        u: 0,
        v: 0,
        front_face: true,
    };
    let r = Ray { orig: v(0, 0, 0), dir: v(0, 0, -FP) };
    for _ in 0..16 {
        if let Some((att, scattered)) = m.scatter(&r, &rec) {
            assert_eq!(att, v(FP, FP / 2, FP / 4));
            assert_eq!(scattered.orig, rec.p);
        }
    }
}

#[test]
fn diffuse_light_emits_and_never_scatters() {
    let m = Material::diffuse_light(v(10 * FP, 10 * FP, 10 * FP));
    let rec = raytracer::hittable::HitRecord {
        p: v(0, 0, -8),
        normal: v(0, 0, FP),
        mat: 0,
        t: 8 * FP,
        u: 0,
        v: 0,
        front_face: true,
    };
    let r = Ray { orig: v(0, 0, 0), dir: v(0, 0, -1) };
    assert!(m.scatter(&r, &rec).is_none());
    assert_eq!(m.emitted(0, 0, &rec.p), v(10 * FP, 10 * FP, 10 * FP));
    let plain = Material::lambertian(v(FP, FP, FP));
    assert_eq!(plain.emitted(0, 0, &rec.p), v(0, 0, 0));
}

#[test]
fn gamma_and_byte_conversion() {
    // Full intensity maps to the brightest byte.
    assert_eq!(channel_byte(FP), 255);
    // Black stays black.
    assert_eq!(channel_byte(0), 0);
    // A quarter intensity has root one half.
    assert_eq!(linear_to_gamma(FP / 4), FP / 2);
    let bytes = color_to_bytes(&v(FP, 0, FP / 4));
    assert_eq!(bytes.0, 255);
    assert_eq!(bytes.1, 0);
    assert_eq!(bytes.2, 128);
}

#[test]
fn add_color_is_componentwise() {
    assert_eq!(add_color(&v(1, 2, 3), &v(10, 20, 30)), v(11, 22, 33));
}

#[test]
fn solid_and_checker_textures() {
    let solid = Texture::solid(v(100, 200, 300));
    assert_eq!(solid.value(0, 0, &v(5, 5, 5)), v(100, 200, 300));
    let checker = Texture::Checker {
        scale: 10,
        even: Box::new(Texture::solid(v(FP, FP, FP))),
        odd: Box::new(Texture::solid(v(0, 0, 0))),
    };
    // (0, 0, 0) has quotient sum zero: even.
    assert_eq!(checker.value(0, 0, &v(0, 0, 0)), v(FP, FP, FP));
    // One cell over on one axis: odd.
    assert_eq!(checker.value(0, 0, &v(10, 0, 0)), v(0, 0, 0));
    // Two cells over: even again.
    assert_eq!(checker.value(0, 0, &v(20, 0, 0)), v(FP, FP, FP));
}

#[test]
fn image_texture_reads_pixels() {
    // A 2 x 1 image: a red pixel and a green pixel.
    let img = Image::from_raw(2, 1, vec![255, 0, 0, 0, 255, 0]);
    assert_eq!(img.width(), 2);
    assert_eq!(img.height(), 1);
    assert_eq!(img.pixel_data(0, 0), (255, 0, 0));
    assert_eq!(img.pixel_data(1, 0), (0, 255, 0));
    // Out-of-range lookups clamp.
    assert_eq!(img.pixel_data(9, 9), (0, 255, 0));
    let tex = Texture::ImageTex { tex: ImageTexture::new(img) };
    // u = 0 lands in the left pixel: full red.
    assert_eq!(tex.value(0, 0, &v(0, 0, 0)), v(FP, 0, 0));
    // u = 1 lands in the right pixel: full green.
    assert_eq!(tex.value(FP, 0, &v(0, 0, 0)), v(0, FP, 0));
}

#[test]
fn empty_image_is_magenta() {
    let img = Image::new();
    assert_eq!(img.pixel_data(3, 4), (255, 0, 255));
}

#[test]
fn camera_renders_expected_buffer_size() {
    let cam = Camera::new(
        4, 3, FP, v(0, 0, 0), v(0, 0, -10), v(0, FP, 0), 0, 10, 2, 3,
    );
    assert_eq!(cam.image_width, 4);
    assert_eq!(cam.image_height, 3);
    let (world, mats) = one_sphere_world();
    let row = cam.render_row(&world, &mats, 0);
    assert_eq!(row.len(), 12);
    let buf = cam.render(&world, &mats);
    assert_eq!(buf.len(), 36);
}

#[test]
fn mesh_fan_triangulation() {
    let vertices = vec![v(0, 0, -5), v(4, 0, -5), v(4, 4, -5), v(0, 4, -5)];
    let faces = vec![vec![0usize, 1, 2, 3]];
    let tris = raytracer::mesh::triangles_from_mesh(&vertices, &faces, 2);
    assert_eq!(tris.len(), 2);
    let mut list = raytracer::list::HittableList::new();
    for t in tris {
        assert_eq!(t.mat, 2);
        list.add(Hittable::Triangle(t));
    }
    let r = Ray { orig: v(2, 1, 0), dir: v(0, 0, -1) };
    let rec = list
        .hit(&r, &raytracer::interval::Interval { min: 66, max: raytracer::math::T_LIMIT })
        .expect("the quad split into triangles must be hit");
    assert_eq!(rec.t, 5 * FP);
}

#[test]
fn sphere_surface_coordinates_match_the_azimuth_anchors() {
    // Outward +x: the azimuth is half a turn, the latitude one half.
    let s = Sphere::new(v(-5, 0, 0), 2, 0);
    let r = Ray { orig: v(0, 0, 0), dir: v(-1, 0, 0) };
    let w = raytracer::interval::Interval { min: 66, max: raytracer::math::T_LIMIT };
    let rec = s.hit(&r, &w).expect("axis sphere must be hit");
    assert_eq!(rec.normal, v(FP, 0, 0));
    assert_eq!(rec.u, FP / 2);
    assert_eq!(rec.v, FP / 2);
    // Outward +z: a quarter turn.
    let sz = Sphere::new(v(0, 0, -5), 2, 0);
    let rz = Ray { orig: v(0, 0, 0), dir: v(0, 0, -1) };
    let recz = sz.hit(&rz, &w).expect("axis sphere must be hit");
    assert_eq!(recz.normal, v(0, 0, FP));
    assert_eq!(recz.u, FP / 4);
    // Outward -z: three quarters of a turn.
    let rb = Ray { orig: v(0, 0, -10), dir: v(0, 0, 1) };
    let recb = sz.hit(&rb, &w).expect("axis sphere must be hit from behind");
    assert_eq!(recb.normal, v(0, 0, -FP));
    assert_eq!(recb.u, 3 * FP / 4);
    // The poles: the latitude spans zero to one.
    let sy = Sphere::new(v(0, -5, 0), 2, 0);
    let ry = Ray { orig: v(0, 0, 0), dir: v(0, -1, 0) };
    let recy = sy.hit(&ry, &w).expect("axis sphere must be hit");
    assert_eq!(recy.normal, v(0, FP, 0));
    assert_eq!(recy.v, FP);
}

#[test]
fn metal_without_fuzz_is_deterministic() {
    let m = Material::metal(v(FP, FP, FP), 0);
    let rec = raytracer::hittable::HitRecord {
        p: v(0, 0, -8),
        normal: v(0, 0, FP),
        mat: 0,
        t: 8 * FP,
        u: 0,
        v: 0,
        front_face: true,
    };
    // A ray straight into the surface reflects straight back.
    let r = Ray { orig: v(0, 0, 0), dir: v(0, 0, -FP) };
    let first = m.scatter(&r, &rec).expect("head-on metal reflection scatters");
    for _ in 0..8 {
        let again = m.scatter(&r, &rec).expect("head-on metal reflection scatters");
        assert_eq!(again.1.dir, first.1.dir);
    }
    assert_eq!(first.1.dir, v(0, 0, FP));
    // A grazing ray that reflects into the surface is absorbed.
    let grazing = Ray { orig: v(0, 0, 0), dir: v(0, 0, FP) };
    assert!(m.scatter(&grazing, &rec).is_none());
}

#[test]
fn unit_sampler_length_envelope() {
    for _ in 0..64 {
        let u = raytracer::rng::random_unit_vector();
        let ls = u.x * u.x + u.y * u.y + u.z * u.z;
        assert!((FP - 4) * (FP - 4) <= ls && ls <= (FP + 4) * (FP + 4));
        let d = raytracer::rng::random_in_unit_disk();
        assert!(d.x * d.x + d.y * d.y <= FP * FP);
        assert_eq!(d.z, 0);
    }
}
