//! The camera and the recursive radiance estimator: primary rays from
//! pixel coordinates with jitter and defocus, the sky gradient on a
//! miss, and the sampling loops that fill a pixel buffer.

use vstd::prelude::*;
use crate::vec3::{Vec3, Point3, Color, in_range};
use crate::ray::{Ray, ray_wf};
use crate::math::{FP, MAX_COORD, MIN_RAY_BOUND, T_LIMIT};
use crate::hittable::{Hittable, HitRecord, hit_spec, hittable_wf, ray_bound};
use crate::material::{Material, material_wf, unit_or_axis, spec_unit_or_axis, spec_emitted,
    spec_attenuation};
use crate::texture::EMIT_LIMIT;
use crate::color::{black, color_in_range, mul_color, add_color, color_to_bytes,
    spec_mul_color, spec_add_color};
use crate::rng::{random_range_fp, random_in_unit_disk};

verus! {

/// Hits closer than this fixed-point distance are ignored, so scattered
/// rays do not immediately re-hit their own surface.
pub const T_EPS: i64 = 66;

/// Every material handle reachable from `h` is below `n`.
pub open spec fn mats_in_range(h: Hittable, n: int) -> bool
    decreases h,
{
    match h {
        Hittable::Sphere(s) => (s.mat as int) < n,
        Hittable::Quad(q) => (q.mat as int) < n,
        Hittable::Triangle(t) => (t.mat as int) < n,
        Hittable::Translate { object, .. } => mats_in_range(*object, n),
        Hittable::RotateY { object, .. } => mats_in_range(*object, n),
        Hittable::Node { left, right, .. } => mats_in_range(*left, n) && mats_in_range(*right,
            n),
    }
}

/// A reported hit's material handle is reachable from the scene, so it
/// stays below the arena's length.
pub proof fn lemma_hit_mat_in_range(h: Hittable, r: Ray, tmin: int, tmax: int, n: int)
    requires
        mats_in_range(h, n),
        hit_spec(h, r, tmin, tmax) is Some,
    ensures
        (hit_spec(h, r, tmin, tmax)->0.mat as int) < n,
    decreases h,
{
    match h {
        Hittable::Translate { object, offset, .. } => {
            let shifted = Ray { orig: crate::vec3::spec_sub(r.orig, offset), dir: r.dir };
            lemma_hit_mat_in_range(*object, shifted, tmin, tmax, n);
        },
        Hittable::RotateY { object, rot, .. } => {
            let o2 = crate::hittable::spec_rot_inv(rot, r.orig);
            let d2 = crate::hittable::spec_rot_inv(rot, r.dir);
            if !(d2.x == 0 && d2.y == 0 && d2.z == 0) {
                lemma_hit_mat_in_range(*object, Ray { orig: o2, dir: d2 }, tmin, tmax, n);
            }
        },
        Hittable::Node { left, right, .. } => {
            match hit_spec(*left, r, tmin, tmax) {
                Some(lr) => {
                    match hit_spec(*right, r, tmin, lr.t as int) {
                        Some(_) => {
                            lemma_hit_mat_in_range(*right, r, tmin, lr.t as int, n);
                        },
                        None => {
                            lemma_hit_mat_in_range(*left, r, tmin, tmax, n);
                        },
                    }
                },
                None => {
                    lemma_hit_mat_in_range(*right, r, tmin, tmax, n);
                },
            }
        },
        _ => {},
    }
}

/// The sky gradient: a blend from white at the horizon to blue above,
/// by the `y` component of the normalized ray direction.
pub open spec fn spec_background(dir: Vec3) -> Color {
    let u = spec_unit_or_axis(dir);
    let raw = (u.y + FP) / 2;
    let a = if raw < 0 {
        0
    } else if raw > FP {
        FP as int
    } else {
        raw
    };
    Color {
        x: (((FP - a) * (FP as int)) / (FP as int) + (a * 32768) / (FP as int)) as i64,
        y: (((FP - a) * (FP as int)) / (FP as int) + (a * 45875) / (FP as int)) as i64,
        z: (((FP - a) * (FP as int)) / (FP as int) + (a * 65536) / (FP as int)) as i64,
    }
}

/// The executable sky gradient.
pub fn background(dir: &Vec3) -> (c: Color)
    requires
        in_range(*dir, MIN_RAY_BOUND as int),
    ensures
        c == spec_background(*dir),
        color_in_range(c, 2 * FP as int),
{
    let u = unit_or_axis(dir);
    let raw = crate::math::div_floor((u.y as i128) + 65536, 2) as i64;
    let a = if raw < 0 {
        0
    } else if raw > FP {
        FP
    } else {
        raw
    };
    let x = blend(a, 32768);
    let y = blend(a, 45875);
    let z = blend(a, 65536);
    Color { x, y, z }
}

/// `(FP - a) * FP / FP + a * tint / FP` for `a` in `[0, FP]`.
fn blend(a: i64, tint: i64) -> (c: i64)
    requires
        0 <= a <= FP,
        0 <= tint <= FP,
    ensures
        c == ((FP - a) * (FP as int)) / (FP as int) + (a * tint) / (FP as int),
        0 <= c <= 2 * FP,
{
    proof {
        crate::vec3::lemma_mul_bound2((FP - a) as int, FP as int, FP as int, FP as int);
        crate::vec3::lemma_mul_bound2(a as int, tint as int, FP as int, FP as int);
        crate::math::lemma_div_bounds((FP - a) as int * (FP as int), FP as int);
        crate::math::lemma_div_bounds(a as int * tint, FP as int);
        assert(0 <= ((FP - a) as int * (FP as int)) / (FP as int) <= FP as int)
            by (nonlinear_arith)
            requires
                FP == 65536,
                0 <= (FP - a) as int * (FP as int) <= 65536int * 65536,
                (FP as int) * (((FP - a) as int * (FP as int)) / (FP as int)) <= (FP - a) as int
                    * (FP as int) < (FP as int) * (((FP - a) as int * (FP as int)) / (FP as int)
                    + 1);
        assert(0 <= (a as int * tint) / (FP as int) <= FP as int) by (nonlinear_arith)
            requires
                FP == 65536,
                0 <= a as int * tint <= 65536int * 65536,
                (FP as int) * ((a as int * tint) / (FP as int)) <= a as int * tint
                    < (FP as int) * ((a as int * tint) / (FP as int) + 1);
        assert(0 <= (FP - a) as int * (FP as int)) by (nonlinear_arith)
            requires 0 <= FP - a && FP == 65536;
        assert(0 <= a as int * tint) by (nonlinear_arith)
            requires 0 <= a && 0 <= tint;
    }
    let left = crate::math::div_floor(((FP - a) as i128) * 65536, 65536) as i64;
    let right = crate::math::div_floor((a as i128) * (tint as i128), 65536) as i64;
    left + right
}

/// The recursive radiance estimator. With no bounce budget left it
/// returns black. On a miss it returns the sky gradient. On a hit it
/// adds the material's emission to the attenuated radiance of the
/// scattered ray, one bounce deeper. On a hit the result is the
/// material's emission, either alone (no scatter, or a bounce whose
/// origin left the scene grid) or plus the material's attenuation
/// applied to the radiance of some deeper bounce.
pub fn ray_color(r: &Ray, world: &Hittable, mats: &Vec<Material>, depth: u32) -> (c: Color)
    requires
        hittable_wf(*world),
        mats_in_range(*world, mats@.len() as int),
        forall|i: int| 0 <= i < mats@.len() ==> material_wf(#[trigger] mats@[i]),
        ray_wf(*r, MIN_RAY_BOUND as int),
        ray_bound(*world) >= MIN_RAY_BOUND,
        depth <= 1024,
    ensures
        depth == 0 ==> c == black(),
        depth > 0 && hit_spec(*world, *r, T_EPS as int, T_LIMIT as int) is None
            ==> c == spec_background(r.dir),
        depth > 0 && hit_spec(*world, *r, T_EPS as int, T_LIMIT as int) is Some ==> ({
            let rec = hit_spec(*world, *r, T_EPS as int, T_LIMIT as int)->0;
            let m = mats@[rec.mat as int];
            ||| c == spec_emitted(m, rec.u, rec.v, rec.p)
            ||| exists|deeper: Color|
                #[trigger] color_in_range(deeper, (depth - 1) as int * (EMIT_LIMIT as int)
                    + 2 * FP as int) && c == spec_add_color(spec_emitted(m, rec.u, rec.v,
                    rec.p), spec_mul_color(spec_attenuation(m, rec), deeper))
        }),
        depth > 0 && hit_spec(*world, *r, T_EPS as int, T_LIMIT as int) is Some
            && mats@[hit_spec(*world, *r, T_EPS as int, T_LIMIT as int)->0.mat as int]
                is DiffuseLight ==> ({
            let rec = hit_spec(*world, *r, T_EPS as int, T_LIMIT as int)->0;
            c == spec_emitted(mats@[rec.mat as int], rec.u, rec.v, rec.p)
        }),
        color_in_range(c, (depth as int) * (EMIT_LIMIT as int) + 2 * FP as int),
    decreases depth,
{
    if depth == 0 {
        return Color { x: 0, y: 0, z: 0 };
    }
    let window = crate::interval::Interval { min: T_EPS, max: T_LIMIT };
    match world.hit(r, &window) {
        None => background(&r.dir),
        Some(rec) => {
            proof {
                lemma_hit_mat_in_range(*world, *r, T_EPS as int, T_LIMIT as int,
                    mats@.len() as int);
            }
            let mat = &mats[rec.mat];
            let emitted = mat.emitted(rec.u, rec.v, &rec.p);
            match mat.scatter(r, &rec) {
                None => emitted,
                Some((attenuation, scattered)) => {
                    if scattered.orig.x <= MAX_COORD && scattered.orig.x >= -MAX_COORD
                        && scattered.orig.y <= MAX_COORD && scattered.orig.y >= -MAX_COORD
                        && scattered.orig.z <= MAX_COORD && scattered.orig.z >= -MAX_COORD {
                        let deeper = ray_color(&scattered, world, mats, depth - 1);
                        let bounced = mul_color(&attenuation, &deeper);
                        proof {
                            assert((depth - 1) as int * (EMIT_LIMIT as int) + 2 * (FP as int)
                                <= 0x8_0000_0000_0000) by (nonlinear_arith)
                                requires depth <= 1024 && EMIT_LIMIT == 0x4000_0000
                                    && FP == 65536;
                        }
                        let out = add_color(&emitted, &bounced);
                        proof {
                            let recg = hit_spec(*world, *r, T_EPS as int, T_LIMIT as int)->0;
                            let m = mats@[recg.mat as int];
                            assert(color_in_range(deeper, (depth - 1) as int * (EMIT_LIMIT
                                as int) + 2 * FP as int) && out == spec_add_color(spec_emitted(
                                m, recg.u, recg.v, recg.p), spec_mul_color(spec_attenuation(m,
                                recg), deeper)));
                        }
                        out
                    } else {
                        emitted
                    }
                },
            }
        },
    }
}

/// The camera: image geometry, sampling counts, and the precomputed
/// viewport basis, all on the fixed-point grid.
pub struct Camera {
    pub image_width: u32,
    pub image_height: u32,
    pub center: Point3,
    pub pixel00_loc: Point3,
    pub pixel_delta_u: Vec3,
    pub pixel_delta_v: Vec3,
    pub samples_per_pixel: u32,
    pub depth: u32,
    pub defocus_u: Vec3,
    pub defocus_v: Vec3,
    pub defocus_angle: i64,
}

pub open spec fn camera_wf(cam: Camera) -> bool {
    &&& 0 < cam.image_width <= 4096
    &&& 0 < cam.image_height <= 4096
    &&& 1 <= cam.samples_per_pixel <= 4096
    &&& cam.depth <= 1024
    &&& in_range(cam.center, MAX_COORD as int)
    &&& in_range(cam.pixel00_loc, MAX_COORD as int)
    &&& in_range(cam.pixel_delta_u, FP as int)
    &&& in_range(cam.pixel_delta_v, FP as int)
    &&& in_range(cam.defocus_u, FP as int)
    &&& in_range(cam.defocus_v, FP as int)
}

/// `v` forced into `[-bound, bound]` per coordinate.
pub open spec fn spec_clamp_to(v: Vec3, bound: i64) -> Vec3 {
    Vec3 {
        x: if v.x > bound { bound } else if v.x < -bound { (-bound) as i64 } else { v.x },
        y: if v.y > bound { bound } else if v.y < -bound { (-bound) as i64 } else { v.y },
        z: if v.z > bound { bound } else if v.z < -bound { (-bound) as i64 } else { v.z },
    }
}

fn clamp_vec(v: &Vec3, bound: i64) -> (w: Vec3)
    requires
        0 < bound,
    ensures
        w == spec_clamp_to(*v, bound),
        in_range(w, bound as int),
{
    Vec3 {
        x: if v.x > bound { bound } else if v.x < -bound { -bound } else { v.x },
        y: if v.y > bound { bound } else if v.y < -bound { -bound } else { v.y },
        z: if v.z > bound { bound } else if v.z < -bound { -bound } else { v.z },
    }
}

/// As [`clamp_vec`], promising the range alone; the viewport basis only
/// needs bounds.
fn clamp_vec_range(v: &Vec3, bound: i64) -> (w: Vec3)
    requires
        0 < bound,
    ensures
        in_range(w, bound as int),
{
    Vec3 {
        x: if v.x > bound { bound } else if v.x < -bound { -bound } else { v.x },
        y: if v.y > bound { bound } else if v.y < -bound { -bound } else { v.y },
        z: if v.z > bound { bound } else if v.z < -bound { -bound } else { v.z },
    }
}

/// `(a * b) / FP` on vectors-by-scalar, in wide arithmetic.
fn scale_fp(v: &Vec3, s: i64) -> (w: Vec3)
    requires
        in_range(*v, 0x8_0000_0000),
        -0x8_0000_0000 <= s <= 0x8_0000_0000,
    ensures
        in_range(w, 0x40_0000_0000_0000),
{
    proof {
        crate::vec3::lemma_mul_bound(v.x as int, s as int, 0x8_0000_0000);
        crate::vec3::lemma_mul_bound(v.y as int, s as int, 0x8_0000_0000);
        crate::vec3::lemma_mul_bound(v.z as int, s as int, 0x8_0000_0000);
        crate::math::lemma_div_bounds(v.x as int * s, 65536);
        crate::math::lemma_div_bounds(v.y as int * s, 65536);
        crate::math::lemma_div_bounds(v.z as int * s, 65536);
    }
    let x = crate::math::div_floor((v.x as i128) * (s as i128), 65536);
    let y = crate::math::div_floor((v.y as i128) * (s as i128), 65536);
    let z = crate::math::div_floor((v.z as i128) * (s as i128), 65536);
    proof {
        lemma_fp_div_keeps(v.x as int * s);
        lemma_fp_div_keeps(v.y as int * s);
        lemma_fp_div_keeps(v.z as int * s);
    }
    Vec3 { x: x as i64, y: y as i64, z: z as i64 }
}

proof fn lemma_fp_div_keeps(n: int)
    requires
        -0x40_0000_0000_0000_0000 <= n <= 0x40_0000_0000_0000_0000,
    ensures
        -0x40_0000_0000_0000 <= n / 65536 <= 0x40_0000_0000_0000,
{
    crate::math::lemma_div_bounds(n, 65536);
    assert(-0x40_0000_0000_0000 <= n / 65536 <= 0x40_0000_0000_0000) by (nonlinear_arith)
        requires
            65536 * (n / 65536) <= n < 65536 * (n / 65536 + 1),
            -0x40_0000_0000_0000_0000 <= n <= 0x40_0000_0000_0000_0000;
}

impl Camera {
    /// A camera from the viewing parameters: look points on the integer
    /// grid, the vertical field of view and the defocus angle given by
    /// their fixed-point half-angle tangents, and the focus distance in
    /// scene units. The viewport basis is computed with exact
    /// fixed-point arithmetic and clamped into the camera's bounds.
    #[verifier::rlimit(100)]
    pub fn new(image_width: u32, image_height: u32, vfov_tan_half: i64, lookfrom: Point3,
        lookat: Point3, vup: Vec3, defocus_tan_half: i64, focus_dist: i64,
        samples_per_pixel: u32, depth: u32) -> (cam: Camera)
        requires
            0 < image_width <= 4096,
            0 < image_height <= 4096,
            1 <= samples_per_pixel <= 4096,
            depth <= 1024,
            in_range(lookfrom, MAX_COORD as int),
            in_range(lookat, MAX_COORD as int),
            in_range(vup, 2 * FP as int),
            0 <= vfov_tan_half <= 16 * FP,
            0 <= defocus_tan_half <= FP,
            0 < focus_dist <= MAX_COORD,
        ensures
            camera_wf(cam),
            cam.image_width == image_width,
            cam.image_height == image_height,
            cam.samples_per_pixel == samples_per_pixel,
            cam.depth == depth,
            cam.center == lookfrom,
    {
        let dir = lookfrom.sub(&lookat);
        let w = unit_or_axis(&dir);
        let up_cross_w = vup.cross(&w);
        let u = unit_or_axis(&clamp_vec_range(&up_cross_w, MIN_RAY_BOUND));
        let w_cross_u = w.cross(&u);
        proof {
            crate::vec3::lemma_cross_range(w, u, FP as int + 1);
            assert(2 * ((FP as int + 1) * (FP as int + 1)) <= 0x8_0000_0000)
                by (nonlinear_arith)
                requires FP == 65536;
        }
        let v = clamp_vec_range(&scale_fp(&w_cross_u, FP), 2 * FP);
        // Viewport extents in scene units, fixed point scaled by FP.
        proof {
            crate::vec3::lemma_mul_bound2(2 * (vfov_tan_half as int), focus_dist as int,
                0x40_0000, 0x1_0000);
        }
        let vh_raw = crate::math::div_floor(
            2 * (vfov_tan_half as i128) * (focus_dist as i128), 65536);
        let viewport_height = if vh_raw > 4 * MAX_COORD as i128 {
            4 * MAX_COORD
        } else {
            vh_raw as i64
        };
        let vh = viewport_height;
        proof {
            crate::vec3::lemma_mul_bound2(vh as int, image_width as int, 0x4_0000, 0x1000);
        }
        let vw128 = crate::math::div_floor((vh as i128) * (image_width as i128),
            image_height as i128);
        let vw = if vw128 > 4 * MAX_COORD as i128 {
            4 * MAX_COORD
        } else if vw128 < 0 {
            0
        } else {
            vw128 as i64
        };
        let viewport_u = clamp_vec_range(&scale_fp(&u, vw), 4 * MAX_COORD);
        let viewport_v = clamp_vec_range(&scale_fp(&v.neg(), vh), 4 * MAX_COORD);
        let delta_u = clamp_vec_range(&Vec3 {
            x: viewport_u.x / (image_width as i64),
            y: viewport_u.y / (image_width as i64),
            z: viewport_u.z / (image_width as i64),
        }, FP);
        let delta_v = clamp_vec_range(&Vec3 {
            x: viewport_v.x / (image_height as i64),
            y: viewport_v.y / (image_height as i64),
            z: viewport_v.z / (image_height as i64),
        }, FP);
        let focus_w = clamp_vec_range(&scale_fp(&w, focus_dist), 2 * MAX_COORD);
        let upper_left = Vec3 {
            x: lookfrom.x - focus_w.x - viewport_u.x / 2 - viewport_v.x / 2,
            y: lookfrom.y - focus_w.y - viewport_u.y / 2 - viewport_v.y / 2,
            z: lookfrom.z - focus_w.z - viewport_u.z / 2 - viewport_v.z / 2,
        };
        let pixel00_loc = clamp_vec_range(&Vec3 {
            x: upper_left.x + (delta_u.x + delta_v.x) / 2,
            y: upper_left.y + (delta_u.y + delta_v.y) / 2,
            z: upper_left.z + (delta_u.z + delta_v.z) / 2,
        }, MAX_COORD);
        proof {
            crate::vec3::lemma_mul_bound2(focus_dist as int, defocus_tan_half as int,
                0x1_0000, 0x1_0000);
        }
        let defocus_radius = crate::math::div_floor(
            (focus_dist as i128) * (defocus_tan_half as i128), 65536);
        let dr = if defocus_radius > FP as i128 {
            FP
        } else if defocus_radius < 0 {
            0
        } else {
            defocus_radius as i64
        };
        let defocus_u = clamp_vec_range(&scale_fp(&u, dr), FP);
        let defocus_v = clamp_vec_range(&scale_fp(&v, dr), FP);
        Camera {
            image_width,
            image_height,
            center: lookfrom,
            pixel00_loc,
            pixel_delta_u: delta_u,
            pixel_delta_v: delta_v,
            samples_per_pixel,
            depth,
            defocus_u,
            defocus_v,
            defocus_angle: defocus_tan_half,
        }
    }

    /// A primary ray through pixel `(i, j)`, jittered inside the pixel,
    /// from the center or a point of the defocus disk. The direction is
    /// the jittered pixel sample minus the origin for some jitter pair
    /// inside the pixel, clamped into the scene's ray bound, with a
    /// fixed axis substituted for a degenerate zero direction.
    pub fn get_ray(&self, i: u32, j: u32) -> (r: Ray)
        requires
            camera_wf(*self),
            i < self.image_width,
            j < self.image_height,
        ensures
            ray_wf(r, MIN_RAY_BOUND as int),
            self.defocus_angle <= 0 ==> r.orig == self.center,
            exists|ox: i64, oy: i64| -FP / 2 <= ox < FP / 2 && -FP / 2 <= oy < FP / 2
                && r.dir == #[trigger] spec_primary_dir(*self, i, j, ox, oy, r.orig),
    {
        let offx = random_range_fp(-FP / 2, FP / 2);
        let offy = random_range_fp(-FP / 2, FP / 2);
        let sx = pixel_coord(self.pixel00_loc.x, self.pixel_delta_u.x, self.pixel_delta_v.x, i,
            j, offx, offy);
        let sy = pixel_coord(self.pixel00_loc.y, self.pixel_delta_u.y, self.pixel_delta_v.y, i,
            j, offx, offy);
        let sz = pixel_coord(self.pixel00_loc.z, self.pixel_delta_u.z, self.pixel_delta_v.z, i,
            j, offx, offy);
        let origin = if self.defocus_angle <= 0 {
            self.center
        } else {
            let p = random_in_unit_disk();
            let du = scale_fp(&self.defocus_u, p.x);
            let dv = scale_fp(&self.defocus_v, p.y);
            clamp_vec(&Vec3 {
                x: self.center.x + du.x + dv.x,
                y: self.center.y + du.y + dv.y,
                z: self.center.z + du.z + dv.z,
            }, 2 * MAX_COORD)
        };
        let dir = Vec3 { x: sx - origin.x, y: sy - origin.y, z: sz - origin.z };
        let dir = clamp_vec(&dir, MIN_RAY_BOUND);
        let dir = if dir.x == 0 && dir.y == 0 && dir.z == 0 {
            Vec3 { x: 0, y: 0, z: -FP }
        } else {
            dir
        };
        let r = Ray { orig: origin, dir };
        proof {
            assert(r.dir == spec_primary_dir(*self, i, j, offx, offy, r.orig));
            assert(-FP / 2 <= offx < FP / 2 && -FP / 2 <= offy < FP / 2);
        }
        r
    }

    /// One row of the image: `3 * image_width` bytes, averaging the
    /// sampled radiance per pixel and converting each averaged color to
    /// output bytes.
    pub fn render_row(&self, world: &Hittable, mats: &Vec<Material>, j: u32) -> (row: Vec<u8>)
        requires
            camera_wf(*self),
            j < self.image_height,
            hittable_wf(*world),
            mats_in_range(*world, mats@.len() as int),
            forall|i: int| 0 <= i < mats@.len() ==> material_wf(#[trigger] mats@[i]),
            ray_bound(*world) >= MIN_RAY_BOUND,
        ensures
            row@.len() == 3 * self.image_width,
            forall|k: int| 0 <= k < self.image_width ==> #[trigger] pixel_bytes_ok(row@, k),
    {
        let mut row: Vec<u8> = Vec::new();
        let mut i: u32 = 0;
        while i < self.image_width
            invariant
                camera_wf(*self),
                j < self.image_height,
                hittable_wf(*world),
                mats_in_range(*world, mats@.len() as int),
                forall|k: int| 0 <= k < mats@.len() ==> material_wf(#[trigger] mats@[k]),
                ray_bound(*world) >= MIN_RAY_BOUND,
                i <= self.image_width,
                row@.len() == 3 * i,
                forall|k: int| 0 <= k < i ==> #[trigger] pixel_bytes_ok(row@, k),
            decreases self.image_width - i,
        {
            let mut acc = Color { x: 0, y: 0, z: 0 };
            let mut s: u32 = 0;
            while s < self.samples_per_pixel
                invariant
                    camera_wf(*self),
                    i < self.image_width,
                    j < self.image_height,
                    hittable_wf(*world),
                    mats_in_range(*world, mats@.len() as int),
                    forall|k: int| 0 <= k < mats@.len() ==> material_wf(#[trigger] mats@[k]),
                    ray_bound(*world) >= MIN_RAY_BOUND,
                    s <= self.samples_per_pixel,
                    color_in_range(acc, (s as int) * ((1024 * EMIT_LIMIT) as int + 2 * FP
                        as int)),
                decreases self.samples_per_pixel - s,
            {
                let r = self.get_ray(i, j);
                let sample = ray_color(&r, world, mats, self.depth);
                proof {
                    assert((self.depth as int) * (EMIT_LIMIT as int) <= (1024 * EMIT_LIMIT)
                        as int) by (nonlinear_arith)
                        requires self.depth <= 1024 && EMIT_LIMIT == 0x4000_0000;
                    assert((s as int) * ((1024 * EMIT_LIMIT) as int + 2 * FP as int)
                        + ((1024 * EMIT_LIMIT) as int + 2 * FP as int)
                        == (s as int + 1) * ((1024 * EMIT_LIMIT) as int + 2 * FP as int))
                        by (nonlinear_arith);
                    assert((s as int + 1) * ((1024 * EMIT_LIMIT) as int + 2 * FP as int)
                        <= 4096 * ((1024 * EMIT_LIMIT) as int + 2 * FP as int))
                        by (nonlinear_arith)
                        requires s as int + 1 <= 4096;
                }
                acc = add_color(&acc, &sample);
                s += 1;
            }
            proof {
                assert((self.samples_per_pixel as int) * ((1024 * EMIT_LIMIT) as int + 2 * FP
                    as int) <= 4096 * ((1024 * EMIT_LIMIT) as int + 2 * FP as int))
                    by (nonlinear_arith)
                    requires self.samples_per_pixel <= 4096;
            }
            let spp = self.samples_per_pixel as i64;
            let px = crate::math::div_floor(acc.x as i128, spp as i128) as i64;
            let py = crate::math::div_floor(acc.y as i128, spp as i128) as i64;
            let pz = crate::math::div_floor(acc.z as i128, spp as i128) as i64;
            proof {
                crate::math::lemma_div_bounds(acc.x as int, spp as int);
                crate::math::lemma_div_bounds(acc.y as int, spp as int);
                crate::math::lemma_div_bounds(acc.z as int, spp as int);
            }
            let bytes = color_to_bytes(&Color { x: px, y: py, z: pz });
            let ghost row_pre = row@;
            row.push(bytes.0);
            row.push(bytes.1);
            row.push(bytes.2);
            proof {
                let pc = Color { x: px, y: py, z: pz };
                assert(row@[3 * (i as int)] == crate::color::spec_channel_byte(pc.x)
                    && row@[3 * (i as int) + 1] == crate::color::spec_channel_byte(pc.y)
                    && row@[3 * (i as int) + 2] == crate::color::spec_channel_byte(pc.z));
                assert(pixel_bytes_ok(row@, i as int));
                assert forall|k: int| 0 <= k < i + 1 implies #[trigger] pixel_bytes_ok(row@,
                    k) by {
                    if k < i {
                        assert(pixel_bytes_ok(row_pre, k));
                        let pc0 = choose|pc0: Color|
                            row_pre[3 * k] == #[trigger] crate::color::spec_channel_byte(pc0.x)
                                && row_pre[3 * k + 1] == crate::color::spec_channel_byte(pc0.y)
                                && row_pre[3 * k + 2] == crate::color::spec_channel_byte(
                                pc0.z);
                        assert(row@[3 * k] == row_pre[3 * k]);
                        assert(row@[3 * k + 1] == row_pre[3 * k + 1]);
                        assert(row@[3 * k + 2] == row_pre[3 * k + 2]);
                        assert(row@[3 * k] == crate::color::spec_channel_byte(pc0.x));
                    }
                }
            }
            i += 1;
        }
        row
    }

    /// The full image, row-major: `3 * width * height` bytes.
    pub fn render(&self, world: &Hittable, mats: &Vec<Material>) -> (buf: Vec<u8>)
        requires
            camera_wf(*self),
            hittable_wf(*world),
            mats_in_range(*world, mats@.len() as int),
            forall|i: int| 0 <= i < mats@.len() ==> material_wf(#[trigger] mats@[i]),
            ray_bound(*world) >= MIN_RAY_BOUND,
        ensures
            buf@.len() == 3 * self.image_width * self.image_height,
    {
        let mut buf: Vec<u8> = Vec::new();
        let mut j: u32 = 0;
        while j < self.image_height
            invariant
                camera_wf(*self),
                hittable_wf(*world),
                mats_in_range(*world, mats@.len() as int),
                forall|i: int| 0 <= i < mats@.len() ==> material_wf(#[trigger] mats@[i]),
                ray_bound(*world) >= MIN_RAY_BOUND,
                j <= self.image_height,
                buf@.len() == 3 * self.image_width * j,
            decreases self.image_height - j,
        {
            let mut row = self.render_row(world, mats, j);
            buf.append(&mut row);
            proof {
                assert(3 * (self.image_width as int) * (j as int) + 3 * (self.image_width
                    as int) == 3 * (self.image_width as int) * (j as int + 1))
                    by (nonlinear_arith);
            }
            j += 1;
        }
        buf
    }
}

/// One coordinate of the jittered pixel sample:
/// `pixel00 + ((i * FP + offx) * du + (j * FP + offy) * dv) / FP`.
/// The three bytes of pixel `k` of a row are the byte conversion of
/// one pixel color, channel by channel.
pub open spec fn pixel_bytes_ok(row: Seq<u8>, k: int) -> bool {
    exists|pc: Color|
        row[3 * k] == #[trigger] crate::color::spec_channel_byte(pc.x)
            && row[3 * k + 1] == crate::color::spec_channel_byte(pc.y)
            && row[3 * k + 2] == crate::color::spec_channel_byte(pc.z)
}

/// The jittered sample point for pixel `(i, j)`.
pub open spec fn spec_pixel_sample(cam: Camera, i: u32, j: u32, offx: i64, offy: i64) -> Vec3 {
    Vec3 {
        x: spec_pixel_coord(cam.pixel00_loc.x, cam.pixel_delta_u.x, cam.pixel_delta_v.x, i, j,
            offx, offy) as i64,
        y: spec_pixel_coord(cam.pixel00_loc.y, cam.pixel_delta_u.y, cam.pixel_delta_v.y, i, j,
            offx, offy) as i64,
        z: spec_pixel_coord(cam.pixel00_loc.z, cam.pixel_delta_u.z, cam.pixel_delta_v.z, i, j,
            offx, offy) as i64,
    }
}

/// The primary ray direction for a jitter pair and an origin: toward
/// the sample, clamped, with the axis fallback for a zero direction.
pub open spec fn spec_primary_dir(cam: Camera, i: u32, j: u32, offx: i64, offy: i64,
    origin: Vec3) -> Vec3 {
    let sample = spec_pixel_sample(cam, i, j, offx, offy);
    let raw = Vec3 {
        x: (sample.x - origin.x) as i64,
        y: (sample.y - origin.y) as i64,
        z: (sample.z - origin.z) as i64,
    };
    let cl = spec_clamp_to(raw, MIN_RAY_BOUND);
    if cl.x == 0 && cl.y == 0 && cl.z == 0 {
        Vec3 { x: 0i64, y: 0i64, z: (-FP) as i64 }
    } else {
        cl
    }
}

/// One coordinate of the jittered pixel sample:
/// `pixel00 + ((i * FP + offx) * du + (j * FP + offy) * dv) / FP`.
pub open spec fn spec_pixel_coord(p0: i64, du: i64, dv: i64, i: u32, j: u32, offx: i64,
    offy: i64) -> int {
    p0 + ((i * FP + offx) * du + (j * FP + offy) * dv) / (FP as int)
}

fn pixel_coord(p0: i64, du: i64, dv: i64, i: u32, j: u32, offx: i64, offy: i64) -> (c: i64)
    requires
        -MAX_COORD <= p0 <= MAX_COORD,
        -FP <= du <= FP,
        -FP <= dv <= FP,
        i <= 4096,
        j <= 4096,
        -FP <= offx <= FP,
        -FP <= offy <= FP,
    ensures
        c == spec_pixel_coord(p0, du, dv, i, j, offx, offy),
        -0x1_0000_0000_0000 <= c <= 0x1_0000_0000_0000,
{
    proof {
        crate::vec3::lemma_mul_bound2((i as int) * 65536 + offx, du as int, 0x1000_0000_0000,
            FP as int);
        crate::vec3::lemma_mul_bound2((j as int) * 65536 + offy, dv as int, 0x1000_0000_0000,
            FP as int);
    }
    let iu: i128 = ((i as i128) * 65536 + (offx as i128)) * (du as i128);
    let jv: i128 = ((j as i128) * 65536 + (offy as i128)) * (dv as i128);
    let q = crate::math::div_floor(iu + jv, 65536);
    proof {
        crate::math::lemma_div_bounds((iu + jv) as int, 65536);
        assert(-0x2000_0000_0000 <= q <= 0x2000_0000_0000) by (nonlinear_arith)
            requires
                65536 * q <= iu + jv < 65536 * (q + 1),
                -0x2000_0000_0000_0000 <= iu + jv <= 0x2000_0000_0000_0000;
        assert(iu as int == (i * FP + offx) * du && jv as int == (j * FP + offy) * dv)
            by (nonlinear_arith)
            requires
                FP == 65536,
                iu as int == ((i as int) * 65536 + offx) * du,
                jv as int == ((j as int) * 65536 + offy) * dv;
    }
    p0 + (q as i64)
}

} // verus!
