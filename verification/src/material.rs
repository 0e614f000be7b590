//! Materials: how a surface scatters or emits light. One capability per
//! object: diffuse, metal with fuzz, dielectric, or a diffuse light.

use vstd::prelude::*;
use crate::vec3::{Vec3, Point3, Color, in_range, spec_dot};
use crate::ray::Ray;
use crate::math::{FP, MIN_RAY_BOUND, spec_isqrt};
use crate::hittable::HitRecord;
use crate::texture::{Texture, texture_wf, texture_scales_wf, spec_texture_value, EMIT_LIMIT};
use crate::color::{black, color_in_range};
use crate::rng::{random_unit_vector, random_fp};

verus! {

pub enum Material {
    Lambertian { texture: Texture },
    Metal { albedo: Color, fuzz: i64 },
    Dielectric { refraction_index: i64 },
    DiffuseLight { texture: Texture },
}

/// Attenuations stay within `[0, FP]`; emission stays within the
/// emission limit; checker scales are positive.
pub open spec fn material_wf(m: Material) -> bool {
    match m {
        Material::Lambertian { texture } => texture_wf(texture, FP as int)
            && texture_scales_wf(texture),
        Material::Metal { albedo, fuzz } => color_in_range(albedo, FP as int)
            && 0 <= fuzz <= FP,
        Material::Dielectric { refraction_index } => FP / 16 <= refraction_index <= 16 * FP,
        Material::DiffuseLight { texture } => texture_wf(texture, EMIT_LIMIT as int)
            && texture_scales_wf(texture),
    }
}

/// The attenuation each material reports whenever it scatters: the
/// texture value at the clamped surface coordinates for a diffuse
/// material, the albedo for a metal, white for a dielectric.
pub open spec fn spec_attenuation(m: Material, rec: HitRecord) -> Color {
    match m {
        Material::Lambertian { texture } => spec_texture_value(texture, spec_clamp01(rec.u),
            spec_clamp01(rec.v), rec.p),
        Material::Metal { albedo, .. } => albedo,
        Material::Dielectric { .. } => Color { x: FP, y: FP, z: FP },
        Material::DiffuseLight { .. } => black(),
    }
}

/// The light a material radiates: the texture value at the clamped
/// surface coordinates for a diffuse light, black for everything else.
pub open spec fn spec_emitted(m: Material, u: i64, v: i64, p: Point3) -> Color {
    match m {
        Material::DiffuseLight { texture } => spec_texture_value(texture, spec_clamp01(u),
            spec_clamp01(v), p),
        _ => black(),
    }
}

/// Whether a dielectric surface cannot refract: total internal
/// reflection, decided on squared sines so the test is exact.
pub open spec fn spec_cannot_refract(unit: Vec3, n: Vec3, eta: i64) -> bool {
    let cos = spec_clamp_cos(-spec_dot(unit, n) / (FP as int));
    let sin_sq = FP - (cos * cos) / (FP as int);
    eta * eta * sin_sq > (FP as int) * (FP as int) * (FP as int)
}

/// The fixed-point ratio of refraction indices a dielectric uses: the
/// reciprocal of the index when the ray meets the outward face.
pub open spec fn spec_eta(refraction_index: i64, front_face: bool) -> i64 {
    if front_face {
        (((FP as int) * (FP as int)) / (refraction_index as int)) as i64
    } else {
        refraction_index
    }
}

impl Material {
    /// A diffuse material over a solid color.
    pub fn lambertian(albedo: Color) -> (m: Material)
        ensures
            m == (Material::Lambertian { texture: Texture::SolidColor { albedo } }),
    {
        Material::Lambertian { texture: Texture::SolidColor { albedo } }
    }

    /// A diffuse material over a texture.
    pub fn lambertian_from_texture(texture: Texture) -> (m: Material)
        ensures
            m == (Material::Lambertian { texture }),
    {
        Material::Lambertian { texture }
    }

    /// A reflective material with a fuzz radius.
    pub fn metal(albedo: Color, fuzz: i64) -> (m: Material)
        ensures
            m == (Material::Metal { albedo, fuzz }),
    {
        Material::Metal { albedo, fuzz }
    }

    /// A glass-like material with the given fixed-point refraction index.
    pub fn dielectric(refraction_index: i64) -> (m: Material)
        ensures
            m == (Material::Dielectric { refraction_index }),
    {
        Material::Dielectric { refraction_index }
    }

    /// An emitter over a solid color.
    pub fn diffuse_light(albedo: Color) -> (m: Material)
        ensures
            m == (Material::DiffuseLight { texture: Texture::SolidColor { albedo } }),
    {
        Material::DiffuseLight { texture: Texture::SolidColor { albedo } }
    }

    /// Whether and how an incoming ray continues: the attenuation color
    /// and the scattered ray, or nothing for absorbers and emitters.
    /// A diffuse material always scatters; a light never does. The
    /// attenuation is pinned per material; the scattered ray starts at
    /// the hit point with a nonzero direction within the scene's ray
    /// bound. A dielectric's direction is the reflection or the
    /// refraction of the normalized incoming ray, and the reflection is
    /// forced under total internal reflection; a fuzzless metal is
    /// fully deterministic.
    pub fn scatter(&self, r_in: &Ray, rec: &HitRecord) -> (res: Option<(Color, Ray)>)
        requires
            material_wf(*self),
            in_range(r_in.dir, MIN_RAY_BOUND as int),
            !(r_in.dir.x == 0 && r_in.dir.y == 0 && r_in.dir.z == 0),
        ensures
            self is DiffuseLight ==> res is None,
            self is Lambertian ==> res is Some,
            res is Some ==> ({
                let pair = res->0;
                &&& pair.0 == spec_attenuation(*self, *rec)
                &&& color_in_range(pair.0, FP as int)
                &&& pair.1.orig == rec.p
                &&& in_range(pair.1.dir, MIN_RAY_BOUND as int)
                &&& !(pair.1.dir.x == 0 && pair.1.dir.y == 0 && pair.1.dir.z == 0)
            }),
            self is Dielectric && res is Some ==> ({
                let pair = res->0;
                let unit = spec_unit_or_axis(r_in.dir);
                let nrm = spec_clamp_fp2(rec.normal);
                let eta = spec_eta(self->Dielectric_refraction_index, rec.front_face);
                &&& (pair.1.dir == spec_reflect(unit, nrm)
                    || pair.1.dir == spec_refract(unit, nrm, eta))
                &&& (spec_cannot_refract(unit, nrm, eta)
                    ==> pair.1.dir == spec_reflect(unit, nrm))
            }),
            (self matches Material::Metal { albedo: _, fuzz } && fuzz == 0) ==> ({
                let runit = spec_unit_or_axis(spec_reflect(spec_unit_or_axis(r_in.dir),
                    spec_clamp_fp2(rec.normal)));
                &&& (res is Some <==> spec_dot(runit, spec_clamp_fp2(rec.normal)) > 0)
                &&& (res is Some ==> ({
                    let pair = res->0;
                    pair.1.dir == runit
                }))
            }),
    {
        let u = clamp01(rec.u);
        let v = clamp01(rec.v);
        let normal = clamp_fp2(&rec.normal);
        match self {
            Material::Lambertian { texture } => {
                let rv = random_unit_vector();
                let mut dir = normal.add(&rv);
                if dir.x == 0 && dir.y == 0 && dir.z == 0 {
                    dir = normal;
                }
                if dir.x == 0 && dir.y == 0 && dir.z == 0 {
                    dir = rv;
                }
                let attenuation = texture.value(u, v, &rec.p);
                Some((attenuation, Ray { orig: rec.p, dir }))
            },
            Material::Metal { albedo, fuzz } => {
                let unit_dir = unit_or_axis(&r_in.dir);
                let reflected = reflect(&unit_dir, &normal);
                let runit = unit_or_axis(&reflected);
                let rv = random_unit_vector();
                proof {
                    lemma_fuzz_range(*fuzz, rv);
                    if *fuzz == 0 {
                        assert(0 * rv.x == 0 && 0 * rv.y == 0 && 0 * rv.z == 0)
                            by (nonlinear_arith);
                        assert(0int / (FP as int) == 0);
                    }
                }
                let fz = Vec3 {
                    x: crate::math::div_floor((*fuzz as i128) * (rv.x as i128), 65536) as i64,
                    y: crate::math::div_floor((*fuzz as i128) * (rv.y as i128), 65536) as i64,
                    z: crate::math::div_floor((*fuzz as i128) * (rv.z as i128), 65536) as i64,
                };
                let dir = runit.add(&fz);
                proof {
                    if *fuzz == 0 {
                        assert(dir == runit);
                    }
                }
                let scattered = Ray { orig: rec.p, dir };
                let keep: i128 = dir.dot(&normal);
                if keep > 0 && !(dir.x == 0 && dir.y == 0 && dir.z == 0) {
                    Some((*albedo, scattered))
                } else {
                    None
                }
            },
            Material::Dielectric { refraction_index } => {
                let ri = if rec.front_face {
                    // FP * FP / index: the reciprocal in fixed point.
                    let recip = (FP as i128) * (FP as i128) / (*refraction_index as i128);
                    proof {
                        crate::math::lemma_div_bounds(65536int * 65536,
                            *refraction_index as int);
                        assert(4096 <= (65536int * 65536) / (*refraction_index as int)
                            <= 16 * 65536) by (nonlinear_arith)
                            requires
                                4096 <= *refraction_index <= 16 * 65536,
                                (*refraction_index as int) * ((65536int * 65536)
                                    / (*refraction_index as int)) <= 65536int * 65536
                                    < (*refraction_index as int) * ((65536int * 65536)
                                    / (*refraction_index as int) + 1);
                    }
                    recip as i64
                } else {
                    *refraction_index
                };
                let unit_dir = unit_or_axis(&r_in.dir);
                proof {
                    crate::vec3::lemma_dot_bound(unit_dir, normal, FP as int + 1,
                        2 * FP as int);
                }
                proof {
                    assert(3 * ((FP as int + 1) * (2 * FP as int)) < 0x40_0000_0000_0000)
                        by (nonlinear_arith)
                        requires FP == 65536;
                }
                let cos_in = crate::math::div_floor(-(unit_dir.dot(&normal)), 65536);
                let cos_theta: i64 = if cos_in > FP as i128 {
                    FP
                } else if cos_in < -(FP as i128) {
                    -FP
                } else {
                    cos_in as i64
                };
                proof {
                    crate::vec3::lemma_mul_bound(cos_theta as int, cos_theta as int, FP as int);
                    crate::vec3::lemma_square_nonneg(cos_theta as int);
                    assert((FP as int) * (FP as int) == 65536int * 65536) by (nonlinear_arith)
                        requires FP == 65536;
                }
                let sin_sq: i64 = FP - (cos_theta * cos_theta) / FP;
                proof {
                    crate::math::lemma_div_bounds(cos_theta as int * cos_theta, FP as int);
                    assert(0 <= (cos_theta as int * cos_theta) / (FP as int) <= 65536)
                        by (nonlinear_arith)
                        requires
                            FP == 65536,
                            0 <= cos_theta as int * cos_theta <= 65536int * 65536,
                            (FP as int) * ((cos_theta as int * cos_theta) / (FP as int))
                                <= cos_theta as int * cos_theta < (FP as int) * ((cos_theta
                                as int * cos_theta) / (FP as int) + 1);
                    assert(0 <= cos_theta as int * cos_theta) by (nonlinear_arith);
                }
                // cannot refract when ri * sin > FP, tested on squares.
                proof {
                    crate::vec3::lemma_mul_bound2(ri as int, ri as int, 0x10_0000, 0x10_0000);
                    crate::vec3::lemma_mul_bound2((ri as int) * (ri as int), sin_sq as int,
                        0x100_0000_0000, 0x2_0000);
                }
                let crit: i128 = (ri as i128) * (ri as i128) * (sin_sq as i128);
                let cannot_refract = crit > (FP as i128) * (FP as i128) * (FP as i128);
                let dir = if cannot_refract || reflectance(cos_theta, ri) > random_fp() {
                    reflect(&unit_dir, &normal)
                } else {
                    refract(&unit_dir, &normal, ri)
                };
                if dir.x == 0 && dir.y == 0 && dir.z == 0 {
                    None
                } else {
                    Some((Color { x: FP, y: FP, z: FP }, Ray { orig: rec.p, dir }))
                }
            },
            Material::DiffuseLight { .. } => None,
        }
    }

    /// The light this material radiates at a surface point: the texture
    /// value for a diffuse light, black for everything else.
    pub fn emitted(&self, u: i64, v: i64, p: &Point3) -> (c: Color)
        requires
            material_wf(*self),
        ensures
            c == spec_emitted(*self, u, v, *p),
            color_in_range(c, EMIT_LIMIT as int),
    {
        let cu = clamp01(u);
        let cv = clamp01(v);
        match self {
            Material::DiffuseLight { texture } => texture.value(cu, cv, p),
            _ => Color { x: 0, y: 0, z: 0 },
        }
    }
}

/// `x` forced into `[0, FP]`.
pub open spec fn spec_clamp01(x: i64) -> i64 {
    if x < 0 {
        0i64
    } else if x > FP {
        FP
    } else {
        x
    }
}

fn clamp01(x: i64) -> (r: i64)
    ensures
        r == spec_clamp01(x),
        0 <= r <= FP,
{
    if x < 0 {
        0
    } else if x > FP {
        FP
    } else {
        x
    }
}

/// `v` forced into `[-2 * FP, 2 * FP]` per coordinate.
pub open spec fn spec_clamp_fp2(v: Vec3) -> Vec3 {
    Vec3 {
        x: if v.x > 2 * FP { (2 * FP) as i64 } else if v.x < -2 * FP { (-2 * FP) as i64 } else { v.x },
        y: if v.y > 2 * FP { (2 * FP) as i64 } else if v.y < -2 * FP { (-2 * FP) as i64 } else { v.y },
        z: if v.z > 2 * FP { (2 * FP) as i64 } else if v.z < -2 * FP { (-2 * FP) as i64 } else { v.z },
    }
}

fn clamp_fp2(v: &Vec3) -> (w: Vec3)
    ensures
        w == spec_clamp_fp2(*v),
        in_range(w, 2 * FP as int),
{
    let b = 2 * FP;
    Vec3 {
        x: if v.x > b { b } else if v.x < -b { -b } else { v.x },
        y: if v.y > b { b } else if v.y < -b { -b } else { v.y },
        z: if v.z > b { b } else if v.z < -b { -b } else { v.z },
    }
}

/// A fuzz perturbation stays within `[-FP, FP]` per coordinate.
proof fn lemma_fuzz_range(fuzz: i64, rv: Vec3)
    requires
        0 <= fuzz <= FP,
        in_range(rv, FP as int),
    ensures
        -(FP as int) * (FP as int) <= fuzz * rv.x <= (FP as int) * (FP as int),
        -(FP as int) * (FP as int) <= fuzz * rv.y <= (FP as int) * (FP as int),
        -(FP as int) * (FP as int) <= fuzz * rv.z <= (FP as int) * (FP as int),
        -FP <= (fuzz * rv.x) / (FP as int) <= FP,
        -FP <= (fuzz * rv.y) / (FP as int) <= FP,
        -FP <= (fuzz * rv.z) / (FP as int) <= FP,
{
    crate::vec3::lemma_mul_bound2(fuzz as int, rv.x as int, FP as int, FP as int);
    crate::vec3::lemma_mul_bound2(fuzz as int, rv.y as int, FP as int, FP as int);
    crate::vec3::lemma_mul_bound2(fuzz as int, rv.z as int, FP as int, FP as int);
    lemma_fp_quot(fuzz * rv.x);
    lemma_fp_quot(fuzz * rv.y);
    lemma_fp_quot(fuzz * rv.z);
}

/// Dividing a value within `FP * FP` by `FP` lands within `FP`.
proof fn lemma_fp_quot(n: int)
    requires
        -(FP as int) * (FP as int) <= n <= (FP as int) * (FP as int),
    ensures
        -FP <= n / (FP as int) <= FP,
{
    crate::math::lemma_div_bounds(n, FP as int);
    assert(-FP <= n / (FP as int) <= FP) by (nonlinear_arith)
        requires
            FP == 65536,
            (FP as int) * (n / (FP as int)) <= n < (FP as int) * (n / (FP as int) + 1),
            -(65536 * 65536) <= n <= 65536 * 65536;
}

/// One coordinate of the normalized vector, clamped below at `-FP`.
pub open spec fn spec_norm_coord(c: int, ln: int) -> int {
    let q = (c * (FP as int)) / ln;
    if q < -FP {
        -(FP as int)
    } else {
        q
    }
}

/// The deterministic normalization: the unit vector of `v` on the
/// fixed-point grid, or the negative `z` axis when `v` is too small.
pub open spec fn spec_unit_or_axis(v: Vec3) -> Vec3 {
    if spec_dot(v, v) <= 0 {
        Vec3 { x: 0i64, y: 0i64, z: (-FP) as i64 }
    } else {
        let ln = spec_isqrt(spec_dot(v, v));
        let x = spec_norm_coord(v.x as int, ln) as i64;
        let y = spec_norm_coord(v.y as int, ln) as i64;
        let z = spec_norm_coord(v.z as int, ln) as i64;
        if x == 0 && y == 0 && z == 0 {
            Vec3 { x: 0i64, y: 0i64, z: (-FP) as i64 }
        } else {
            Vec3 { x, y, z }
        }
    }
}

/// The unit vector of a nonzero direction, or a fixed axis when the
/// direction is too small to normalize.
pub fn unit_or_axis(v: &Vec3) -> (u: Vec3)
    requires
        in_range(*v, MIN_RAY_BOUND as int),
    ensures
        u == spec_unit_or_axis(*v),
        in_range(u, FP as int + 1),
        !(u.x == 0 && u.y == 0 && u.z == 0),
{
    proof {
        crate::vec3::lemma_dot_bound(*v, *v, MIN_RAY_BOUND as int, MIN_RAY_BOUND as int);
    }
    let nn: i128 = v.dot(v);
    if nn <= 0 {
        return Vec3 { x: 0, y: 0, z: -FP };
    }
    let ln = crate::math::isqrt(nn);
    proof {
        if ln == 0 {
            assert((ln as int + 1) * (ln as int + 1) == 1) by (nonlinear_arith)
                requires ln == 0;
            assert(false);
        }
        crate::vec3::lemma_mul_bound(v.x as int, v.x as int, MIN_RAY_BOUND as int);
        crate::vec3::lemma_mul_bound(v.y as int, v.y as int, MIN_RAY_BOUND as int);
        crate::vec3::lemma_mul_bound(v.z as int, v.z as int, MIN_RAY_BOUND as int);
        crate::vec3::lemma_square_nonneg(v.x as int);
        crate::vec3::lemma_square_nonneg(v.y as int);
        crate::vec3::lemma_square_nonneg(v.z as int);
    }
    let x = norm_coord(v.x, ln, nn);
    let y = norm_coord(v.y, ln, nn);
    let z = norm_coord(v.z, ln, nn);
    if x == 0 && y == 0 && z == 0 {
        Vec3 { x: 0, y: 0, z: -FP }
    } else {
        Vec3 { x, y, z }
    }
}

/// `(c * FP) / ln`, clamped below at `-FP`.
fn norm_coord(c: i64, ln: i128, nn: i128) -> (o: i64)
    requires
        -0x10_0000_0000 <= c <= 0x10_0000_0000,
        0 < ln < 0x100_0000_0000_0000,
        crate::math::is_isqrt(nn as int, ln as int),
        c * c <= nn,
    ensures
        o == spec_norm_coord(c as int, ln as int),
        -FP <= o <= FP,
{
    proof {
        assert(-(ln as int) <= c <= ln as int) by (nonlinear_arith)
            requires
                0 < ln,
                c * c <= nn,
                nn < (ln as int + 1) * (ln as int + 1);
        assert(-(ln as int) * 65536 <= c * 65536 <= (ln as int) * 65536) by (nonlinear_arith)
            requires -(ln as int) <= c <= ln as int && 0 < ln;
    }
    let q = crate::math::div_floor((c as i128) * 65536, ln);
    proof {
        crate::math::lemma_div_bounds(c as int * 65536, ln as int);
        assert(-65537 <= q <= 65536) by (nonlinear_arith)
            requires
                0 < ln,
                (ln as int) * q <= c * 65536 < (ln as int) * (q + 1),
                -(ln as int) * 65536 <= c * 65536 <= (ln as int) * 65536;
        assert(FP == 65536);
        assert((c as int) * (FP as int) == (c as int) * 65536) by (nonlinear_arith)
            requires FP == 65536;
    }
    if q < -65536 {
        -65536
    } else {
        q as i64
    }
}

/// One coordinate of the reflection, exactly as computed:
/// `vc - (2 * dot * nc) / FP^2`, the division rounded down.
pub open spec fn spec_reflect_coord(vc: i64, nc: i64, d: int) -> i64 {
    (vc - (2 * d * nc) / ((FP as int) * (FP as int))) as i64
}

/// The reflection of `v` about the unit-ish normal `n`:
/// `v - 2 * dot(v, n) * n / FP^2`, componentwise.
pub open spec fn spec_reflect(v: Vec3, n: Vec3) -> Vec3 {
    let d = spec_dot(v, n);
    Vec3 {
        x: spec_reflect_coord(v.x, n.x, d),
        y: spec_reflect_coord(v.y, n.y, d),
        z: spec_reflect_coord(v.z, n.z, d),
    }
}

/// The reflection, executably.
pub fn reflect(v: &Vec3, n: &Vec3) -> (r: Vec3)
    requires
        in_range(*v, 2 * FP as int),
        in_range(*n, 2 * FP as int),
    ensures
        r == spec_reflect(*v, *n),
        in_range(r, 64 * FP as int),
{
    let d: i128 = v.dot(n);
    proof {
        crate::vec3::lemma_dot_bound(*v, *n, 2 * FP as int, 2 * FP as int);
    }
    let x = reflect_coord(v.x, n.x, d);
    let y = reflect_coord(v.y, n.y, d);
    let z = reflect_coord(v.z, n.z, d);
    Vec3 { x, y, z }
}

/// One coordinate of the reflection.
fn reflect_coord(vc: i64, nc: i64, d: i128) -> (r: i64)
    requires
        -2 * FP <= vc <= 2 * FP,
        -2 * FP <= nc <= 2 * FP,
        -3 * (2 * (FP as int) * (2 * FP as int)) <= d <= 3 * (2 * (FP as int) * (2 * FP
            as int)),
    ensures
        r == spec_reflect_coord(vc, nc, d as int),
        -64 * FP <= r <= 64 * FP,
{
    proof {
        assert(3 * (2 * (FP as int) * (2 * FP as int)) == 12int * 65536 * 65536)
            by (nonlinear_arith)
            requires FP == 65536;
        crate::vec3::lemma_mul_bound2(2 * d, nc as int, 24int * 65536 * 65536, 2int * 65536);
    }
    let num: i128 = 2 * d * (nc as i128);
    let q = crate::math::div_floor(num, 65536 * 65536);
    proof {
        crate::math::lemma_div_bounds(num as int, 65536int * 65536);
        assert(-49 * (FP as int) <= q <= 49 * (FP as int)) by (nonlinear_arith)
            requires
                FP == 65536,
                (65536int * 65536) * q <= num < (65536int * 65536) * (q + 1),
                -(24int * 65536 * 65536) * (2int * 65536) <= num
                    <= (24int * 65536 * 65536) * (2int * 65536);
        assert((FP as int) * (FP as int) == 65536int * 65536) by (nonlinear_arith)
            requires FP == 65536;
    }
    vc - (q as i64)
}

/// A cosine clamped into `[-FP, FP]`.
pub open spec fn spec_clamp_cos(c: int) -> int {
    if c > FP {
        FP as int
    } else if c < -FP {
        -(FP as int)
    } else {
        c
    }
}

/// One coordinate of the refraction's perpendicular part:
/// `eta * (uv + cos * n / FP) / FP`, clamped into `[-33 FP, 33 FP]`.
pub open spec fn spec_perp_coord(uvc: i64, nc: i64, cos: int, eta: i64) -> i64 {
    let inner = uvc + (cos * nc) / (FP as int);
    let q = (eta * inner) / (FP as int);
    if q > 33 * FP {
        (33 * FP) as i64
    } else if q < -33 * FP {
        (-33 * FP) as i64
    } else {
        q as i64
    }
}

/// One coordinate of the refraction's parallel part:
/// `perp - min(par_len, FP) * n / FP`.
pub open spec fn spec_par_coord(pc: i64, nc: i64, par_len: int) -> i64 {
    let pl = if par_len > FP {
        FP as int
    } else {
        par_len
    };
    (pc - (pl * nc) / (FP as int)) as i64
}

/// The refraction of the unit-ish direction `uv` through the surface
/// with unit-ish normal `n`, by Snell's law in fixed point: the
/// perpendicular part is scaled by `eta`, the parallel part restores a
/// unit-ish length through the integer square root.
pub open spec fn spec_refract(uv: Vec3, n: Vec3, eta: i64) -> Vec3 {
    let cos = spec_clamp_cos(-spec_dot(uv, n) / (FP as int));
    let perp = Vec3 {
        x: spec_perp_coord(uv.x, n.x, cos, eta),
        y: spec_perp_coord(uv.y, n.y, cos, eta),
        z: spec_perp_coord(uv.z, n.z, cos, eta),
    };
    let rem = (FP as int) * (FP as int) - spec_dot(perp, perp);
    let par_len = if rem > 0 {
        spec_isqrt(rem)
    } else {
        0
    };
    Vec3 {
        x: spec_par_coord(perp.x, n.x, par_len),
        y: spec_par_coord(perp.y, n.y, par_len),
        z: spec_par_coord(perp.z, n.z, par_len),
    }
}

/// The refraction, executably.
pub fn refract(uv: &Vec3, n: &Vec3, etai_over_etat: i64) -> (r: Vec3)
    requires
        in_range(*uv, 2 * FP as int),
        in_range(*n, 2 * FP as int),
        0 < etai_over_etat <= 16 * FP,
    ensures
        r == spec_refract(*uv, *n, etai_over_etat),
        in_range(r, 64 * FP as int),
{
    let d: i128 = uv.dot(n);
    proof {
        crate::vec3::lemma_dot_bound(*uv, *n, 2 * FP as int, 2 * FP as int);
        assert(3 * ((2 * FP as int) * (2 * FP as int)) == 12int * 65536 * 65536)
            by (nonlinear_arith)
            requires FP == 65536;
    }
    let cos_raw = crate::math::div_floor(-d, 65536);
    proof {
        assert((-d) as int / 65536 == -spec_dot(*uv, *n) / (FP as int)) by {
            assert(FP == 65536);
        }
    }
    let cos_theta: i128 = if cos_raw > FP as i128 {
        FP as i128
    } else if cos_raw < -(FP as i128) {
        -(FP as i128)
    } else {
        cos_raw
    };
    let px = perp_coord(uv.x, n.x, cos_theta, etai_over_etat);
    let py = perp_coord(uv.y, n.y, cos_theta, etai_over_etat);
    let pz = perp_coord(uv.z, n.z, cos_theta, etai_over_etat);
    let perp = Vec3 { x: px, y: py, z: pz };
    let perp_len: i128 = perp.dot(&perp);
    proof {
        crate::vec3::lemma_dot_bound(perp, perp, 33 * FP as int, 33 * FP as int);
        crate::vec3::lemma_square_nonneg(perp.x as int);
        crate::vec3::lemma_square_nonneg(perp.y as int);
        crate::vec3::lemma_square_nonneg(perp.z as int);
        assert((FP as int) * (FP as int) == 65536int * 65536) by (nonlinear_arith)
            requires FP == 65536;
    }
    // 1 - |perp|^2 in fixed point, floored at zero.
    let rem: i128 = (FP as i128) * (FP as i128) - perp_len;
    let par_len: i128 = if rem > 0 {
        crate::math::isqrt(rem)
    } else {
        0
    };
    let x = par_coord(px, n.x, par_len);
    let y = par_coord(py, n.y, par_len);
    let z = par_coord(pz, n.z, par_len);
    Vec3 { x, y, z }
}

/// One coordinate of the perpendicular part:
/// `eta * (uv + cos * n / FP) / FP`.
fn perp_coord(uvc: i64, nc: i64, cos_theta: i128, eta: i64) -> (r: i64)
    requires
        -2 * FP <= uvc <= 2 * FP,
        -2 * FP <= nc <= 2 * FP,
        -(FP as int) <= cos_theta <= FP as int,
        0 < eta <= 16 * FP,
    ensures
        r == spec_perp_coord(uvc, nc, cos_theta as int, eta),
        -33 * FP <= r <= 33 * FP,
{
    proof {
        crate::vec3::lemma_mul_bound2(cos_theta as int, nc as int, FP as int, 2 * FP as int);
        crate::math::lemma_div_bounds(cos_theta as int * nc, FP as int);
        assert(-2 * (FP as int) <= (cos_theta as int * nc) / (FP as int) <= 2 * (FP as int))
            by (nonlinear_arith)
            requires
                FP == 65536,
                (FP as int) * ((cos_theta as int * nc) / (FP as int)) <= cos_theta as int * nc
                    < (FP as int) * ((cos_theta as int * nc) / (FP as int) + 1),
                -2 * (65536int * 65536) <= cos_theta as int * nc <= 2 * (65536int * 65536);
    }
    let inner: i128 = (uvc as i128) + crate::math::div_floor(cos_theta * (nc as i128), 65536);
    proof {
        crate::vec3::lemma_mul_bound2(eta as int, inner as int, 16 * FP as int, 4 * FP as int);
        crate::math::lemma_div_bounds(eta as int * inner, FP as int);
        assert(-65 * (FP as int) <= (eta as int * inner) / (FP as int) <= 65 * (FP as int))
            by (nonlinear_arith)
            requires
                FP == 65536,
                (FP as int) * ((eta as int * inner) / (FP as int)) <= eta as int * inner
                    < (FP as int) * ((eta as int * inner) / (FP as int) + 1),
                -64 * (65536int * 65536) <= eta as int * inner <= 64 * (65536int * 65536);
    }
    let q = crate::math::div_floor((eta as i128) * inner, 65536);
    let qi = q as i64;
    if qi > 33 * FP {
        33 * FP
    } else if qi < -33 * FP {
        -33 * FP
    } else {
        qi
    }
}

/// One coordinate of the parallel part: `perp - par_len * n / FP`.
fn par_coord(pc: i64, nc: i64, par_len: i128) -> (r: i64)
    requires
        -33 * FP <= pc <= 33 * FP,
        -2 * FP <= nc <= 2 * FP,
        0 <= par_len <= 0x100_0000_0000_0000,
    ensures
        r == spec_par_coord(pc, nc, par_len as int),
        -64 * FP <= r <= 64 * FP,
{
    let pl: i128 = if par_len > FP as i128 {
        FP as i128
    } else {
        par_len
    };
    proof {
        crate::vec3::lemma_mul_bound2(pl as int, nc as int, FP as int, 2 * FP as int);
        crate::math::lemma_div_bounds(pl as int * nc, FP as int);
        assert(-2 * (FP as int) <= (pl as int * nc) / (FP as int) <= 2 * (FP as int))
            by (nonlinear_arith)
            requires
                FP == 65536,
                (FP as int) * ((pl as int * nc) / (FP as int)) <= pl as int * nc
                    < (FP as int) * ((pl as int * nc) / (FP as int) + 1),
                -2 * (65536int * 65536) <= pl as int * nc <= 2 * (65536int * 65536);
    }
    let q = crate::math::div_floor(pl * (nc as i128), 65536);
    pc - (q as i64)
}

/// The Schlick approximation of the Fresnel reflectance, in fixed point.
fn reflectance(cosine: i64, refraction_index: i64) -> (r: i64)
    requires
        -FP <= cosine <= FP,
        0 < refraction_index <= 16 * FP,
        refraction_index >= 1,
    ensures
        0 <= r <= 2 * FP,
{
    // r0 = ((1 - ri) / (1 + ri))^2 in fixed point.
    let num: i128 = (FP as i128) - (refraction_index as i128);
    let den: i128 = (FP as i128) + (refraction_index as i128);
    let root = crate::math::div_floor(num * 65536, den);
    proof {
        crate::math::lemma_div_bounds(num as int * 65536, den as int);
        assert(-17 * 65536 <= (num as int * 65536) / (den as int) <= 65536)
            by (nonlinear_arith)
            requires
                65536 < den <= 17 * 65536,
                -16 * 65536int <= num <= 65536,
                num as int * 65536 == num * 65536,
                (den as int) * ((num as int * 65536) / (den as int)) <= num as int * 65536
                    < (den as int) * ((num as int * 65536) / (den as int) + 1);
        crate::vec3::lemma_mul_bound(root as int, root as int, 17int * 65536);
    }
    let r0 = crate::math::div_floor(root * root, 65536);
    let r0c: i64 = if r0 > FP as i128 {
        FP
    } else if r0 < 0 {
        0
    } else {
        r0 as i64
    };
    // (1 - cos)^5 in fixed point.
    let omc: i64 = FP - cosine;
    let mut pw: i64 = FP;
    let mut k: u32 = 0;
    while k < 5
        invariant
            0 <= pw <= 32 * FP,
            0 <= omc <= 2 * FP,
            k <= 5,
        decreases 5 - k,
    {
        proof {
            crate::vec3::lemma_mul_bound2(pw as int, omc as int, 32 * FP as int, 2 * FP as int);
            assert((32 * FP as int) * (2 * FP as int) == 64 * (65536int * 65536))
                by (nonlinear_arith)
                requires FP == 65536;
            crate::math::lemma_div_bounds(pw as int * omc, FP as int);
            assert(0 <= (pw as int * omc) / (FP as int) <= 64 * (FP as int))
                by (nonlinear_arith)
                requires
                    FP == 65536,
                    0 <= pw as int * omc <= 64 * (65536int * 65536),
                    (FP as int) * ((pw as int * omc) / (FP as int)) <= pw as int * omc
                        < (FP as int) * ((pw as int * omc) / (FP as int) + 1);
            assert(0 <= pw as int * omc) by (nonlinear_arith)
                requires 0 <= pw && 0 <= omc;
        }
        let next = crate::math::div_floor((pw as i128) * (omc as i128), 65536);
        pw = if next > 32 * FP as i128 {
            32 * FP
        } else {
            next as i64
        };
        k += 1;
    }
    let pwc: i64 = if pw > FP {
        FP
    } else {
        pw
    };
    // r0 + (1 - r0) * (1 - cos)^5
    proof {
        crate::vec3::lemma_mul_bound2((FP - r0c) as int, pwc as int, FP as int, FP as int);
        crate::math::lemma_div_bounds((FP - r0c) as int * pwc, FP as int);
        assert(0 <= ((FP - r0c) as int * pwc) / (FP as int) <= FP as int) by (nonlinear_arith)
            requires
                FP == 65536,
                0 <= (FP - r0c) as int * pwc <= 65536int * 65536,
                (FP as int) * (((FP - r0c) as int * pwc) / (FP as int)) <= (FP - r0c) as int
                    * pwc < (FP as int) * (((FP - r0c) as int * pwc) / (FP as int) + 1);
        assert(0 <= (FP - r0c) as int * pwc) by (nonlinear_arith)
            requires 0 <= FP - r0c && 0 <= pwc;
    }
    let tail = crate::math::div_floor(((FP - r0c) as i128) * (pwc as i128), 65536);
    r0c + (tail as i64)
}

} // verus!
