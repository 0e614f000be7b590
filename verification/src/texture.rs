//! Textures: solid colors, the checker pattern, and image lookup, all
//! over fixed-point colors.

use vstd::prelude::*;
use crate::vec3::{Vec3, Point3, Color};
use crate::math::FP;
use crate::image::Image;

verus! {

/// Largest channel value an emissive texture may carry.
pub const EMIT_LIMIT: i64 = 0x4000_0000;

/// An image texture: lookups map surface coordinates to pixels.
pub struct ImageTexture {
    pub image: Image,
}

impl ImageTexture {
    pub fn new(image: Image) -> (t: ImageTexture)
        ensures
            t.image == image,
    {
        ImageTexture { image }
    }
}

pub enum Texture {
    SolidColor { albedo: Color },
    Checker { scale: i64, even: Box<Texture>, odd: Box<Texture> },
    ImageTex { tex: ImageTexture },
}

/// Checker cell sizes are positive, all the way down.
pub open spec fn texture_scales_wf(t: Texture) -> bool
    decreases t,
{
    match t {
        Texture::Checker { scale, even, odd } => {
            0 < scale && texture_scales_wf(*even) && texture_scales_wf(*odd)
        },
        _ => true,
    }
}

/// Channels of texture lookups stay within `[0, limit]`.
pub open spec fn texture_wf(t: Texture, limit: int) -> bool
    decreases t,
{
    match t {
        Texture::SolidColor { albedo } => {
            0 <= albedo.x <= limit && 0 <= albedo.y <= limit && 0 <= albedo.z <= limit
        },
        Texture::Checker { scale, even, odd } => {
            0 < scale && texture_wf(*even, limit) && texture_wf(*odd, limit)
        },
        Texture::ImageTex { tex } => limit >= FP,
    }
}

/// The checker parity of a grid point: the sum of the floor quotients of
/// the coordinates by the cell size.
pub open spec fn spec_checker_even(scale: i64, p: Point3) -> bool {
    let qx = p.x as int / (scale as int);
    let qy = p.y as int / (scale as int);
    let qz = p.z as int / (scale as int);
    (qx + qy + qz) % 2 == 0
}

/// The fixed-point color of an image pixel chosen by `(u, v)`.
pub open spec fn spec_image_value(img: Image, u: i64, v: i64) -> Color {
    if img.spec_height() == 0 {
        Color { x: FP, y: 0i64, z: 0i64 }
    } else {
        let cu = if u < 0 { 0 } else if u > FP { FP as int } else { u as int };
        let cv0 = if v < 0 { 0 } else if v > FP { FP as int } else { v as int };
        let cv = FP - cv0;
        let i = (cu * img.spec_width()) / (FP as int);
        let j = (cv * img.spec_height()) / (FP as int);
        let px = img.spec_pixel_data(
            (if i < img.spec_width() { i } else { img.spec_width() - 1 }) as u32,
            (if j < img.spec_height() { j } else { img.spec_height() - 1 }) as u32);
        Color {
            x: ((px.0 * (FP as int)) / 255) as i64,
            y: ((px.1 * (FP as int)) / 255) as i64,
            z: ((px.2 * (FP as int)) / 255) as i64,
        }
    }
}

/// The value of a texture at surface coordinates `(u, v)` and point `p`.
pub open spec fn spec_texture_value(t: Texture, u: i64, v: i64, p: Point3) -> Color
    decreases t,
{
    match t {
        Texture::SolidColor { albedo } => albedo,
        Texture::Checker { scale, even, odd } => {
            if spec_checker_even(scale, p) {
                spec_texture_value(*even, u, v, p)
            } else {
                spec_texture_value(*odd, u, v, p)
            }
        },
        Texture::ImageTex { tex } => spec_image_value(tex.image, u, v),
    }
}

impl Texture {
    pub fn solid(albedo: Color) -> (t: Texture)
        ensures
            t == (Texture::SolidColor { albedo }),
    {
        Texture::SolidColor { albedo }
    }

    /// The value of the texture; for well-formed textures every channel
    /// is within `[0, limit]`.
    pub fn value(&self, u: i64, v: i64, p: &Point3) -> (c: Color)
        requires
            0 <= u <= FP,
            0 <= v <= FP,
            texture_scales_wf(*self),
        ensures
            c == spec_texture_value(*self, u, v, *p),
            forall|limit: int| texture_wf(*self, limit) ==> 0 <= c.x <= limit && 0 <= c.y
                <= limit && 0 <= c.z <= limit,
        decreases *self,
    {
        match self {
            Texture::SolidColor { albedo } => {
                proof {
                    assert forall|limit: int| texture_wf(*self, limit) implies 0 <= albedo.x
                        <= limit && 0 <= albedo.y <= limit && 0 <= albedo.z <= limit by {
                        assert(texture_wf(*self, limit));
                    }
                }
                *albedo
            },
            Texture::Checker { scale, even, odd } => {
                let qx = crate::math::div_floor(p.x as i128, *scale as i128);
                let qy = crate::math::div_floor(p.y as i128, *scale as i128);
                let qz = crate::math::div_floor(p.z as i128, *scale as i128);
                let sum = qx + qy + qz;
                let half = crate::math::div_floor(sum, 2);
                proof {
                    vstd::arithmetic::div_mod::lemma_fundamental_div_mod(sum as int, 2);
                    vstd::arithmetic::div_mod::lemma_mod_division_less_than_divisor(
                        sum as int, 2);
                }
                let c = if sum == half * 2 {
                    even.value(u, v, p)
                } else {
                    odd.value(u, v, p)
                };
                proof {
                    assert forall|limit: int| texture_wf(*self, limit) implies 0 <= c.x <= limit
                        && 0 <= c.y <= limit && 0 <= c.z <= limit by {
                        assert(texture_wf(**even, limit) && texture_wf(**odd, limit));
                    }
                }
                c
            },
            Texture::ImageTex { tex } => {
                let c = image_value(&tex.image, u, v);
                proof {
                    assert forall|limit: int| texture_wf(*self, limit) implies 0 <= c.x <= limit
                        && 0 <= c.y <= limit && 0 <= c.z <= limit by {
                        assert(limit >= FP);
                    }
                }
                c
            },
        }
    }
}

/// The image-texture lookup: clamp the coordinates, flip `v`, pick the
/// pixel, and scale its bytes to fixed point.
fn image_value(img: &Image, u: i64, v: i64) -> (c: Color)
    ensures
        c == spec_image_value(*img, u, v),
        0 <= c.x <= FP && 0 <= c.y <= FP && 0 <= c.z <= FP,
{
    if img.height() == 0 {
        return Color { x: FP, y: 0, z: 0 };
    }
    let cu = if u < 0 { 0 } else if u > FP { FP } else { u };
    let cv0 = if v < 0 { 0 } else if v > FP { FP } else { v };
    let cv = FP - cv0;
    proof {
        crate::vec3::lemma_mul_bound2(cu as int, img.spec_width() as int, FP as int,
            0x1_0000_0000);
        crate::vec3::lemma_mul_bound2(cv as int, img.spec_height() as int, FP as int,
            0x1_0000_0000);
        assert(0 <= cu as int * img.spec_width() <= 65536 * (img.spec_width() as int))
            by (nonlinear_arith)
            requires 0 <= cu <= 65536 && img.spec_width() >= 0;
        assert(0 <= cv as int * img.spec_height() <= 65536 * (img.spec_height() as int))
            by (nonlinear_arith)
            requires 0 <= cv <= 65536 && img.spec_height() >= 0;
    }
    let i128v = crate::math::div_floor((cu as i128) * (img.width() as i128), 65536);
    let j128v = crate::math::div_floor((cv as i128) * (img.height() as i128), 65536);
    proof {
        crate::math::lemma_div_bounds(cu as int * img.spec_width(), FP as int);
        assert(0 <= i128v <= img.spec_width()) by (nonlinear_arith)
            requires
                FP == 65536,
                65536 * i128v <= cu as int * img.spec_width() < 65536 * (i128v + 1),
                0 <= cu as int * img.spec_width() <= 65536 * (img.spec_width() as int);
        crate::math::lemma_div_bounds(cv as int * img.spec_height(), FP as int);
        assert(0 <= j128v <= img.spec_height()) by (nonlinear_arith)
            requires
                FP == 65536,
                65536 * j128v <= cv as int * img.spec_height() < 65536 * (j128v + 1),
                0 <= cv as int * img.spec_height() <= 65536 * (img.spec_height() as int);
    }
    let i = i128v as u32;
    let j = j128v as u32;
    let i = if i < img.width() { i } else { img.width() - 1 };
    let j = if j < img.height() { j } else { img.height() - 1 };
    let px = img.pixel_data(i, j);
    let x = ((px.0 as i64) * FP) / 255;
    let y = ((px.1 as i64) * FP) / 255;
    let z = ((px.2 as i64) * FP) / 255;
    proof {
        assert(0 <= (px.0 as int * (FP as int)) / 255 <= FP) by (nonlinear_arith)
            requires FP == 65536 && 0 <= px.0 <= 255;
        assert(0 <= (px.1 as int * (FP as int)) / 255 <= FP) by (nonlinear_arith)
            requires FP == 65536 && 0 <= px.1 <= 255;
        assert(0 <= (px.2 as int * (FP as int)) / 255 <= FP) by (nonlinear_arith)
            requires FP == 65536 && 0 <= px.2 <= 255;
    }
    Color { x, y, z }
}

} // verus!
