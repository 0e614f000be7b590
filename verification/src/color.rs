//! Fixed-point color arithmetic and the conversion of a pixel color to
//! output bytes: square-root gamma, intensity clamp, byte scaling.

use vstd::prelude::*;
use crate::vec3::{Vec3, Color, in_range};
use crate::math::{FP, spec_isqrt, is_isqrt};

verus! {

/// Upper end of the intensity clamp before byte conversion.
pub const INTENSITY_MAX: i64 = 65470;

pub open spec fn black() -> Color {
    Color { x: 0i64, y: 0i64, z: 0i64 }
}

/// Channels of `c` lie within `[0, limit]`.
pub open spec fn color_in_range(c: Color, limit: int) -> bool {
    0 <= c.x <= limit && 0 <= c.y <= limit && 0 <= c.z <= limit
}

/// Componentwise fixed-point product: `(a * b) / FP` per channel.
pub open spec fn spec_mul_color(a: Color, b: Color) -> Color {
    Color {
        x: ((a.x * b.x) / (FP as int)) as i64,
        y: ((a.y * b.y) / (FP as int)) as i64,
        z: ((a.z * b.z) / (FP as int)) as i64,
    }
}

/// Componentwise sum.
pub open spec fn spec_add_color(a: Color, b: Color) -> Color {
    Color { x: (a.x + b.x) as i64, y: (a.y + b.y) as i64, z: (a.z + b.z) as i64 }
}

/// A fully absorptive attenuation wipes out any deeper contribution.
pub proof fn lemma_absorb_black(c: Color)
    ensures
        spec_mul_color(black(), c) == black(),
{
    assert(0 * c.x == 0 && 0 * c.y == 0 && 0 * c.z == 0) by (nonlinear_arith);
    assert(0int / (FP as int) == 0);
}

/// A bounce through a fully absorptive attenuation contributes nothing:
/// whatever the deeper radiance, only the emission remains.
pub proof fn lemma_absorbed_bounce_is_black(emitted: Color, deeper: Color)
    ensures
        spec_add_color(emitted, spec_mul_color(black(), deeper)) == emitted,
{
    lemma_absorb_black(deeper);
}

/// Componentwise fixed-point product.
pub fn mul_color(a: &Color, b: &Color) -> (c: Color)
    requires
        in_range(*a, FP as int),
        in_range(*b, 0x8_0000_0000_0000),
    ensures
        c == spec_mul_color(*a, *b),
        forall|limit: int| color_in_range(*a, FP as int) && color_in_range(*b, limit)
            && limit <= 0x8_0000_0000_0000 ==> color_in_range(c, limit),
{
    let x = mul_channel(a.x, b.x);
    let y = mul_channel(a.y, b.y);
    let z = mul_channel(a.z, b.z);
    Color { x, y, z }
}

/// One channel of the fixed-point product; nonnegative inputs give a
/// result between zero and either input.
fn mul_channel(a: i64, b: i64) -> (c: i64)
    requires
        -FP <= a <= FP,
        -0x8_0000_0000_0000 <= b <= 0x8_0000_0000_0000,
    ensures
        c == ((a * b) / (FP as int)) as i64,
        0 <= a && 0 <= b ==> 0 <= c && (a <= FP ==> c <= b),
{
    proof {
        crate::vec3::lemma_mul_bound2(a as int, b as int, FP as int, 0x8_0000_0000_0000);
    }
    let prod: i128 = (a as i128) * (b as i128);
    let q = crate::math::div_floor(prod, 65536);
    proof {
        assert(prod / 65536 == (a * b) / (FP as int)) by {
            assert(FP == 65536);
        }
        crate::math::lemma_div_bounds(prod as int, 65536);
        assert(-0x8_0000_0000_0000 <= q <= 0x8_0000_0000_0000) by (nonlinear_arith)
            requires
                FP == 65536,
                65536 * q <= prod < 65536 * (q + 1),
                -(65536int * 0x8_0000_0000_0000) <= prod <= 65536int * 0x8_0000_0000_0000;
        if 0 <= a && 0 <= b {
            assert(0 <= q && (a <= FP ==> q <= b)) by (nonlinear_arith)
                requires
                    FP == 65536,
                    0 <= a,
                    0 <= b,
                    prod == a * b,
                    65536 * q <= prod < 65536 * (q + 1);
        }
    }
    q as i64
}

/// Componentwise sum.
pub fn add_color(a: &Color, b: &Color) -> (c: Color)
    requires
        in_range(*a, 0x1000_0000_0000_0000),
        in_range(*b, 0x1000_0000_0000_0000),
    ensures
        c == spec_add_color(*a, *b),
{
    Color { x: a.x + b.x, y: a.y + b.y, z: a.z + b.z }
}

/// Square-root gamma on one nonnegative fixed-point channel:
/// the root of `x * FP`, which is `sqrt(x / FP) * FP` rounded down.
pub fn linear_to_gamma(x: i64) -> (g: i64)
    requires
        x <= 0x40_0000_0000_0000,
    ensures
        x > 0 ==> g == spec_isqrt(x * (FP as int)),
        x <= 0 ==> g == 0,
        0 <= g <= 0x100_0000_0000,
{
    if x > 0 {
        proof {
            assert(x as i128 * 65536 == x * (FP as int)) by (nonlinear_arith)
                requires FP == 65536;
        }
        let g = crate::math::isqrt((x as i128) * 65536);
        proof {
            assert(g * g <= x * (FP as int) < (g + 1) * (g + 1));
            assert(g <= 0x100_0000_0000) by (nonlinear_arith)
                requires
                    0 <= g,
                    g * g <= 0x40_0000_0000_0000 * 65536;
        }
        g as i64
    } else {
        0
    }
}

/// The gamma-corrected, clamped byte value of one channel.
pub open spec fn spec_channel_byte(x: i64) -> int {
    let g = if x > 0 {
        spec_isqrt(x * (FP as int))
    } else {
        0
    };
    let clamped = if g < 0 {
        0
    } else if g > INTENSITY_MAX {
        INTENSITY_MAX as int
    } else {
        g
    };
    clamped * 256 / (FP as int)
}

/// One channel to a byte: gamma, clamp into `[0, INTENSITY_MAX]`, then
/// scale to `[0, 255]`.
pub fn channel_byte(x: i64) -> (b: u8)
    requires
        x <= 0x40_0000_0000_0000,
    ensures
        b == spec_channel_byte(x),
{
    let g = linear_to_gamma(x);
    let clamped = if g < 0 {
        0
    } else if g > INTENSITY_MAX {
        INTENSITY_MAX
    } else {
        g
    };
    let b = (clamped * 256) / FP;
    proof {
        crate::math::lemma_div_bounds(clamped as int * 256, FP as int);
        assert(0 <= (clamped * 256) / (FP as int) < 256) by (nonlinear_arith)
            requires
                FP == 65536,
                0 <= clamped <= 65470,
                (FP as int) * ((clamped * 256) / (FP as int)) <= clamped * 256
                    < (FP as int) * ((clamped * 256) / (FP as int) + 1);
    }
    b as u8
}

/// The three bytes written for a pixel color.
pub fn color_to_bytes(c: &Color) -> (bytes: (u8, u8, u8))
    requires
        c.x <= 0x40_0000_0000_0000,
        c.y <= 0x40_0000_0000_0000,
        c.z <= 0x40_0000_0000_0000,
    ensures
        bytes.0 == spec_channel_byte(c.x),
        bytes.1 == spec_channel_byte(c.y),
        bytes.2 == spec_channel_byte(c.z),
{
    (channel_byte(c.x), channel_byte(c.y), channel_byte(c.z))
}

} // verus!
