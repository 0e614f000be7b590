//! Randomness for sampling: one trusted view of the outside generator,
//! and verified reductions to the ranges and vectors sampling needs.

use vstd::prelude::*;
use crate::vec3::{Vec3, in_range};
use crate::math::FP;

verus! {

/// Relies on rand's `random`: a value drawn from the thread-local
/// generator. Nothing can be promised of a random value.
pub assume_specification<T>[ rand::random::<T> ]() -> (r: T)
    where
        rand::distributions::Standard: rand::distributions::Distribution<T>,
;

/// A fresh random machine word.
fn random_u64() -> u64 {
    rand::random::<u64>()
}

/// A random fixed-point value in `[lo, hi)`.
pub fn random_range_fp(lo: i64, hi: i64) -> (r: i64)
    requires
        lo < hi,
        -FP * 4 <= lo,
        hi <= FP * 4,
    ensures
        lo <= r < hi,
{
    let span = (hi - lo) as u64;
    let raw = random_u64() % span;
    lo + (raw as i64)
}

/// A random vector of unit-ish length: coordinates in `[-FP, FP]`,
/// squared length within four grid steps of one, and not zero. The
/// rejection loop of the usual unit-sphere sampler, with a bounded
/// number of tries and an axis fallback.
pub fn random_unit_vector() -> (v: Vec3)
    ensures
        in_range(v, FP as int),
        (FP - 4) * (FP - 4) <= crate::vec3::spec_dot(v, v) <= (FP + 4) * (FP + 4),
        !(v.x == 0 && v.y == 0 && v.z == 0),
{
    let mut tries: u32 = 0;
    while tries < 64
        invariant
            tries <= 64,
        decreases 64 - tries,
    {
        let x = random_range_fp(-FP, FP);
        let y = random_range_fp(-FP, FP);
        let z = random_range_fp(-FP, FP);
        let p = Vec3 { x, y, z };
        let len_sq = p.length_squared();
        proof {
            assert(65536int * 65536 == 0x1_0000_0000) by (nonlinear_arith);
        }
        if 0 < len_sq && len_sq <= 0x1_0000_0000 {
            proof {
                crate::vec3::lemma_square_nonneg(p.x as int);
                crate::vec3::lemma_square_nonneg(p.y as int);
                crate::vec3::lemma_square_nonneg(p.z as int);
            }
            let ln = crate::math::isqrt(len_sq);
            proof {
                if ln == 0 {
                    assert((ln as int + 1) * (ln as int + 1) == 1) by (nonlinear_arith)
                        requires ln == 0;
                    assert(false);
                }
            }
            let ux = unit_div(p.x, ln, len_sq);
            let uy = unit_div(p.y, ln, len_sq);
            let uz = unit_div(p.z, ln, len_sq);
            let u = Vec3 { x: ux, y: uy, z: uz };
            let ul = u.length_squared();
            let env_lo: i128 = ((FP - 4) as i128) * ((FP - 4) as i128);
            let env_hi: i128 = ((FP + 4) as i128) * ((FP + 4) as i128);
            if env_lo <= ul && ul <= env_hi && !(ux == 0 && uy == 0 && uz == 0) {
                return u;
            }
        }
        tries += 1;
    }
    proof {
        lemma_axis_is_unit();
    }
    Vec3 { x: 0, y: FP, z: 0 }
}

/// The fallback axis vector has squared length exactly one.
proof fn lemma_axis_is_unit()
    ensures
        ({
            let v = Vec3 { x: 0i64, y: FP, z: 0i64 };
            (FP - 4) * (FP - 4) <= crate::vec3::spec_dot(v, v) <= (FP + 4) * (FP + 4)
        }),
{
    let v = Vec3 { x: 0i64, y: FP, z: 0i64 };
    assert(crate::vec3::spec_dot(v, v) == v.x * v.x + v.y * v.y + v.z * v.z);
    assert(v.x * v.x == 0 && v.z * v.z == 0 && v.y * v.y == 65536int * 65536)
        by (nonlinear_arith)
        requires v.x == 0 && v.z == 0 && v.y == 65536;
    assert((FP - 4) * (FP - 4) <= 65536int * 65536 <= (FP + 4) * (FP + 4))
        by (nonlinear_arith)
        requires FP == 65536;
}

/// `(c * FP) / ln` for a coordinate of a vector of squared length
/// `len_sq`, staying within `[-FP - 1, FP]`.
fn unit_div(c: i64, ln: i128, len_sq: i128) -> (o: i64)
    requires
        -FP <= c <= FP,
        0 < ln < 0x100_0000_0000_0000,
        crate::math::is_isqrt(len_sq as int, ln as int),
        c * c <= len_sq,
    ensures
        -FP <= o <= FP,
{
    proof {
        assert(-(ln as int) <= c <= ln as int) by (nonlinear_arith)
            requires
                0 < ln,
                c * c <= len_sq,
                len_sq < (ln as int + 1) * (ln as int + 1);
        assert(-(ln as int) * 65536 <= c * 65536 <= (ln as int) * 65536) by (nonlinear_arith)
            requires -(ln as int) <= c <= ln as int && 0 < ln;
    }
    let q = crate::math::div_floor((c as i128) * 65536, ln);
    proof {
        crate::math::lemma_div_bounds(c as int * 65536, ln as int);
        assert(-65537 <= q <= 65536) by (nonlinear_arith)
            requires
                0 < ln,
                (ln as int) * q <= c * 65536 < (ln as int) * (q + 1),
                -(ln as int) * 65536 <= c * 65536 <= (ln as int) * 65536;
        assert(FP == 65536);
    }
    if q < -65536 {
        -65536
    } else {
        q as i64
    }
}

/// A random point in the unit disk of the `xy` plane, used for the
/// defocus aperture: the usual rejection loop over the enclosing
/// square, with a bounded number of tries and the center as fallback.
pub fn random_in_unit_disk() -> (v: Vec3)
    ensures
        in_range(v, FP as int),
        crate::vec3::spec_dot(v, v) <= (FP as int) * (FP as int),
        v.z == 0,
{
    let mut tries: u32 = 0;
    while tries < 64
        invariant
            tries <= 64,
        decreases 64 - tries,
    {
        let x = random_range_fp(-FP, FP);
        let y = random_range_fp(-FP, FP);
        proof {
            crate::vec3::lemma_mul_bound(x as int, x as int, FP as int);
            crate::vec3::lemma_mul_bound(y as int, y as int, FP as int);
        }
        if x * x + y * y <= FP * FP {
            let v = Vec3 { x, y, z: 0 };
            proof {
                assert(crate::vec3::spec_dot(v, v) == x * x + y * y) by (nonlinear_arith)
                    requires v.x == x && v.y == y && v.z == 0;
            }
            return v;
        }
        tries += 1;
    }
    proof {
        let v = Vec3 { x: 0i64, y: 0i64, z: 0i64 };
        assert(crate::vec3::spec_dot(v, v) == v.x * v.x + v.y * v.y + v.z * v.z);
        assert(v.x * v.x == 0 && v.y * v.y == 0 && v.z * v.z == 0) by (nonlinear_arith)
            requires v.x == 0 && v.y == 0 && v.z == 0;
    }
    Vec3 { x: 0, y: 0, z: 0 }
}

/// A random fixed-point value in `[0, FP)`, for branching decisions.
pub fn random_fp() -> (r: i64)
    ensures
        0 <= r < FP,
{
    random_range_fp(0, FP)
}

} // verus!
