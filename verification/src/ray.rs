//! Rays: an integer origin plus an integer direction, parametrized by a
//! fixed-point `t` with scale [`FP`].

use vstd::prelude::*;
use crate::vec3::{Vec3, Point3, axis, in_range};
use crate::math::FP;

verus! {

#[derive(Clone, Copy, Debug, PartialEq, Eq, Structural)]
pub struct Ray {
    pub orig: Point3,
    pub dir: Vec3,
}

/// The position along `r` at parameter `t`, on axis `a`, scaled by `FP`:
/// `orig * FP + t * dir`. Exact, no rounding.
pub open spec fn at_scaled(r: Ray, t: int, a: int) -> int {
    axis(r.orig, a) * (FP as int) + t * axis(r.dir, a)
}

/// A ray the intersection routines accept: coordinates bounded by `b`
/// and a direction that is not the zero vector.
pub open spec fn ray_wf(r: Ray, b: int) -> bool {
    &&& in_range(r.orig, b)
    &&& in_range(r.dir, b)
    &&& !(r.dir.x == 0 && r.dir.y == 0 && r.dir.z == 0)
}

/// The grid point of `r` at parameter `t`: each coordinate rounded down.
pub open spec fn spec_at(r: Ray, t: int) -> Point3 {
    Point3 {
        x: (at_scaled(r, t, 0) / (FP as int)) as i64,
        y: (at_scaled(r, t, 1) / (FP as int)) as i64,
        z: (at_scaled(r, t, 2) / (FP as int)) as i64,
    }
}

impl Ray {
    pub fn new(orig: Point3, dir: Vec3) -> (r: Ray)
        ensures
            r == (Ray { orig, dir }),
    {
        Ray { orig, dir }
    }

    pub fn origin(&self) -> (o: Point3)
        ensures
            o == self.orig,
    {
        self.orig
    }

    pub fn direction(&self) -> (d: Vec3)
        ensures
            d == self.dir,
    {
        self.dir
    }

    /// The point at parameter `t`, rounded down to grid coordinates.
    pub fn at(&self, t: i64) -> (p: Point3)
        requires
            in_range(self.orig, 0x100_0000_0000),
            in_range(self.dir, 0x800_0000),
            -0x100_0000_0000 <= t <= 0x100_0000_0000,
        ensures
            p.x == at_scaled(*self, t as int, 0) / (FP as int),
            p.y == at_scaled(*self, t as int, 1) / (FP as int),
            p.z == at_scaled(*self, t as int, 2) / (FP as int),
    {
        let x = at_axis_inner(t, self.orig.x, self.dir.x);
        let y = at_axis_inner(t, self.orig.y, self.dir.y);
        let z = at_axis_inner(t, self.orig.z, self.dir.z);
        Point3 { x, y, z }
    }
}

fn at_axis_inner(t: i64, o: i64, d: i64) -> (c: i64)
    requires
        -0x100_0000_0000 <= o <= 0x100_0000_0000,
        -0x800_0000 <= d <= 0x800_0000,
        -0x100_0000_0000 <= t <= 0x100_0000_0000,
    ensures
        c == (o * (FP as int) + t * d) / (FP as int),
{
    proof {
        assert(-0x8_0000_0000_0000_0000 <= (t as int) * (d as int) <= 0x8_0000_0000_0000_0000)
            by (nonlinear_arith)
            requires
                -0x800_0000 <= d <= 0x800_0000 && -0x100_0000_0000 <= t <= 0x100_0000_0000;
    }
    let scaled: i128 = (o as i128) * 65536 + (t as i128) * (d as i128);
    let q = crate::math::div_floor(scaled, 65536);
    proof {
        let s = scaled as int;
        assert(s == o * (FP as int) + t * d) by (nonlinear_arith)
            requires
                FP == 65536 && s == o * 65536 + t * d;
        crate::math::lemma_div_bounds(s, FP as int);
        assert(-0x9_0000_0000_0000_0000 <= s <= 0x9_0000_0000_0000_0000);
        assert((FP as int) * q <= s < (FP as int) * (q + 1));
        assert(-0x10_0000_0000_0000 <= q <= 0x10_0000_0000_0000) by (nonlinear_arith)
            requires
                FP == 65536,
                (FP as int) * q <= s < (FP as int) * (q + 1),
                -0x9_0000_0000_0000_0000 <= s <= 0x9_0000_0000_0000_0000;
    }
    q as i64
}

} // verus!
