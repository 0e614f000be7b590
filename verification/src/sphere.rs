//! Ray-sphere intersection over exact integer arithmetic.

use vstd::prelude::*;
use crate::vec3::{Vec3, Point3, axis, in_range, spec_sub, spec_neg, spec_dot};
use crate::ray::{Ray, ray_wf, spec_at, at_scaled};
use crate::aabb::{AABBox, box_in_range, in_box_strict, spec_pad, spec_box_from_points,
    point_strictly_inside, lemma_interior_point_bounds, axis_interval_of};
use crate::interval::Interval;
use crate::math::{FP, MAX_COORD, RAY_LIMIT, T_LIMIT, spec_isqrt};
use crate::hittable::HitRecord;

verus! {

/// A sphere given by its center, radius and material handle.
#[derive(Clone, Copy, Debug, PartialEq, Eq, Structural)]
pub struct Sphere {
    pub center: Point3,
    pub radius: i64,
    pub mat: usize,
    pub bbox: AABBox,
}

/// A sphere the intersection routine accepts: bounded data, positive
/// radius, and the box its constructor builds.
pub open spec fn sphere_wf(s: Sphere) -> bool {
    &&& in_range(s.center, MAX_COORD as int)
    &&& 0 < s.radius <= MAX_COORD
    &&& s.bbox == spec_sphere_box(s.center, s.radius)
    &&& box_in_range(s.bbox, 2 * MAX_COORD as int + 2)
}

/// The padded box around `center` with half-width `radius + 1`. The one
/// unit of margin is deliberate: rounded hit points of rays through the
/// center land exactly on the sphere's tight box, and the acceptance
/// guard needs them strictly inside. The box therefore contains, and
/// slightly exceeds, the minimal box of the sphere.
pub open spec fn spec_sphere_box(center: Point3, radius: i64) -> AABBox {
    spec_pad(spec_box_from_points(
        Vec3 {
            x: (center.x - radius - 1) as i64,
            y: (center.y - radius - 1) as i64,
            z: (center.z - radius - 1) as i64,
        },
        Vec3 {
            x: (center.x + radius + 1) as i64,
            y: (center.y + radius + 1) as i64,
            z: (center.z + radius + 1) as i64,
        },
    ))
}

/// `t` lies strictly inside the window and the exact hit point lies
/// strictly inside the sphere's own box.
pub open spec fn sphere_accepts(s: Sphere, r: Ray, tmin: int, tmax: int, t: int) -> bool {
    tmin < t < tmax && in_box_strict(s.bbox, r, t)
}

/// The outward unit normal at grid point `p`, in fixed point:
/// `(p - center) * FP / radius`, rounded down per coordinate.
pub open spec fn spec_sphere_outward(s: Sphere, p: Point3) -> Vec3 {
    Vec3 {
        x: (((p.x - s.center.x) * (FP as int)) / (s.radius as int)) as i64,
        y: (((p.y - s.center.y) * (FP as int)) / (s.radius as int)) as i64,
        z: (((p.z - s.center.z) * (FP as int)) / (s.radius as int)) as i64,
    }
}

/// The quadrant of the pseudo-angle of `(x, y)`.
pub open spec fn diamond_q(x: int, y: int) -> int {
    if x > 0 && y >= 0 {
        0
    } else if x <= 0 && y > 0 {
        1
    } else if x < 0 && y <= 0 {
        2
    } else if x >= 0 && y < 0 {
        3
    } else {
        0
    }
}

/// Numerator of the fractional part of the pseudo-angle.
pub open spec fn diamond_num(x: int, y: int) -> int {
    if x > 0 && y >= 0 {
        y
    } else if x <= 0 && y > 0 {
        -x
    } else if x < 0 && y <= 0 {
        -y
    } else if x >= 0 && y < 0 {
        x
    } else {
        0
    }
}

/// Denominator of the fractional part of the pseudo-angle.
pub open spec fn diamond_den(x: int, y: int) -> int {
    if x > 0 && y >= 0 {
        x + y
    } else if x <= 0 && y > 0 {
        y - x
    } else if x < 0 && y <= 0 {
        -x - y
    } else if x >= 0 && y < 0 {
        x - y
    } else {
        1
    }
}

/// The fixed-point pseudo-angle of `(x, y)`, a rational stand-in for the
/// azimuth, measured from the negative `x` direction so that the seam
/// sits there: `(+x, 0)` maps to one half, `(0, -y)` to one quarter and
/// `(0, +y)` to three quarters of a turn, exactly as the arctangent
/// azimuth offset by half a turn does. Between those anchors the value
/// is piecewise linear rather than angular. In `[0, FP)`.
pub open spec fn spec_diamond_u(x: int, y: int) -> int {
    let val = diamond_q(x, y) * (FP as int) + (diamond_num(x, y) * (FP as int)) / diamond_den(
        x, y);
    let shifted = val + 2 * FP;
    let wrapped = if shifted >= 4 * FP {
        shifted - 4 * (FP as int)
    } else {
        shifted
    };
    wrapped / 4
}

/// Fixed-point surface coordinates from the outward normal: a rational
/// azimuth of `(x, -z)` and a latitude from the `y` component.
pub open spec fn spec_sphere_u(out: Vec3) -> int {
    spec_diamond_u(out.x as int, -out.z as int)
}

pub open spec fn spec_sphere_v(out: Vec3) -> int {
    let raw = (out.y + FP) / 2;
    if raw < 0 {
        0
    } else if raw > FP {
        FP as int
    } else {
        raw
    }
}

/// The record reported for a hit of `s` at parameter `t`.
pub open spec fn sphere_record(s: Sphere, r: Ray, t: int) -> HitRecord {
    let p = spec_at(r, t);
    let out = spec_sphere_outward(s, p);
    let ff = spec_dot(r.dir, out) < 0;
    HitRecord {
        p,
        normal: if ff {
            out
        } else {
            spec_neg(out)
        },
        mat: s.mat,
        t: t as i64,
        u: spec_sphere_u(out) as i64,
        v: spec_sphere_v(out) as i64,
        front_face: ff,
    }
}

/// The full intersection function: solve the quadratic exactly, round
/// the two roots down to the fixed-point grid, and report the nearer
/// acceptable root.
pub open spec fn sphere_hit_spec(s: Sphere, r: Ray, tmin: int, tmax: int) -> Option<HitRecord> {
    let oc = spec_sub(s.center, r.orig);
    let a = spec_dot(r.dir, r.dir);
    let h = spec_dot(r.dir, oc);
    let c = spec_dot(oc, oc) - s.radius * s.radius;
    let disc = h * h - a * c;
    if disc <= 0 {
        None
    } else {
        let sq = spec_isqrt(disc);
        let t1 = ((h - sq) * (FP as int)) / a;
        let t2 = ((h + sq) * (FP as int)) / a;
        if sphere_accepts(s, r, tmin, tmax, t1) {
            Some(sphere_record(s, r, t1))
        } else if sphere_accepts(s, r, tmin, tmax, t2) {
            Some(sphere_record(s, r, t2))
        } else {
            None
        }
    }
}

impl Sphere {
    pub fn new(center: Point3, radius: i64, mat: usize) -> (s: Sphere)
        requires
            in_range(center, MAX_COORD as int),
            0 < radius <= MAX_COORD,
        ensures
            s.center == center && s.radius == radius && s.mat == mat,
            sphere_wf(s),
    {
        let rvec = Vec3 { x: radius + 1, y: radius + 1, z: radius + 1 };
        let bbox = AABBox::new_from_points(&center.sub(&rvec), &center.add(&rvec));
        Sphere { center, radius, mat, bbox }
    }

    pub fn bounding_box(&self) -> (b: AABBox)
        ensures
            b == self.bbox,
    {
        self.bbox
    }

    /// Intersect `r` with the sphere inside the acceptance window. A
    /// root is accepted only when its exact point lies strictly inside
    /// the sphere's margined box; see `Hittable::hit` for why and for
    /// the grazing hits this can drop.
    pub fn hit(&self, r: &Ray, ray_t: &Interval) -> (res: Option<HitRecord>)
        requires
            sphere_wf(*self),
            ray_wf(*r, RAY_LIMIT as int),
            -T_LIMIT <= ray_t.min <= T_LIMIT,
            -T_LIMIT <= ray_t.max <= T_LIMIT,
        ensures
            res == sphere_hit_spec(*self, *r, ray_t.min as int, ray_t.max as int),
    {
        let oc = self.center.sub(&r.orig);
        let a: i128 = r.dir.length_squared();
        let h: i128 = r.dir.dot(&oc);
        proof {
            crate::vec3::lemma_mul_bound(self.radius as int, self.radius as int, MAX_COORD as int);
            crate::vec3::lemma_dot_bound(spec_sub(self.center, r.orig),
                spec_sub(self.center, r.orig),
                RAY_LIMIT as int + MAX_COORD as int, RAY_LIMIT as int + MAX_COORD as int);
        }
        let c: i128 = oc.dot(&oc) - (self.radius as i128) * (self.radius as i128);
        proof {
            let bo: int = RAY_LIMIT as int + MAX_COORD as int;
            crate::vec3::lemma_dot_bound(r.dir, r.dir, RAY_LIMIT as int, RAY_LIMIT as int);
            crate::vec3::lemma_dot_bound(r.dir, spec_sub(self.center, r.orig),
                RAY_LIMIT as int, bo);
            crate::vec3::lemma_dot_bound(spec_sub(self.center, r.orig),
                spec_sub(self.center, r.orig), bo, bo);
            crate::vec3::lemma_mul_bound(self.radius as int, self.radius as int, MAX_COORD as int);
            crate::vec3::lemma_mul_bound2(h as int, h as int,
                3 * ((RAY_LIMIT as int) * bo), 3 * ((RAY_LIMIT as int) * bo));
            crate::vec3::lemma_mul_bound2(a as int, c as int,
                3 * ((RAY_LIMIT as int) * (RAY_LIMIT as int)),
                3 * (bo * bo) + (MAX_COORD as int) * (MAX_COORD as int));
            crate::vec3::lemma_dot_self_pos(r.dir);
            assert(3 * ((RAY_LIMIT as int) * bo) * (3 * ((RAY_LIMIT as int) * bo))
                < 0x4000_0000_0000_0000_0000_0000_0000) by (nonlinear_arith)
                requires RAY_LIMIT == 67108864 && bo == 67108864 + 65536;
            assert(3 * ((RAY_LIMIT as int) * (RAY_LIMIT as int))
                * (3 * (bo * bo) + (MAX_COORD as int) * (MAX_COORD as int))
                < 0x4000_0000_0000_0000_0000_0000_0000) by (nonlinear_arith)
                requires RAY_LIMIT == 67108864 && MAX_COORD == 65536 && bo == 67108864 + 65536;
        }
        let disc: i128 = h * h - a * c;
        if disc <= 0 {
            return None;
        }
        let sq = crate::math::isqrt(disc);
        let t1 = crate::math::div_floor((h - sq) * 65536, a);
        proof {
            assert((h - sq) * 65536 == (h - sq) * (FP as int)) by (nonlinear_arith)
                requires FP == 65536;
        }
        if (t1 > ray_t.min as i128) && (t1 < ray_t.max as i128) {
            let t1s = t1 as i64;
            if point_strictly_inside(&self.bbox, r, t1s) {
                return Some(self.make_record(r, t1s));
            }
        }
        let t2 = crate::math::div_floor((h + sq) * 65536, a);
        proof {
            assert((h + sq) * 65536 == (h + sq) * (FP as int)) by (nonlinear_arith)
                requires FP == 65536;
        }
        if (t2 > ray_t.min as i128) && (t2 < ray_t.max as i128) {
            let t2s = t2 as i64;
            if point_strictly_inside(&self.bbox, r, t2s) {
                return Some(self.make_record(r, t2s));
            }
        }
        None
    }

    /// Builds the hit record for an accepted parameter `t`.
    fn make_record(&self, r: &Ray, t: i64) -> (rec: HitRecord)
        requires
            sphere_wf(*self),
            ray_wf(*r, RAY_LIMIT as int),
            -T_LIMIT < t < T_LIMIT,
            in_box_strict(self.bbox, *r, t as int),
        ensures
            rec == sphere_record(*self, *r, t as int),
    {
        proof {
            lemma_interior_point_bounds(self.bbox, *r, t as int);
            assert(axis_interval_of(self.bbox, 0).min <= at_scaled(*r, t as int, 0) / (FP as int)
                <= axis_interval_of(self.bbox, 0).max);
            assert(axis_interval_of(self.bbox, 1).min <= at_scaled(*r, t as int, 1) / (FP as int)
                <= axis_interval_of(self.bbox, 1).max);
            assert(axis_interval_of(self.bbox, 2).min <= at_scaled(*r, t as int, 2) / (FP as int)
                <= axis_interval_of(self.bbox, 2).max);
        }
        let p = r.at(t);
        let out = self.outward_at(&p);
        let ffd = r.dir.dot(&out);
        let ff = ffd < 0;
        let normal = if ff { out } else { out.neg() };
        let (u, v) = sphere_uv(&out);
        HitRecord { p, normal, mat: self.mat, t, u, v, front_face: ff }
    }

    /// `(p - center) * FP / radius`, rounded down per coordinate.
    fn outward_at(&self, p: &Point3) -> (out: Vec3)
        requires
            sphere_wf(*self),
            in_range(*p, 2 * MAX_COORD as int + 2),
        ensures
            out == spec_sphere_outward(*self, *p),
            in_range(out, 4 * (MAX_COORD as int) * (FP as int)),
    {
        let x = outward_coord(p.x, self.center.x, self.radius);
        let y = outward_coord(p.y, self.center.y, self.radius);
        let z = outward_coord(p.z, self.center.z, self.radius);
        Vec3 { x, y, z }
    }
}

/// One coordinate of the outward normal.
fn outward_coord(p: i64, c: i64, radius: i64) -> (o: i64)
    requires
        -2 * MAX_COORD - 2 <= p <= 2 * MAX_COORD + 2,
        -MAX_COORD <= c <= MAX_COORD,
        0 < radius <= MAX_COORD,
    ensures
        o == ((p - c) * (FP as int)) / (radius as int),
        -4 * (MAX_COORD as int) * (FP as int) <= o <= 4 * (MAX_COORD as int) * (FP as int),
{
    let num: i128 = ((p as i128) - (c as i128)) * 65536;
    proof {
        assert(num == (p - c) * (FP as int)) by (nonlinear_arith)
            requires FP == 65536 && num == (p - c) * 65536;
    }
    let q = crate::math::div_floor(num, radius as i128);
    proof {
        crate::math::lemma_div_bounds(num as int, radius as int);
        assert(-4 * (MAX_COORD as int) * (FP as int) <= q <= 4 * (MAX_COORD as int) * (FP as int))
            by (nonlinear_arith)
            requires
                MAX_COORD == 65536,
                FP == 65536,
                0 < radius,
                (radius as int) * q <= num < (radius as int) * (q + 1),
                -(4 * 65536 * 65536) <= num <= 4 * 65536 * 65536,
                1 <= radius as int;
    }
    q as i64
}

/// Fixed-point surface coordinates from the outward normal.
pub fn sphere_uv(out: &Vec3) -> (uv: (i64, i64))
    requires
        in_range(*out, 0x100_0000_0000),
    ensures
        uv.0 == spec_sphere_u(*out),
        uv.1 == spec_sphere_v(*out),
        0 <= uv.0 <= FP,
        0 <= uv.1 <= FP,
{
    let u = diamond_u(out.x, -out.z);
    let raw = (out.y + FP) / 2;
    let v = if raw < 0 {
        0
    } else if raw > FP {
        FP
    } else {
        raw
    };
    (u, v)
}

/// The fixed-point pseudo-angle of `(x, y)`.
fn diamond_u(x: i64, y: i64) -> (u: i64)
    requires
        -0x100_0000_0000 <= x <= 0x100_0000_0000,
        -0x100_0000_0000 <= y <= 0x100_0000_0000,
    ensures
        u == spec_diamond_u(x as int, y as int),
        0 <= u <= FP,
{
    let (q, num, den): (i64, i128, i128) = if x > 0 && y >= 0 {
        (0, y as i128, x as i128 + y as i128)
    } else if x <= 0 && y > 0 {
        (1, -(x as i128), y as i128 - x as i128)
    } else if x < 0 && y <= 0 {
        (2, -(y as i128), -(x as i128) - y as i128)
    } else if x >= 0 && y < 0 {
        (3, x as i128, x as i128 - y as i128)
    } else {
        (0, 0, 1)
    };
    let frac = crate::math::div_floor(num * 65536, den);
    proof {
        assert(num * 65536 == diamond_num(x as int, y as int) * (FP as int)) by (nonlinear_arith)
            requires FP == 65536 && num == diamond_num(x as int, y as int);
        crate::math::lemma_div_bounds(num as int * (FP as int), den as int);
        assert(0 <= frac <= FP) by (nonlinear_arith)
            requires
                FP == 65536,
                0 <= num <= den,
                (den as int) * frac <= num * (FP as int) < (den as int) * (frac + 1);
    }
    let combined = (q as i128) * 65536 + frac;
    proof {
        assert((q as i128) * 65536 == diamond_q(x as int, y as int) * (FP as int))
            by (nonlinear_arith)
            requires FP == 65536 && q == diamond_q(x as int, y as int);
    }
    let shifted = combined + 2 * 65536;
    let wrapped = if shifted >= 4 * 65536 {
        shifted - 4 * 65536
    } else {
        shifted
    };
    let u = crate::math::div_floor(wrapped, 4);
    proof {
        crate::math::lemma_div_bounds(wrapped as int, 4);
    }
    u as i64
}

} // verus!
