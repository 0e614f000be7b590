//! The closed sum of everything a ray can hit: leaf geometry, the two
//! rigid transforms, and the interior node of the bounding-volume
//! hierarchy, with one deterministic intersection specification.

use vstd::prelude::*;
use crate::vec3::{Vec3, Point3, axis, in_range, spec_add, spec_sub, spec_dot};
use crate::ray::{Ray, ray_wf, spec_at, at_scaled};
use crate::aabb::{AABBox, box_in_range, box_contains_box, box_hit_spec, in_box_strict,
    point_strictly_inside, spec_pad, spec_box_from_points};
use crate::interval::Interval;
use crate::math::{FP, MAX_COORD, RAY_LIMIT, T_LIMIT, INF_COORD};
use crate::sphere::{Sphere, sphere_wf, sphere_hit_spec};
use crate::quad::{Quad, quad_wf, quad_hit_spec};
use crate::triangle::{Triangle, triangle_wf, triangle_hit_spec};

verus! {

/// The output of a successful intersection: the rounded hit point, the
/// fixed-point surface normal oriented against the ray, the material
/// handle, the fixed-point ray parameter `t`, the fixed-point surface
/// coordinates, and whether the ray met the outward-facing side.
#[derive(Clone, Copy, Debug, PartialEq, Eq, Structural)]
pub struct HitRecord {
    pub p: Point3,
    pub normal: Vec3,
    pub mat: usize,
    pub t: i64,
    pub u: i64,
    pub v: i64,
    pub front_face: bool,
}

/// An exact rational rotation about the y axis: the sine and cosine are
/// `s / d` and `c / d` with `s^2 + c^2 == d^2`.
#[derive(Clone, Copy, Debug, PartialEq, Eq, Structural)]
pub struct Rotation {
    pub s: i64,
    pub c: i64,
    pub d: i64,
}

pub open spec fn rotation_wf(rot: Rotation) -> bool {
    &&& rot.s * rot.s + rot.c * rot.c == rot.d * rot.d
    &&& 0 < rot.d <= FP
    &&& -rot.d <= rot.s <= rot.d
    &&& -rot.d <= rot.c <= rot.d
}

impl Rotation {
    /// A rotation from an exact Pythagorean triple.
    pub fn new(s: i64, c: i64, d: i64) -> (rot: Rotation)
        requires
            s * s + c * c == d * d,
            0 < d <= FP,
        ensures
            rot == (Rotation { s, c, d }),
            rotation_wf(rot),
    {
        proof {
            assert(-d <= s <= d && -d <= c <= d) by (nonlinear_arith)
                requires s * s + c * c == d * d && 0 < d;
        }
        Rotation { s, c, d }
    }

    /// The rotation by angle zero.
    pub fn identity() -> (rot: Rotation)
        ensures
            rot == (Rotation { s: 0i64, c: 1i64, d: 1i64 }),
            rotation_wf(rot),
    {
        Rotation { s: 0, c: 1, d: 1 }
    }
}

/// The world-to-object rotation of one vector, rounded down.
pub open spec fn spec_rot_inv(rot: Rotation, v: Vec3) -> Vec3 {
    Vec3 {
        x: ((rot.c * v.x - rot.s * v.z) / (rot.d as int)) as i64,
        y: v.y,
        z: ((rot.s * v.x + rot.c * v.z) / (rot.d as int)) as i64,
    }
}

/// The object-to-world rotation of one vector, rounded down.
pub open spec fn spec_rot_fwd(rot: Rotation, v: Vec3) -> Vec3 {
    Vec3 {
        x: ((rot.c * v.x + rot.s * v.z) / (rot.d as int)) as i64,
        y: v.y,
        z: ((-rot.s * v.x + rot.c * v.z) / (rot.d as int)) as i64,
    }
}

/// A box shifted by an offset.
pub open spec fn spec_shift_box(b: AABBox, off: Vec3) -> AABBox {
    AABBox {
        x: crate::interval::Interval {
            min: (b.x.min + off.x) as i64,
            max: (b.x.max + off.x) as i64,
        },
        y: crate::interval::Interval {
            min: (b.y.min + off.y) as i64,
            max: (b.y.max + off.y) as i64,
        },
        z: crate::interval::Interval {
            min: (b.z.min + off.z) as i64,
            max: (b.z.max + off.z) as i64,
        },
    }
}

/// Everything a ray can be tested against.
pub enum Hittable {
    Sphere(Sphere),
    Quad(Quad),
    Triangle(Triangle),
    Translate { object: Box<Hittable>, offset: Vec3, bbox: AABBox },
    RotateY { object: Box<Hittable>, rot: Rotation, bbox: AABBox },
    Node { left: Box<Hittable>, right: Box<Hittable>, bbox: AABBox },
}

/// The stored bounding box of any object.
pub open spec fn bbox_of(h: Hittable) -> AABBox {
    match h {
        Hittable::Sphere(s) => s.bbox,
        Hittable::Quad(q) => q.bbox,
        Hittable::Triangle(t) => t.bbox,
        Hittable::Translate { bbox, .. } => bbox,
        Hittable::RotateY { bbox, .. } => bbox,
        Hittable::Node { bbox, .. } => bbox,
    }
}

/// The largest coordinate magnitude of rays this object accepts: leaf
/// geometry takes `RAY_LIMIT`; each transform needs headroom to move the
/// ray into object space. A rotation halves the bound, so a scene whose
/// camera and scattered rays use the full [`MIN_RAY_BOUND`] supports at
/// most two rotations along any one path of wrappers; deeper nestings
/// make the intersection precondition unsatisfiable rather than wrong.
pub open spec fn ray_bound(h: Hittable) -> int
    decreases h,
{
    match h {
        Hittable::Sphere(_) => RAY_LIMIT as int,
        Hittable::Quad(_) => RAY_LIMIT as int,
        Hittable::Triangle(_) => RAY_LIMIT as int,
        Hittable::Translate { object, .. } => ray_bound(*object) - MAX_COORD as int,
        Hittable::RotateY { object, .. } => (ray_bound(*object) - 1) / 2,
        Hittable::Node { left, right, .. } => if ray_bound(*left) <= ray_bound(*right) {
            ray_bound(*left)
        } else {
            ray_bound(*right)
        },
    }
}

/// Well-formed scene data: bounded leaf geometry, transforms with the
/// boxes their constructors build, and hierarchy nodes whose boxes
/// contain their children's.
pub open spec fn hittable_wf(h: Hittable) -> bool
    decreases h,
{
    match h {
        Hittable::Sphere(s) => sphere_wf(s),
        Hittable::Quad(q) => quad_wf(q),
        Hittable::Triangle(t) => triangle_wf(t),
        Hittable::Translate { object, offset, bbox } => {
            &&& hittable_wf(*object)
            &&& in_range(offset, MAX_COORD as int)
            &&& box_in_range(bbox_of(*object), INF_COORD as int - MAX_COORD as int)
            &&& bbox == spec_shift_box(bbox_of(*object), offset)
        },
        Hittable::RotateY { object, rot, bbox } => {
            &&& hittable_wf(*object)
            &&& rotation_wf(rot)
            &&& box_in_range(bbox, INF_COORD as int)
        },
        Hittable::Node { left, right, bbox } => {
            &&& hittable_wf(*left)
            &&& hittable_wf(*right)
            &&& box_contains_box(bbox, bbox_of(*left))
            &&& box_contains_box(bbox, bbox_of(*right))
            &&& box_in_range(bbox, INF_COORD as int)
        },
    }
}

/// Every hierarchy node's box is exactly the union of its children's
/// boxes, all the way down.
pub open spec fn node_boxes_are_unions(h: Hittable) -> bool
    decreases h,
{
    match h {
        Hittable::Node { left, right, bbox } => {
            &&& bbox == crate::aabb::spec_box_union(bbox_of(*left), bbox_of(*right))
            &&& node_boxes_are_unions(*left)
            &&& node_boxes_are_unions(*right)
        },
        _ => true,
    }
}

/// The objects a ray is ultimately tested against: hierarchy nodes
/// dissolve into their children, everything else stands for itself.
pub open spec fn leaves(h: Hittable) -> Seq<Hittable>
    decreases h,
{
    match h {
        Hittable::Node { left, right, .. } => leaves(*left) + leaves(*right),
        _ => seq![h],
    }
}

/// The deterministic intersection function: what `Hittable::hit`
/// computes, for every variant.
pub open spec fn hit_spec(h: Hittable, r: Ray, tmin: int, tmax: int) -> Option<HitRecord>
    decreases h,
{
    match h {
        Hittable::Sphere(s) => sphere_hit_spec(s, r, tmin, tmax),
        Hittable::Quad(q) => quad_hit_spec(q, r, tmin, tmax),
        Hittable::Triangle(t) => triangle_hit_spec(t, r, tmin, tmax),
        Hittable::Translate { object, offset, .. } => {
            let shifted = Ray { orig: spec_sub(r.orig, offset), dir: r.dir };
            match hit_spec(*object, shifted, tmin, tmax) {
                None => None,
                Some(rec) => Some(HitRecord { p: spec_add(rec.p, offset), ..rec }),
            }
        },
        Hittable::RotateY { object, rot, bbox } => {
            let o2 = spec_rot_inv(rot, r.orig);
            let d2 = spec_rot_inv(rot, r.dir);
            if d2.x == 0 && d2.y == 0 && d2.z == 0 {
                None
            } else {
                match hit_spec(*object, Ray { orig: o2, dir: d2 }, tmin, tmax) {
                    None => None,
                    Some(rec) => if in_box_strict(bbox, r, rec.t as int) {
                        Some(HitRecord {
                            p: spec_rot_fwd(rot, rec.p),
                            normal: spec_rot_fwd(rot, rec.normal),
                            ..rec
                        })
                    } else {
                        None
                    },
                }
            }
        },
        Hittable::Node { left, right, bbox } => {
            if !box_hit_spec(bbox, r, tmin, tmax) {
                None
            } else {
                match hit_spec(*left, r, tmin, tmax) {
                    None => hit_spec(*right, r, tmin, tmax),
                    Some(lr) => match hit_spec(*right, r, tmin, lr.t as int) {
                        None => Some(lr),
                        Some(rr) => Some(rr),
                    },
                }
            }
        },
    }
}

/// Every object accepts rays no larger than leaf geometry does.
pub proof fn lemma_ray_bound_le(h: Hittable)
    ensures
        ray_bound(h) <= RAY_LIMIT as int,
    decreases h,
{
    match h {
        Hittable::Translate { object, .. } => {
            lemma_ray_bound_le(*object);
        },
        Hittable::RotateY { object, .. } => {
            lemma_ray_bound_le(*object);
            crate::math::lemma_div_bounds(ray_bound(*object) - 1, 2);
        },
        Hittable::Node { left, right, .. } => {
            lemma_ray_bound_le(*left);
            lemma_ray_bound_le(*right);
        },
        _ => {},
    }
}

/// A reported parameter lies strictly inside the acceptance window.
pub proof fn lemma_hit_t_in_window(h: Hittable, r: Ray, tmin: int, tmax: int)
    requires
        -T_LIMIT <= tmin <= T_LIMIT,
        -T_LIMIT <= tmax <= T_LIMIT,
        hit_spec(h, r, tmin, tmax) is Some,
    ensures
        tmin < hit_spec(h, r, tmin, tmax)->0.t < tmax,
    decreases h,
{
    match h {
        Hittable::Translate { object, offset, .. } => {
            let shifted = Ray { orig: spec_sub(r.orig, offset), dir: r.dir };
            lemma_hit_t_in_window(*object, shifted, tmin, tmax);
        },
        Hittable::RotateY { object, rot, .. } => {
            let o2 = spec_rot_inv(rot, r.orig);
            let d2 = spec_rot_inv(rot, r.dir);
            if !(d2.x == 0 && d2.y == 0 && d2.z == 0) {
                let r2 = Ray { orig: o2, dir: d2 };
                if hit_spec(*object, r2, tmin, tmax) is Some {
                    lemma_hit_t_in_window(*object, r2, tmin, tmax);
                }
            }
        },
        Hittable::Node { left, right, .. } => {
            if hit_spec(*left, r, tmin, tmax) is Some {
                lemma_hit_t_in_window(*left, r, tmin, tmax);
                let lr = hit_spec(*left, r, tmin, tmax)->0;
                if hit_spec(*right, r, tmin, lr.t as int) is Some {
                    lemma_hit_t_in_window(*right, r, tmin, lr.t as int);
                }
            } else {
                if hit_spec(*right, r, tmin, tmax) is Some {
                    lemma_hit_t_in_window(*right, r, tmin, tmax);
                }
            }
        },
        _ => {},
    }
}

impl Hittable {
    /// The stored bounding box.
    pub fn bounding_box(&self) -> (b: AABBox)
        ensures
            b == bbox_of(*self),
    {
        match self {
            Hittable::Sphere(s) => s.bbox,
            Hittable::Quad(q) => q.bbox,
            Hittable::Triangle(t) => t.bbox,
            Hittable::Translate { bbox, .. } => *bbox,
            Hittable::RotateY { bbox, .. } => *bbox,
            Hittable::Node { bbox, .. } => *bbox,
        }
    }

    /// Intersect `r` with this object inside the acceptance window.
    ///
    /// Leaf geometry and rotations accept a hit only when the exact hit
    /// point lies strictly inside the reporting object's stored box;
    /// that interior test is what makes hierarchy pruning sound. The
    /// boxes carry a one-grid-unit margin, so the test can reject a
    /// true hit only when one fixed-point tick of `t` moves the point
    /// by more than that margin, that is when a direction coordinate
    /// exceeds `FP`; such dropped grazing hits are part of the stated
    /// specification, not an error.
    pub fn hit(&self, r: &Ray, ray_t: &Interval) -> (res: Option<HitRecord>)
        requires
            hittable_wf(*self),
            ray_wf(*r, ray_bound(*self)),
            -T_LIMIT <= ray_t.min <= T_LIMIT,
            -T_LIMIT <= ray_t.max <= T_LIMIT,
        ensures
            res == hit_spec(*self, *r, ray_t.min as int, ray_t.max as int),
        decreases *self,
    {
        proof {
            lemma_ray_bound_le(*self);
        }
        match self {
            Hittable::Sphere(s) => s.hit(r, ray_t),
            Hittable::Quad(q) => q.hit(r, ray_t),
            Hittable::Triangle(t) => t.hit(r, ray_t),
            Hittable::Translate { object, offset, .. } => {
                let shifted = Ray { orig: r.orig.sub(offset), dir: r.dir };
                match object.hit(&shifted, ray_t) {
                    None => None,
                    Some(rec) => Some(HitRecord { p: shift_point(&rec.p, offset), ..rec }),
                }
            },
            Hittable::RotateY { object, rot, bbox } => {
                let o2 = rot_inv_vec(rot, &r.orig);
                let d2 = rot_inv_vec(rot, &r.dir);
                if d2.x == 0 && d2.y == 0 && d2.z == 0 {
                    None
                } else {
                    let r2 = Ray { orig: o2, dir: d2 };
                    proof {
                        lemma_rot_inv_range(*rot, r.orig, ray_bound(*self));
                        lemma_rot_inv_range(*rot, r.dir, ray_bound(*self));
                        crate::math::lemma_div_bounds(ray_bound(**object) - 1, 2);
                    }
                    match object.hit(&r2, ray_t) {
                        None => None,
                        Some(rec) => {
                            proof {
                                lemma_hit_t_in_window(**object, r2, ray_t.min as int,
                                    ray_t.max as int);
                            }
                            if point_strictly_inside(bbox, r, rec.t) {
                                Some(HitRecord {
                                    p: rot_fwd_vec(rot, &rec.p),
                                    normal: rot_fwd_vec(rot, &rec.normal),
                                    ..rec
                                })
                            } else {
                                None
                            }
                        },
                    }
                }
            },
            Hittable::Node { left, right, bbox } => {
                if !bbox.hit(r, ray_t) {
                    return None;
                }
                match left.hit(r, ray_t) {
                    None => right.hit(r, ray_t),
                    Some(lr) => {
                        proof {
                            lemma_hit_t_in_window(**left, *r, ray_t.min as int, ray_t.max as int);
                        }
                        let narrowed = Interval { min: ray_t.min, max: lr.t };
                        match right.hit(r, &narrowed) {
                            None => Some(lr),
                            Some(rr) => Some(rr),
                        }
                    },
                }
            },
        }
    }

    /// Wraps an object so that rays are tested against it shifted by
    /// `offset`; the box is the object's box shifted.
    pub fn translation(object: Hittable, offset: Vec3) -> (h: Hittable)
        requires
            hittable_wf(object),
            in_range(offset, MAX_COORD as int),
            box_in_range(bbox_of(object), INF_COORD as int - MAX_COORD as int),
        ensures
            h matches Hittable::Translate { object: o, offset: off2, bbox }
                && *o == object && off2 == offset
                && bbox == spec_shift_box(bbox_of(object), offset),
            hittable_wf(h),
            bbox_of(h) == spec_shift_box(bbox_of(object), offset),
            ray_bound(h) == ray_bound(object) - MAX_COORD as int,
    {
        let inner = object.bounding_box();
        let bbox = AABBox {
            x: Interval { min: inner.x.min + offset.x, max: inner.x.max + offset.x },
            y: Interval { min: inner.y.min + offset.y, max: inner.y.max + offset.y },
            z: Interval { min: inner.z.min + offset.z, max: inner.z.max + offset.z },
        };
        Hittable::Translate { object: Box::new(object), offset, bbox }
    }

    /// Wraps an object so that rays are rotated into its space about the
    /// y axis; the box encloses the rotated corners of the object's box,
    /// with a margin for rounding.
    pub fn rotation_y(object: Hittable, rot: Rotation) -> (h: Hittable)
        requires
            hittable_wf(object),
            rotation_wf(rot),
            box_in_range(bbox_of(object), 0x10_0000_0000),
        ensures
            h matches Hittable::RotateY { object: o, rot: ro, bbox }
                && *o == object && ro == rot
                && bbox == spec_rot_box(rot, bbox_of(object)),
            hittable_wf(h),
            bbox_of(h) == spec_rot_box(rot, bbox_of(object)),
            ray_bound(h) == (ray_bound(object) - 1) / 2,
    {
        let inner = object.bounding_box();
        let bbox = rot_box(&rot, &inner);
        Hittable::RotateY { object: Box::new(object), rot, bbox }
    }
}

/// `p + off`, coordinatewise, truncating on overflow exactly as the
/// specification's cast does.
fn shift_point(p: &Point3, off: &Vec3) -> (q: Point3)
    ensures
        q == spec_add(*p, *off),
{
    Point3 {
        x: #[verifier::truncate] (((p.x as i128) + (off.x as i128)) as i64),
        y: #[verifier::truncate] (((p.y as i128) + (off.y as i128)) as i64),
        z: #[verifier::truncate] (((p.z as i128) + (off.z as i128)) as i64),
    }
}

/// One rotated coordinate: `(s1 * a + s2 * b) / d`, truncated to `i64`
/// exactly as the specification's cast does.
fn rotate_coord(s1: i64, s2: i64, a: i64, b: i64, d: i64) -> (q: i64)
    requires
        -FP <= s1 <= FP,
        -FP <= s2 <= FP,
        0 < d <= FP,
    ensures
        q == ((s1 * a + s2 * b) / (d as int)) as i64,
{
    proof {
        crate::vec3::lemma_mul_bound2(s1 as int, a as int, FP as int, 0x8000_0000_0000_0000);
        crate::vec3::lemma_mul_bound2(s2 as int, b as int, FP as int, 0x8000_0000_0000_0000);
    }
    let num: i128 = (s1 as i128) * (a as i128) + (s2 as i128) * (b as i128);
    let q = crate::math::div_floor(num, d as i128);
    #[verifier::truncate] (q as i64)
}

/// The world-to-object rotation of one vector.
fn rot_inv_vec(rot: &Rotation, v: &Vec3) -> (w: Vec3)
    requires
        rotation_wf(*rot),
    ensures
        w == spec_rot_inv(*rot, *v),
{
    let x = rotate_coord(rot.c, -rot.s, v.x, v.z, rot.d);
    let z = rotate_coord(rot.s, rot.c, v.x, v.z, rot.d);
    proof {
        assert((rot.c as int) * (v.x as int) + ((-rot.s) as int) * (v.z as int)
            == rot.c * v.x - rot.s * v.z) by (nonlinear_arith);
    }
    Vec3 { x, y: v.y, z }
}

/// The object-to-world rotation of one vector.
fn rot_fwd_vec(rot: &Rotation, v: &Vec3) -> (w: Vec3)
    requires
        rotation_wf(*rot),
    ensures
        w == spec_rot_fwd(*rot, *v),
{
    let x = rotate_coord(rot.c, rot.s, v.x, v.z, rot.d);
    let z = rotate_coord(-rot.s, rot.c, v.x, v.z, rot.d);
    proof {
        assert(((-rot.s) as int) * (v.x as int) + (rot.c as int) * (v.z as int)
            == -rot.s * v.x + rot.c * v.z) by (nonlinear_arith);
    }
    Vec3 { x, y: v.y, z }
}

/// The rotation of a bounded vector stays within twice the bound plus
/// one, so rotated rays fit the wrapped object's ray bound.
pub proof fn lemma_rot_inv_range(rot: Rotation, v: Vec3, b: int)
    requires
        rotation_wf(rot),
        in_range(v, b),
        b <= RAY_LIMIT as int,
    ensures
        in_range(spec_rot_inv(rot, v), 2 * b + 1),
{
    lemma_rot_coord_range(rot.c as int, -(rot.s as int), v.x as int, v.z as int, rot.d as int, b);
    lemma_rot_coord_range(rot.s as int, rot.c as int, v.x as int, v.z as int, rot.d as int, b);
    assert(rot.c * v.x + (-(rot.s as int)) * v.z == rot.c * v.x - rot.s * v.z)
        by (nonlinear_arith);
}

proof fn lemma_rot_coord_range(s1: int, s2: int, a: int, b0: int, d: int, b: int)
    requires
        0 < d,
        -d <= s1 <= d,
        -d <= s2 <= d,
        -b <= a <= b,
        -b <= b0 <= b,
    ensures
        -(2 * b + 1) <= (s1 * a + s2 * b0) / d <= 2 * b + 1,
{
    let num = s1 * a + s2 * b0;
    assert(0 <= b) by {
        assert(-b <= a <= b);
    }
    assert(-(d * b) <= s1 * a <= d * b) by (nonlinear_arith)
        requires 0 < d && -d <= s1 <= d && -b <= a <= b && 0 <= b;
    assert(-(d * b) <= s2 * b0 <= d * b) by (nonlinear_arith)
        requires 0 < d && -d <= s2 <= d && -b <= b0 <= b && 0 <= b;
    crate::math::lemma_div_bounds(num, d);
    let q = num / d;
    assert(-(2 * b + 1) <= q <= 2 * b + 1) by (nonlinear_arith)
        requires
            0 < d,
            d * q <= num < d * (q + 1),
            -(d * b) - (d * b) <= num <= d * b + d * b;
}

/// The box enclosing the four rotated corners of `b` in the `xz` plane,
/// grown by a margin for rounding and padded to minimum thickness.
pub open spec fn spec_rot_box(rot: Rotation, b: AABBox) -> AABBox {
    let c00 = (rot.c * b.x.min + rot.s * b.z.min) / (rot.d as int);
    let c01 = (rot.c * b.x.min + rot.s * b.z.max) / (rot.d as int);
    let c10 = (rot.c * b.x.max + rot.s * b.z.min) / (rot.d as int);
    let c11 = (rot.c * b.x.max + rot.s * b.z.max) / (rot.d as int);
    let z00 = (-rot.s * b.x.min + rot.c * b.z.min) / (rot.d as int);
    let z01 = (-rot.s * b.x.min + rot.c * b.z.max) / (rot.d as int);
    let z10 = (-rot.s * b.x.max + rot.c * b.z.min) / (rot.d as int);
    let z11 = (-rot.s * b.x.max + rot.c * b.z.max) / (rot.d as int);
    spec_pad(AABBox {
        x: crate::interval::Interval {
            min: (min4(c00, c01, c10, c11) - 2) as i64,
            max: (max4(c00, c01, c10, c11) + 2) as i64,
        },
        y: crate::interval::Interval { min: (b.y.min - 2) as i64, max: (b.y.max + 2) as i64 },
        z: crate::interval::Interval {
            min: (min4(z00, z01, z10, z11) - 2) as i64,
            max: (max4(z00, z01, z10, z11) + 2) as i64,
        },
    })
}

pub open spec fn min4(a: int, b: int, c: int, d: int) -> int {
    let m1 = if a <= b { a } else { b };
    let m2 = if c <= d { c } else { d };
    if m1 <= m2 { m1 } else { m2 }
}

pub open spec fn max4(a: int, b: int, c: int, d: int) -> int {
    let m1 = if a >= b { a } else { b };
    let m2 = if c >= d { c } else { d };
    if m1 >= m2 { m1 } else { m2 }
}

/// The rotated bounding box, executably.
fn rot_box(rot: &Rotation, b: &AABBox) -> (res: AABBox)
    requires
        rotation_wf(*rot),
        box_in_range(*b, 0x10_0000_0000),
    ensures
        res == spec_rot_box(*rot, *b),
        box_in_range(res, INF_COORD as int),
{
    let c00 = rotate_coord(rot.c, rot.s, b.x.min, b.z.min, rot.d);
    let c01 = rotate_coord(rot.c, rot.s, b.x.min, b.z.max, rot.d);
    let c10 = rotate_coord(rot.c, rot.s, b.x.max, b.z.min, rot.d);
    let c11 = rotate_coord(rot.c, rot.s, b.x.max, b.z.max, rot.d);
    let z00 = rotate_coord(-rot.s, rot.c, b.x.min, b.z.min, rot.d);
    let z01 = rotate_coord(-rot.s, rot.c, b.x.min, b.z.max, rot.d);
    let z10 = rotate_coord(-rot.s, rot.c, b.x.max, b.z.min, rot.d);
    let z11 = rotate_coord(-rot.s, rot.c, b.x.max, b.z.max, rot.d);
    proof {
        lemma_rot_coord_range(rot.c as int, rot.s as int, b.x.min as int, b.z.min as int,
            rot.d as int, 0x10_0000_0000);
        lemma_rot_coord_range(rot.c as int, rot.s as int, b.x.min as int, b.z.max as int,
            rot.d as int, 0x10_0000_0000);
        lemma_rot_coord_range(rot.c as int, rot.s as int, b.x.max as int, b.z.min as int,
            rot.d as int, 0x10_0000_0000);
        lemma_rot_coord_range(rot.c as int, rot.s as int, b.x.max as int, b.z.max as int,
            rot.d as int, 0x10_0000_0000);
        lemma_rot_coord_range(-(rot.s as int), rot.c as int, b.x.min as int, b.z.min as int,
            rot.d as int, 0x10_0000_0000);
        lemma_rot_coord_range(-(rot.s as int), rot.c as int, b.x.min as int, b.z.max as int,
            rot.d as int, 0x10_0000_0000);
        lemma_rot_coord_range(-(rot.s as int), rot.c as int, b.x.max as int, b.z.min as int,
            rot.d as int, 0x10_0000_0000);
        lemma_rot_coord_range(-(rot.s as int), rot.c as int, b.x.max as int, b.z.max as int,
            rot.d as int, 0x10_0000_0000);
    }
    let xmin = min4e(c00, c01, c10, c11) - 2;
    let xmax = max4e(c00, c01, c10, c11) + 2;
    let zmin = min4e(z00, z01, z10, z11) - 2;
    let zmax = max4e(z00, z01, z10, z11) + 2;
    let mut res = AABBox {
        x: Interval { min: xmin, max: xmax },
        y: Interval { min: b.y.min - 2, max: b.y.max + 2 },
        z: Interval { min: zmin, max: zmax },
    };
    res.pad_to_minimums();
    res
}

fn min4e(a: i64, b: i64, c: i64, d: i64) -> (m: i64)
    ensures
        m == min4(a as int, b as int, c as int, d as int),
{
    let m1 = if a <= b { a } else { b };
    let m2 = if c <= d { c } else { d };
    if m1 <= m2 { m1 } else { m2 }
}

fn max4e(a: i64, b: i64, c: i64, d: i64) -> (m: i64)
    ensures
        m == max4(a as int, b as int, c as int, d as int),
{
    let m1 = if a >= b { a } else { b };
    let m2 = if c >= d { c } else { d };
    if m1 >= m2 { m1 } else { m2 }
}

} // verus!

verus! {

impl Clone for Hittable {
    /// A deep copy that is equal, in specifications, to the original.
    fn clone(&self) -> (res: Self)
        ensures
            res == *self,
        decreases *self,
    {
        match self {
            Hittable::Sphere(s) => Hittable::Sphere(*s),
            Hittable::Quad(q) => Hittable::Quad(*q),
            Hittable::Triangle(t) => Hittable::Triangle(*t),
            Hittable::Translate { object, offset, bbox } => Hittable::Translate {
                object: Box::new((**object).clone()),
                offset: *offset,
                bbox: *bbox,
            },
            Hittable::RotateY { object, rot, bbox } => Hittable::RotateY {
                object: Box::new((**object).clone()),
                rot: *rot,
                bbox: *bbox,
            },
            Hittable::Node { left, right, bbox } => Hittable::Node {
                left: Box::new((**left).clone()),
                right: Box::new((**right).clone()),
                bbox: *bbox,
            },
        }
    }
}

} // verus!

verus! {

/// The forward rotation of a bounded vector stays within twice the
/// bound plus one.
pub proof fn lemma_rot_fwd_range(rot: Rotation, v: Vec3, b: int)
    requires
        rotation_wf(rot),
        in_range(v, b),
        b <= 0x2000_0000_0000_0000,
    ensures
        in_range(spec_rot_fwd(rot, v), 2 * b + 1),
{
    lemma_rot_coord_range(rot.c as int, rot.s as int, v.x as int, v.z as int, rot.d as int, b);
    lemma_rot_coord_range(-(rot.s as int), rot.c as int, v.x as int, v.z as int, rot.d as int, b);
    assert((-(rot.s as int)) * v.x + rot.c * v.z == -rot.s * v.x + rot.c * v.z)
        by (nonlinear_arith);
}

/// The largest coordinate magnitude a reported hit point can have.
pub open spec fn p_limit(h: Hittable) -> int
    decreases h,
{
    match h {
        Hittable::Sphere(_) => 0x10_0000_0000_0000 as int,
        Hittable::Quad(_) => 0x10_0000_0000_0000 as int,
        Hittable::Triangle(_) => 0x10_0000_0000_0000 as int,
        Hittable::Translate { object, .. } => p_limit(*object) + MAX_COORD as int,
        Hittable::RotateY { object, .. } => 2 * p_limit(*object) + 1,
        Hittable::Node { left, right, .. } => if p_limit(*left) >= p_limit(*right) {
            p_limit(*left)
        } else {
            p_limit(*right)
        },
    }
}

/// Reported hit points are bounded by [`p_limit`].
pub proof fn lemma_hit_p_bounded(h: Hittable, r: Ray, tmin: int, tmax: int)
    requires
        hittable_wf(h),
        ray_wf(r, ray_bound(h)),
        -T_LIMIT <= tmin <= T_LIMIT,
        -T_LIMIT <= tmax <= T_LIMIT,
        p_limit(h) <= 0x4000_0000_0000_0000,
        hit_spec(h, r, tmin, tmax) is Some,
    ensures
        in_range(hit_spec(h, r, tmin, tmax)->0.p, p_limit(h)),
    decreases h,
{
    lemma_ray_bound_le(h);
    lemma_hit_t_in_window(h, r, tmin, tmax);
    let rec = hit_spec(h, r, tmin, tmax)->0;
    match h {
        Hittable::Translate { object, offset, .. } => {
            let shifted = Ray { orig: spec_sub(r.orig, offset), dir: r.dir };
            lemma_hit_p_bounded(*object, shifted, tmin, tmax);
        },
        Hittable::RotateY { object, rot, .. } => {
            let o2 = spec_rot_inv(rot, r.orig);
            let d2 = spec_rot_inv(rot, r.dir);
            let r2 = Ray { orig: o2, dir: d2 };
            lemma_rot_inv_range(rot, r.orig, ray_bound(h));
            lemma_rot_inv_range(rot, r.dir, ray_bound(h));
            crate::math::lemma_div_bounds(ray_bound(*object) - 1, 2);
            lemma_hit_p_bounded(*object, r2, tmin, tmax);
            lemma_rot_fwd_range(rot, hit_spec(*object, r2, tmin, tmax)->0.p, p_limit(*object));
        },
        Hittable::Node { left, right, .. } => {
            match hit_spec(*left, r, tmin, tmax) {
                Some(lr) => {
                    lemma_hit_t_in_window(*left, r, tmin, tmax);
                    match hit_spec(*right, r, tmin, lr.t as int) {
                        Some(_) => {
                            lemma_hit_p_bounded(*right, r, tmin, lr.t as int);
                        },
                        None => {
                            lemma_hit_p_bounded(*left, r, tmin, tmax);
                        },
                    }
                },
                None => {
                    lemma_hit_p_bounded(*right, r, tmin, tmax);
                },
            }
        },
        _ => {
            lemma_prim_p_bounded(h, r, tmin, tmax, rec.t as int);
        },
    }
}

/// A grid point along an accepted ray is bounded.
proof fn lemma_prim_p_bounded(h: Hittable, r: Ray, tmin: int, tmax: int, t: int)
    requires
        ray_wf(r, RAY_LIMIT as int),
        -T_LIMIT < t < T_LIMIT,
        hit_spec(h, r, tmin, tmax) is Some,
        hit_spec(h, r, tmin, tmax)->0.p == spec_at(r, t),
    ensures
        in_range(spec_at(r, t), 0x10_0000_0000_0000 as int),
{
    let f = FP as int;
    assert forall|a: int| 0 <= a < 3 implies -0x10_0000_0000_0000 <= #[trigger] at_scaled(r, t,
        a) / f <= 0x10_0000_0000_0000 by {
        crate::vec3::lemma_mul_bound2(t, axis(r.dir, a), T_LIMIT as int, RAY_LIMIT as int);
        crate::vec3::lemma_mul_bound2(axis(r.orig, a), f, RAY_LIMIT as int, 65536);
        crate::math::lemma_div_bounds(at_scaled(r, t, a), f);
        let q = at_scaled(r, t, a) / f;
        assert(-0x10_0000_0000_0000 <= q <= 0x10_0000_0000_0000) by (nonlinear_arith)
            requires
                f == 65536,
                f * q <= at_scaled(r, t, a) < f * (q + 1),
                -0x8_0000_0000_0000_0000 <= at_scaled(r, t, a) <= 0x8_0000_0000_0000_0000;
    }
}

} // verus!
