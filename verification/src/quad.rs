//! Ray-parallelogram intersection over exact integer arithmetic, and the
//! shared plane machinery the triangle reuses.

use vstd::prelude::*;
use crate::vec3::{Vec3, Point3, axis, in_range, spec_add, spec_neg, spec_dot, spec_cross_axis};
use crate::ray::{Ray, ray_wf, spec_at};
use crate::aabb::{AABBox, box_in_range, in_box_strict, spec_pad, spec_box_from_points,
    spec_box_union, point_strictly_inside};
use crate::interval::Interval;
use crate::math::{FP, MAX_COORD, RAY_LIMIT, T_LIMIT, spec_isqrt};
use crate::hittable::HitRecord;

verus! {

/// A planar parallelogram: a corner, two edge vectors, the material
/// handle, and the precomputed box, plane normal and plane offset. The
/// stored `normal` is the raw integer cross product of the edges, not a
/// unit vector: exact plane tests need the unscaled normal, and hit
/// records carry a separately computed fixed-point unit normal.
#[derive(Clone, Copy, Debug, PartialEq, Eq, Structural)]
pub struct Quad {
    pub corner: Point3,
    pub edge1: Vec3,
    pub edge2: Vec3,
    pub mat: usize,
    pub bbox: AABBox,
    pub normal: Vec3,
    pub offset: i64,
}

/// `|x|`.
pub open spec fn iabs(x: int) -> int {
    if x < 0 {
        -x
    } else {
        x
    }
}

/// The box enclosing the four corners, padded.
pub open spec fn spec_plane_box(c: Point3, e1: Vec3, e2: Vec3) -> AABBox {
    spec_box_union(
        spec_pad(spec_box_from_points(c, spec_add(spec_add(c, e1), e2))),
        spec_pad(spec_box_from_points(spec_add(c, e1), spec_add(c, e2))),
    )
}

/// The shared shape of quad and triangle data the plane routines accept.
pub open spec fn plane_wf(c: Point3, e1: Vec3, e2: Vec3, n: Vec3, off: i64, bbox: AABBox) -> bool {
    &&& in_range(c, MAX_COORD as int)
    &&& in_range(e1, MAX_COORD as int)
    &&& in_range(e2, MAX_COORD as int)
    &&& n.x == spec_cross_axis(e1, e2, 0)
    &&& n.y == spec_cross_axis(e1, e2, 1)
    &&& n.z == spec_cross_axis(e1, e2, 2)
    &&& !(n.x == 0 && n.y == 0 && n.z == 0)
    &&& off == spec_dot(n, c)
    &&& bbox == spec_plane_box(c, e1, e2)
    &&& box_in_range(bbox, 3 * MAX_COORD as int + 2)
}

pub open spec fn quad_wf(q: Quad) -> bool {
    plane_wf(q.corner, q.edge1, q.edge2, q.normal, q.offset, q.bbox)
}

/// The fixed-point plane crossing parameter, rounded down; meaningful
/// only when `td != 0`.
pub open spec fn plane_t(tn: int, td: int) -> int {
    if td > 0 {
        (tn * (FP as int)) / td
    } else {
        (-(tn * (FP as int))) / (-td)
    }
}

/// The axis on which the plane normal is largest in magnitude.
pub open spec fn dominant_axis(n: Vec3) -> int {
    if iabs(n.x as int) >= iabs(n.y as int) && iabs(n.x as int) >= iabs(n.z as int) {
        0
    } else if iabs(n.y as int) >= iabs(n.z as int) {
        1
    } else {
        2
    }
}

/// The two axes that accompany `k` in cyclic order.
pub open spec fn cyc_i(k: int) -> int {
    if k == 0 {
        1
    } else if k == 1 {
        2
    } else {
        0
    }
}

pub open spec fn cyc_j(k: int) -> int {
    if k == 0 {
        2
    } else if k == 1 {
        0
    } else {
        1
    }
}

/// `td`-scaled component of the vector from the corner to the exact hit
/// point, on axis `a`: `(orig - corner) * td + tn * dir`.
pub open spec fn plane_w(c: Point3, n: Vec3, off: i64, r: Ray, a: int) -> int {
    let td = spec_dot(n, r.dir);
    let tn = off - spec_dot(n, r.orig);
    (axis(r.orig, a) - axis(c, a)) * td + tn * axis(r.dir, a)
}

/// Numerator of the planar coordinate along `edge1`, before signs.
pub open spec fn alpha_raw(c: Point3, e2: Vec3, n: Vec3, off: i64, r: Ray) -> int {
    let k = dominant_axis(n);
    plane_w(c, n, off, r, cyc_i(k)) * axis(e2, cyc_j(k))
        - plane_w(c, n, off, r, cyc_j(k)) * axis(e2, cyc_i(k))
}

/// Numerator of the planar coordinate along `edge2`, before signs.
pub open spec fn beta_raw(c: Point3, e1: Vec3, n: Vec3, off: i64, r: Ray) -> int {
    let k = dominant_axis(n);
    axis(e1, cyc_i(k)) * plane_w(c, n, off, r, cyc_j(k))
        - axis(e1, cyc_j(k)) * plane_w(c, n, off, r, cyc_i(k))
}

/// The shared denominator of both planar coordinates, before signs.
pub open spec fn den_raw(n: Vec3, r: Ray) -> int {
    spec_dot(n, r.dir) * axis(n, dominant_axis(n))
}

pub open spec fn plane_alpha_num(c: Point3, e2: Vec3, n: Vec3, off: i64, r: Ray) -> int {
    if den_raw(n, r) < 0 {
        -alpha_raw(c, e2, n, off, r)
    } else {
        alpha_raw(c, e2, n, off, r)
    }
}

pub open spec fn plane_beta_num(c: Point3, e1: Vec3, n: Vec3, off: i64, r: Ray) -> int {
    if den_raw(n, r) < 0 {
        -beta_raw(c, e1, n, off, r)
    } else {
        beta_raw(c, e1, n, off, r)
    }
}

pub open spec fn plane_den(n: Vec3, r: Ray) -> int {
    iabs(den_raw(n, r))
}

/// The fixed-point unit normal: `n * FP / |n|`, rounded down.
pub open spec fn spec_unit_normal(n: Vec3) -> Vec3 {
    let ln = spec_isqrt(spec_dot(n, n));
    Vec3 {
        x: ((n.x * (FP as int)) / ln) as i64,
        y: ((n.y * (FP as int)) / ln) as i64,
        z: ((n.z * (FP as int)) / ln) as i64,
    }
}

/// The record reported for a planar hit at parameter `t` with planar
/// coordinates `an / dd` and `bn / dd`.
pub open spec fn plane_record(n: Vec3, mat: usize, r: Ray, t: int, an: int, bn: int,
    dd: int) -> HitRecord {
    let td = spec_dot(n, r.dir);
    let ff = td < 0;
    let nu = spec_unit_normal(n);
    HitRecord {
        p: spec_at(r, t),
        normal: if ff {
            nu
        } else {
            spec_neg(nu)
        },
        mat,
        t: t as i64,
        u: ((an * (FP as int)) / dd) as i64,
        v: ((bn * (FP as int)) / dd) as i64,
        front_face: ff,
    }
}

/// The full quad intersection: plane crossing, acceptance window and
/// interior guard, then the unit-square footprint test.
pub open spec fn quad_hit_spec(q: Quad, r: Ray, tmin: int, tmax: int) -> Option<HitRecord> {
    let td = spec_dot(q.normal, r.dir);
    if td == 0 {
        None
    } else {
        let tn = q.offset - spec_dot(q.normal, r.orig);
        let t = plane_t(tn, td);
        if !(tmin < t < tmax && in_box_strict(q.bbox, r, t)) {
            None
        } else {
            let an = plane_alpha_num(q.corner, q.edge2, q.normal, q.offset, r);
            let bn = plane_beta_num(q.corner, q.edge1, q.normal, q.offset, r);
            let dd = plane_den(q.normal, r);
            if 0 <= an && an <= dd && 0 <= bn && bn <= dd {
                Some(plane_record(q.normal, q.mat, r, t, an, bn, dd))
            } else {
                None
            }
        }
    }
}

impl Quad {
    pub fn new(corner: Point3, edge1: Vec3, edge2: Vec3, mat: usize) -> (q: Quad)
        requires
            in_range(corner, MAX_COORD as int),
            in_range(edge1, MAX_COORD as int),
            in_range(edge2, MAX_COORD as int),
            !(spec_cross_axis(edge1, edge2, 0) == 0 && spec_cross_axis(edge1, edge2, 1) == 0
                && spec_cross_axis(edge1, edge2, 2) == 0),
        ensures
            q.corner == corner && q.edge1 == edge1 && q.edge2 == edge2 && q.mat == mat,
            quad_wf(q),
    {
        let (bbox, normal, offset) = plane_parts(&corner, &edge1, &edge2);
        Quad { corner, edge1, edge2, mat, bbox, normal, offset }
    }

    pub fn bounding_box(&self) -> (b: AABBox)
        ensures
            b == self.bbox,
    {
        self.bbox
    }

    /// Intersect `r` with the quad inside the acceptance window. The
    /// plane crossing is accepted only when its exact point lies
    /// strictly inside the quad's padded box; see `Hittable::hit` for
    /// why and for the boundary hits this can drop.
    pub fn hit(&self, r: &Ray, ray_t: &Interval) -> (res: Option<HitRecord>)
        requires
            quad_wf(*self),
            ray_wf(*r, RAY_LIMIT as int),
            -T_LIMIT <= ray_t.min <= T_LIMIT,
            -T_LIMIT <= ray_t.max <= T_LIMIT,
        ensures
            res == quad_hit_spec(*self, *r, ray_t.min as int, ray_t.max as int),
    {
        proof {
            lemma_cross_in_range(self.edge1, self.edge2);
        }
        match plane_candidate(&self.corner, &self.edge1, &self.edge2, &self.normal, self.offset,
            &self.bbox, r, ray_t) {
            None => None,
            Some((t, an, bn, dd)) => {
                if 0 <= an && an <= dd && 0 <= bn && bn <= dd {
                    Some(make_plane_record(&self.normal, self.mat, r, t, an, bn, dd))
                } else {
                    None
                }
            },
        }
    }

    /// The six faces of the axis-aligned box spanned by two corners:
    /// front, right, back, left, top and bottom, in that order, each
    /// pinned by its corner and edge vectors.
    pub fn new_box(corner_a: &Point3, corner_b: &Point3, mat: usize) -> (sides: Vec<Quad>)
        requires
            in_range(*corner_a, MAX_COORD as int / 2),
            in_range(*corner_b, MAX_COORD as int / 2),
            corner_a.x != corner_b.x,
            corner_a.y != corner_b.y,
            corner_a.z != corner_b.z,
        ensures
            sides@.len() == 6,
            forall|i: int| 0 <= i < 6 ==> quad_wf(#[trigger] sides@[i]) && sides@[i].mat == mat,
            ({
                let lx = if corner_a.x < corner_b.x { corner_a.x } else { corner_b.x };
                let ly = if corner_a.y < corner_b.y { corner_a.y } else { corner_b.y };
                let lz = if corner_a.z < corner_b.z { corner_a.z } else { corner_b.z };
                let hx = if corner_a.x < corner_b.x { corner_b.x } else { corner_a.x };
                let hy = if corner_a.y < corner_b.y { corner_b.y } else { corner_a.y };
                let hz = if corner_a.z < corner_b.z { corner_b.z } else { corner_a.z };
                let ex = Vec3 { x: (hx - lx) as i64, y: 0i64, z: 0i64 };
                let ey = Vec3 { x: 0i64, y: (hy - ly) as i64, z: 0i64 };
                let ez = Vec3 { x: 0i64, y: 0i64, z: (hz - lz) as i64 };
                let nex = Vec3 { x: (lx - hx) as i64, y: 0i64, z: 0i64 };
                let nez = Vec3 { x: 0i64, y: 0i64, z: (lz - hz) as i64 };
                &&& sides@[0].corner == (Vec3 { x: lx, y: ly, z: hz }) && sides@[0].edge1 == ex
                    && sides@[0].edge2 == ey
                &&& sides@[1].corner == (Vec3 { x: hx, y: ly, z: hz }) && sides@[1].edge1 == nez
                    && sides@[1].edge2 == ey
                &&& sides@[2].corner == (Vec3 { x: hx, y: ly, z: lz }) && sides@[2].edge1 == nex
                    && sides@[2].edge2 == ey
                &&& sides@[3].corner == (Vec3 { x: lx, y: ly, z: lz }) && sides@[3].edge1 == ez
                    && sides@[3].edge2 == ey
                &&& sides@[4].corner == (Vec3 { x: lx, y: hy, z: hz }) && sides@[4].edge1 == ex
                    && sides@[4].edge2 == nez
                &&& sides@[5].corner == (Vec3 { x: lx, y: ly, z: hz }) && sides@[5].edge1 == ex
                    && sides@[5].edge2 == ez
            }),
    {
        let minx = if corner_a.x < corner_b.x { corner_a.x } else { corner_b.x };
        let miny = if corner_a.y < corner_b.y { corner_a.y } else { corner_b.y };
        let minz = if corner_a.z < corner_b.z { corner_a.z } else { corner_b.z };
        let maxx = if corner_a.x < corner_b.x { corner_b.x } else { corner_a.x };
        let maxy = if corner_a.y < corner_b.y { corner_b.y } else { corner_a.y };
        let maxz = if corner_a.z < corner_b.z { corner_b.z } else { corner_a.z };
        let dx = Vec3 { x: maxx - minx, y: 0, z: 0 };
        let dy = Vec3 { x: 0, y: maxy - miny, z: 0 };
        let dz = Vec3 { x: 0, y: 0, z: maxz - minz };
        let ndx = Vec3 { x: minx - maxx, y: 0, z: 0 };
        let ndz = Vec3 { x: 0, y: 0, z: minz - maxz };
        proof {
            lemma_axis_cross_nonzero(maxx - minx, maxy - miny, maxz - minz);
        }
        let mut sides: Vec<Quad> = Vec::new();
        sides.push(Quad::new(Vec3 { x: minx, y: miny, z: maxz }, dx, dy, mat));
        sides.push(Quad::new(Vec3 { x: maxx, y: miny, z: maxz }, ndz, dy, mat));
        sides.push(Quad::new(Vec3 { x: maxx, y: miny, z: minz }, ndx, dy, mat));
        sides.push(Quad::new(Vec3 { x: minx, y: miny, z: minz }, dz, dy, mat));
        sides.push(Quad::new(Vec3 { x: minx, y: maxy, z: maxz }, dx, ndz, mat));
        sides.push(Quad::new(Vec3 { x: minx, y: miny, z: maxz }, dx, dz, mat));
        sides
    }
}

/// Cross products of axis-aligned edges with positive extents on every
/// axis are nonzero.
proof fn lemma_axis_cross_nonzero(w: int, h: int, d: int)
    requires
        w > 0,
        h > 0,
        d > 0,
    ensures
        w * h != 0,
        d * h != 0,
        w * d != 0,
        (-d) * h != 0,
        (-w) * h != 0,
        w * (-d) != 0,
{
    assert(w * h > 0 && d * h > 0 && w * d > 0 && (-d) * h < 0 && (-w) * h < 0 && w * (-d) < 0)
        by (nonlinear_arith)
        requires w > 0 && h > 0 && d > 0;
}

/// Computes box, normal and offset for a corner and two edges.
pub fn plane_parts(corner: &Point3, edge1: &Vec3, edge2: &Vec3) -> (parts: (AABBox, Vec3, i64))
    requires
        in_range(*corner, MAX_COORD as int),
        in_range(*edge1, MAX_COORD as int),
        in_range(*edge2, MAX_COORD as int),
    ensures
        parts.0 == spec_plane_box(*corner, *edge1, *edge2),
        parts.1.x == spec_cross_axis(*edge1, *edge2, 0),
        parts.1.y == spec_cross_axis(*edge1, *edge2, 1),
        parts.1.z == spec_cross_axis(*edge1, *edge2, 2),
        parts.2 == spec_dot(parts.1, *corner),
        box_in_range(parts.0, 3 * MAX_COORD as int + 2),
{
    let far = corner.add(edge1).add(edge2);
    let bbox_diagonal1 = AABBox::new_from_points(corner, &far);
    let bbox_diagonal2 = AABBox::new_from_points(&corner.add(edge1), &corner.add(edge2));
    let bbox = AABBox::new_from_aabboxs(&bbox_diagonal1, &bbox_diagonal2);
    let normal = edge1.cross(edge2);
    proof {
        lemma_cross_in_range(*edge1, *edge2);
    }
    let offw = normal.dot(corner);
    proof {
        crate::vec3::lemma_dot_bound(normal, *corner, 0x2_0000_0000, MAX_COORD as int);
    }
    (bbox, normal, offw as i64)
}

/// The cross product of `MAX_COORD`-bounded vectors is bounded by twice
/// the squared bound.
pub proof fn lemma_cross_in_range(e1: Vec3, e2: Vec3)
    requires
        in_range(e1, MAX_COORD as int),
        in_range(e2, MAX_COORD as int),
    ensures
        -0x2_0000_0000 <= spec_cross_axis(e1, e2, 0) <= 0x2_0000_0000,
        -0x2_0000_0000 <= spec_cross_axis(e1, e2, 1) <= 0x2_0000_0000,
        -0x2_0000_0000 <= spec_cross_axis(e1, e2, 2) <= 0x2_0000_0000,
{
    crate::vec3::lemma_mul_bound(e1.y as int, e2.z as int, MAX_COORD as int);
    crate::vec3::lemma_mul_bound(e1.z as int, e2.y as int, MAX_COORD as int);
    crate::vec3::lemma_mul_bound(e1.z as int, e2.x as int, MAX_COORD as int);
    crate::vec3::lemma_mul_bound(e1.x as int, e2.z as int, MAX_COORD as int);
    crate::vec3::lemma_mul_bound(e1.x as int, e2.y as int, MAX_COORD as int);
    crate::vec3::lemma_mul_bound(e1.y as int, e2.x as int, MAX_COORD as int);
}

/// The plane-crossing part shared by quad and triangle: the accepted
/// parameter and the planar-coordinate numerators and denominator, or
/// `None` when the ray is parallel to the plane or the crossing fails
/// the window or the interior guard.
pub fn plane_candidate(c: &Point3, e1: &Vec3, e2: &Vec3, n: &Vec3, off: i64, bbox: &AABBox,
    r: &Ray, ray_t: &Interval) -> (res: Option<(i64, i128, i128, i128)>)
    requires
        plane_wf(*c, *e1, *e2, *n, off, *bbox),
        ray_wf(*r, RAY_LIMIT as int),
        -T_LIMIT <= ray_t.min <= T_LIMIT,
        -T_LIMIT <= ray_t.max <= T_LIMIT,
    ensures
        ({
            let td = spec_dot(*n, r.dir);
            let tn = off - spec_dot(*n, r.orig);
            let t = plane_t(tn, td);
            if td == 0 || !(ray_t.min < t < ray_t.max && in_box_strict(*bbox, *r, t)) {
                res is None
            } else {
                &&& res is Some
                &&& ({
                    let v = res->0;
                    &&& v.0 == t
                    &&& v.1 == plane_alpha_num(*c, *e2, *n, off, *r)
                    &&& v.2 == plane_beta_num(*c, *e1, *n, off, *r)
                    &&& v.3 == plane_den(*n, *r)
                    &&& 0 < v.3 < 0x1000_0000_0000_0000_0000_0000_0000
                    &&& -0x10_0000_0000_0000_0000_0000_0000_0000 < v.1
                        < 0x10_0000_0000_0000_0000_0000_0000_0000
                    &&& -0x10_0000_0000_0000_0000_0000_0000_0000 < v.2
                        < 0x10_0000_0000_0000_0000_0000_0000_0000
                })
            }
        }),
{
    proof {
        lemma_cross_in_range(*e1, *e2);
        lemma_plane_bounds(*c, *n, off, *r);
    }
    let td: i128 = n.dot(&r.dir);
    if td == 0 {
        return None;
    }
    let now: i128 = n.dot(&r.orig);
    let tn: i128 = (off as i128) - now;
    let num = tn * 65536;
    proof {
        assert(tn * 65536 == tn * (FP as int)) by (nonlinear_arith)
            requires FP == 65536;
    }
    let t = if td > 0 {
        crate::math::div_floor(num, td)
    } else {
        crate::math::div_floor(-num, -td)
    };
    if !(t > ray_t.min as i128 && t < ray_t.max as i128) {
        return None;
    }
    let ts = t as i64;
    if !point_strictly_inside(bbox, r, ts) {
        return None;
    }
    let k: usize = dominant_axis_exec(n);
    let (i, j): (usize, usize) = if k == 0 {
        (1, 2)
    } else if k == 1 {
        (2, 0)
    } else {
        (0, 1)
    };
    let w_i = plane_w_exec(c, n, off, r, td, tn, i);
    let w_j = plane_w_exec(c, n, off, r, td, tn, j);
    let e2i = e2.get_axis(i) as i128;
    let e2j = e2.get_axis(j) as i128;
    let e1i = e1.get_axis(i) as i128;
    let e1j = e1.get_axis(j) as i128;
    proof {
        lemma_w_bound(*c, *n, off, *r, i as int);
        lemma_w_bound(*c, *n, off, *r, j as int);
        let wb: int = 0x4_0000_0000_0000_0000_0000_0000;
        crate::vec3::lemma_mul_bound2(w_i as int, e2j as int, wb, MAX_COORD as int);
        crate::vec3::lemma_mul_bound2(w_j as int, e2i as int, wb, MAX_COORD as int);
        crate::vec3::lemma_mul_bound2(e1i as int, w_j as int, MAX_COORD as int, wb);
        crate::vec3::lemma_mul_bound2(e1j as int, w_i as int, MAX_COORD as int, wb);
        crate::vec3::lemma_mul_bound2(td as int, axis(*n, k as int),
            0x4000_0000_0000_0000, 0x2_0000_0000);
        assert(axis(*n, k as int) != 0);
        assert(td * axis(*n, k as int) != 0) by (nonlinear_arith)
            requires td != 0 && axis(*n, k as int) != 0;
    }
    let araw = w_i * e2j - w_j * e2i;
    let braw = e1i * w_j - e1j * w_i;
    let draw = td * (n.get_axis(k) as i128);
    let (an, bn, dd) = if draw < 0 {
        (-araw, -braw, -draw)
    } else {
        (araw, braw, draw)
    };
    Some((ts, an, bn, dd))
}

/// The dominant axis of the normal, executably.
fn dominant_axis_exec(n: &Vec3) -> (k: usize)
    ensures
        k == dominant_axis(*n),
        k < 3,
{
    let ax = if n.x < 0 { -(n.x as i128) } else { n.x as i128 };
    let ay = if n.y < 0 { -(n.y as i128) } else { n.y as i128 };
    let az = if n.z < 0 { -(n.z as i128) } else { n.z as i128 };
    if ax >= ay && ax >= az {
        0
    } else if ay >= az {
        1
    } else {
        2
    }
}

/// One `w` coordinate; `td` and `tn` are passed in already computed.
fn plane_w_exec(c: &Point3, n: &Vec3, off: i64, r: &Ray, td: i128, tn: i128, a: usize) -> (w: i128)
    requires
        a < 3,
        in_range(*c, MAX_COORD as int),
        in_range(*n, 0x2_0000_0000),
        in_range(r.orig, RAY_LIMIT as int),
        in_range(r.dir, RAY_LIMIT as int),
        td == spec_dot(*n, r.dir),
        tn == off - spec_dot(*n, r.orig),
        -0x8_0000_0000_0000 <= off <= 0x8_0000_0000_0000,
    ensures
        w == plane_w(*c, *n, off, *r, a as int),
{
    proof {
        crate::vec3::lemma_dot_bound(*n, r.dir, 0x2_0000_0000, RAY_LIMIT as int);
        crate::vec3::lemma_dot_bound(*n, r.orig, 0x2_0000_0000, RAY_LIMIT as int);
        crate::vec3::lemma_mul_bound2(axis(r.orig, a as int) - axis(*c, a as int), td as int,
            RAY_LIMIT as int + MAX_COORD as int, 0x4000_0000_0000_0000);
        crate::vec3::lemma_mul_bound2(tn as int, axis(r.dir, a as int),
            0x4000_0000_0000_0000, RAY_LIMIT as int);
    }
    let oa = r.orig.get_axis(a) as i128;
    let ca = c.get_axis(a) as i128;
    let da = r.dir.get_axis(a) as i128;
    (oa - ca) * td + tn * da
}

/// Magnitude bounds on the shared plane quantities.
proof fn lemma_plane_bounds(c: Point3, n: Vec3, off: i64, r: Ray)
    requires
        in_range(c, MAX_COORD as int),
        in_range(n, 0x2_0000_0000),
        off == spec_dot(n, c),
        ray_wf(r, RAY_LIMIT as int),
    ensures
        -0x4000_0000_0000_0000 <= spec_dot(n, r.dir) <= 0x4000_0000_0000_0000,
        -0x4000_0000_0000_0000 <= spec_dot(n, r.orig) <= 0x4000_0000_0000_0000,
        -0x8_0000_0000_0000 <= off <= 0x8_0000_0000_0000,
{
    crate::vec3::lemma_dot_bound(n, r.dir, 0x2_0000_0000, RAY_LIMIT as int);
    crate::vec3::lemma_dot_bound(n, r.orig, 0x2_0000_0000, RAY_LIMIT as int);
    crate::vec3::lemma_dot_bound(n, c, 0x2_0000_0000, MAX_COORD as int);
}

/// Magnitude bound on `plane_w`.
proof fn lemma_w_bound(c: Point3, n: Vec3, off: i64, r: Ray, a: int)
    requires
        0 <= a < 3,
        in_range(c, MAX_COORD as int),
        in_range(n, 0x2_0000_0000),
        in_range(r.orig, RAY_LIMIT as int),
        in_range(r.dir, RAY_LIMIT as int),
        -0x8_0000_0000_0000 <= off <= 0x8_0000_0000_0000,
    ensures
        -0x4_0000_0000_0000_0000_0000_0000 <= plane_w(c, n, off, r, a)
            <= 0x4_0000_0000_0000_0000_0000_0000,
{
    let td = spec_dot(n, r.dir);
    let tn = off - spec_dot(n, r.orig);
    crate::vec3::lemma_dot_bound(n, r.dir, 0x2_0000_0000, RAY_LIMIT as int);
    crate::vec3::lemma_dot_bound(n, r.orig, 0x2_0000_0000, RAY_LIMIT as int);
    crate::vec3::lemma_mul_bound2(axis(r.orig, a) - axis(c, a), td,
        RAY_LIMIT as int + MAX_COORD as int, 0x4000_0000_0000_0000);
    crate::vec3::lemma_mul_bound2(tn, axis(r.dir, a), 0x4000_0000_0000_0000, RAY_LIMIT as int);
    assert((RAY_LIMIT as int + MAX_COORD as int) * 0x4000_0000_0000_0000
        + 0x4000_0000_0000_0000 * (RAY_LIMIT as int)
        <= 0x4_0000_0000_0000_0000_0000_0000) by (nonlinear_arith)
        requires RAY_LIMIT == 67108864 && MAX_COORD == 65536;
}

/// Builds the record for an accepted planar hit.
pub fn make_plane_record(n: &Vec3, mat: usize, r: &Ray, t: i64, an: i128, bn: i128,
    dd: i128) -> (rec: HitRecord)
    requires
        in_range(*n, 0x2_0000_0000),
        !(n.x == 0 && n.y == 0 && n.z == 0),
        in_range(r.orig, RAY_LIMIT as int),
        in_range(r.dir, RAY_LIMIT as int),
        -T_LIMIT < t < T_LIMIT,
        0 <= an <= dd,
        0 <= bn <= dd,
        0 < dd < 0x1000_0000_0000_0000_0000_0000_0000,
    ensures
        rec == plane_record(*n, mat, *r, t as int, an as int, bn as int, dd as int),
{
    let p = r.at(t);
    let nu = unit_normal(n);
    let tdw: i128 = n.dot(&r.dir);
    proof {
        crate::vec3::lemma_dot_bound(*n, r.dir, 0x2_0000_0000, RAY_LIMIT as int);
    }
    let ff = tdw < 0;
    let normal = if ff { nu } else { nu.neg() };
    let u = frac_fp(an, dd);
    let v = frac_fp(bn, dd);
    HitRecord { p, normal, mat, t, u, v, front_face: ff }
}

/// `(num * FP) / den` for `0 <= num <= den`, in `[0, FP]`.
fn frac_fp(num: i128, den: i128) -> (f: i64)
    requires
        0 <= num <= den,
        0 < den < 0x1000_0000_0000_0000_0000_0000_0000,
    ensures
        f == (num * (FP as int)) / (den as int),
        0 <= f <= FP,
{
    let scaled = num * 65536;
    proof {
        assert(num * 65536 == num * (FP as int)) by (nonlinear_arith)
            requires FP == 65536;
    }
    let q = crate::math::div_floor(scaled, den);
    proof {
        crate::math::lemma_div_bounds(scaled as int, den as int);
        assert(0 <= q <= FP) by (nonlinear_arith)
            requires
                FP == 65536,
                0 <= num <= den,
                0 < den,
                scaled == num * (FP as int),
                (den as int) * q <= scaled < (den as int) * (q + 1);
    }
    q as i64
}

/// The fixed-point unit normal of a nonzero plane normal.
pub fn unit_normal(n: &Vec3) -> (nu: Vec3)
    requires
        in_range(*n, 0x2_0000_0000),
        !(n.x == 0 && n.y == 0 && n.z == 0),
    ensures
        nu == spec_unit_normal(*n),
        in_range(nu, FP as int + 1),
{
    let nn: i128 = n.dot(n);
    proof {
        crate::vec3::lemma_dot_bound(*n, *n, 0x2_0000_0000, 0x2_0000_0000);
        crate::vec3::lemma_dot_self_pos(*n);
        crate::vec3::lemma_mul_bound(n.x as int, n.x as int, 0x2_0000_0000);
        crate::vec3::lemma_mul_bound(n.y as int, n.y as int, 0x2_0000_0000);
        crate::vec3::lemma_mul_bound(n.z as int, n.z as int, 0x2_0000_0000);
        crate::vec3::lemma_square_nonneg(n.x as int);
        crate::vec3::lemma_square_nonneg(n.y as int);
        crate::vec3::lemma_square_nonneg(n.z as int);
    }
    let ln = crate::math::isqrt(nn);
    proof {
        if ln == 0 {
            assert((ln as int + 1) * (ln as int + 1) == 1) by (nonlinear_arith)
                requires ln == 0;
            assert(false);
        }
    }
    let x = unit_coord(n.x, ln, nn);
    let y = unit_coord(n.y, ln, nn);
    let z = unit_coord(n.z, ln, nn);
    Vec3 { x, y, z }
}

/// One coordinate of the unit normal: `(c * FP) / ln` where `ln` is the
/// integer square root of the squared length `nn`.
fn unit_coord(c: i64, ln: i128, nn: i128) -> (o: i64)
    requires
        -0x2_0000_0000 <= c <= 0x2_0000_0000,
        0 < ln < 0x100_0000_0000_0000,
        crate::math::is_isqrt(nn as int, ln as int),
        c * c <= nn,
        ln == spec_isqrt(nn as int),
    ensures
        o == (c * (FP as int)) / (ln as int),
        -(FP as int) - 1 <= o <= FP,
{
    let scaled = (c as i128) * 65536;
    proof {
        assert((c as i128) * 65536 == c * (FP as int)) by (nonlinear_arith)
            requires FP == 65536;
        assert(-(ln as int) <= c <= ln as int) by (nonlinear_arith)
            requires
                0 < ln,
                c * c <= nn,
                nn < (ln as int + 1) * (ln as int + 1);
        assert(-(ln as int) * (FP as int) <= c * (FP as int) <= (ln as int) * (FP as int))
            by (nonlinear_arith)
            requires
                FP == 65536,
                -(ln as int) <= c <= ln as int,
                0 < ln;
    }
    let q = crate::math::div_floor(scaled, ln);
    proof {
        crate::math::lemma_div_bounds(scaled as int, ln as int);
        assert(-(FP as int) - 1 <= q <= FP) by (nonlinear_arith)
            requires
                FP == 65536,
                0 < ln,
                -(ln as int) * (FP as int) <= scaled <= (ln as int) * (FP as int),
                (ln as int) * q <= scaled < (ln as int) * (q + 1);
    }
    q as i64
}

} // verus!
