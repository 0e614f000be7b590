//! Ray-triangle intersection: the plane machinery of the quad with the
//! simplex footprint test.

use vstd::prelude::*;
use crate::vec3::{Vec3, Point3, in_range, spec_cross_axis, spec_dot};
use crate::ray::{Ray, ray_wf};
use crate::aabb::{AABBox, in_box_strict};
use crate::interval::Interval;
use crate::math::{MAX_COORD, RAY_LIMIT, T_LIMIT};
use crate::hittable::HitRecord;
use crate::quad::{plane_wf, plane_t, plane_alpha_num, plane_beta_num, plane_den, plane_record,
    plane_parts, plane_candidate, make_plane_record, lemma_cross_in_range};

verus! {

/// A triangle: a corner and two edge vectors, with the same precomputed
/// plane data as the quad.
#[derive(Clone, Copy, Debug, PartialEq, Eq, Structural)]
pub struct Triangle {
    pub corner: Point3,
    pub edge1: Vec3,
    pub edge2: Vec3,
    pub mat: usize,
    pub bbox: AABBox,
    pub normal: Vec3,
    pub offset: i64,
}

pub open spec fn triangle_wf(tr: Triangle) -> bool {
    plane_wf(tr.corner, tr.edge1, tr.edge2, tr.normal, tr.offset, tr.bbox)
}

/// The full triangle intersection: plane crossing, acceptance window and
/// interior guard, then the simplex footprint test.
pub open spec fn triangle_hit_spec(tr: Triangle, r: Ray, tmin: int, tmax: int) -> Option<
    HitRecord> {
    let td = spec_dot(tr.normal, r.dir);
    if td == 0 {
        None
    } else {
        let tn = tr.offset - spec_dot(tr.normal, r.orig);
        let t = plane_t(tn, td);
        if !(tmin < t < tmax && in_box_strict(tr.bbox, r, t)) {
            None
        } else {
            let an = plane_alpha_num(tr.corner, tr.edge2, tr.normal, tr.offset, r);
            let bn = plane_beta_num(tr.corner, tr.edge1, tr.normal, tr.offset, r);
            let dd = plane_den(tr.normal, r);
            if 0 <= an && 0 <= bn && an + bn <= dd {
                Some(plane_record(tr.normal, tr.mat, r, t, an, bn, dd))
            } else {
                None
            }
        }
    }
}

impl Triangle {
    pub fn new(corner: Point3, edge1: Vec3, edge2: Vec3, mat: usize) -> (tr: Triangle)
        requires
            in_range(corner, MAX_COORD as int),
            in_range(edge1, MAX_COORD as int),
            in_range(edge2, MAX_COORD as int),
            !(spec_cross_axis(edge1, edge2, 0) == 0 && spec_cross_axis(edge1, edge2, 1) == 0
                && spec_cross_axis(edge1, edge2, 2) == 0),
        ensures
            tr.corner == corner && tr.edge1 == edge1 && tr.edge2 == edge2 && tr.mat == mat,
            triangle_wf(tr),
    {
        let (bbox, normal, offset) = plane_parts(&corner, &edge1, &edge2);
        Triangle { corner, edge1, edge2, mat, bbox, normal, offset }
    }

    pub fn bounding_box(&self) -> (b: AABBox)
        ensures
            b == self.bbox,
    {
        self.bbox
    }

    /// Intersect `r` with the triangle inside the acceptance window.
    /// The plane crossing is accepted only when its exact point lies
    /// strictly inside the triangle's padded box; see `Hittable::hit`
    /// for why and for the boundary hits this can drop.
    pub fn hit(&self, r: &Ray, ray_t: &Interval) -> (res: Option<HitRecord>)
        requires
            triangle_wf(*self),
            ray_wf(*r, RAY_LIMIT as int),
            -T_LIMIT <= ray_t.min <= T_LIMIT,
            -T_LIMIT <= ray_t.max <= T_LIMIT,
        ensures
            res == triangle_hit_spec(*self, *r, ray_t.min as int, ray_t.max as int),
    {
        proof {
            lemma_cross_in_range(self.edge1, self.edge2);
        }
        match plane_candidate(&self.corner, &self.edge1, &self.edge2, &self.normal, self.offset,
            &self.bbox, r, ray_t) {
            None => None,
            Some((t, an, bn, dd)) => {
                if 0 <= an && 0 <= bn && an + bn <= dd {
                    Some(make_plane_record(&self.normal, self.mat, r, t, an, bn, dd))
                } else {
                    None
                }
            },
        }
    }
}

} // verus!
