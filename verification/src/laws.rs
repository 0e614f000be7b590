//! The laws of nearest-hit determination: every reported hit lies in the
//! reporting object's own box; narrowing the acceptance window filters
//! the result; the hierarchy returns what the narrowing linear scan over
//! its leaves returns; the scan returns the nearest hit; and any two
//! arrangements of the same objects agree wherever hit parameters do not
//! collide.

use vstd::prelude::*;
use crate::vec3::{Vec3, in_range, spec_sub, spec_add, spec_dot};
use crate::ray::{Ray, ray_wf, at_scaled};
use crate::aabb::{AABBox, box_in_range, box_contains_box, box_hit_spec, in_box_strict,
    strict_inside_axis, axis_interval_of, lemma_box_hit_of_interior, lemma_box_hit_mono,
    lemma_strict_inside_mono, lemma_contains_box_trans};
use crate::math::{FP, MAX_COORD, RAY_LIMIT, T_LIMIT, spec_isqrt, lemma_isqrt_exists,
    lemma_div_monotone};
use crate::hittable::{Hittable, HitRecord, hit_spec, hittable_wf, bbox_of, ray_bound, leaves,
    lemma_hit_t_in_window, spec_shift_box, Rotation, spec_rot_inv, spec_rot_fwd, p_limit,
    lemma_hit_p_bounded};
use crate::sphere::Sphere;
use crate::list::{scan_hits, or_else, all_wf};
use crate::bvh::same_elements;
use crate::material::Material;

verus! {

/// Narrowing filter: the result of a narrower window is the result of
/// the wider one, kept only when its parameter beats the new bound.
pub open spec fn filtered(full: Option<HitRecord>, m: int) -> Option<HitRecord> {
    match full {
        Some(rec) => if rec.t < m {
            Some(rec)
        } else {
            None
        },
        None => None,
    }
}

/// Every reported hit has its exact point strictly inside the reporting
/// object's own bounding box.
pub proof fn lemma_hit_in_own_box(h: Hittable, r: Ray, tmin: int, tmax: int)
    requires
        hittable_wf(h),
        ray_wf(r, ray_bound(h)),
        -T_LIMIT <= tmin <= T_LIMIT,
        -T_LIMIT <= tmax <= T_LIMIT,
        hit_spec(h, r, tmin, tmax) is Some,
    ensures
        in_box_strict(bbox_of(h), r, hit_spec(h, r, tmin, tmax)->0.t as int),
    decreases h,
{
    let rec = hit_spec(h, r, tmin, tmax)->0;
    crate::hittable::lemma_ray_bound_le(h);
    lemma_hit_t_in_window(h, r, tmin, tmax);
    match h {
        Hittable::Translate { object, offset, bbox } => {
            let shifted = Ray { orig: spec_sub(r.orig, offset), dir: r.dir };
            lemma_hit_in_own_box(*object, shifted, tmin, tmax);
            let irec = hit_spec(*object, shifted, tmin, tmax)->0;
            let ib = bbox_of(*object);
            assert forall|a: int| 0 <= a < 3 implies strict_inside_axis(bbox, r, rec.t as int,
                a) by {
                assert(strict_inside_axis(ib, shifted, irec.t as int, a));
                lemma_shift_axis(ib, bbox, shifted, r, offset, irec.t as int, a);
            }
        },
        Hittable::RotateY { object, rot, bbox } => {},
        Hittable::Node { left, right, bbox } => {
            crate::hittable::lemma_ray_bound_le(*left);
            crate::hittable::lemma_ray_bound_le(*right);
            match hit_spec(*left, r, tmin, tmax) {
                Some(lr) => {
                    lemma_hit_t_in_window(*left, r, tmin, tmax);
                    match hit_spec(*right, r, tmin, lr.t as int) {
                        Some(rr) => {
                            lemma_hit_in_own_box(*right, r, tmin, lr.t as int);
                            lemma_strict_inside_mono(bbox, bbox_of(*right), r, rec.t as int);
                        },
                        None => {
                            lemma_hit_in_own_box(*left, r, tmin, tmax);
                            lemma_strict_inside_mono(bbox, bbox_of(*left), r, rec.t as int);
                        },
                    }
                },
                None => {
                    lemma_hit_in_own_box(*right, r, tmin, tmax);
                    lemma_strict_inside_mono(bbox, bbox_of(*right), r, rec.t as int);
                },
            }
        },
        _ => {},
    }
}

/// Shifting the ray and the box together preserves strict interiority.
proof fn lemma_shift_axis(ib: AABBox, ob: AABBox, shifted: Ray, r: Ray, offset: Vec3, t: int,
    a: int)
    requires
        0 <= a < 3,
        ob == spec_shift_box(ib, offset),
        box_in_range(ib, crate::math::INF_COORD as int - MAX_COORD as int),
        in_range(offset, MAX_COORD as int),
        shifted.orig == spec_sub(r.orig, offset),
        shifted.dir == r.dir,
        in_range(r.orig, RAY_LIMIT as int),
        strict_inside_axis(ib, shifted, t, a),
    ensures
        strict_inside_axis(ob, r, t, a),
{
    let f = FP as int;
    let off = crate::vec3::axis(offset, a);
    assert(crate::vec3::axis(shifted.orig, a) == crate::vec3::axis(r.orig, a) - off);
    assert(at_scaled(r, t, a) == at_scaled(shifted, t, a) + off * f) by (nonlinear_arith)
        requires
            at_scaled(r, t, a) == crate::vec3::axis(r.orig, a) * f + t * crate::vec3::axis(
                r.dir, a),
            at_scaled(shifted, t, a) == (crate::vec3::axis(r.orig, a) - off) * f + t
                * crate::vec3::axis(shifted.dir, a),
            shifted.dir == r.dir;
    assert(axis_interval_of(ob, a).min == axis_interval_of(ib, a).min + off);
    assert(axis_interval_of(ob, a).max == axis_interval_of(ib, a).max + off);
    assert((axis_interval_of(ib, a).min + off) * f == axis_interval_of(ib, a).min * f + off * f)
        by (nonlinear_arith);
    assert((axis_interval_of(ib, a).max + off) * f == axis_interval_of(ib, a).max * f + off * f)
        by (nonlinear_arith);
}

/// The two rounded sphere roots are ordered.
proof fn lemma_sphere_roots_ordered(s: Sphere, r: Ray)
    requires
        spec_dot(r.dir, r.dir) > 0,
    ensures
        ({
            let oc = spec_sub(s.center, r.orig);
            let a = spec_dot(r.dir, r.dir);
            let h = spec_dot(r.dir, oc);
            let c = spec_dot(oc, oc) - s.radius * s.radius;
            let disc = h * h - a * c;
            disc > 0 ==> ((h - spec_isqrt(disc)) * (FP as int)) / a
                <= ((h + spec_isqrt(disc)) * (FP as int)) / a
        }),
{
    let oc = spec_sub(s.center, r.orig);
    let a = spec_dot(r.dir, r.dir);
    let h = spec_dot(r.dir, oc);
    let c = spec_dot(oc, oc) - s.radius * s.radius;
    let disc = h * h - a * c;
    if disc > 0 {
        lemma_isqrt_exists(disc);
        let sq = spec_isqrt(disc);
        assert((h - sq) * (FP as int) <= (h + sq) * (FP as int)) by (nonlinear_arith)
            requires sq >= 0 && FP == 65536;
        lemma_div_monotone((h - sq) * (FP as int), (h + sq) * (FP as int), a);
    }
}

/// Narrowing the acceptance window filters the result: for `m <= tmax`,
/// the hit over `(tmin, m)` is the hit over `(tmin, tmax)` if its
/// parameter is below `m`, and nothing otherwise.
pub proof fn lemma_hit_stable(h: Hittable, r: Ray, tmin: int, m: int, tmax: int)
    requires
        hittable_wf(h),
        ray_wf(r, ray_bound(h)),
        -T_LIMIT <= tmin <= T_LIMIT,
        -T_LIMIT <= tmax <= T_LIMIT,
        -T_LIMIT <= m <= tmax,
    ensures
        hit_spec(h, r, tmin, m) == filtered(hit_spec(h, r, tmin, tmax), m),
    decreases h,
{
    crate::hittable::lemma_ray_bound_le(h);
    match h {
        Hittable::Sphere(s) => {
            crate::vec3::lemma_dot_self_pos(r.dir);
            lemma_sphere_roots_ordered(s, r);
        },
        Hittable::Quad(q) => {},
        Hittable::Triangle(t) => {},
        Hittable::Translate { object, offset, .. } => {
            let shifted = Ray { orig: spec_sub(r.orig, offset), dir: r.dir };
            lemma_hit_stable(*object, shifted, tmin, m, tmax);
        },
        Hittable::RotateY { object, rot, bbox } => {
            let o2 = spec_rot_inv(rot, r.orig);
            let d2 = spec_rot_inv(rot, r.dir);
            if !(d2.x == 0 && d2.y == 0 && d2.z == 0) {
                let r2 = Ray { orig: o2, dir: d2 };
                crate::hittable::lemma_rot_inv_range(rot, r.orig, ray_bound(h));
                crate::hittable::lemma_rot_inv_range(rot, r.dir, ray_bound(h));
                crate::math::lemma_div_bounds(ray_bound(*object) - 1, 2);
                lemma_hit_stable(*object, r2, tmin, m, tmax);
            }
        },
        Hittable::Node { left, right, bbox } => {
            crate::hittable::lemma_ray_bound_le(*left);
            crate::hittable::lemma_ray_bound_le(*right);
            // The full result's point lies inside this node's box, so
            // the narrower window still passes the slab test whenever
            // the full result survives the filter.
            if hit_spec(h, r, tmin, tmax) is Some {
                lemma_hit_in_own_box(h, r, tmin, tmax);
                lemma_hit_t_in_window(h, r, tmin, tmax);
            }
            if !box_hit_spec(bbox, r, tmin, tmax) {
                if box_hit_spec(bbox, r, tmin, m) {
                    lemma_box_hit_mono(bbox, r, tmin, m, tmax);
                }
            } else {
                if !box_hit_spec(bbox, r, tmin, m) {
                    // Any filtered survivor would force the narrow slab
                    // test to pass: contradiction.
                    if hit_spec(h, r, tmin, tmax) is Some {
                        let rec = hit_spec(h, r, tmin, tmax)->0;
                        if rec.t < m {
                            lemma_box_hit_of_interior(bbox, r, tmin, m, rec.t as int);
                        }
                    }
                } else {
                    match hit_spec(*left, r, tmin, tmax) {
                        None => {
                            lemma_hit_stable(*left, r, tmin, m, tmax);
                            lemma_hit_stable(*right, r, tmin, m, tmax);
                        },
                        Some(lr) => {
                            lemma_hit_t_in_window(*left, r, tmin, tmax);
                            lemma_hit_stable(*left, r, tmin, m, tmax);
                            if lr.t < m {
                                // The right child is queried with the
                                // same narrowed window either way.
                                if hit_spec(*right, r, tmin, lr.t as int) is Some {
                                    lemma_hit_t_in_window(*right, r, tmin, lr.t as int);
                                }
                            } else {
                                lemma_hit_stable(*right, r, tmin, m, lr.t as int);
                                if hit_spec(*right, r, tmin, lr.t as int) is Some {
                                    lemma_hit_t_in_window(*right, r, tmin, lr.t as int);
                                }
                            }
                        },
                    }
                }
            }
        },
    }
}

} // verus!

verus! {

/// Every leaf of a well-formed tree is well-formed.
pub proof fn lemma_leaves_wf(h: Hittable)
    requires
        hittable_wf(h),
    ensures
        all_wf(leaves(h)),
    decreases h,
{
    match h {
        Hittable::Node { left, right, .. } => {
            lemma_leaves_wf(*left);
            lemma_leaves_wf(*right);
            assert forall|i: int| 0 <= i < leaves(h).len() implies hittable_wf(
                #[trigger] leaves(h)[i]) by {
                if i < leaves(*left).len() {
                    assert(leaves(h)[i] == leaves(*left)[i]);
                } else {
                    assert(leaves(h)[i] == leaves(*right)[i - leaves(*left).len()]);
                }
            }
        },
        _ => {
            assert(leaves(h)[0] == h);
        },
    }
}

/// Every leaf accepts at least the rays its tree accepts.
pub proof fn lemma_leaf_ray_bound(h: Hittable)
    ensures
        forall|i: int| 0 <= i < leaves(h).len() ==> ray_bound(#[trigger] leaves(h)[i])
            >= ray_bound(h),
    decreases h,
{
    match h {
        Hittable::Node { left, right, .. } => {
            lemma_leaf_ray_bound(*left);
            lemma_leaf_ray_bound(*right);
            assert forall|i: int| 0 <= i < leaves(h).len() implies ray_bound(
                #[trigger] leaves(h)[i]) >= ray_bound(h) by {
                if i < leaves(*left).len() {
                    assert(leaves(h)[i] == leaves(*left)[i]);
                } else {
                    assert(leaves(h)[i] == leaves(*right)[i - leaves(*left).len()]);
                }
            }
        },
        _ => {
            assert(leaves(h)[0] == h);
        },
    }
}

/// Every leaf's box is contained in its tree's box.
pub proof fn lemma_leaf_box_contained(h: Hittable)
    requires
        hittable_wf(h),
    ensures
        forall|i: int| 0 <= i < leaves(h).len() ==> box_contains_box(bbox_of(h),
            bbox_of(#[trigger] leaves(h)[i])),
    decreases h,
{
    match h {
        Hittable::Node { left, right, bbox } => {
            lemma_leaf_box_contained(*left);
            lemma_leaf_box_contained(*right);
            assert forall|i: int| 0 <= i < leaves(h).len() implies box_contains_box(bbox_of(h),
                bbox_of(#[trigger] leaves(h)[i])) by {
                if i < leaves(*left).len() {
                    assert(leaves(h)[i] == leaves(*left)[i]);
                    lemma_contains_box_trans(bbox_of(h), bbox_of(*left),
                        bbox_of(leaves(*left)[i]));
                } else {
                    assert(leaves(h)[i] == leaves(*right)[i - leaves(*left).len()]);
                    lemma_contains_box_trans(bbox_of(h), bbox_of(*right),
                        bbox_of(leaves(*right)[i - leaves(*left).len()]));
                }
            }
        },
        _ => {
            assert(leaves(h)[0] == h);
            assert(box_contains_box(bbox_of(h), bbox_of(h)));
        },
    }
}

/// A reported scan parameter lies strictly inside the window.
pub proof fn lemma_scan_t_in_window(s: Seq<Hittable>, r: Ray, tmin: int, tmax: int)
    requires
        -T_LIMIT <= tmin <= T_LIMIT,
        -T_LIMIT <= tmax <= T_LIMIT,
        scan_hits(s, r, tmin, tmax) is Some,
    ensures
        tmin < scan_hits(s, r, tmin, tmax)->0.t < tmax,
    decreases s.len(),
{
    if s.len() > 0 {
        match hit_spec(s[0], r, tmin, tmax) {
            None => {
                lemma_scan_t_in_window(s.drop_first(), r, tmin, tmax);
            },
            Some(r0) => {
                lemma_hit_t_in_window(s[0], r, tmin, tmax);
                if scan_hits(s.drop_first(), r, tmin, r0.t as int) is Some {
                    lemma_scan_t_in_window(s.drop_first(), r, tmin, r0.t as int);
                }
            },
        }
    }
}

/// A scan over objects that all miss reports nothing.
pub proof fn lemma_scan_none(s: Seq<Hittable>, r: Ray, tmin: int, tmax: int)
    requires
        forall|i: int| 0 <= i < s.len() ==> hit_spec(#[trigger] s[i], r, tmin, tmax) is None,
    ensures
        scan_hits(s, r, tmin, tmax) is None,
    decreases s.len(),
{
    if s.len() > 0 {
        assert(hit_spec(s[0], r, tmin, tmax) is None);
        assert forall|i: int| 0 <= i < s.drop_first().len() implies hit_spec(
            #[trigger] s.drop_first()[i], r, tmin, tmax) is None by {
            assert(s.drop_first()[i] == s[i + 1]);
        }
        lemma_scan_none(s.drop_first(), r, tmin, tmax);
    }
}

/// The narrowing scan over a concatenation: scan the first part, then
/// the second against the window the first part's result narrows.
pub proof fn lemma_scan_concat(a: Seq<Hittable>, b: Seq<Hittable>, r: Ray, tmin: int, tmax: int)
    requires
        -T_LIMIT <= tmin <= T_LIMIT,
        -T_LIMIT <= tmax <= T_LIMIT,
    ensures
        scan_hits(a + b, r, tmin, tmax) == (match scan_hits(a, r, tmin, tmax) {
            None => scan_hits(b, r, tmin, tmax),
            Some(lr) => or_else(Some(lr), scan_hits(b, r, tmin, lr.t as int)),
        }),
    decreases a.len(),
{
    if a.len() == 0 {
        assert(a + b =~= b);
    } else {
        assert((a + b)[0] == a[0]);
        assert((a + b).drop_first() =~= a.drop_first() + b);
        match hit_spec(a[0], r, tmin, tmax) {
            None => {
                lemma_scan_concat(a.drop_first(), b, r, tmin, tmax);
            },
            Some(r0) => {
                lemma_hit_t_in_window(a[0], r, tmin, tmax);
                lemma_scan_concat(a.drop_first(), b, r, tmin, r0.t as int);
                if scan_hits(a.drop_first(), r, tmin, r0.t as int) is Some {
                    lemma_scan_t_in_window(a.drop_first(), r, tmin, r0.t as int);
                }
            },
        }
    }
}

/// The hierarchy's hit is the narrowing scan over its leaves: a miss of
/// a node's box means no leaf under it can hit, and a pass dissolves the
/// node into the scan of its two subtrees.
#[verifier::rlimit(60)]
pub proof fn lemma_hierarchy_is_scan(h: Hittable, r: Ray, tmin: int, tmax: int)
    requires
        hittable_wf(h),
        ray_wf(r, ray_bound(h)),
        -T_LIMIT <= tmin <= T_LIMIT,
        -T_LIMIT <= tmax <= T_LIMIT,
    ensures
        hit_spec(h, r, tmin, tmax) == scan_hits(leaves(h), r, tmin, tmax),
    decreases h,
{
    match h {
        Hittable::Node { left, right, bbox } => {
            lemma_leaves_wf(h);
            lemma_leaf_ray_bound(h);
            lemma_leaf_box_contained(h);
            if !box_hit_spec(bbox, r, tmin, tmax) {
                assert forall|i: int| 0 <= i < leaves(h).len() implies hit_spec(
                    #[trigger] leaves(h)[i], r, tmin, tmax) is None by {
                    let x = leaves(h)[i];
                    if hit_spec(x, r, tmin, tmax) is Some {
                        assert(in_range(r.orig, ray_bound(x)) && in_range(r.dir, ray_bound(x)));
                        lemma_hit_in_own_box(x, r, tmin, tmax);
                        lemma_hit_t_in_window(x, r, tmin, tmax);
                        let rec = hit_spec(x, r, tmin, tmax)->0;
                        lemma_strict_inside_mono(bbox, bbox_of(x), r, rec.t as int);
                        lemma_box_hit_of_interior(bbox, r, tmin, tmax, rec.t as int);
                    }
                }
                lemma_scan_none(leaves(h), r, tmin, tmax);
                assert(hit_spec(h, r, tmin, tmax) is None);
                assert(scan_hits(leaves(h), r, tmin, tmax) is None);
            } else {
                lemma_hierarchy_is_scan(*left, r, tmin, tmax);
                lemma_scan_concat(leaves(*left), leaves(*right), r, tmin, tmax);
                assert(leaves(h) == leaves(*left) + leaves(*right));
                match hit_spec(*left, r, tmin, tmax) {
                    None => {
                        lemma_hierarchy_is_scan(*right, r, tmin, tmax);
                        assert(hit_spec(h, r, tmin, tmax) == hit_spec(*right, r, tmin, tmax));
                        assert(scan_hits(leaves(h), r, tmin, tmax) == scan_hits(leaves(*right),
                            r, tmin, tmax));
                        assert(hit_spec(h, r, tmin, tmax) == scan_hits(leaves(h), r, tmin,
                            tmax));
                    },
                    Some(lr) => {
                        lemma_hit_t_in_window(*left, r, tmin, tmax);
                        lemma_hierarchy_is_scan(*right, r, tmin, lr.t as int);
                        assert(scan_hits(leaves(*left), r, tmin, tmax) == Some(lr));
                        assert(scan_hits(leaves(h), r, tmin, tmax) == or_else(Some(lr),
                            scan_hits(leaves(*right), r, tmin, lr.t as int)));
                        assert(hit_spec(h, r, tmin, tmax) == or_else(Some(lr),
                            hit_spec(*right, r, tmin, lr.t as int)));
                        assert(hit_spec(h, r, tmin, tmax) == scan_hits(leaves(h), r, tmin,
                            tmax));
                    },
                }
            }
        },
        _ => {
            let l = leaves(h);
            assert(l.len() == 1);
            assert(l[0] == h);
            assert(l.drop_first().len() == 0);
            match hit_spec(h, r, tmin, tmax) {
                None => {
                    assert(scan_hits(l, r, tmin, tmax) == scan_hits(l.drop_first(), r, tmin,
                        tmax));
                    assert(scan_hits(l.drop_first(), r, tmin, tmax) is None);
                },
                Some(r0) => {
                    assert(scan_hits(l.drop_first(), r, tmin, r0.t as int) is None);
                    assert(scan_hits(l, r, tmin, tmax) == Some(r0));
                },
            }
            assert(hit_spec(h, r, tmin, tmax) == scan_hits(leaves(h), r, tmin, tmax));
        },
    }
}

/// The scan reports the nearest hit: when it reports nothing, every
/// object misses; when it reports a record, some object reports exactly
/// that record and no object reports a strictly closer one.
pub proof fn lemma_scan_nearest(s: Seq<Hittable>, r: Ray, tmin: int, tmax: int)
    requires
        all_wf(s),
        forall|i: int| 0 <= i < s.len() ==> ray_wf(r, ray_bound(#[trigger] s[i])),
        -T_LIMIT <= tmin <= T_LIMIT,
        -T_LIMIT <= tmax <= T_LIMIT,
    ensures
        scan_hits(s, r, tmin, tmax) is None ==> forall|i: int| 0 <= i < s.len()
            ==> hit_spec(#[trigger] s[i], r, tmin, tmax) is None,
        scan_hits(s, r, tmin, tmax) is Some ==> exists|i: int| 0 <= i < s.len()
            && hit_spec(#[trigger] s[i], r, tmin, tmax) == scan_hits(s, r, tmin, tmax),
        scan_hits(s, r, tmin, tmax) is Some ==> forall|i: int| 0 <= i < s.len()
            ==> (hit_spec(#[trigger] s[i], r, tmin, tmax) is None
                || hit_spec(s[i], r, tmin, tmax)->0.t >= scan_hits(s, r, tmin, tmax)->0.t),
    decreases s.len(),
{
    if s.len() > 0 {
        let rest = s.drop_first();
        assert(forall|i: int| 0 <= i < rest.len() ==> #[trigger] rest[i] == s[i + 1]);
        match hit_spec(s[0], r, tmin, tmax) {
            None => {
                lemma_scan_nearest(rest, r, tmin, tmax);
                assert(scan_hits(s, r, tmin, tmax) == scan_hits(rest, r, tmin, tmax));
                if scan_hits(rest, r, tmin, tmax) is None {
                    assert forall|i: int| 0 <= i < s.len() implies hit_spec(#[trigger] s[i], r,
                        tmin, tmax) is None by {
                        if i > 0 {
                            assert(hit_spec(rest[i - 1], r, tmin, tmax) is None);
                        }
                    }
                } else {
                    let j = choose|j: int| 0 <= j < rest.len() && hit_spec(#[trigger] rest[j], r,
                        tmin, tmax) == scan_hits(rest, r, tmin, tmax);
                    assert(hit_spec(s[j + 1], r, tmin, tmax) == scan_hits(s, r, tmin, tmax));
                    assert forall|i: int| 0 <= i < s.len() implies (hit_spec(#[trigger] s[i], r,
                        tmin, tmax) is None || hit_spec(s[i], r, tmin, tmax)->0.t >= scan_hits(s,
                        r, tmin, tmax)->0.t) by {
                        if i > 0 {
                            assert(hit_spec(rest[i - 1], r, tmin, tmax) is None || hit_spec(
                                rest[i - 1], r, tmin, tmax)->0.t >= scan_hits(rest, r, tmin,
                                tmax)->0.t);
                        }
                    }
                }
            },
            Some(r0) => {
                lemma_hit_t_in_window(s[0], r, tmin, tmax);
                let narrowed = scan_hits(rest, r, tmin, r0.t as int);
                lemma_scan_nearest(rest, r, tmin, r0.t as int);
                // Transfer facts about the narrowed window to the full
                // window through the filtering law, element by element.
                assert forall|j: int| 0 <= j < rest.len() implies #[trigger] hit_spec(rest[j], r,
                    tmin, r0.t as int) == filtered(hit_spec(rest[j], r, tmin, tmax),
                    r0.t as int) by {
                    lemma_hit_stable(rest[j], r, tmin, r0.t as int, tmax);
                }
                match narrowed {
                    None => {
                        assert(scan_hits(s, r, tmin, tmax) == Some(r0));
                        assert(hit_spec(s[0], r, tmin, tmax) == Some(r0));
                        assert forall|i: int| 0 <= i < s.len() implies (hit_spec(#[trigger] s[i],
                            r, tmin, tmax) is None || hit_spec(s[i], r, tmin, tmax)->0.t
                            >= r0.t) by {
                            if i > 0 {
                                assert(hit_spec(rest[i - 1], r, tmin, r0.t as int) is None);
                            }
                        }
                    },
                    Some(r1) => {
                        lemma_scan_t_in_window(rest, r, tmin, r0.t as int);
                        assert(scan_hits(s, r, tmin, tmax) == Some(r1));
                        let j = choose|j: int| 0 <= j < rest.len() && hit_spec(
                            #[trigger] rest[j], r, tmin, r0.t as int) == Some(r1);
                        assert(hit_spec(s[j + 1], r, tmin, tmax) == Some(r1));
                        assert forall|i: int| 0 <= i < s.len() implies (hit_spec(#[trigger] s[i],
                            r, tmin, tmax) is None || hit_spec(s[i], r, tmin, tmax)->0.t
                            >= r1.t) by {
                            if i > 0 {
                                assert(hit_spec(rest[i - 1], r, tmin, r0.t as int) is None
                                    || hit_spec(rest[i - 1], r, tmin, r0.t as int)->0.t >= r1.t);
                            }
                        }
                    },
                }
            },
        }
    }
}

/// No two distinct objects hit at the same parameter along this ray.
pub open spec fn distinct_hits(s: Seq<Hittable>, r: Ray, tmin: int, tmax: int) -> bool {
    forall|x: Hittable, y: Hittable|
        s.contains(x) && s.contains(y) && x != y && #[trigger] hit_spec(x, r, tmin, tmax) is Some
            && #[trigger] hit_spec(y, r, tmin, tmax) is Some ==> hit_spec(x, r, tmin,
            tmax)->0.t != hit_spec(y, r, tmin, tmax)->0.t
}

/// Arrangement independence: two sequences holding the same objects
/// report the same nearest hit, provided no two distinct objects hit at
/// the same parameter.
pub proof fn lemma_scan_same_elements(s1: Seq<Hittable>, s2: Seq<Hittable>, r: Ray, tmin: int,
    tmax: int)
    requires
        all_wf(s1),
        all_wf(s2),
        forall|i: int| 0 <= i < s1.len() ==> ray_wf(r, ray_bound(#[trigger] s1[i])),
        forall|i: int| 0 <= i < s2.len() ==> ray_wf(r, ray_bound(#[trigger] s2[i])),
        same_elements(s1, s2),
        distinct_hits(s1, r, tmin, tmax),
        -T_LIMIT <= tmin <= T_LIMIT,
        -T_LIMIT <= tmax <= T_LIMIT,
    ensures
        scan_hits(s1, r, tmin, tmax) == scan_hits(s2, r, tmin, tmax),
{
    lemma_scan_nearest(s1, r, tmin, tmax);
    lemma_scan_nearest(s2, r, tmin, tmax);
    let res1 = scan_hits(s1, r, tmin, tmax);
    let res2 = scan_hits(s2, r, tmin, tmax);
    if res1 is None && res2 is Some {
        let i = choose|i: int| 0 <= i < s2.len() && hit_spec(#[trigger] s2[i], r, tmin, tmax)
            == res2;
        assert(s2.contains(s2[i]));
        assert(s1.contains(s2[i]));
        let j = choose|j: int| 0 <= j < s1.len() && s1[j] == s2[i];
        assert(hit_spec(s1[j], r, tmin, tmax) is None);
        assert(false);
    } else if res1 is Some && res2 is None {
        let i = choose|i: int| 0 <= i < s1.len() && hit_spec(#[trigger] s1[i], r, tmin, tmax)
            == res1;
        assert(s1.contains(s1[i]));
        assert(s2.contains(s1[i]));
        let j = choose|j: int| 0 <= j < s2.len() && s2[j] == s1[i];
        assert(hit_spec(s2[j], r, tmin, tmax) is None);
        assert(false);
    } else if res1 is Some && res2 is Some {
        let i1 = choose|i: int| 0 <= i < s1.len() && hit_spec(#[trigger] s1[i], r, tmin, tmax)
            == res1;
        let i2 = choose|i: int| 0 <= i < s2.len() && hit_spec(#[trigger] s2[i], r, tmin, tmax)
            == res2;
        let x1 = s1[i1];
        let x2 = s2[i2];
        assert(s1.contains(x1) && s2.contains(x2));
        assert(s1.contains(x2) && s2.contains(x1));
        // Each result's parameter bounds the other's.
        let j2 = choose|j: int| 0 <= j < s1.len() && s1[j] == x2;
        assert(hit_spec(s1[j2], r, tmin, tmax)->0.t >= res1->0.t);
        let j1 = choose|j: int| 0 <= j < s2.len() && s2[j] == x1;
        assert(hit_spec(s2[j1], r, tmin, tmax)->0.t >= res2->0.t);
        assert(res1->0.t == res2->0.t);
        if x1 != x2 {
            assert(hit_spec(x1, r, tmin, tmax)->0.t != hit_spec(x2, r, tmin, tmax)->0.t);
            assert(false);
        }
        assert(res1 == res2);
    }
}

/// The nearest-hit theorem: a hierarchy built over a set of objects
/// reports exactly what the narrowing linear scan over those objects in
/// any order reports, for every ray whose per-object hit parameters do
/// not collide.
pub proof fn lemma_hierarchy_matches_scan(h: Hittable, objs: Seq<Hittable>, r: Ray, tmin: int,
    tmax: int)
    requires
        hittable_wf(h),
        same_elements(leaves(h), objs),
        all_wf(objs),
        forall|i: int| 0 <= i < objs.len() ==> ray_wf(r, ray_bound(#[trigger] objs[i])),
        ray_wf(r, ray_bound(h)),
        distinct_hits(objs, r, tmin, tmax),
        -T_LIMIT <= tmin <= T_LIMIT,
        -T_LIMIT <= tmax <= T_LIMIT,
    ensures
        hit_spec(h, r, tmin, tmax) == scan_hits(objs, r, tmin, tmax),
{
    lemma_hierarchy_is_scan(h, r, tmin, tmax);
    lemma_leaves_wf(h);
    lemma_leaf_ray_bound(h);
    assert forall|i: int| 0 <= i < leaves(h).len() implies ray_wf(r, ray_bound(
        #[trigger] leaves(h)[i])) by {
        assert(ray_bound(leaves(h)[i]) >= ray_bound(h));
    }
    assert(distinct_hits(leaves(h), r, tmin, tmax)) by {
        assert forall|x: Hittable, y: Hittable|
            leaves(h).contains(x) && leaves(h).contains(y) && x != y && #[trigger] hit_spec(x, r,
                tmin, tmax) is Some && #[trigger] hit_spec(y, r, tmin, tmax) is Some implies
            hit_spec(x, r, tmin, tmax)->0.t != hit_spec(y, r, tmin, tmax)->0.t by {
            assert(objs.contains(x) && objs.contains(y));
        }
    }
    lemma_scan_same_elements(leaves(h), objs, r, tmin, tmax);
}

} // verus!

verus! {

/// Translating an object there and back changes nothing: wrapping in a
/// translation by `v` and then by `-v` reports exactly the hits of the
/// bare object, record for record.
pub proof fn lemma_translation_round_trip(outer: Hittable, obj: Hittable, v: Vec3, r: Ray,
    tmin: int, tmax: int)
    requires
        (outer matches Hittable::Translate { object: mid, offset: vo, .. }
            && vo == crate::vec3::spec_neg(v)
            && (*mid matches Hittable::Translate { object: inner, offset: vi, .. }
                && *inner == obj && vi == v)),
        hittable_wf(obj),
        in_range(v, MAX_COORD as int),
        ray_wf(r, ray_bound(obj)),
        in_range(r.orig, RAY_LIMIT as int),
        p_limit(obj) <= 0x2000_0000_0000_0000,
        -T_LIMIT <= tmin <= T_LIMIT,
        -T_LIMIT <= tmax <= T_LIMIT,
    ensures
        hit_spec(outer, r, tmin, tmax) == hit_spec(obj, r, tmin, tmax),
{
    reveal_with_fuel(hit_spec, 3);
    let mid = outer->Translate_object;
    let vo = outer->Translate_offset;
    let vi = (*mid)->Translate_offset;
    crate::hittable::lemma_ray_bound_le(obj);
    let shifted1 = Ray { orig: spec_sub(r.orig, vo), dir: r.dir };
    let shifted2 = Ray { orig: spec_sub(shifted1.orig, vi), dir: r.dir };
    assert(shifted2.orig == r.orig);
    assert(shifted2 == r);
    if hit_spec(obj, r, tmin, tmax) is Some {
        lemma_hit_p_bounded(obj, r, tmin, tmax);
        let rec = hit_spec(obj, r, tmin, tmax)->0;
        assert(spec_add(spec_add(rec.p, vi), vo) == rec.p);
    }
}

/// Wrapping an object in the rotation by angle zero changes nothing:
/// the reported hits are those of the bare object, record for record.
pub proof fn lemma_rotation_identity(outer: Hittable, obj: Hittable, r: Ray, tmin: int,
    tmax: int)
    requires
        (outer matches Hittable::RotateY { object: o, rot, bbox }
            && *o == obj && rot == (Rotation { s: 0i64, c: 1i64, d: 1i64 })
            && bbox == crate::hittable::spec_rot_box(rot, bbox_of(obj))),
        hittable_wf(obj),
        box_in_range(bbox_of(obj), 0x10_0000_0000),
        ray_wf(r, ray_bound(obj)),
        -T_LIMIT <= tmin <= T_LIMIT,
        -T_LIMIT <= tmax <= T_LIMIT,
    ensures
        hit_spec(outer, r, tmin, tmax) == hit_spec(obj, r, tmin, tmax),
{
    let rot = outer->RotateY_rot;
    let bbox = outer->RotateY_bbox;
    crate::hittable::lemma_ray_bound_le(obj);
    lemma_identity_rot_is_identity(rot, r.orig);
    lemma_identity_rot_is_identity(rot, r.dir);
    let o2 = spec_rot_inv(rot, r.orig);
    let d2 = spec_rot_inv(rot, r.dir);
    assert(o2 == r.orig && d2 == r.dir);
    assert(Ray { orig: o2, dir: d2 } == r);
    if hit_spec(obj, r, tmin, tmax) is Some {
        let rec = hit_spec(obj, r, tmin, tmax)->0;
        lemma_hit_t_in_window(obj, r, tmin, tmax);
        lemma_hit_in_own_box(obj, r, tmin, tmax);
        // The identity rotation's box contains the object's own box.
        lemma_identity_rot_box(rot, bbox_of(obj));
        lemma_strict_inside_mono(bbox, bbox_of(obj), r, rec.t as int);
        lemma_identity_rot_is_identity(rot, rec.p);
        lemma_identity_rot_is_identity(rot, rec.normal);
        assert(spec_rot_fwd(rot, rec.p) == rec.p);
        assert(spec_rot_fwd(rot, rec.normal) == rec.normal);
    }
}

/// Rotation by the identity pair maps every vector to itself.
proof fn lemma_identity_rot_is_identity(rot: Rotation, v: Vec3)
    requires
        rot == (Rotation { s: 0i64, c: 1i64, d: 1i64 }),
    ensures
        spec_rot_inv(rot, v) == v,
        spec_rot_fwd(rot, v) == v,
{
    assert(rot.c * v.x - rot.s * v.z == v.x && rot.s * v.x + rot.c * v.z == v.z
        && rot.c * v.x + rot.s * v.z == v.x && -rot.s * v.x + rot.c * v.z == v.z)
        by (nonlinear_arith)
        requires rot.s == 0 && rot.c == 1;
    crate::math::lemma_div_bounds(v.x as int, 1);
    crate::math::lemma_div_bounds(v.z as int, 1);
    assert(v.x as int / 1 == v.x as int && v.z as int / 1 == v.z as int);
}

/// The identity rotation's box contains the object's box.
proof fn lemma_identity_rot_box(rot: Rotation, b: AABBox)
    requires
        rot == (Rotation { s: 0i64, c: 1i64, d: 1i64 }),
        box_in_range(b, 0x10_0000_0000),
    ensures
        box_contains_box(crate::hittable::spec_rot_box(rot, b), b),
{
    assert(rot.c * b.x.min + rot.s * b.z.min == b.x.min
        && rot.c * b.x.min + rot.s * b.z.max == b.x.min
        && rot.c * b.x.max + rot.s * b.z.min == b.x.max
        && rot.c * b.x.max + rot.s * b.z.max == b.x.max
        && -rot.s * b.x.min + rot.c * b.z.min == b.z.min
        && -rot.s * b.x.min + rot.c * b.z.max == b.z.max
        && -rot.s * b.x.max + rot.c * b.z.min == b.z.min
        && -rot.s * b.x.max + rot.c * b.z.max == b.z.max) by (nonlinear_arith)
        requires rot.s == 0 && rot.c == 1;
    crate::math::lemma_div_bounds(b.x.min as int, 1);
    crate::math::lemma_div_bounds(b.x.max as int, 1);
    crate::math::lemma_div_bounds(b.z.min as int, 1);
    crate::math::lemma_div_bounds(b.z.max as int, 1);
}

} // verus!

verus! {

/// The union box of a nonempty run of objects, folded left to right.
pub open spec fn union_of_boxes(s: Seq<Hittable>) -> AABBox
    decreases s.len(),
{
    if s.len() <= 1 {
        bbox_of(s[0])
    } else {
        crate::aabb::spec_box_union(union_of_boxes(s.drop_last()), bbox_of(s.last()))
    }
}

/// Folding a concatenation of nonempty runs unions the two folds.
proof fn lemma_union_of_boxes_concat(a: Seq<Hittable>, b: Seq<Hittable>)
    requires
        a.len() >= 1,
        b.len() >= 1,
    ensures
        union_of_boxes(a + b) == crate::aabb::spec_box_union(union_of_boxes(a),
            union_of_boxes(b)),
    decreases b.len(),
{
    if b.len() == 1 {
        assert((a + b).drop_last() =~= a);
        assert((a + b).last() == b[0]);
        assert((a + b).len() == a.len() + 1 >= 2);
    } else {
        assert((a + b).drop_last() =~= a + b.drop_last());
        assert((a + b).last() == b.last());
        lemma_union_of_boxes_concat(a, b.drop_last());
        crate::aabb::lemma_union_associative(union_of_boxes(a), union_of_boxes(b.drop_last()),
            bbox_of(b.last()));
    }
}

/// Every object has at least one leaf.
proof fn lemma_leaves_nonempty(h: Hittable)
    ensures
        leaves(h).len() >= 1,
    decreases h,
{
    match h {
        Hittable::Node { left, right, .. } => {
            lemma_leaves_nonempty(*left);
            lemma_leaves_nonempty(*right);
        },
        _ => {},
    }
}

/// When every node's box is the union of its children's, each box is
/// exactly the union of the boxes of the leaves below it.
pub proof fn lemma_box_is_union_of_leaves(h: Hittable)
    requires
        crate::hittable::node_boxes_are_unions(h),
    ensures
        bbox_of(h) == union_of_boxes(leaves(h)),
    decreases h,
{
    match h {
        Hittable::Node { left, right, bbox } => {
            lemma_box_is_union_of_leaves(*left);
            lemma_box_is_union_of_leaves(*right);
            lemma_leaves_nonempty(*left);
            lemma_leaves_nonempty(*right);
            lemma_union_of_boxes_concat(leaves(*left), leaves(*right));
        },
        _ => {
            assert(leaves(h)[0] == h);
        },
    }
}

/// A hierarchy's box contains the box of every object it was built
/// over.
pub proof fn lemma_bvh_box_covers_inputs(h: Hittable, objs: Seq<Hittable>)
    requires
        hittable_wf(h),
        same_elements(leaves(h), objs),
    ensures
        forall|i: int| 0 <= i < objs.len() ==> box_contains_box(bbox_of(h),
            bbox_of(#[trigger] objs[i])),
{
    lemma_leaf_box_contained(h);
    assert forall|i: int| 0 <= i < objs.len() implies box_contains_box(bbox_of(h),
        bbox_of(#[trigger] objs[i])) by {
        assert(objs.contains(objs[i]));
        assert(leaves(h).contains(objs[i]));
        let j = choose|j: int| 0 <= j < leaves(h).len() && leaves(h)[j] == objs[i];
        assert(box_contains_box(bbox_of(h), bbox_of(leaves(h)[j])));
    }
}

} // verus!

verus! {

/// A fully absorptive diffuse material drives the radiance of a hit to
/// exactly black: with its attenuation and emission both black, either
/// shape the radiance estimator's hit clause allows collapses to black,
/// whatever the deeper bounce returned.
pub proof fn lemma_absorptive_hit_is_black(m: Material, rec: HitRecord, c: crate::vec3::Color,
    deeper: crate::vec3::Color)
    requires
        m matches Material::Lambertian { texture }
            && crate::texture::spec_texture_value(texture,
            crate::material::spec_clamp01(rec.u), crate::material::spec_clamp01(rec.v), rec.p)
            == crate::color::black(),
        c == crate::color::spec_add_color(crate::material::spec_emitted(m, rec.u, rec.v,
            rec.p), crate::color::spec_mul_color(crate::material::spec_attenuation(m, rec),
            deeper)) || c == crate::material::spec_emitted(m, rec.u, rec.v, rec.p),
    ensures
        c == crate::color::black(),
{
    crate::color::lemma_absorb_black(deeper);
}

} // verus!
