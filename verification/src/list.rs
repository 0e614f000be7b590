//! An unordered collection of objects with a running union box; its
//! intersection is the narrowing linear scan.

use vstd::prelude::*;
use crate::vec3::in_range;
use crate::ray::{Ray, ray_wf};
use crate::aabb::{AABBox, spec_box_union, spec_empty_box, box_in_range};
use crate::interval::Interval;
use crate::math::{T_LIMIT, INF_COORD};
use crate::hittable::{Hittable, HitRecord, hit_spec, hittable_wf, ray_bound, bbox_of,
    lemma_hit_t_in_window};

verus! {

/// `opt`, or `fallback` when `opt` is `None`.
pub open spec fn or_else(fallback: Option<HitRecord>, opt: Option<HitRecord>) -> Option<
    HitRecord> {
    match opt {
        Some(x) => Some(x),
        None => fallback,
    }
}

/// The narrowing linear scan: each object is intersected against a
/// window whose upper end is the closest hit found so far, so a later
/// result is always strictly closer and supersedes the earlier one.
pub open spec fn scan_hits(objs: Seq<Hittable>, r: Ray, tmin: int, tmax: int) -> Option<HitRecord>
    decreases objs.len(),
{
    if objs.len() == 0 {
        None
    } else {
        match hit_spec(objs[0], r, tmin, tmax) {
            None => scan_hits(objs.drop_first(), r, tmin, tmax),
            Some(r0) => or_else(Some(r0), scan_hits(objs.drop_first(), r, tmin, r0.t as int)),
        }
    }
}

/// Every element is well-formed and accepts rays bounded by `b`.
pub open spec fn all_wf(objs: Seq<Hittable>) -> bool {
    forall|i: int| 0 <= i < objs.len() ==> hittable_wf(#[trigger] objs[i])
}

pub open spec fn all_accept(objs: Seq<Hittable>, r: Ray) -> bool {
    forall|i: int| 0 <= i < objs.len() ==> ray_wf(r, ray_bound(#[trigger] objs[i]))
}

pub struct HittableList {
    pub objects: Vec<Hittable>,
    pub bbox: AABBox,
}

pub open spec fn list_wf(l: HittableList) -> bool {
    all_wf(l.objects@)
}

impl HittableList {
    /// The empty list; its box is the identity of the union.
    pub fn new() -> (l: HittableList)
        ensures
            l.objects@.len() == 0,
            l.bbox == spec_empty_box(),
            list_wf(l),
    {
        HittableList { objects: Vec::new(), bbox: AABBox::new_empty() }
    }

    /// Appends an object and extends the union box.
    pub fn add(&mut self, object: Hittable)
        requires
            hittable_wf(object),
            list_wf(*old(self)),
        ensures
            final(self).objects@ == old(self).objects@.push(object),
            final(self).bbox == spec_box_union(old(self).bbox, bbox_of(object)),
            list_wf(*final(self)),
    {
        let obox = object.bounding_box();
        self.bbox = AABBox::new_from_aabboxs(&self.bbox, &obox);
        self.objects.push(object);
        proof {
            assert forall|i: int| 0 <= i < self.objects@.len() implies hittable_wf(
                #[trigger] self.objects@[i]) by {
                if i < old(self).objects@.len() {
                    assert(self.objects@[i] == old(self).objects@[i]);
                }
            }
        }
    }

    /// Removes every object.
    pub fn clear(&mut self)
        ensures
            final(self).objects@.len() == 0,
            final(self).bbox == old(self).bbox,
    {
        self.objects.clear();
    }

    pub fn bounding_box(&self) -> (b: AABBox)
        ensures
            b == self.bbox,
    {
        self.bbox
    }

    /// The nearest hit among the members, by the narrowing linear scan.
    pub fn hit(&self, r: &Ray, ray_t: &Interval) -> (res: Option<HitRecord>)
        requires
            list_wf(*self),
            all_accept(self.objects@, *r),
            -T_LIMIT <= ray_t.min <= T_LIMIT,
            -T_LIMIT <= ray_t.max <= T_LIMIT,
        ensures
            res == scan_hits(self.objects@, *r, ray_t.min as int, ray_t.max as int),
    {
        let ghost gobjs = self.objects@;
        let ghost t0min = ray_t.min as int;
        let ghost t0max = ray_t.max as int;
        let mut closest_so_far: i64 = ray_t.max;
        let mut rec: Option<HitRecord> = None;
        let mut i: usize = 0;
        proof {
            assert(gobjs.skip(0) =~= gobjs);
        }
        while i < self.objects.len()
            invariant
                list_wf(*self),
                all_accept(self.objects@, *r),
                self.objects@ == gobjs,
                i <= gobjs.len(),
                -T_LIMIT <= t0min <= T_LIMIT,
                -T_LIMIT <= t0max <= T_LIMIT,
                ray_t.min == t0min && ray_t.max == t0max,
                -T_LIMIT <= closest_so_far <= T_LIMIT,
                closest_so_far as int == match rec {
                    Some(rc) => rc.t as int,
                    None => t0max,
                },
                rec is Some ==> t0min < rec->0.t,
                scan_hits(gobjs, *r, t0min, t0max) == or_else(
                    rec,
                    scan_hits(gobjs.skip(i as int), *r, t0min, closest_so_far as int),
                ),
            decreases gobjs.len() - i,
        {
            let window = Interval { min: ray_t.min, max: closest_so_far };
            let obj = &self.objects[i];
            let this_hit = obj.hit(r, &window);
            proof {
                assert(gobjs.skip(i as int)[0] == gobjs[i as int]);
                assert(gobjs.skip(i as int).drop_first() =~= gobjs.skip(i as int + 1));
                if this_hit is Some {
                    lemma_hit_t_in_window(gobjs[i as int], *r, t0min, closest_so_far as int);
                }
            }
            if let Some(temp_rec) = this_hit {
                closest_so_far = temp_rec.t;
                rec = Some(temp_rec);
            }
            i += 1;
        }
        proof {
            assert(gobjs.skip(gobjs.len() as int).len() == 0);
        }
        rec
    }
}

} // verus!
