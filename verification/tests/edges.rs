//! Edge cases: degenerate hierarchy spans, parallel rays, colliding hit
//! parameters, interval behavior, and the sampling helpers.

use raytracer::aabb::AABBox;
use raytracer::bvh::build_bvh;
use raytracer::hittable::Hittable;
use raytracer::interval::Interval;
use raytracer::list::HittableList;
use raytracer::math::{FP, T_LIMIT, INF_COORD};
use raytracer::quad::Quad;
use raytracer::ray::Ray;
use raytracer::rng::{random_unit_vector, random_range_fp};
use raytracer::sphere::Sphere;
use raytracer::vec3::Vec3;

fn v(x: i64, y: i64, z: i64) -> Vec3 {
    Vec3 { x, y, z }
}

fn window() -> Interval {
    Interval { min: 66, max: T_LIMIT }
}

#[test]
fn bvh_over_a_single_object() {
    // A span of one becomes a node whose two children are that object.
    let bvh = build_bvh(vec![Hittable::Sphere(Sphere::new(v(0, 0, -10), 2, 9))]);
    let r = Ray { orig: v(0, 0, 0), dir: v(0, 0, -1) };
    let rec = bvh.hit(&r, &window()).expect("the single object must be found");
    assert_eq!(rec.t, 8 * FP);
    assert_eq!(rec.mat, 9);
    let miss = Ray { orig: v(50, 0, 0), dir: v(0, 0, -1) };
    assert!(bvh.hit(&miss, &window()).is_none());
}

#[test]
fn quad_parallel_ray_misses() {
    let q = Quad::new(v(0, 0, -5), v(2, 0, 0), v(0, 2, 0), 0);
    // A ray parallel to the plane never crosses it.
    let r = Ray { orig: v(1, 1, -4), dir: v(1, 0, 0) };
    assert!(q.hit(&r, &window()).is_none());
}

#[test]
fn sphere_behind_the_window_misses() {
    let s = Sphere::new(v(0, 0, 10), 2, 0);
    // Both crossings lie at negative parameters.
    let r = Ray { orig: v(0, 0, 20), dir: v(0, 0, 1) };
    assert!(s.hit(&r, &window()).is_none());
}

#[test]
fn equal_parameter_hits_are_deterministic() {
    // Two coincident spheres are hit at the same parameter; narrowing
    // is strict, so the earlier entry keeps the record.
    let a = Hittable::Sphere(Sphere::new(v(0, 0, -20), 2, 0));
    let b = Hittable::Sphere(Sphere::new(v(0, 0, -20), 2, 1));
    let r = Ray { orig: v(0, 0, 0), dir: v(0, 0, -1) };
    let mut list = HittableList::new();
    list.add(a);
    list.add(b);
    let lrec = list.hit(&r, &window()).expect("the spheres are hit");
    assert_eq!(lrec.t, 18 * FP);
    assert_eq!(lrec.mat, 0);
}

#[test]
fn interval_basics() {
    let empty = Interval::empty();
    assert!(!empty.contains(0));
    assert!(empty.size() < 0);
    let universe = Interval::universe();
    assert!(universe.contains(0));
    assert!(universe.contains(-INF_COORD));
    let i = Interval::new(2, 8);
    assert!(i.contains(2) && i.contains(8));
    assert!(!i.surrounds(2) && i.surrounds(5));
    assert_eq!(i.clamp(100), 8);
    assert_eq!(i.clamp(-100), 2);
    assert_eq!(i.clamp(5), 5);
    let grown = i.expand(4);
    assert_eq!(grown.min, 0);
    assert_eq!(grown.max, 10);
}

#[test]
fn box_padding_gives_thin_axes_thickness() {
    let b = AABBox::new_from_points(&v(0, 0, 0), &v(10, 0, 10));
    // The flat axis is padded to a nonempty interior.
    assert!(b.y.min < 0 && b.y.max > 0);
    assert_eq!(b.x.min, 0);
    assert_eq!(b.x.max, 10);
}

#[test]
fn longest_axis_prefers_later_axes_on_ties() {
    let b = AABBox::new(
        Interval { min: 0, max: 10 },
        Interval { min: 0, max: 10 },
        Interval { min: 0, max: 10 },
    );
    // With every extent equal the last axis is chosen, as written.
    assert_eq!(b.longest_axis(), 2);
    let wide = AABBox::new(
        Interval { min: 0, max: 50 },
        Interval { min: 0, max: 10 },
        Interval { min: 0, max: 10 },
    );
    assert_eq!(wide.longest_axis(), 0);
}

#[test]
fn random_helpers_stay_in_range() {
    for _ in 0..64 {
        let u = random_unit_vector();
        assert!(u.x.abs() <= FP && u.y.abs() <= FP && u.z.abs() <= FP);
        assert!(u != v(0, 0, 0));
        let r = random_range_fp(-3 * FP, 2 * FP);
        assert!(-3 * FP <= r && r < 2 * FP);
    }
}

#[test]
fn clear_empties_the_list() {
    let mut list = HittableList::new();
    list.add(Hittable::Sphere(Sphere::new(v(0, 0, -10), 2, 0)));
    list.clear();
    let r = Ray { orig: v(0, 0, 0), dir: v(0, 0, -1) };
    assert!(list.hit(&r, &window()).is_none());
}
