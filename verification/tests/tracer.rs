//! Scenario tests for the intersection core: boxes, primitives, the
//! hierarchy against the linear scan, transforms, shading and output.

use raytracer::aabb::AABBox;
use raytracer::interval::Interval;
use raytracer::vec3::Vec3;
use raytracer::ray::Ray;
use raytracer::sphere::Sphere;
use raytracer::quad::Quad;
use raytracer::triangle::Triangle;
use raytracer::hittable::{Hittable, Rotation};
use raytracer::list::HittableList;
use raytracer::bvh::build_bvh;
use raytracer::math::{FP, T_LIMIT};

const TMIN: i64 = 66;

fn window() -> Interval {
    Interval { min: TMIN, max: T_LIMIT }
}

fn v(x: i64, y: i64, z: i64) -> Vec3 {
    Vec3 { x, y, z }
}

#[test]
fn union_contains_both_boxes() {
    let a = AABBox::new(
        Interval { min: 0, max: 10 },
        Interval { min: 0, max: 10 },
        Interval { min: 0, max: 10 },
    );
    let b = AABBox::new(
        Interval { min: 20, max: 30 },
        Interval { min: -5, max: 5 },
        Interval { min: 2, max: 4 },
    );
    let u = AABBox::new_from_aabboxs(&a, &b);
    assert!(u.x.min <= a.x.min && u.x.max >= a.x.max);
    assert!(u.x.min <= b.x.min && u.x.max >= b.x.max);
    assert!(u.y.min <= b.y.min && u.y.max >= a.y.max);
    assert!(u.z.min <= a.z.min && u.z.max >= b.z.max);
}

#[test]
fn union_commutative_and_associative() {
    let a = AABBox::new(
        Interval { min: -3, max: 4 },
        Interval { min: 1, max: 2 },
        Interval { min: 0, max: 9 },
    );
    let b = AABBox::new(
        Interval { min: -7, max: 1 },
        Interval { min: 0, max: 8 },
        Interval { min: 3, max: 5 },
    );
    let c = AABBox::new(
        Interval { min: 2, max: 11 },
        Interval { min: -4, max: 0 },
        Interval { min: -6, max: 1 },
    );
    let ab = AABBox::new_from_aabboxs(&a, &b);
    let ba = AABBox::new_from_aabboxs(&b, &a);
    assert_eq!(ab, ba);
    let ab_c = AABBox::new_from_aabboxs(&AABBox::new_from_aabboxs(&a, &b), &c);
    let a_bc = AABBox::new_from_aabboxs(&a, &AABBox::new_from_aabboxs(&b, &c));
    assert_eq!(ab_c, a_bc);
}

#[test]
fn box_hit_through_interior_and_miss_outside() {
    let b = AABBox::new(
        Interval { min: -10, max: 10 },
        Interval { min: -10, max: 10 },
        Interval { min: -30, max: -20 },
    );
    let through = Ray { orig: v(0, 0, 0), dir: v(0, 0, -1) };
    assert!(b.hit(&through, &window()));
    let outside = Ray { orig: v(100, 100, 0), dir: v(0, 0, -1) };
    assert!(!b.hit(&outside, &window()));
    let behind = Ray { orig: v(0, 0, 0), dir: v(0, 0, 1) };
    assert!(!b.hit(&behind, &window()));
}

#[test]
fn sphere_axis_ray_hits_at_two() {
    // A unit sphere three units down the axis: the hit is at t = 2 with
    // the outward normal pointing back along the axis.
    let s = Sphere::new(v(0, 0, -3), 1, 0);
    let r = Ray { orig: v(0, 0, 0), dir: v(0, 0, -1) };
    let rec = s.hit(&r, &window()).expect("sphere on the axis must be hit");
    assert_eq!(rec.t, 2 * FP);
    assert_eq!(rec.normal, v(0, 0, FP));
    assert!(rec.front_face);
    assert_eq!(rec.p, v(0, 0, -2));
}

#[test]
fn sphere_miss_returns_none() {
    let s = Sphere::new(v(0, 0, -3), 1, 0);
    let r = Ray { orig: v(10, 0, 0), dir: v(0, 0, -1) };
    assert!(s.hit(&r, &window()).is_none());
}

#[test]
fn quad_centroid_hit_and_outside_miss() {
    // A quad two units on a side, five units down the axis; the ray
    // toward its centroid hits at the center of the parametrization.
    let q = Quad::new(v(0, 0, -5), v(2, 0, 0), v(0, 2, 0), 0);
    let r = Ray { orig: v(1, 1, 0), dir: v(0, 0, -1) };
    let rec = q.hit(&r, &window()).expect("centroid ray must hit");
    assert_eq!(rec.t, 5 * FP);
    assert_eq!(rec.u, FP / 2);
    assert_eq!(rec.v, FP / 2);
    // A ray aimed past the far corner stays on the plane but outside
    // the footprint.
    let miss = Ray { orig: v(4, 4, 0), dir: v(0, 0, -1) };
    assert!(q.hit(&miss, &window()).is_none());
}

#[test]
fn triangle_interior_and_outside() {
    let t = Triangle::new(v(0, 0, -5), v(4, 0, 0), v(0, 4, 0), 0);
    let inside = Ray { orig: v(1, 1, 0), dir: v(0, 0, -1) };
    let rec = t.hit(&inside, &window()).expect("interior ray must hit");
    assert_eq!(rec.t, 5 * FP);
    assert_eq!(rec.u, FP / 4);
    assert_eq!(rec.v, FP / 4);
    // Alpha + beta beyond the hypotenuse.
    let outside = Ray { orig: v(3, 3, 0), dir: v(0, 0, -1) };
    assert!(t.hit(&outside, &window()).is_none());
}

fn three_spheres() -> Vec<Hittable> {
    vec![
        Hittable::Sphere(Sphere::new(v(0, 0, -20), 2, 1)),
        Hittable::Sphere(Sphere::new(v(0, 0, -10), 2, 0)),
        Hittable::Sphere(Sphere::new(v(0, 0, -30), 2, 2)),
    ]
}

#[test]
fn list_and_bvh_agree_on_nearest() {
    let r = Ray { orig: v(0, 0, 0), dir: v(0, 0, -1) };
    let mut list = HittableList::new();
    for h in three_spheres() {
        list.add(h);
    }
    let from_list = list.hit(&r, &window()).expect("list must find the near sphere");
    assert_eq!(from_list.t, 8 * FP);
    assert_eq!(from_list.mat, 0);

    let bvh = build_bvh(three_spheres());
    let from_bvh = bvh.hit(&r, &window()).expect("hierarchy must find the near sphere");
    assert_eq!(from_list, from_bvh);
}

#[test]
fn bvh_result_is_order_independent() {
    let r = Ray { orig: v(0, 0, 0), dir: v(0, 0, -1) };
    let objs = three_spheres();
    let mut reversed = three_spheres();
    reversed.reverse();
    let a = build_bvh(objs).hit(&r, &window());
    let b = build_bvh(reversed).hit(&r, &window());
    assert_eq!(a, b);
    assert_eq!(a.unwrap().t, 8 * FP);
}

#[test]
fn bvh_prunes_but_still_finds_far_object() {
    // Objects scattered around; the ray reaches only one of them.
    let objs = vec![
        Hittable::Sphere(Sphere::new(v(100, 100, -20), 2, 0)),
        Hittable::Sphere(Sphere::new(v(-100, 50, -40), 2, 1)),
        Hittable::Sphere(Sphere::new(v(0, 0, -50), 3, 2)),
        Hittable::Sphere(Sphere::new(v(60, -70, -80), 2, 3)),
    ];
    let bvh = build_bvh(objs);
    let r = Ray { orig: v(0, 0, 0), dir: v(0, 0, -1) };
    let rec = bvh.hit(&r, &window()).expect("the axis sphere is reachable");
    assert_eq!(rec.mat, 2);
    assert_eq!(rec.t, 47 * FP);
}

#[test]
fn translation_round_trip_matches_bare_object() {
    let base = Hittable::Sphere(Sphere::new(v(0, 0, -10), 2, 0));
    let off = v(7, -3, 4);
    let neg = v(-7, 3, -4);
    let inner = Hittable::translation(base, off);
    let outer = Hittable::translation(inner, neg);
    let bare = Hittable::Sphere(Sphere::new(v(0, 0, -10), 2, 0));
    for dir in [v(0, 0, -1), v(1, 0, -8), v(-1, 2, -9)] {
        let r = Ray { orig: v(0, 0, 0), dir };
        assert_eq!(outer.hit(&r, &window()), bare.hit(&r, &window()));
    }
}

#[test]
fn translation_moves_the_hit() {
    let base = Hittable::Sphere(Sphere::new(v(0, 0, -10), 2, 0));
    let moved = Hittable::translation(base, v(0, 5, 0));
    let r = Ray { orig: v(0, 5, 0), dir: v(0, 0, -1) };
    let rec = moved.hit(&r, &window()).expect("translated sphere must be hit");
    assert_eq!(rec.t, 8 * FP);
    assert_eq!(rec.p, v(0, 5, -8));
}

#[test]
fn rotation_by_zero_is_identity() {
    let base = Hittable::Sphere(Sphere::new(v(3, 1, -12), 2, 0));
    let rotated = Hittable::rotation_y(base, Rotation::identity());
    let bare = Hittable::Sphere(Sphere::new(v(3, 1, -12), 2, 0));
    for dir in [v(0, 0, -1), v(1, 0, -4), v(3, 1, -12)] {
        let r = Ray { orig: v(0, 0, 0), dir };
        assert_eq!(rotated.hit(&r, &window()), bare.hit(&r, &window()));
    }
}

#[test]
fn rotation_uses_exact_pythagorean_pair() {
    // A 3-4-5 rotation moves the object's apparent position.
    let base = Hittable::Sphere(Sphere::new(v(0, 0, -1000), 100, 0));
    let rot = Rotation::new(3, 4, 5);
    let rotated = Hittable::rotation_y(base, rot);
    // Object space is reached through the inverse rotation, so a ray
    // down the world axis is swung off the sphere's center line.
    let straight = Ray { orig: v(0, 0, 0), dir: v(0, 0, -1000) };
    let rec = rotated.hit(&straight, &window());
    // The rotated direction (z = -1000) becomes x' = 600, z' = -800,
    // which points away from the sphere at the origin of object space.
    assert!(rec.is_none());
    // Aiming along the rotated center line hits.
    let aimed = Ray { orig: v(0, 0, 0), dir: v(-600, 0, -800) };
    assert!(rotated.hit(&aimed, &window()).is_some());
}

#[test]
fn new_box_has_six_faces() {
    let sides = Quad::new_box(&v(0, 0, 0), &v(10, 10, 10), 4);
    assert_eq!(sides.len(), 6);
    for q in &sides {
        assert_eq!(q.mat, 4);
    }
    // A ray from outside along the axis hits the near face of the box.
    let mut list = HittableList::new();
    for q in sides {
        list.add(Hittable::Quad(q));
    }
    let r = Ray { orig: v(5, 5, 30), dir: v(0, 0, -1) };
    let rec = list.hit(&r, &window()).expect("box face must be hit");
    assert_eq!(rec.t, 20 * FP);
}

#[test]
fn hittable_list_narrows_to_closest() {
    let mut list = HittableList::new();
    list.add(Hittable::Sphere(Sphere::new(v(0, 0, -30), 2, 7)));
    list.add(Hittable::Sphere(Sphere::new(v(0, 0, -10), 2, 3)));
    let r = Ray { orig: v(0, 0, 0), dir: v(0, 0, -1) };
    let rec = list.hit(&r, &window()).expect("something must be hit");
    assert_eq!(rec.mat, 3);
}
