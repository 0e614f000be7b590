//! Axis-aligned bounding boxes: three integer intervals, the union
//! construction used by the hierarchy builder, and the ray-slab test.

use vstd::prelude::*;
use crate::interval::{Interval, spec_interval_union, interval_in_range};
use crate::vec3::{Vec3, Point3, axis, in_range};
use crate::ray::{Ray, at_scaled};
use crate::math::{FP, INF_COORD, T_LIMIT};

verus! {

/// Minimum thickness of a bounding-box axis; thinner axes are padded so
/// flat geometry still has a box with a nonempty interior.
pub const PAD_MIN: i64 = 2;

#[derive(Clone, Copy, Debug, PartialEq, Eq, Structural)]
pub struct AABBox {
    pub x: Interval,
    pub y: Interval,
    pub z: Interval,
}

/// The interval of `b` on axis `a`.
pub open spec fn axis_interval_of(b: AABBox, a: int) -> Interval {
    if a == 0 {
        b.x
    } else if a == 1 {
        b.y
    } else {
        b.z
    }
}

/// All six bounds of `b` are bounded by `lim` in magnitude.
pub open spec fn box_in_range(b: AABBox, lim: int) -> bool {
    interval_in_range(b.x, lim) && interval_in_range(b.y, lim) && interval_in_range(b.z, lim)
}

/// The per-axis union of two boxes.
pub open spec fn spec_box_union(a: AABBox, b: AABBox) -> AABBox {
    AABBox {
        x: spec_interval_union(a.x, b.x),
        y: spec_interval_union(a.y, b.y),
        z: spec_interval_union(a.z, b.z),
    }
}

/// The integer point `(px, py, pz)` lies in `b`, bounds included.
pub open spec fn box_contains_point(b: AABBox, px: int, py: int, pz: int) -> bool {
    &&& b.x.min <= px <= b.x.max
    &&& b.y.min <= py <= b.y.max
    &&& b.z.min <= pz <= b.z.max
}

/// Every point of `inner` lies in `outer`.
pub open spec fn box_contains_box(outer: AABBox, inner: AABBox) -> bool {
    &&& outer.x.min <= inner.x.min && inner.x.max <= outer.x.max
    &&& outer.y.min <= inner.y.min && inner.y.max <= outer.y.max
    &&& outer.z.min <= inner.z.min && inner.z.max <= outer.z.max
}

/// The exact point of `r` at parameter `t` lies strictly inside `b` on
/// axis `a`, in `FP`-scaled coordinates.
pub open spec fn strict_inside_axis(b: AABBox, r: Ray, t: int, a: int) -> bool {
    axis_interval_of(b, a).min * (FP as int) < at_scaled(r, t, a)
        && at_scaled(r, t, a) < axis_interval_of(b, a).max * (FP as int)
}

/// The exact point of `r` at parameter `t` lies strictly inside `b`.
pub open spec fn in_box_strict(b: AABBox, r: Ray, t: int) -> bool {
    strict_inside_axis(b, r, t, 0) && strict_inside_axis(b, r, t, 1)
        && strict_inside_axis(b, r, t, 2)
}

/// Ceiling division for a positive divisor, in specifications.
pub open spec fn ceil_div(n: int, d: int) -> int {
    -((-n) / d)
}

/// The slab test on one axis: the `t`-window in which the ray is between
/// the two planes of the axis (rounded outward to the fixed-point grid)
/// must strictly overlap `[tmin, tmax]`. A ray parallel to the planes
/// passes only if its origin is strictly between them.
pub open spec fn slab_axis_pass(b: AABBox, r: Ray, tmin: int, tmax: int, a: int) -> bool {
    let o = axis(r.orig, a);
    let d = axis(r.dir, a);
    let lo = axis_interval_of(b, a).min as int;
    let hi = axis_interval_of(b, a).max as int;
    if d == 0 {
        lo < o && o < hi
    } else {
        let t0 = if d > 0 {
            ((lo - o) * (FP as int)) / d
        } else {
            ((o - hi) * (FP as int)) / (-d)
        };
        let t1 = if d > 0 {
            ceil_div((hi - o) * (FP as int), d)
        } else {
            ceil_div((o - lo) * (FP as int), -d)
        };
        let lo_t = if tmin >= t0 { tmin } else { t0 };
        let hi_t = if tmax <= t1 { tmax } else { t1 };
        lo_t < hi_t
    }
}

/// The full slab test.
pub open spec fn box_hit_spec(b: AABBox, r: Ray, tmin: int, tmax: int) -> bool {
    slab_axis_pass(b, r, tmin, tmax, 0) && slab_axis_pass(b, r, tmin, tmax, 1)
        && slab_axis_pass(b, r, tmin, tmax, 2)
}

impl AABBox {
    /// The box with the given axis intervals, padded to minimum thickness.
    pub fn new(x: Interval, y: Interval, z: Interval) -> (b: AABBox)
        requires
            interval_in_range(x, INF_COORD as int),
            interval_in_range(y, INF_COORD as int),
            interval_in_range(z, INF_COORD as int),
        ensures
            b == spec_pad(AABBox { x, y, z }),
    {
        let mut aabox = AABBox { x, y, z };
        aabox.pad_to_minimums();
        aabox
    }

    /// The minimal padded box enclosing two corner points.
    pub fn new_from_points(a: &Point3, b: &Point3) -> (r: AABBox)
        requires
            in_range(*a, INF_COORD as int),
            in_range(*b, INF_COORD as int),
        ensures
            r == spec_pad(spec_box_from_points(*a, *b)),
    {
        let (x_min, x_max) = if a.x <= b.x { (a.x, b.x) } else { (b.x, a.x) };
        let (y_min, y_max) = if a.y <= b.y { (a.y, b.y) } else { (b.y, a.y) };
        let (z_min, z_max) = if a.z <= b.z { (a.z, b.z) } else { (b.z, a.z) };
        AABBox::new(
            Interval { min: x_min, max: x_max },
            Interval { min: y_min, max: y_max },
            Interval { min: z_min, max: z_max },
        )
    }

    /// The union of two boxes; no padding is applied.
    pub fn new_from_aabboxs(a: &AABBox, b: &AABBox) -> (r: AABBox)
        ensures
            r == spec_box_union(*a, *b),
    {
        AABBox {
            x: Interval::new_from_aabboxs(&a.x, &b.x),
            y: Interval::new_from_aabboxs(&a.y, &b.y),
            z: Interval::new_from_aabboxs(&a.z, &b.z),
        }
    }

    /// The identity element of the union: contains nothing.
    pub fn new_empty() -> (r: AABBox)
        ensures
            r == spec_empty_box(),
    {
        AABBox { x: Interval::empty(), y: Interval::empty(), z: Interval::empty() }
    }

    /// The interval on axis `n` (0 = x, 1 = y, 2 = z).
    pub fn axis_interval(&self, n: usize) -> (i: Interval)
        requires
            n < 3,
        ensures
            i == axis_interval_of(*self, n as int),
    {
        match n {
            0 => self.x,
            1 => self.y,
            _ => self.z,
        }
    }

    /// The axis with the greatest extent, ties resolved as written.
    pub fn longest_axis(&self) -> (a: usize)
        requires
            box_in_range(*self, INF_COORD as int),
        ensures
            a == spec_longest_axis(*self),
            a < 3,
    {
        let x_length = self.x.max - self.x.min;
        let y_length = self.y.max - self.y.min;
        let z_length = self.z.max - self.z.min;
        if x_length > y_length && x_length > z_length {
            0
        } else if y_length > z_length {
            1
        } else {
            2
        }
    }

    /// The ray-slab test against the acceptance window `ray_t`.
    pub fn hit(&self, r: &Ray, ray_t: &Interval) -> (res: bool)
        requires
            box_in_range(*self, INF_COORD as int),
            in_range(r.orig, INF_COORD as int),
            in_range(r.dir, INF_COORD as int),
            interval_in_range(*ray_t, T_LIMIT as int),
        ensures
            res == box_hit_spec(*self, *r, ray_t.min as int, ray_t.max as int),
    {
        let mut axis_idx: usize = 0;
        while axis_idx < 3
            invariant
                axis_idx <= 3,
                box_in_range(*self, INF_COORD as int),
                in_range(r.orig, INF_COORD as int),
                in_range(r.dir, INF_COORD as int),
                interval_in_range(*ray_t, T_LIMIT as int),
                forall|a: int| 0 <= a < axis_idx ==> slab_axis_pass(
                    *self, *r, ray_t.min as int, ray_t.max as int, a),
            decreases 3 - axis_idx,
        {
            let iv = self.axis_interval(axis_idx);
            let o = r.orig.get_axis(axis_idx);
            let d = r.dir.get_axis(axis_idx);
            if d == 0 {
                if !(iv.min < o && o < iv.max) {
                    return false;
                }
            } else {
                let (t0, t1) = slab_t_bounds(iv.min, iv.max, o, d);
                let lo_t: i128 = if (ray_t.min as i128) >= t0 { ray_t.min as i128 } else { t0 };
                let hi_t: i128 = if (ray_t.max as i128) <= t1 { ray_t.max as i128 } else { t1 };
                if lo_t >= hi_t {
                    return false;
                }
            }
            axis_idx += 1;
        }
        true
    }

    /// Pads every axis whose extent is below [`PAD_MIN`].
    pub fn pad_to_minimums(&mut self)
        requires
            box_in_range(*old(self), INF_COORD as int),
        ensures
            *final(self) == spec_pad(*old(self)),
    {
        if self.x.size() < PAD_MIN {
            self.x = self.x.expand(PAD_MIN);
        }
        if self.y.size() < PAD_MIN {
            self.y = self.y.expand(PAD_MIN);
        }
        if self.z.size() < PAD_MIN {
            self.z = self.z.expand(PAD_MIN);
        }
    }
}

/// The outward-rounded `t`-window in which the ray is between the two
/// planes of one axis; `d` must not be zero.
fn slab_t_bounds(lo: i64, hi: i64, o: i64, d: i64) -> (r: (i128, i128))
    requires
        -INF_COORD <= lo <= INF_COORD,
        -INF_COORD <= hi <= INF_COORD,
        -INF_COORD <= o <= INF_COORD,
        -INF_COORD <= d <= INF_COORD,
        d != 0,
    ensures
        d > 0 ==> r.0 == ((lo - o) * (FP as int)) / (d as int)
            && r.1 == ceil_div((hi - o) * (FP as int), d as int),
        d < 0 ==> r.0 == ((o - hi) * (FP as int)) / (-d as int)
            && r.1 == ceil_div((o - lo) * (FP as int), -d as int),
{
    if d > 0 {
        let num0: i128 = ((lo as i128) - (o as i128)) * 65536;
        let num1: i128 = ((hi as i128) - (o as i128)) * 65536;
        proof {
            assert(num0 == (lo - o) * (FP as int) && num1 == (hi - o) * (FP as int))
                by (nonlinear_arith)
                requires
                    FP == 65536,
                    num0 == (lo - o) * 65536,
                    num1 == (hi - o) * 65536;
        }
        let t0 = crate::math::div_floor(num0, d as i128);
        let t1 = crate::math::div_ceil(num1, d as i128);
        (t0, t1)
    } else {
        let num0: i128 = ((o as i128) - (hi as i128)) * 65536;
        let num1: i128 = ((o as i128) - (lo as i128)) * 65536;
        proof {
            assert(num0 == (o - hi) * (FP as int) && num1 == (o - lo) * (FP as int))
                by (nonlinear_arith)
                requires
                    FP == 65536,
                    num0 == (o - hi) * 65536,
                    num1 == (o - lo) * 65536;
        }
        let t0 = crate::math::div_floor(num0, -(d as i128));
        let t1 = crate::math::div_ceil(num1, -(d as i128));
        (t0, t1)
    }
}

/// Whether the exact point of `r` at parameter `t` lies strictly inside
/// `b`; the executable form of [`in_box_strict`].
pub fn point_strictly_inside(b: &AABBox, r: &Ray, t: i64) -> (res: bool)
    requires
        box_in_range(*b, INF_COORD as int),
        in_range(r.orig, INF_COORD as int),
        in_range(r.dir, INF_COORD as int),
        -T_LIMIT <= t <= T_LIMIT,
    ensures
        res == in_box_strict(*b, *r, t as int),
{
    let sx = scaled_coord(r.orig.x, r.dir.x, t);
    let sy = scaled_coord(r.orig.y, r.dir.y, t);
    let sz = scaled_coord(r.orig.z, r.dir.z, t);
    let rx = (b.x.min as i128) * 65536 < sx && sx < (b.x.max as i128) * 65536;
    let ry = (b.y.min as i128) * 65536 < sy && sy < (b.y.max as i128) * 65536;
    let rz = (b.z.min as i128) * 65536 < sz && sz < (b.z.max as i128) * 65536;
    proof {
        lemma_scale_is_fp(b.x.min as int);
        lemma_scale_is_fp(b.x.max as int);
        lemma_scale_is_fp(b.y.min as int);
        lemma_scale_is_fp(b.y.max as int);
        lemma_scale_is_fp(b.z.min as int);
        lemma_scale_is_fp(b.z.max as int);
    }
    rx && ry && rz
}

/// `x * 65536` and `x * FP` agree; stated once so callers can bridge
/// literal arithmetic with the specification constant.
proof fn lemma_scale_is_fp(x: int)
    ensures
        x * 65536 == x * (FP as int),
{
    assert(x * 65536 == x * (FP as int)) by (nonlinear_arith)
        requires FP == 65536;
}

/// `orig * FP + t * dir`, exactly.
fn scaled_coord(o: i64, d: i64, t: i64) -> (s: i128)
    requires
        -INF_COORD <= o <= INF_COORD,
        -INF_COORD <= d <= INF_COORD,
        -T_LIMIT <= t <= T_LIMIT,
    ensures
        s == o * (FP as int) + t * d,
{
    proof {
        crate::vec3::lemma_mul_bound(t as int, d as int, T_LIMIT as int);
        lemma_scale_is_fp(o as int);
    }
    (o as i128) * 65536 + (t as i128) * (d as i128)
}

/// One padded axis: grown by `PAD_MIN / 2` on each side when too thin.
pub open spec fn spec_pad_interval(i: Interval) -> Interval {
    if i.max - i.min < PAD_MIN {
        Interval { min: (i.min - PAD_MIN / 2) as i64, max: (i.max + PAD_MIN / 2) as i64 }
    } else {
        i
    }
}

/// The box with every thin axis padded.
pub open spec fn spec_pad(b: AABBox) -> AABBox {
    AABBox { x: spec_pad_interval(b.x), y: spec_pad_interval(b.y), z: spec_pad_interval(b.z) }
}

/// The unpadded box spanned by two corner points.
pub open spec fn spec_box_from_points(a: Point3, b: Point3) -> AABBox {
    AABBox {
        x: Interval { min: if a.x <= b.x { a.x } else { b.x }, max: if a.x <= b.x { b.x } else { a.x } },
        y: Interval { min: if a.y <= b.y { a.y } else { b.y }, max: if a.y <= b.y { b.y } else { a.y } },
        z: Interval { min: if a.z <= b.z { a.z } else { b.z }, max: if a.z <= b.z { b.z } else { a.z } },
    }
}

pub open spec fn spec_empty_box() -> AABBox {
    AABBox {
        x: Interval { min: INF_COORD, max: (-INF_COORD) as i64 },
        y: Interval { min: INF_COORD, max: (-INF_COORD) as i64 },
        z: Interval { min: INF_COORD, max: (-INF_COORD) as i64 },
    }
}

pub open spec fn spec_longest_axis(b: AABBox) -> int {
    let xl = b.x.max - b.x.min;
    let yl = b.y.max - b.y.min;
    let zl = b.z.max - b.z.min;
    if xl > yl && xl > zl {
        0
    } else if yl > zl {
        1
    } else {
        2
    }
}

/// The union contains every point of either argument.
pub proof fn lemma_union_contains(a: AABBox, b: AABBox, px: int, py: int, pz: int)
    requires
        box_contains_point(a, px, py, pz) || box_contains_point(b, px, py, pz),
    ensures
        box_contains_point(spec_box_union(a, b), px, py, pz),
{
}

/// The union construction is commutative.
pub proof fn lemma_union_commutative(a: AABBox, b: AABBox)
    ensures
        spec_box_union(a, b) == spec_box_union(b, a),
{
}

/// The union construction is associative.
pub proof fn lemma_union_associative(a: AABBox, b: AABBox, c: AABBox)
    ensures
        spec_box_union(spec_box_union(a, b), c) == spec_box_union(a, spec_box_union(b, c)),
{
}

/// Each argument is contained in the union, as a box.
pub proof fn lemma_union_bounds(a: AABBox, b: AABBox)
    ensures
        box_contains_box(spec_box_union(a, b), a),
        box_contains_box(spec_box_union(a, b), b),
{
}

/// Box containment is transitive.
pub proof fn lemma_contains_box_trans(a: AABBox, b: AABBox, c: AABBox)
    requires
        box_contains_box(a, b),
        box_contains_box(b, c),
    ensures
        box_contains_box(a, c),
{
}

/// Strict interior points are preserved by box containment.
pub proof fn lemma_strict_inside_mono(outer: AABBox, inner: AABBox, r: Ray, t: int)
    requires
        box_contains_box(outer, inner),
        in_box_strict(inner, r, t),
    ensures
        in_box_strict(outer, r, t),
{
    assert forall|a: int| 0 <= a < 3 implies strict_inside_axis(outer, r, t, a) by {
        assert(strict_inside_axis(inner, r, t, a));
        assert(axis_interval_of(outer, a).min <= axis_interval_of(inner, a).min);
        assert(axis_interval_of(inner, a).max <= axis_interval_of(outer, a).max);
        crate::vec3::lemma_mul_mono_left(
            axis_interval_of(outer, a).min as int,
            axis_interval_of(inner, a).min as int,
            FP as int,
        );
        crate::vec3::lemma_mul_mono_left(
            axis_interval_of(inner, a).max as int,
            axis_interval_of(outer, a).max as int,
            FP as int,
        );
    }
}

/// Soundness of the slab test: if the exact point at some `t` strictly
/// inside the acceptance window lies strictly inside the box, the slab
/// test passes for that window.
pub proof fn lemma_box_hit_of_interior(b: AABBox, r: Ray, tmin: int, tmax: int, t: int)
    requires
        tmin < t < tmax,
        in_box_strict(b, r, t),
    ensures
        box_hit_spec(b, r, tmin, tmax),
{
    assert forall|a: int| 0 <= a < 3 implies slab_axis_pass(b, r, tmin, tmax, a) by {
        lemma_slab_axis_of_interior(b, r, tmin, tmax, t, a);
    }
}

proof fn lemma_slab_axis_of_interior(b: AABBox, r: Ray, tmin: int, tmax: int, t: int, a: int)
    requires
        0 <= a < 3,
        tmin < t < tmax,
        strict_inside_axis(b, r, t, a),
    ensures
        slab_axis_pass(b, r, tmin, tmax, a),
{
    let o = axis(r.orig, a);
    let d = axis(r.dir, a);
    let lo = axis_interval_of(b, a).min as int;
    let hi = axis_interval_of(b, a).max as int;
    let f = FP as int;
    assert(lo * f < o * f + t * d);
    assert(o * f + t * d < hi * f);
    if d == 0 {
        assert(t * d == 0) by (nonlinear_arith)
            requires d == 0;
        assert(lo * f < o * f);
        assert(lo < o) by (nonlinear_arith)
            requires lo * f < o * f && f > 0;
        assert(o < hi) by (nonlinear_arith)
            requires o * f < hi * f && f > 0;
    } else if d > 0 {
        let t0 = ((lo - o) * f) / d;
        let t1 = ceil_div((hi - o) * f, d);
        crate::math::lemma_div_bounds((lo - o) * f, d);
        assert((lo - o) * f < t * d) by (nonlinear_arith)
            requires lo * f < o * f + t * d;
        assert(t0 < t) by (nonlinear_arith)
            requires d > 0 && d * t0 <= (lo - o) * f && (lo - o) * f < t * d;
        crate::math::lemma_div_bounds(-((hi - o) * f), d);
        assert(t * d < (hi - o) * f) by (nonlinear_arith)
            requires o * f + t * d < hi * f;
        let q = (-((hi - o) * f)) / d;
        assert(d * q <= -((hi - o) * f));
        assert((hi - o) * f <= d * t1) by (nonlinear_arith)
            requires t1 == -q && d * q <= -((hi - o) * f);
        assert(t < t1) by (nonlinear_arith)
            requires d > 0 && t * d < (hi - o) * f && (hi - o) * f <= d * t1;
    } else {
        let e = -d;
        let t0 = ((o - hi) * f) / e;
        let t1 = ceil_div((o - lo) * f, e);
        crate::math::lemma_div_bounds((o - hi) * f, e);
        assert((o - hi) * f < t * e) by (nonlinear_arith)
            requires o * f + t * d < hi * f && e == -d;
        assert(t0 < t) by (nonlinear_arith)
            requires e > 0 && e * t0 <= (o - hi) * f && (o - hi) * f < t * e;
        crate::math::lemma_div_bounds(-((o - lo) * f), e);
        let q = (-((o - lo) * f)) / e;
        assert(t * e < (o - lo) * f) by (nonlinear_arith)
            requires lo * f < o * f + t * d && e == -d;
        assert((o - lo) * f <= e * t1) by (nonlinear_arith)
            requires t1 == -q && e * q <= -((o - lo) * f);
        assert(t < t1) by (nonlinear_arith)
            requires e > 0 && t * e < (o - lo) * f && (o - lo) * f <= e * t1;
    }
}

/// A strictly interior point has grid coordinates within the box bounds.
pub proof fn lemma_interior_point_bounds(b: AABBox, r: Ray, t: int)
    requires
        in_box_strict(b, r, t),
    ensures
        forall|a: int| 0 <= a < 3 ==> #[trigger] axis_interval_of(b, a).min
            <= at_scaled(r, t, a) / (FP as int) <= axis_interval_of(b, a).max,
{
    assert forall|a: int| 0 <= a < 3 implies #[trigger] axis_interval_of(b, a).min
        <= at_scaled(r, t, a) / (FP as int) <= axis_interval_of(b, a).max by {
        let f = FP as int;
        let lo = axis_interval_of(b, a).min as int;
        let hi = axis_interval_of(b, a).max as int;
        let s = at_scaled(r, t, a);
        assert(lo * f < s < hi * f);
        crate::math::lemma_div_monotone(lo * f, s, f);
        crate::math::lemma_div_monotone(s, hi * f, f);
        vstd::arithmetic::div_mod::lemma_div_multiples_vanish(lo, f);
        vstd::arithmetic::div_mod::lemma_div_multiples_vanish(hi, f);
        assert(lo * f == f * lo && hi * f == f * hi) by (nonlinear_arith);
    }
}

/// Monotonicity of the slab test in the acceptance window: passing a
/// narrower window implies passing a wider one.
pub proof fn lemma_box_hit_mono(b: AABBox, r: Ray, tmin: int, tmax1: int, tmax2: int)
    requires
        tmax1 <= tmax2,
        box_hit_spec(b, r, tmin, tmax1),
    ensures
        box_hit_spec(b, r, tmin, tmax2),
{
}

} // verus!

verus! {

/// Completeness of the slab test on one axis: a ray that stays weakly
/// outside one face plane for the whole acceptance window fails the
/// test. With [`lemma_box_hit_of_interior`] this pins the test down
/// from both sides.
pub proof fn lemma_box_miss_axis(b: AABBox, r: Ray, tmin: int, tmax: int, a: int)
    requires
        0 <= a < 3,
        tmin <= tmax,
        ({
            let o = axis(r.orig, a);
            let d = axis(r.dir, a);
            let lo = axis_interval_of(b, a).min as int;
            let hi = axis_interval_of(b, a).max as int;
            if d == 0 {
                o <= lo || o >= hi
            } else if d > 0 {
                o * (FP as int) + tmax * d <= lo * (FP as int)
                    || o * (FP as int) + tmin * d >= hi * (FP as int)
            } else {
                o * (FP as int) + tmin * d <= lo * (FP as int)
                    || o * (FP as int) + tmax * d >= hi * (FP as int)
            }
        }),
    ensures
        !box_hit_spec(b, r, tmin, tmax),
{
    let o = axis(r.orig, a);
    let d = axis(r.dir, a);
    let lo = axis_interval_of(b, a).min as int;
    let hi = axis_interval_of(b, a).max as int;
    let f = FP as int;
    if d == 0 {
    } else if d > 0 {
        if o * f + tmax * d <= lo * f {
            let t0 = ((lo - o) * f) / d;
            crate::math::lemma_div_bounds((lo - o) * f, d);
            assert(tmax * d <= (lo - o) * f) by (nonlinear_arith)
                requires o * f + tmax * d <= lo * f;
            assert(tmax <= t0) by (nonlinear_arith)
                requires d > 0 && tmax * d <= (lo - o) * f && (lo - o) * f < d * (t0 + 1);
        } else {
            let t1 = ceil_div((hi - o) * f, d);
            let q = (-((hi - o) * f)) / d;
            crate::math::lemma_div_bounds(-((hi - o) * f), d);
            assert((hi - o) * f <= tmin * d) by (nonlinear_arith)
                requires o * f + tmin * d >= hi * f;
            assert(t1 <= tmin) by (nonlinear_arith)
                requires
                    d > 0 && (hi - o) * f <= tmin * d && t1 == -q
                    && d * q <= -((hi - o) * f) < d * (q + 1);
        }
    } else {
        let e = -d;
        if o * f + tmin * d <= lo * f {
            let t1 = ceil_div((o - lo) * f, e);
            let q = (-((o - lo) * f)) / e;
            crate::math::lemma_div_bounds(-((o - lo) * f), e);
            assert((o - lo) * f <= tmin * e) by (nonlinear_arith)
                requires o * f + tmin * d <= lo * f && e == -d;
            assert(t1 <= tmin) by (nonlinear_arith)
                requires
                    e > 0 && (o - lo) * f <= tmin * e && t1 == -q
                    && e * q <= -((o - lo) * f) < e * (q + 1);
        } else {
            let t0 = ((o - hi) * f) / e;
            crate::math::lemma_div_bounds((o - hi) * f, e);
            assert(tmax * e <= (o - hi) * f) by (nonlinear_arith)
                requires o * f + tmax * d >= hi * f && e == -d;
            assert(tmax <= t0) by (nonlinear_arith)
                requires e > 0 && tmax * e <= (o - hi) * f && (o - hi) * f < e * (t0 + 1);
        }
    }
}

} // verus!
