//! Integer 3-vectors, used for points, directions and colors.

use vstd::prelude::*;
use crate::math::FP;

verus! {

/// A vector of three integer coordinates. Depending on context the
/// coordinates are plain scene units (geometry) or fixed-point numbers
/// with scale [`FP`] (unit vectors, colors).
#[derive(Clone, Copy, Debug, PartialEq, Eq, Structural)]
pub struct Vec3 {
    pub x: i64,
    pub y: i64,
    pub z: i64,
}

/// Points are vectors from the origin.
pub type Point3 = Vec3;

/// Colors are fixed-point RGB triples; `FP` is full intensity 1.
pub type Color = Vec3;

/// The coordinate of `v` on axis `a` (0 = x, 1 = y, 2 = z).
pub open spec fn axis(v: Vec3, a: int) -> int {
    if a == 0 {
        v.x as int
    } else if a == 1 {
        v.y as int
    } else {
        v.z as int
    }
}

/// Every coordinate of `v` is bounded by `b` in magnitude.
pub open spec fn in_range(v: Vec3, b: int) -> bool {
    -b <= v.x <= b && -b <= v.y <= b && -b <= v.z <= b
}

pub open spec fn spec_add(a: Vec3, b: Vec3) -> Vec3 {
    Vec3 { x: (a.x + b.x) as i64, y: (a.y + b.y) as i64, z: (a.z + b.z) as i64 }
}

pub open spec fn spec_sub(a: Vec3, b: Vec3) -> Vec3 {
    Vec3 { x: (a.x - b.x) as i64, y: (a.y - b.y) as i64, z: (a.z - b.z) as i64 }
}

pub open spec fn spec_neg(a: Vec3) -> Vec3 {
    Vec3 { x: (-a.x) as i64, y: (-a.y) as i64, z: (-a.z) as i64 }
}

/// The exact dot product, as a mathematical integer.
pub open spec fn spec_dot(a: Vec3, b: Vec3) -> int {
    a.x * b.x + a.y * b.y + a.z * b.z
}

/// The exact cross product, as mathematical integers per axis.
pub open spec fn spec_cross_axis(a: Vec3, b: Vec3, ax: int) -> int {
    if ax == 0 {
        a.y * b.z - a.z * b.y
    } else if ax == 1 {
        a.z * b.x - a.x * b.z
    } else {
        a.x * b.y - a.y * b.x
    }
}

impl Vec3 {
    pub fn new(x: i64, y: i64, z: i64) -> (v: Vec3)
        ensures
            v == (Vec3 { x, y, z }),
    {
        Vec3 { x, y, z }
    }

    pub fn zero() -> (v: Vec3)
        ensures
            v == (Vec3 { x: 0i64, y: 0i64, z: 0i64 }),
    {
        Vec3 { x: 0, y: 0, z: 0 }
    }

    /// Componentwise sum.
    pub fn add(&self, other: &Vec3) -> (v: Vec3)
        requires
            in_range(*self, 0x1000_0000_0000_0000),
            in_range(*other, 0x1000_0000_0000_0000),
        ensures
            v == spec_add(*self, *other),
    {
        Vec3 { x: self.x + other.x, y: self.y + other.y, z: self.z + other.z }
    }

    /// Componentwise difference.
    pub fn sub(&self, other: &Vec3) -> (v: Vec3)
        requires
            in_range(*self, 0x1000_0000_0000_0000),
            in_range(*other, 0x1000_0000_0000_0000),
        ensures
            v == spec_sub(*self, *other),
    {
        Vec3 { x: self.x - other.x, y: self.y - other.y, z: self.z - other.z }
    }

    /// Componentwise negation.
    pub fn neg(&self) -> (v: Vec3)
        requires
            in_range(*self, 0x1000_0000_0000_0000),
        ensures
            v == spec_neg(*self),
    {
        Vec3 { x: -self.x, y: -self.y, z: -self.z }
    }

    /// The coordinate on axis `a`.
    pub fn get_axis(&self, a: usize) -> (c: i64)
        requires
            a < 3,
        ensures
            c == axis(*self, a as int),
    {
        if a == 0 {
            self.x
        } else if a == 1 {
            self.y
        } else {
            self.z
        }
    }

    /// The exact dot product in wide arithmetic.
    pub fn dot(&self, other: &Vec3) -> (d: i128)
        requires
            in_range(*self, 0x4000_0000_0000),
            in_range(*other, 0x4000_0000_0000),
        ensures
            d == spec_dot(*self, *other),
    {
        proof {
            lemma_mul_bound(self.x as int, other.x as int, 0x4000_0000_0000);
            lemma_mul_bound(self.y as int, other.y as int, 0x4000_0000_0000);
            lemma_mul_bound(self.z as int, other.z as int, 0x4000_0000_0000);
        }
        (self.x as i128) * (other.x as i128) + (self.y as i128) * (other.y as i128)
            + (self.z as i128) * (other.z as i128)
    }

    /// The squared length, exactly.
    pub fn length_squared(&self) -> (d: i128)
        requires
            in_range(*self, 0x4000_0000_0000),
        ensures
            d == spec_dot(*self, *self),
            d >= 0,
    {
        let d = self.dot(self);
        proof {
            lemma_square_nonneg(self.x as int);
            lemma_square_nonneg(self.y as int);
            lemma_square_nonneg(self.z as int);
        }
        d
    }

    /// The exact cross product.
    pub fn cross(&self, other: &Vec3) -> (v: Vec3)
        requires
            in_range(*self, 0x4000_0000),
            in_range(*other, 0x4000_0000),
        ensures
            v.x == spec_cross_axis(*self, *other, 0),
            v.y == spec_cross_axis(*self, *other, 1),
            v.z == spec_cross_axis(*self, *other, 2),
            in_range(v, 0x8000_0000_0000_0000 - 1),
    {
        proof {
            lemma_mul_bound(self.y as int, other.z as int, 0x4000_0000);
            lemma_mul_bound(self.z as int, other.y as int, 0x4000_0000);
            lemma_mul_bound(self.z as int, other.x as int, 0x4000_0000);
            lemma_mul_bound(self.x as int, other.z as int, 0x4000_0000);
            lemma_mul_bound(self.x as int, other.y as int, 0x4000_0000);
            lemma_mul_bound(self.y as int, other.x as int, 0x4000_0000);
        }
        Vec3 {
            x: self.y * other.z - self.z * other.y,
            y: self.z * other.x - self.x * other.z,
            z: self.x * other.y - self.y * other.x,
        }
    }
}

/// `|a| <= b` and `|c| <= b` bound the product by `b * b`.
pub proof fn lemma_mul_bound(a: int, c: int, b: int)
    requires
        0 <= b,
        -b <= a <= b,
        -b <= c <= b,
    ensures
        -(b * b) <= a * c <= b * b,
{
    assert(-(b * b) <= a * c <= b * b) by (nonlinear_arith)
        requires 0 <= b && -b <= a <= b && -b <= c <= b;
}

pub proof fn lemma_square_nonneg(a: int)
    ensures
        a * a >= 0,
{
    assert(a * a >= 0) by (nonlinear_arith);
}

/// The dot product of vectors bounded by `ba` and `bb` is bounded by
/// `3 * ba * bb`.
pub proof fn lemma_dot_bound(a: Vec3, b: Vec3, ba: int, bb: int)
    requires
        0 <= ba,
        0 <= bb,
        in_range(a, ba),
        in_range(b, bb),
    ensures
        -3 * (ba * bb) <= spec_dot(a, b) <= 3 * (ba * bb),
{
    assert(-(ba * bb) <= a.x * b.x <= ba * bb) by (nonlinear_arith)
        requires 0 <= ba && 0 <= bb && -ba <= a.x <= ba && -bb <= b.x <= bb;
    assert(-(ba * bb) <= a.y * b.y <= ba * bb) by (nonlinear_arith)
        requires 0 <= ba && 0 <= bb && -ba <= a.y <= ba && -bb <= b.y <= bb;
    assert(-(ba * bb) <= a.z * b.z <= ba * bb) by (nonlinear_arith)
        requires 0 <= ba && 0 <= bb && -ba <= a.z <= ba && -bb <= b.z <= bb;
}

/// Cross-product components are bounded by twice the squared bound.
pub proof fn lemma_cross_range(a: Vec3, b: Vec3, bound: int)
    requires
        0 <= bound,
        in_range(a, bound),
        in_range(b, bound),
    ensures
        -2 * (bound * bound) <= spec_cross_axis(a, b, 0) <= 2 * (bound * bound),
        -2 * (bound * bound) <= spec_cross_axis(a, b, 1) <= 2 * (bound * bound),
        -2 * (bound * bound) <= spec_cross_axis(a, b, 2) <= 2 * (bound * bound),
{
    lemma_mul_bound(a.y as int, b.z as int, bound);
    lemma_mul_bound(a.z as int, b.y as int, bound);
    lemma_mul_bound(a.z as int, b.x as int, bound);
    lemma_mul_bound(a.x as int, b.z as int, bound);
    lemma_mul_bound(a.x as int, b.y as int, bound);
    lemma_mul_bound(a.y as int, b.x as int, bound);
}

/// A product is bounded by the product of the factors' bounds.
pub proof fn lemma_mul_bound2(a: int, c: int, ba: int, bc: int)
    requires
        0 <= ba,
        0 <= bc,
        -ba <= a <= ba,
        -bc <= c <= bc,
    ensures
        -(ba * bc) <= a * c <= ba * bc,
{
    assert(-(ba * bc) <= a * c <= ba * bc) by (nonlinear_arith)
        requires 0 <= ba && 0 <= bc && -ba <= a <= ba && -bc <= c <= bc;
}

/// A nonzero vector has positive squared length.
pub proof fn lemma_dot_self_pos(a: Vec3)
    requires
        !(a.x == 0 && a.y == 0 && a.z == 0),
    ensures
        spec_dot(a, a) > 0,
{
    lemma_square_nonneg(a.x as int);
    lemma_square_nonneg(a.y as int);
    lemma_square_nonneg(a.z as int);
    if a.x != 0 {
        assert(a.x * a.x > 0) by (nonlinear_arith)
            requires a.x != 0;
    } else if a.y != 0 {
        assert(a.y * a.y > 0) by (nonlinear_arith)
            requires a.y != 0;
    } else {
        assert(a.z * a.z > 0) by (nonlinear_arith)
            requires a.z != 0;
    }
}

/// Multiplication by a positive factor preserves order.
pub proof fn lemma_mul_mono_left(a: int, b: int, c: int)
    requires
        a <= b,
        0 < c,
    ensures
        a * c <= b * c,
{
    assert(a * c <= b * c) by (nonlinear_arith)
        requires a <= b && 0 < c;
}

} // verus!
