//! Closed integer ranges, used both as per-axis bounding ranges and as
//! fixed-point acceptance windows for the ray parameter.

use vstd::prelude::*;
use crate::math::INF_COORD;

verus! {

/// The closed range `[min, max]`; empty when `min > max`.
#[derive(Clone, Copy, Debug, PartialEq, Eq, Structural)]
pub struct Interval {
    pub min: i64,
    pub max: i64,
}

/// Both endpoints bounded by `b` in magnitude.
pub open spec fn interval_in_range(i: Interval, b: int) -> bool {
    -b <= i.min <= b && -b <= i.max <= b
}

/// The union construction: smallest interval enclosing both.
pub open spec fn spec_interval_union(a: Interval, b: Interval) -> Interval {
    Interval {
        min: if a.min <= b.min { a.min } else { b.min },
        max: if a.max >= b.max { a.max } else { b.max },
    }
}

impl Interval {
    pub fn new(min: i64, max: i64) -> (i: Interval)
        ensures
            i == (Interval { min, max }),
    {
        Interval { min, max }
    }

    /// The interval that contains no value.
    pub fn empty() -> (i: Interval)
        ensures
            i.min == INF_COORD && i.max == -INF_COORD,
    {
        Interval { min: INF_COORD, max: -INF_COORD }
    }

    /// The interval that contains every representable value.
    pub fn universe() -> (i: Interval)
        ensures
            i.min == -INF_COORD && i.max == INF_COORD,
    {
        Interval { min: -INF_COORD, max: INF_COORD }
    }

    /// The smallest interval enclosing `a` and `b`.
    pub fn new_from_aabboxs(a: &Interval, b: &Interval) -> (i: Interval)
        ensures
            i == spec_interval_union(*a, *b),
    {
        let min = if a.min <= b.min { a.min } else { b.min };
        let max = if a.max >= b.max { a.max } else { b.max };
        Interval { min, max }
    }

    /// `max - min`; negative exactly for an empty interval.
    pub fn size(&self) -> (s: i64)
        requires
            interval_in_range(*self, 0x1000_0000_0000_0000),
        ensures
            s == self.max - self.min,
    {
        self.max - self.min
    }

    /// Membership, endpoints included.
    pub fn contains(&self, x: i64) -> (r: bool)
        ensures
            r == (self.min <= x && x <= self.max),
    {
        self.min <= x && x <= self.max
    }

    /// Membership, endpoints excluded.
    pub fn surrounds(&self, x: i64) -> (r: bool)
        ensures
            r == (self.min < x && x < self.max),
    {
        self.min < x && x < self.max
    }

    /// `x` forced into the interval.
    pub fn clamp(&self, x: i64) -> (r: i64)
        ensures
            r == if x < self.min { self.min } else if x > self.max { self.max } else { x },
    {
        if x < self.min {
            self.min
        } else if x > self.max {
            self.max
        } else {
            x
        }
    }

    /// The interval grown by `delta / 2` on each side.
    pub fn expand(&self, delta: i64) -> (i: Interval)
        requires
            0 <= delta <= 0x1000_0000_0000_0000,
            interval_in_range(*self, 0x1000_0000_0000_0000),
        ensures
            i.min == self.min - delta / 2,
            i.max == self.max + delta / 2,
    {
        let padding = delta / 2;
        Interval { min: self.min - padding, max: self.max + padding }
    }
}

} // verus!
