//! Shared numeric constants and exact integer helpers: floor / ceiling
//! division by a positive divisor and the integer square root.

use vstd::prelude::*;

verus! {

/// Fixed-point scale: one unit of `t`, color, or unit-vector component.
pub const FP: i64 = 65536;

/// Bound on scene data: centers, corners, edge vectors, radii, offsets.
pub const MAX_COORD: i64 = 65536;

/// Bound on the coordinates of rays handed to leaf geometry.
pub const RAY_LIMIT: i64 = 67108864;

/// Rays from the camera or from scattering stay within this bound.
pub const MIN_RAY_BOUND: i64 = 8388608;

/// Bound on the fixed-point ray parameter `t` of an acceptance interval.
pub const T_LIMIT: i64 = 1099511627776;

/// Sentinel magnitude for empty / universal intervals.
pub const INF_COORD: i64 = 1099511627776;

/// Hit points of a well-formed scene stay inside this bound.
pub const SCENE_LIMIT: i64 = 131072;

/// The floor of `n / d` given by its defining bounds.
pub proof fn lemma_div_bounds(n: int, d: int)
    requires
        0 < d,
    ensures
        d * (n / d) <= n < d * (n / d + 1),
{
    vstd::arithmetic::div_mod::lemma_fundamental_div_mod(n, d);
    vstd::arithmetic::div_mod::lemma_mod_division_less_than_divisor(n, d);
    assert(d * (n / d + 1) == d * (n / d) + d) by (nonlinear_arith);
}

/// Floor division characterized by bounds alone.
pub proof fn lemma_div_unique(n: int, d: int, q1: int, q2: int)
    requires
        0 < d,
        d * q1 <= n < d * (q1 + 1),
        d * q2 <= n < d * (q2 + 1),
    ensures
        q1 == q2,
{
    if q1 < q2 {
        assert(d * (q1 + 1) <= d * q2) by (nonlinear_arith)
            requires 0 < d && q1 + 1 <= q2;
    }
    if q2 < q1 {
        assert(d * (q2 + 1) <= d * q1) by (nonlinear_arith)
            requires 0 < d && q2 + 1 <= q1;
    }
}

/// Floor division: `q` with `d * q <= n < d * (q + 1)`.
///
/// In specifications, `/` on `int` is Euclidean division, which equals
/// floor division whenever the divisor is positive.
pub fn div_floor(n: i128, d: i128) -> (q: i128)
    requires
        0 < d < 0x4000_0000_0000_0000_0000_0000_0000_0000,
        -0x4000_0000_0000_0000_0000_0000_0000_0000 < n < 0x4000_0000_0000_0000_0000_0000_0000_0000,
    ensures
        q == n as int / d as int,
        n >= 0 ==> 0 <= q <= n,
        n < 0 ==> n <= q <= 0,
{
    proof {
        lemma_div_bounds(n as int, d as int);
        assert(n >= 0 ==> 0 <= n as int / d as int <= n) by (nonlinear_arith)
            requires 0 < d && d * (n as int / d as int) <= n < d * (n as int / d as int + 1);
        assert(n < 0 ==> n <= n as int / d as int <= 0) by (nonlinear_arith)
            requires 0 < d && d * (n as int / d as int) <= n < d * (n as int / d as int + 1);
    }
    if n >= 0 {
        n / d
    } else {
        let m = -n;
        let qm = (m + d - 1) / d;
        proof {
            let mi = m as int;
            let di = d as int;
            let qmi = (mi + di - 1) / di;
            lemma_div_bounds(mi + di - 1, di);
            // qm is the ceiling of m / d, so -qm is the floor of n / d.
            assert(di * (-qmi) <= -mi < di * (-qmi + 1)) by {
                assert(di * qmi <= mi + di - 1 < di * (qmi + 1));
                assert(mi <= di * qmi && di * qmi < mi + di) by {
                    assert(di * (qmi + 1) == di * qmi + di) by (nonlinear_arith);
                }
                assert(di * (-qmi) == -(di * qmi)) by (nonlinear_arith);
                assert(di * (-qmi + 1) == -(di * qmi) + di) by (nonlinear_arith);
            }
            lemma_div_bounds(-mi, di);
            lemma_div_unique(-mi, di, -qmi, -mi / di);
        }
        -qm
    }
}

/// Ceiling division: `q` with `d * (q - 1) < n <= d * q`.
pub fn div_ceil(n: i128, d: i128) -> (q: i128)
    requires
        0 < d < 0x4000_0000_0000_0000_0000_0000_0000_0000,
        -0x4000_0000_0000_0000_0000_0000_0000_0000 < n < 0x4000_0000_0000_0000_0000_0000_0000_0000,
    ensures
        q == -((-n) as int / d as int),
        d * (q - 1) < n <= d * q,
{
    let q = -div_floor(-n, d);
    proof {
        let ni = n as int;
        let di = d as int;
        let f = -ni / di;
        lemma_div_bounds(-ni, di);
        assert(di * f <= -ni < di * (f + 1));
        assert(di * (-f - 1) < ni <= di * (-f)) by {
            assert(di * (-f - 1) == -(di * (f + 1))) by (nonlinear_arith);
            assert(di * (-f) == -(di * f)) by (nonlinear_arith);
        }
    }
    q
}

/// `r` is the integer square root of `n`.
pub open spec fn is_isqrt(n: int, r: int) -> bool {
    0 <= r && r * r <= n && n < (r + 1) * (r + 1)
}

/// The integer square root of a nonnegative `n`.
pub open spec fn spec_isqrt(n: int) -> int {
    choose|r: int| is_isqrt(n, r)
}

/// Every nonnegative integer has an integer square root, so the chosen
/// one satisfies its defining bounds.
pub proof fn lemma_isqrt_exists(n: int)
    requires
        n >= 0,
    ensures
        is_isqrt(n, spec_isqrt(n)),
    decreases n,
{
    if n == 0 {
        assert(is_isqrt(0, 0)) by (nonlinear_arith);
    } else {
        lemma_isqrt_exists(n - 1);
        let r = spec_isqrt(n - 1);
        if (r + 1) * (r + 1) <= n {
            assert(is_isqrt(n, r + 1)) by (nonlinear_arith)
                requires 0 <= r && r * r <= n - 1 < (r + 1) * (r + 1) && (r + 1) * (r + 1) <= n;
        } else {
            assert(is_isqrt(n, r));
        }
    }
    assert(exists|w: int| is_isqrt(n, w));
}

pub proof fn lemma_isqrt_unique(n: int, r1: int, r2: int)
    requires
        is_isqrt(n, r1),
        is_isqrt(n, r2),
    ensures
        r1 == r2,
{
    if r1 < r2 {
        assert((r1 + 1) * (r1 + 1) <= r2 * r2) by (nonlinear_arith)
            requires 0 <= r1 && r1 + 1 <= r2;
    }
    if r2 < r1 {
        assert((r2 + 1) * (r2 + 1) <= r1 * r1) by (nonlinear_arith)
            requires 0 <= r2 && r2 + 1 <= r1;
    }
}

/// Integer square root by bisection.
pub fn isqrt(n: i128) -> (r: i128)
    requires
        0 <= n < 0x1_0000_0000_0000_0000_0000_0000_0000,
    ensures
        is_isqrt(n as int, r as int),
        r == spec_isqrt(n as int),
        0 <= r < 0x100_0000_0000_0000,
{
    let mut lo: i128 = 0;
    let mut hi: i128 = 0x100_0000_0000_0000;
    proof {
        assert(0x100_0000_0000_0000int * 0x100_0000_0000_0000int
            == 0x1_0000_0000_0000_0000_0000_0000_0000int);
    }
    while lo + 1 < hi
        invariant
            0 <= lo < hi <= 0x100_0000_0000_0000,
            lo * lo <= n,
            n < hi * hi,
        decreases hi - lo,
    {
        let mid = lo + (hi - lo) / 2;
        assert(lo < mid < hi);
        proof {
            crate::vec3::lemma_mul_bound(mid as int, mid as int, 0x100_0000_0000_0000);
        }
        if mid * mid <= n {
            lo = mid;
        } else {
            hi = mid;
        }
    }
    proof {
        assert(is_isqrt(n as int, lo as int));
        let w = spec_isqrt(n as int);
        assert(is_isqrt(n as int, w));
        lemma_isqrt_unique(n as int, lo as int, w);
    }
    lo
}

/// Floor division is monotone in the dividend.
pub proof fn lemma_div_monotone(x: int, y: int, d: int)
    requires
        x <= y,
        0 < d,
    ensures
        x / d <= y / d,
{
    lemma_div_bounds(x, d);
    lemma_div_bounds(y, d);
    if y / d < x / d {
        assert(d * (y / d + 1) <= d * (x / d)) by (nonlinear_arith)
            requires 0 < d && y / d + 1 <= x / d;
    }
}

} // verus!
