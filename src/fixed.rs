//! Fixed-point scalars: the numeric ground the tracer stands on.
//!
//! A real value `v` is held as the integer `v * UNIT` (rounded), so all the
//! geometry below is exact integer arithmetic whose rounding is stated in the
//! contracts rather than left to floating-point hardware.
use vstd::prelude::*;

verus! {

/// The fixed-point representation of `1.0`.
pub const UNIT: i64 = 4096;

/// Largest coordinate (in fixed point) of anything placed in a scene: 256.0.
pub const SCENE_BOUND: i64 = 1048576;

/// Largest coordinate (in fixed point) of a ray origin: 4096.0.
pub const ORIGIN_BOUND: i64 = 16777216;

/// Largest component (in fixed point) of a ray direction: 4.0.
pub const DIR_BOUND: i64 = 16384;

/// Largest squared distance at which a hit still counts: 1024.0 squared, in
/// units of `1 / (UNIT * UNIT)`.
pub const MAX_DIST2: i64 = 17592186044416;

/// Largest material coefficient, colour intensity or light intensity: 256.0.
pub const COEF_BOUND: i64 = 1048576;

/// `|x| <= m`.
pub open spec fn within(x: int, m: int) -> bool {
    -m <= x <= m
}

/// Division that rounds toward zero, as the machine's `/` does on signed integers.
pub open spec fn tdiv(a: int, b: int) -> int {
    if a >= 0 {
        a / b
    } else {
        -((-a) / b)
    }
}

/// `r` is the integer square root of `n`: the largest `r` with `r * r <= n`.
pub open spec fn is_sqrt_floor(n: int, r: int) -> bool {
    0 <= r && r * r <= n && n < (r + 1) * (r + 1)
}

/// The integer square root of `n`, counted up from zero.
pub open spec fn sqrt_floor(n: int) -> int
    decreases n,
{
    if n <= 0 {
        0
    } else {
        let r = sqrt_floor(n - 1);
        if (r + 1) * (r + 1) <= n {
            r + 1
        } else {
            r
        }
    }
}

pub proof fn lemma_abs_mul_bound(a: int, b: int, ma: int, mb: int)
    requires
        within(a, ma),
        within(b, mb),
    ensures
        within(a * b, ma * mb),
{
    assert(within(a * b, ma * mb)) by (nonlinear_arith)
        requires
            -ma <= a <= ma,
            -mb <= b <= mb,
    ;
}

pub proof fn lemma_square_nonneg(a: int)
    ensures
        a * a >= 0,
{
    assert(a * a >= 0) by (nonlinear_arith);
}

/// Squares order non-negative numbers.
pub proof fn lemma_square_lt(a: int, b: int)
    requires
        0 <= a,
        0 <= b,
        a * a < b * b,
    ensures
        a < b,
{
    assert(a < b) by (nonlinear_arith)
        requires
            0 <= a,
            0 <= b,
            a * a < b * b,
    ;
}

pub proof fn lemma_square_le(a: int, b: int)
    requires
        0 <= a <= b,
    ensures
        a * a <= b * b,
{
    assert(a * a <= b * b) by (nonlinear_arith)
        requires
            0 <= a <= b,
    ;
}

/// The counted-up root is the integer square root.
pub proof fn lemma_sqrt_floor(n: int)
    requires
        n >= 0,
    ensures
        is_sqrt_floor(n, sqrt_floor(n)),
    decreases n,
{
    if n > 0 {
        lemma_sqrt_floor(n - 1);
        let r = sqrt_floor(n - 1);
        if (r + 1) * (r + 1) <= n {
            assert((r + 1 + 1) * (r + 1 + 1) > n) by (nonlinear_arith)
                requires
                    r >= 0,
                    n - 1 < (r + 1) * (r + 1),
            ;
        }
    }
}

/// There is only one integer square root.
pub proof fn lemma_sqrt_floor_unique(n: int, r: int)
    requires
        n >= 0,
        is_sqrt_floor(n, r),
    ensures
        r == sqrt_floor(n),
{
    lemma_sqrt_floor(n);
    let s = sqrt_floor(n);
    if r < s {
        lemma_square_le(r + 1, s);
    } else if s < r {
        lemma_square_le(s + 1, r);
    }
}

/// Every `v` with `v * v <= n` is at most the root of `n`.
pub proof fn lemma_sqrt_floor_ge(n: int, v: int)
    requires
        0 <= v,
        v * v <= n,
    ensures
        v <= sqrt_floor(n),
{
    lemma_sqrt_floor(n);
    let s = sqrt_floor(n);
    lemma_square_lt(v, s + 1);
}

/// The root of a number below `b * b` is below `b`.
pub proof fn lemma_sqrt_floor_lt(n: int, b: int)
    requires
        0 <= n < b * b,
        0 <= b,
    ensures
        sqrt_floor(n) < b,
{
    lemma_sqrt_floor(n);
    let s = sqrt_floor(n);
    lemma_square_lt(s, b);
}

/// The integer square root of `n`, found by bisection.
pub fn isqrt(n: u128) -> (r: u64)
    requires
        n < 0x100_0000_0000_0000_0000_0000_0000_0000,
    ensures
        r == sqrt_floor(n as int),
        (r as int) * (r as int) <= n,
        r < 0x1000_0000_0000_0000,
{
    let mut lo: u128 = 0;
    let mut hi: u128 = 0x1000_0000_0000_0000;
    assert(hi * hi > n);
    while hi - lo > 1
        invariant
            lo < hi <= 0x1000_0000_0000_0000,
            lo * lo <= n,
            n < hi * hi,
        decreases hi - lo,
    {
        let mid: u128 = lo + (hi - lo) / 2;
        assert(mid * mid <= 0x100_0000_0000_0000_0000_0000_0000_0000) by (nonlinear_arith)
            requires
                mid < 0x1000_0000_0000_0000,
        ;
        if mid * mid <= n {
            lo = mid;
        } else {
            hi = mid;
        }
    }
    assert(hi == lo + 1);
    proof {
        lemma_sqrt_floor_unique(n as int, lo as int);
    }
    lo as u64
}

} // verus!
