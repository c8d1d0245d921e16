//! Three-component fixed-point vectors, used both as points and as directions.
use vstd::prelude::*;

use crate::fixed::{
    isqrt, lemma_abs_mul_bound, lemma_sqrt_floor, lemma_sqrt_floor_ge, lemma_square_nonneg,
    sqrt_floor, tdiv, within, UNIT,
};

verus! {

/// A point or a displacement; each component is a fixed-point number (see `UNIT`).
#[derive(Clone, Copy, Debug, PartialEq, Eq, Structural)]
pub struct Vec3 {
    pub x: i64,
    pub y: i64,
    pub z: i64,
}

/// Largest component accepted by `Vec3::normalize`.
pub const NORMALIZE_BOUND: i64 = 288230376151711744;

/// Largest component accepted by the add, subtract and dot operations.
pub const ARITH_BOUND: i64 = 1152921504606846976;

pub open spec fn dot(a: Vec3, b: Vec3) -> int {
    a.x * b.x + a.y * b.y + a.z * b.z
}

pub open spec fn norm2(a: Vec3) -> int {
    dot(a, a)
}

pub open spec fn vadd(a: Vec3, b: Vec3) -> Vec3 {
    Vec3 { x: (a.x + b.x) as i64, y: (a.y + b.y) as i64, z: (a.z + b.z) as i64 }
}

pub open spec fn vsub(a: Vec3, b: Vec3) -> Vec3 {
    Vec3 { x: (a.x - b.x) as i64, y: (a.y - b.y) as i64, z: (a.z - b.z) as i64 }
}

pub open spec fn vneg(a: Vec3) -> Vec3 {
    Vec3 { x: -a.x as i64, y: -a.y as i64, z: -a.z as i64 }
}

/// Each component times `k / den`, rounded toward zero.
pub open spec fn vscale(a: Vec3, k: int, den: int) -> Vec3 {
    Vec3 {
        x: tdiv(a.x * k, den) as i64,
        y: tdiv(a.y * k, den) as i64,
        z: tdiv(a.z * k, den) as i64,
    }
}

/// The vector scaled to length `UNIT` (that is, to 1.0), each component rounded
/// toward zero; the zero vector stays as it is.
pub open spec fn normalized(a: Vec3) -> Vec3 {
    if norm2(a) == 0 {
        a
    } else {
        vscale(a, UNIT as int, sqrt_floor(norm2(a)))
    }
}

impl Vec3 {
    /// Every component lies in `[-m, m]`.
    pub open spec fn bounded(self, m: int) -> bool {
        within(self.x as int, m) && within(self.y as int, m) && within(self.z as int, m)
    }

    pub fn new(x: i64, y: i64, z: i64) -> (r: Vec3)
        ensures
            r == (Vec3 { x, y, z }),
    {
        Vec3 { x, y, z }
    }

    pub fn zero() -> (r: Vec3)
        ensures
            r == (Vec3 { x: 0, y: 0, z: 0 }),
    {
        Vec3 { x: 0, y: 0, z: 0 }
    }

    pub fn add(&self, o: &Vec3) -> (r: Vec3)
        requires
            self.bounded(ARITH_BOUND as int),
            o.bounded(ARITH_BOUND as int),
        ensures
            r == vadd(*self, *o),
            r.x == self.x + o.x,
            r.y == self.y + o.y,
            r.z == self.z + o.z,
    {
        Vec3 { x: self.x + o.x, y: self.y + o.y, z: self.z + o.z }
    }

    pub fn sub(&self, o: &Vec3) -> (r: Vec3)
        requires
            self.bounded(ARITH_BOUND as int),
            o.bounded(ARITH_BOUND as int),
        ensures
            r == vsub(*self, *o),
            r.x == self.x - o.x,
            r.y == self.y - o.y,
            r.z == self.z - o.z,
    {
        Vec3 { x: self.x - o.x, y: self.y - o.y, z: self.z - o.z }
    }

    pub fn neg(&self) -> (r: Vec3)
        requires
            self.bounded(ARITH_BOUND as int),
        ensures
            r == vneg(*self),
            r.x == -self.x,
            r.y == -self.y,
            r.z == -self.z,
    {
        Vec3 { x: -self.x, y: -self.y, z: -self.z }
    }

    /// The exact dot product.
    pub fn dot(&self, o: &Vec3) -> (r: i128)
        requires
            self.bounded(ARITH_BOUND as int),
            o.bounded(ARITH_BOUND as int),
        ensures
            r == dot(*self, *o),
    {
        proof {
            let m = ARITH_BOUND as int;
            lemma_abs_mul_bound(self.x as int, o.x as int, m, m);
            lemma_abs_mul_bound(self.y as int, o.y as int, m, m);
            lemma_abs_mul_bound(self.z as int, o.z as int, m, m);
        }
        (self.x as i128) * (o.x as i128) + (self.y as i128) * (o.y as i128) + (self.z as i128) * (
        o.z as i128)
    }

    /// Each component times `k / den`, rounded toward zero.
    pub fn scale(&self, k: i64, den: i64) -> (r: Vec3)
        requires
            den > 0,
            within(self.x * k, i64::MAX as int),
            within(self.y * k, i64::MAX as int),
            within(self.z * k, i64::MAX as int),
        ensures
            r == vscale(*self, k as int, den as int),
            r.x == tdiv(self.x * k, den as int),
            r.y == tdiv(self.y * k, den as int),
            r.z == tdiv(self.z * k, den as int),
    {
        let x = self.x * k / den;
        let y = self.y * k / den;
        let z = self.z * k / den;
        proof {
            lemma_tdiv_shrinks(self.x * k, den as int);
            lemma_tdiv_shrinks(self.y * k, den as int);
            lemma_tdiv_shrinks(self.z * k, den as int);
        }
        Vec3 { x, y, z }
    }

    /// The vector scaled to length 1.0 (see `normalized`).
    pub fn normalize(&self) -> (r: Vec3)
        requires
            self.bounded(NORMALIZE_BOUND as int),
        ensures
            r == normalized(*self),
            r.bounded(UNIT as int),
            norm2(*self) != 0 ==> norm2(r) != 0,
    {
        proof {
            lemma_norm2_bound(*self, NORMALIZE_BOUND as int);
        }
        let n2 = self.dot(self);
        if n2 == 0 {
            proof {
                lemma_norm2_zero(*self);
            }
            return *self;
        }
        let s = isqrt(n2 as u128) as i128;
        proof {
            lemma_sqrt_floor(n2 as int);
            lemma_component_le_root(*self);
            assert(s > 0) by (nonlinear_arith)
                requires
                    n2 > 0,
                    n2 < (s + 1) * (s + 1),
                    s >= 0,
            ;
        }
        let x = (self.x as i128) * (UNIT as i128) / s;
        let y = (self.y as i128) * (UNIT as i128) / s;
        let z = (self.z as i128) * (UNIT as i128) / s;
        proof {
            lemma_unit_quotient(self.x as int, s as int);
            lemma_unit_quotient(self.y as int, s as int);
            lemma_unit_quotient(self.z as int, s as int);
        }
        let r = Vec3 { x: x as i64, y: y as i64, z: z as i64 };
        proof {
            lemma_normalized_nonzero(*self);
        }
        r
    }
}

pub proof fn lemma_tdiv_shrinks(a: int, d: int)
    requires
        d > 0,
    ensures
        within(tdiv(a, d), if a >= 0 { a } else { -a }),
        a >= 0 ==> tdiv(a, d) >= 0,
        a <= 0 ==> tdiv(a, d) <= 0,
{
    if a >= 0 {
        assert(0 <= a / d <= a) by (nonlinear_arith)
            requires
                a >= 0,
                d > 0,
        ;
    } else {
        assert(0 <= (-a) / d <= -a) by (nonlinear_arith)
            requires
                a < 0,
                d > 0,
        ;
    }
}

pub proof fn lemma_norm2_bound(a: Vec3, m: int)
    requires
        a.bounded(m),
    ensures
        0 <= norm2(a) <= 3 * (m * m),
{
    lemma_abs_mul_bound(a.x as int, a.x as int, m, m);
    lemma_abs_mul_bound(a.y as int, a.y as int, m, m);
    lemma_abs_mul_bound(a.z as int, a.z as int, m, m);
    lemma_square_nonneg(a.x as int);
    lemma_square_nonneg(a.y as int);
    lemma_square_nonneg(a.z as int);
}

pub proof fn lemma_dot_bound(a: Vec3, b: Vec3, ma: int, mb: int)
    requires
        a.bounded(ma),
        b.bounded(mb),
    ensures
        within(dot(a, b), 3 * (ma * mb)),
{
    lemma_abs_mul_bound(a.x as int, b.x as int, ma, mb);
    lemma_abs_mul_bound(a.y as int, b.y as int, ma, mb);
    lemma_abs_mul_bound(a.z as int, b.z as int, ma, mb);
}

/// Only the zero vector has length zero.
pub proof fn lemma_norm2_zero(a: Vec3)
    requires
        norm2(a) == 0,
    ensures
        a.x == 0 && a.y == 0 && a.z == 0,
{
    lemma_square_nonneg(a.x as int);
    lemma_square_nonneg(a.y as int);
    lemma_square_nonneg(a.z as int);
    assert(a.x == 0) by (nonlinear_arith)
        requires
            a.x * a.x == 0,
    ;
    assert(a.y == 0) by (nonlinear_arith)
        requires
            a.y * a.y == 0,
    ;
    assert(a.z == 0) by (nonlinear_arith)
        requires
            a.z * a.z == 0,
    ;
}

/// No component is longer than the whole vector.
pub proof fn lemma_component_le_root(a: Vec3)
    ensures
        within(a.x as int, sqrt_floor(norm2(a))),
        within(a.y as int, sqrt_floor(norm2(a))),
        within(a.z as int, sqrt_floor(norm2(a))),
{
    lemma_square_nonneg(a.x as int);
    lemma_square_nonneg(a.y as int);
    lemma_square_nonneg(a.z as int);
    let ax = if a.x >= 0 { a.x as int } else { -a.x };
    let ay = if a.y >= 0 { a.y as int } else { -a.y };
    let az = if a.z >= 0 { a.z as int } else { -a.z };
    assert(ax * ax == a.x * a.x) by (nonlinear_arith)
        requires
            ax == a.x || ax == -a.x,
    ;
    assert(ay * ay == a.y * a.y) by (nonlinear_arith)
        requires
            ay == a.y || ay == -a.y,
    ;
    assert(az * az == a.z * a.z) by (nonlinear_arith)
        requires
            az == a.z || az == -a.z,
    ;
    lemma_sqrt_floor_ge(norm2(a), ax);
    lemma_sqrt_floor_ge(norm2(a), ay);
    lemma_sqrt_floor_ge(norm2(a), az);
}

/// `a * UNIT / s` stays within `UNIT` when `|a| <= s`.
pub proof fn lemma_unit_quotient(a: int, s: int)
    requires
        s > 0,
        within(a, s),
    ensures
        within(tdiv(a * UNIT, s), UNIT as int),
{
    let u = UNIT as int;
    if a >= 0 {
        assert(0 <= (a * u) / s <= u) by (nonlinear_arith)
            requires
                0 <= a <= s,
                s > 0,
                u > 0,
        ;
    } else {
        assert(-(a * u) == (-a) * u) by (nonlinear_arith);
        assert(0 <= ((-a) * u) / s <= u) by (nonlinear_arith)
            requires
                0 < -a <= s,
                s > 0,
                u > 0,
        ;
    }
}

/// A unit vector as a fixed-point draw gives it: components of at most 1.0 and
/// a squared length within `2 * UNIT` of `UNIT^2` (what rounding each
/// component of an exact unit vector can cause).
pub open spec fn is_unit(v: Vec3) -> bool {
    v.bounded(UNIT as int) && within(norm2(v) - UNIT * UNIT, 2 * UNIT)
}

/// A component of at most 1.0 times `b`, in fixed point, stays within `b`.
pub proof fn lemma_unit_scale(a: int, b: int)
    requires
        within(a, UNIT as int),
        0 <= b,
    ensures
        within(tdiv(a * b, UNIT as int), b),
{
    let u = UNIT as int;
    if a >= 0 {
        assert(0 <= (a * b) / u <= b) by (nonlinear_arith)
            requires
                0 <= a <= u,
                0 <= b,
                u == 4096,
        ;
    } else {
        assert(-(a * b) == (-a) * b) by (nonlinear_arith);
        assert(0 <= ((-a) * b) / u <= b) by (nonlinear_arith)
            requires
                0 < -a <= u,
                0 <= b,
                u == 4096,
        ;
    }
}

/// Normalising a non-zero vector leaves a non-zero vector.
pub proof fn lemma_normalized_nonzero(a: Vec3)
    requires
        norm2(a) != 0,
        a.bounded(NORMALIZE_BOUND as int),
    ensures
        norm2(normalized(a)) != 0,
{
    let n = norm2(a);
    let s = sqrt_floor(n);
    lemma_norm2_bound(a, NORMALIZE_BOUND as int);
    lemma_sqrt_floor(n);
    lemma_component_le_root(a);
    let u = UNIT as int;
    // The largest component is at least a third of the root, so its scaled value is not zero.
    assert(s > 0) by (nonlinear_arith)
        requires
            n > 0,
            n < (s + 1) * (s + 1),
            s >= 0,
    ;
    let r = normalized(a);
    if r.x == 0 && r.y == 0 && r.z == 0 {
        lemma_unit_quotient(a.x as int, s);
        lemma_unit_quotient(a.y as int, s);
        lemma_unit_quotient(a.z as int, s);
        lemma_small_quotient(a.x as int, s);
        lemma_small_quotient(a.y as int, s);
        lemma_small_quotient(a.z as int, s);
        // Each |component| * UNIT < s, so the squared length is below 3 s^2 / UNIT^2 < s^2.
        assert(false) by (nonlinear_arith)
            requires
                (a.x * u) * (a.x * u) < s * s,
                (a.y * u) * (a.y * u) < s * s,
                (a.z * u) * (a.z * u) < s * s,
                s * s <= a.x * a.x + a.y * a.y + a.z * a.z,
                u == 4096,
                s > 0,
        ;
    }
    lemma_square_nonneg(r.x as int);
    lemma_square_nonneg(r.y as int);
    lemma_square_nonneg(r.z as int);
    if norm2(r) == 0 {
        lemma_norm2_zero(r);
    }
}

/// A quotient `a * UNIT / s` that rounds to zero came from `|a * UNIT| < s`.
proof fn lemma_small_quotient(a: int, s: int)
    requires
        s > 0,
        tdiv(a * UNIT, s) == 0,
    ensures
        (a * UNIT) * (a * UNIT) < s * s,
{
    let v = a * UNIT;
    if v >= 0 {
        assert(v < s) by (nonlinear_arith)
            requires
                v >= 0,
                s > 0,
                v / s == 0,
        ;
        lemma_square_lt_mul(v, s);
    } else {
        assert(-v < s) by (nonlinear_arith)
            requires
                -v > 0,
                s > 0,
                (-v) / s == 0,
        ;
        lemma_square_lt_mul(-v, s);
        assert((-v) * (-v) == v * v) by (nonlinear_arith);
    }
}

proof fn lemma_square_lt_mul(v: int, s: int)
    requires
        0 <= v < s,
    ensures
        v * v < s * s,
{
    assert(v * v < s * s) by (nonlinear_arith)
        requires
            0 <= v < s,
    ;
}

} // verus!
