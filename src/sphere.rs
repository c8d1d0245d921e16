//! Spheres.
use vstd::prelude::*;

use crate::fixed::{
    is_sqrt_floor, isqrt, lemma_abs_mul_bound, lemma_sqrt_floor, lemma_sqrt_floor_unique,
    lemma_square_nonneg, sqrt_floor, tdiv,
    within, MAX_DIST2, SCENE_BOUND, UNIT,
};
use crate::shape::{no_hit, ray_in_range, GeometryError, Intersection, Shape};
use crate::vector::{
    dot, lemma_dot_bound, lemma_norm2_bound, lemma_norm2_zero, lemma_tdiv_shrinks, norm2,
    normalized, vsub, Vec3,
};

verus! {

pub struct Sphere {
    center: Vec3,
    radius: i64,
    radius2: i64,
}

/// The displacement from the centre to the point `t * dir` along the ray, with
/// `t = num / dd`, each component rounded toward zero; `to_center` is the
/// vector from the ray's origin to the centre.
pub open spec fn hit_offset(to_center: Vec3, dir: Vec3, num: int, dd: int) -> Vec3 {
    Vec3 {
        x: tdiv(num * dir.x - dd * to_center.x, dd) as i64,
        y: tdiv(num * dir.y - dd * to_center.y, dd) as i64,
        z: tdiv(num * dir.z - dd * to_center.z, dd) as i64,
    }
}

/// The ray `origin + t * dir` against the sphere.
///
/// With `c` the vector to the centre, `p = dir . c` and `dd = dir . dir`, the
/// near root is `t = (p - sqrt(disc)) / dd` where
/// `disc = p^2 - dd * (c . c - radius^2)`. No hit when the centre is not ahead
/// (`p <= 0`), when the line passes at or beyond the radius (`disc <= 0`), or
/// when the origin is on or inside the sphere. The squared distance of the hit
/// is `(p - isqrt(disc))^2 / dd` (in units of `1 / UNIT^2`, rounded down); a
/// hit that rounds to zero (nearer than `1 / UNIT`) or lies beyond `MAX_DIST2`
/// does not count. The normal is
/// the hit point minus the centre, normalized.
pub open spec fn sphere_hit(center: Vec3, radius: int, origin: Vec3, dir: Vec3) -> Intersection {
    let c = vsub(center, origin);
    let p = dot(dir, c);
    let dd = norm2(dir);
    let cc = norm2(c);
    let rr = radius * radius;
    let disc = p * p - dd * (cc - rr);
    if p <= 0 || disc <= 0 || cc <= rr {
        no_hit()
    } else {
        let num = p - sqrt_floor(disc);
        let dist = (num * num) / dd;
        if dist <= 0 || dist > MAX_DIST2 {
            no_hit()
        } else {
            Intersection { dist: dist as i64, normal: normalized(hit_offset(c, dir, num, dd)) }
        }
    }
}

/// The ray's closest approach to `center` is farther than `radius`: from the
/// origin when the centre lies behind it, else from the line.
pub open spec fn passes_outside(center: Vec3, radius: int, origin: Vec3, dir: Vec3) -> bool {
    let c = vsub(center, origin);
    let p = dot(dir, c);
    let dd = norm2(dir);
    let cc = norm2(c);
    if p <= 0 {
        cc > radius * radius
    } else {
        dd * cc - p * p > dd * (radius * radius)
    }
}

impl Sphere {
    pub closed spec fn center(&self) -> Vec3 {
        self.center
    }

    pub closed spec fn radius(&self) -> int {
        self.radius as int
    }

    /// The squared radius kept beside the radius is its square.
    pub closed spec fn cached(&self) -> bool {
        self.radius2 == self.radius * self.radius
    }

    /// A sphere centred at `center` with the given radius; the radius must be
    /// positive and everything must lie within `SCENE_BOUND`.
    pub fn new(center: Vec3, radius: i64) -> (r: Result<Sphere, GeometryError>)
        ensures
            radius <= 0 ==> r == Err::<Sphere, GeometryError>(GeometryError::NonPositiveRadius),
            radius > 0 && !(center.bounded(SCENE_BOUND as int) && radius <= SCENE_BOUND) ==> r
                == Err::<Sphere, GeometryError>(GeometryError::OutOfRange),
            radius > 0 && center.bounded(SCENE_BOUND as int) && radius <= SCENE_BOUND ==> r
                is Ok,
            r matches Ok(s) ==> s.center() == center && s.radius() == radius && s.well_formed(),
    {
        if radius <= 0 {
            return Err(GeometryError::NonPositiveRadius);
        }
        if !(-SCENE_BOUND <= center.x && center.x <= SCENE_BOUND && -SCENE_BOUND <= center.y
            && center.y <= SCENE_BOUND && -SCENE_BOUND <= center.z && center.z <= SCENE_BOUND
            && radius <= SCENE_BOUND) {
            return Err(GeometryError::OutOfRange);
        }
        assert(radius * radius <= SCENE_BOUND * SCENE_BOUND) by (nonlinear_arith)
            requires
                0 < radius <= SCENE_BOUND,
        ;
        Ok(Sphere { center, radius, radius2: radius * radius })
    }
}

/// A non-zero projection needs a non-zero direction.
proof fn lemma_projection_needs_direction(dir: Vec3, c: Vec3)
    requires
        dot(dir, c) != 0,
    ensures
        norm2(dir) > 0,
{
    lemma_square_nonneg(dir.x as int);
    lemma_square_nonneg(dir.y as int);
    lemma_square_nonneg(dir.z as int);
    if norm2(dir) == 0 {
        lemma_norm2_zero(dir);
    }
}

impl Shape for Sphere {
    open spec fn well_formed(&self) -> bool {
        &&& self.center().bounded(SCENE_BOUND as int)
        &&& 0 < self.radius() <= SCENE_BOUND
        &&& self.cached()
    }

    open spec fn hit(&self, origin: Vec3, dir: Vec3) -> Intersection {
        sphere_hit(self.center(), self.radius(), origin, dir)
    }

    fn ray_intersect(&self, origin: Vec3, dir: Vec3) -> (r: Intersection) {
        let c = self.center.sub(&origin);
        proof {
            lemma_dot_bound(dir, c, 16384, 17825792);
            lemma_norm2_bound(dir, 16384);
            lemma_norm2_bound(c, 17825792);
        }
        let p = dir.dot(&c);
        if p <= 0 {
            return Intersection::new_empty();
        }
        let dd = dir.dot(&dir);
        let cc = c.dot(&c);
        let rr = self.radius2 as i128;
        proof {
            lemma_projection_needs_direction(dir, c);
            lemma_abs_mul_bound(
                self.radius as int,
                self.radius as int,
                SCENE_BOUND as int,
                SCENE_BOUND as int,
            );
            lemma_abs_mul_bound(p as int, p as int, 0x100_0000_0000, 0x100_0000_0000);
            lemma_abs_mul_bound(dd as int, cc - rr, 0x4000_0000, 0x4_0000_0000_0000);
        }
        let disc = p * p - dd * (cc - rr);
        if disc <= 0 || cc <= rr {
            return Intersection::new_empty();
        }
        let s = isqrt(disc as u128) as i128;
        proof {
            lemma_sqrt_floor(disc as int);
            lemma_root_below_projection(p as int, s as int, disc as int, dd as int, cc - rr);
        }
        let num = p - s;
        proof {
            lemma_abs_mul_bound(num as int, num as int, 0x100_0000_0000, 0x100_0000_0000);
            lemma_square_nonneg(num as int);
        }
        let dist = (num * num) / dd;
        if dist <= 0 || dist > MAX_DIST2 as i128 {
            return Intersection::new_empty();
        }
        proof {
            lemma_offset_bound(c, dir, num as int, dd as int);
        }
        let ox = (num * (dir.x as i128) - dd * (c.x as i128)) / dd;
        let oy = (num * (dir.y as i128) - dd * (c.y as i128)) / dd;
        let oz = (num * (dir.z as i128) - dd * (c.z as i128)) / dd;
        let offset = Vec3 { x: ox as i64, y: oy as i64, z: oz as i64 };
        assert(offset == hit_offset(c, dir, num as int, dd as int));
        let normal = offset.normalize();
        Intersection::new(dist as i64, normal)
    }
}

/// Outside the sphere the root of the discriminant stays below the projection.
proof fn lemma_root_below_projection(p: int, s: int, disc: int, dd: int, gap: int)
    requires
        p > 0,
        dd > 0,
        gap > 0,
        disc == p * p - dd * gap,
        0 <= s,
        s * s <= disc,
    ensures
        0 <= s < p,
{
    assert(s < p) by (nonlinear_arith)
        requires
            p > 0,
            dd > 0,
            gap > 0,
            disc == p * p - dd * gap,
            0 <= s,
            s * s <= disc,
    ;
}

/// The offset's components fit the normalisation's range.
proof fn lemma_offset_bound(c: Vec3, dir: Vec3, num: int, dd: int)
    requires
        c.bounded(17825792),
        dir.bounded(16384),
        0 < num <= 0x100_0000_0000,
        0 < dd <= 0x4000_0000,
    ensures
        hit_offset(c, dir, num, dd).bounded(0x200_0000_0000_0000),
        within(num * dir.x - dd * c.x, 0x200_0000_0000_0000),
        within(num * dir.y - dd * c.y, 0x200_0000_0000_0000),
        within(num * dir.z - dd * c.z, 0x200_0000_0000_0000),
        within(num * dir.x, 0x100_0000_0000_0000),
        within(num * dir.y, 0x100_0000_0000_0000),
        within(num * dir.z, 0x100_0000_0000_0000),
        within(dd * c.x, 0x100_0000_0000_0000),
        within(dd * c.y, 0x100_0000_0000_0000),
        within(dd * c.z, 0x100_0000_0000_0000),
{
    lemma_abs_mul_bound(num, dir.x as int, 0x100_0000_0000, 16384);
    lemma_abs_mul_bound(num, dir.y as int, 0x100_0000_0000, 16384);
    lemma_abs_mul_bound(num, dir.z as int, 0x100_0000_0000, 16384);
    lemma_abs_mul_bound(dd, c.x as int, 0x4000_0000, 17825792);
    lemma_abs_mul_bound(dd, c.y as int, 0x4000_0000, 17825792);
    lemma_abs_mul_bound(dd, c.z as int, 0x4000_0000, 17825792);
    lemma_tdiv_shrinks(num * dir.x - dd * c.x, dd);
    lemma_tdiv_shrinks(num * dir.y - dd * c.y, dd);
    lemma_tdiv_shrinks(num * dir.z - dd * c.z, dd);
}

/// A ray whose closest approach to the centre is farther than the radius
/// does not hit the sphere.
pub proof fn lemma_sphere_miss(center: Vec3, radius: int, origin: Vec3, dir: Vec3)
    requires
        passes_outside(center, radius, origin, dir),
    ensures
        !sphere_hit(center, radius, origin, dir).found(),
        sphere_hit(center, radius, origin, dir) == no_hit(),
{
    let c = vsub(center, origin);
    let dd = norm2(dir);
    let cc = norm2(c);
    let rr = radius * radius;
    assert(dd * (cc - rr) == dd * cc - dd * rr) by (nonlinear_arith);
}

} // verus!

verus! {

/// A sphere straight ahead of the ray, its centre `k` direction-lengths along
/// the ray at distance `depth = k * len` and its radius `radius < depth`, is
/// hit at squared distance `(depth - radius)^2`, whatever the direction, as
/// long as the direction's length `len` is a whole number of fixed-point units
/// and the hit lies within range.
pub proof fn lemma_sphere_ahead(center: Vec3, radius: int, origin: Vec3, dir: Vec3, k: int, len: int)
    requires
        ray_in_range(origin, dir),
        center.bounded(SCENE_BOUND as int),
        0 < len,
        norm2(dir) == len * len,
        1 <= k,
        center.x == origin.x + k * dir.x,
        center.y == origin.y + k * dir.y,
        center.z == origin.z + k * dir.z,
        0 < radius < k * len,
        (k * len - radius) * (k * len - radius) <= MAX_DIST2,
    ensures
        sphere_hit(center, radius, origin, dir).found(),
        sphere_hit(center, radius, origin, dir).dist == (k * len - radius) * (k * len - radius),
{
    let c = vsub(center, origin);
    assert(c.x == k * dir.x && c.y == k * dir.y && c.z == k * dir.z);
    let p = dot(dir, c);
    let dd = norm2(dir);
    let cc = norm2(c);
    let rr = radius * radius;
    let depth = k * len;
    assert(p == k * dd) by (nonlinear_arith)
        requires
            p == dir.x * c.x + dir.y * c.y + dir.z * c.z,
            dd == dir.x * dir.x + dir.y * dir.y + dir.z * dir.z,
            c.x == k * dir.x,
            c.y == k * dir.y,
            c.z == k * dir.z,
    ;
    assert(cc == k * k * dd) by (nonlinear_arith)
        requires
            cc == c.x * c.x + c.y * c.y + c.z * c.z,
            dd == dir.x * dir.x + dir.y * dir.y + dir.z * dir.z,
            c.x == k * dir.x,
            c.y == k * dir.y,
            c.z == k * dir.z,
    ;
    let disc = p * p - dd * (cc - rr);
    assert(p * p == dd * (k * k * dd)) by (nonlinear_arith)
        requires
            p == k * dd,
    ;
    assert(dd * (cc - rr) == dd * (k * k * dd) - dd * rr) by (nonlinear_arith)
        requires
            cc == k * k * dd,
    ;
    assert(disc == dd * rr);
    assert(dd * rr == (len * radius) * (len * radius)) by (nonlinear_arith)
        requires
            dd == len * len,
            rr == radius * radius,
    ;
    assert(p > 0 && cc > rr && disc > 0 && dd > 0) by (nonlinear_arith)
        requires
            p == k * dd,
            cc == k * k * dd,
            dd == len * len,
            rr == radius * radius,
            disc == (len * radius) * (len * radius),
            0 < len,
            1 <= k,
            0 < radius < k * len,
    ;
    lemma_square_nonneg(len * radius + 1);
    assert(is_sqrt_floor(disc, len * radius)) by (nonlinear_arith)
        requires
            disc == (len * radius) * (len * radius),
            len * radius > 0,
    ;
    lemma_sqrt_floor_unique(disc, len * radius);
    let num = p - sqrt_floor(disc);
    let g = depth - radius;
    assert(num == len * g) by (nonlinear_arith)
        requires
            num == p - len * radius,
            p == k * dd,
            dd == len * len,
            g == k * len - radius,
    ;
    assert(num * num == (g * g) * dd) by (nonlinear_arith)
        requires
            num == len * g,
            dd == len * len,
    ;
    assert((num * num) / dd == g * g) by (nonlinear_arith)
        requires
            num * num == (g * g) * dd,
            dd > 0,
    ;
    assert(g * g > 0) by (nonlinear_arith)
        requires
            g > 0,
    ;
}

} // verus!
