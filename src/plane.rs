//! Planes.
use vstd::prelude::*;

use crate::fixed::{lemma_abs_mul_bound, lemma_square_nonneg, MAX_DIST2, SCENE_BOUND, UNIT};
use crate::shape::{no_hit, GeometryError, Intersection, Shape};
use crate::vector::{
    dot, lemma_dot_bound, lemma_norm2_bound, lemma_norm2_zero, norm2, normalized, vsub, Vec3,
};

verus! {

pub struct Plane {
    point: Vec3,
    normal: Vec3,
}

/// The ray `origin + t * dir` against the plane through `point` with normal
/// `normal`, seen from either side. With `b = dir . normal` and
/// `a = normal . (point - origin)` the hit lies at `t = a / b`: no hit when the
/// ray runs parallel to the plane (`b == 0`) or when `t` is not positive (`a`
/// and `b` not of the same sign). The squared distance is `t^2 * (dir . dir)`,
/// as `a^2 * (dir . dir) / b^2` in units of `1 / UNIT^2` rounded down; a hit
/// that rounds to zero (nearer than `1 / UNIT`) or lies beyond `MAX_DIST2`
/// does not count. The normal is the plane's own, not turned toward the ray.
pub open spec fn plane_hit(point: Vec3, normal: Vec3, origin: Vec3, dir: Vec3) -> Intersection {
    let b = dot(dir, normal);
    let a = dot(normal, vsub(point, origin));
    if b == 0 || a * b <= 0 {
        no_hit()
    } else {
        let dist = (a * a * norm2(dir)) / (b * b);
        if dist <= 0 || dist > MAX_DIST2 {
            no_hit()
        } else {
            Intersection { dist: dist as i64, normal }
        }
    }
}

impl Plane {
    pub closed spec fn point(&self) -> Vec3 {
        self.point
    }

    pub closed spec fn normal(&self) -> Vec3 {
        self.normal
    }

    /// The plane through `point` whose normal points along `normal`; the normal
    /// is kept normalized. Coordinates must lie within `SCENE_BOUND`.
    pub fn new(point: Vec3, normal: Vec3) -> (r: Result<Plane, GeometryError>)
        ensures
            !(point.bounded(SCENE_BOUND as int) && normal.bounded(SCENE_BOUND as int)) ==> r
                == Err::<Plane, GeometryError>(GeometryError::OutOfRange),
            point.bounded(SCENE_BOUND as int) && normal.bounded(SCENE_BOUND as int) && norm2(
                normal,
            ) == 0 ==> r == Err::<Plane, GeometryError>(GeometryError::ZeroNormal),
            point.bounded(SCENE_BOUND as int) && normal.bounded(SCENE_BOUND as int) && norm2(
                normal,
            ) != 0 ==> r is Ok,
            r matches Ok(p) ==> p.point() == point && p.normal() == normalized(normal)
                && p.well_formed(),
    {
        if !(-SCENE_BOUND <= point.x && point.x <= SCENE_BOUND && -SCENE_BOUND <= point.y
            && point.y <= SCENE_BOUND && -SCENE_BOUND <= point.z && point.z <= SCENE_BOUND
            && -SCENE_BOUND <= normal.x && normal.x <= SCENE_BOUND && -SCENE_BOUND <= normal.y
            && normal.y <= SCENE_BOUND && -SCENE_BOUND <= normal.z && normal.z <= SCENE_BOUND) {
            return Err(GeometryError::OutOfRange);
        }
        let unit = normal.normalize();
        proof {
            if norm2(normal) == 0 {
                lemma_norm2_zero(normal);
            }
        }
        if unit.x == 0 && unit.y == 0 && unit.z == 0 {
            return Err(GeometryError::ZeroNormal);
        }
        Ok(Plane { point, normal: unit })
    }
}

impl Shape for Plane {
    open spec fn well_formed(&self) -> bool {
        self.point().bounded(SCENE_BOUND as int) && self.normal().bounded(UNIT as int)
    }

    open spec fn hit(&self, origin: Vec3, dir: Vec3) -> Intersection {
        plane_hit(self.point(), self.normal(), origin, dir)
    }

    fn ray_intersect(&self, origin: Vec3, dir: Vec3) -> (r: Intersection) {
        proof {
            lemma_dot_bound(dir, self.normal, 16384, 4096);
        }
        let b = dir.dot(&self.normal);
        if b == 0 {
            return Intersection::new_empty();
        }
        let to_point = self.point.sub(&origin);
        proof {
            lemma_dot_bound(self.normal, to_point, 4096, 17825792);
        }
        let a = self.normal.dot(&to_point);
        proof {
            lemma_abs_mul_bound(a as int, b as int, 0x40_0000_0000, 0x1000_0000);
        }
        if a * b <= 0 {
            return Intersection::new_empty();
        }
        let dd = dir.dot(&dir);
        proof {
            lemma_norm2_bound(dir, 16384);
            lemma_abs_mul_bound(a as int, a as int, 0x40_0000_0000, 0x40_0000_0000);
            lemma_square_nonneg(a as int);
            lemma_abs_mul_bound(a * a, dd as int, 0x1000_0000_0000_0000_0000, 0x4000_0000);
            lemma_abs_mul_bound(b as int, b as int, 0x1000_0000, 0x1000_0000);
            assert(b * b > 0) by (nonlinear_arith)
                requires
                    b != 0,
            ;
        }
        let dist = (a * a * dd) / (b * b);
        if dist <= 0 || dist > MAX_DIST2 as i128 {
            return Intersection::new_empty();
        }
        Intersection::new(dist as i64, self.normal)
    }
}

} // verus!
