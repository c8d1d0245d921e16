//! What a ray/primitive test returns, how two results are ordered, and the
//! contract every primitive meets.
use vstd::prelude::*;

use crate::fixed::{DIR_BOUND, MAX_DIST2, ORIGIN_BOUND, UNIT};
use crate::vector::Vec3;

verus! {

/// The result of a ray test. `dist` is the squared distance from the ray's
/// origin to the hit, in units of `1 / (UNIT * UNIT)` (so `UNIT * UNIT` is
/// 1.0 squared); a non-positive `dist` means "no hit". A hit closer than the
/// fixed-point resolution `1 / UNIT` rounds to zero and does not count.
#[derive(Clone, Copy, Debug)]
pub struct Intersection {
    pub dist: i64,
    pub normal: Vec3,
}

/// Why a primitive could not be built.
#[derive(Clone, Copy, Debug, PartialEq, Eq, Structural)]
pub enum GeometryError {
    /// A sphere's radius was zero or negative.
    NonPositiveRadius,
    /// A plane's normal was the zero vector.
    ZeroNormal,
    /// A coordinate or radius lay outside `[-SCENE_BOUND, SCENE_BOUND]`.
    OutOfRange,
}

/// The value that stands for "no hit".
pub open spec fn no_hit() -> Intersection {
    Intersection { dist: -1i64, normal: Vec3 { x: UNIT as i64, y: 0, z: 0 } }
}

/// A ray that the primitives can test without overflow.
pub open spec fn ray_in_range(origin: Vec3, dir: Vec3) -> bool {
    origin.bounded(ORIGIN_BOUND as int) && dir.bounded(DIR_BOUND as int)
}

impl Intersection {
    pub open spec fn found(self) -> bool {
        self.dist > 0
    }

    /// What a ray test can return: the sentinel, or a hit within range whose
    /// normal has fixed-point components of at most 1.0.
    pub open spec fn valid(self) -> bool {
        self == no_hit() || (0 < self.dist <= MAX_DIST2 && self.normal.bounded(UNIT as int))
    }

    /// The order of results: hits by distance, every hit before "no hit", and
    /// two "no hit" values unordered.
    pub open spec fn order(self, other: Intersection) -> Option<std::cmp::Ordering> {
        if self.found() {
            if other.found() {
                if self.dist < other.dist {
                    Some(std::cmp::Ordering::Less)
                } else if self.dist == other.dist {
                    Some(std::cmp::Ordering::Equal)
                } else {
                    Some(std::cmp::Ordering::Greater)
                }
            } else {
                Some(std::cmp::Ordering::Less)
            }
        } else if other.found() {
            Some(std::cmp::Ordering::Greater)
        } else {
            None
        }
    }

    /// `self` is nearer than `other`.
    pub open spec fn nearer(self, other: Intersection) -> bool {
        self.order(other) == Some(std::cmp::Ordering::Less)
    }

    /// A hit at squared distance `dist` with the given (unit) normal.
    pub fn new(dist: i64, normal: Vec3) -> (r: Intersection)
        ensures
            r.dist == dist,
            r.normal == normal,
    {
        Intersection { dist, normal }
    }

    pub fn new_empty() -> (r: Intersection)
        ensures
            r == no_hit(),
    {
        Intersection { dist: -1, normal: Vec3 { x: UNIT, y: 0, z: 0 } }
    }

    pub fn is_hit(&self) -> (r: bool)
        ensures
            r == self.found(),
    {
        self.dist > 0
    }
}

impl PartialEq for Intersection {
    fn eq(&self, other: &Intersection) -> (r: bool) {
        self.dist == other.dist && self.dist > 0
    }
}

impl vstd::std_specs::cmp::PartialEqSpecImpl for Intersection {
    open spec fn obeys_eq_spec() -> bool {
        true
    }

    open spec fn eq_spec(&self, other: &Intersection) -> bool {
        self.dist == other.dist && self.dist > 0
    }
}

impl PartialOrd for Intersection {
    fn partial_cmp(&self, other: &Intersection) -> (r: Option<std::cmp::Ordering>) {
        if self.is_hit() {
            if other.is_hit() {
                if self.dist < other.dist {
                    Some(std::cmp::Ordering::Less)
                } else if self.dist == other.dist {
                    Some(std::cmp::Ordering::Equal)
                } else {
                    Some(std::cmp::Ordering::Greater)
                }
            } else {
                Some(std::cmp::Ordering::Less)
            }
        } else {
            if other.is_hit() {
                Some(std::cmp::Ordering::Greater)
            } else {
                None
            }
        }
    }
}

impl vstd::std_specs::cmp::PartialOrdSpecImpl for Intersection {
    open spec fn obeys_partial_cmp_spec() -> bool {
        true
    }

    open spec fn partial_cmp_spec(&self, other: &Intersection) -> Option<std::cmp::Ordering> {
        self.order(*other)
    }
}

/// Of two hits the nearer is less; a hit is less than "no hit" whatever its
/// distance, and "no hit" is never less than anything.
pub proof fn lemma_intersection_order(a: Intersection, b: Intersection)
    ensures
        a.found() && b.found() ==> (a.nearer(b) <==> a.dist < b.dist),
        a.found() && !b.found() ==> a.nearer(b) && !b.nearer(a),
        !a.found() ==> !a.nearer(b),
        a.nearer(b) ==> !b.nearer(a),
{
}

/// A primitive that a ray can be tested against.
pub trait Shape {
    /// The primitive's own invariant.
    spec fn well_formed(&self) -> bool;

    /// What testing the ray `origin + t * dir` against the primitive returns.
    spec fn hit(&self, origin: Vec3, dir: Vec3) -> Intersection;

    /// The nearest hit of the ray, or "no hit".
    fn ray_intersect(&self, origin: Vec3, dir: Vec3) -> (r: Intersection)
        requires
            self.well_formed(),
            ray_in_range(origin, dir),
        ensures
            r == self.hit(origin, dir),
            r.valid(),
    ;
}

} // verus!
