//! Light sources. Sampling takes the random part as an argument: a caller that
//! wants an area light sampled uniformly passes uniformly drawn unit vectors.
use vstd::prelude::*;

use crate::fixed::{lemma_abs_mul_bound, within, COEF_BOUND, ORIGIN_BOUND, SCENE_BOUND, UNIT};
use crate::vector::{is_unit, lemma_unit_scale, norm2, vadd, vscale, vsub, Vec3};

verus! {

/// Largest coordinate of a point that a light sample can pick.
pub const LIGHT_POINT_BOUND: i64 = 2097152;

pub trait Light {
    spec fn well_formed(&self) -> bool;

    /// The point of the light picked by the unit vector `radial`.
    spec fn sample_point(&self, radial: Vec3) -> Vec3;

    /// The centre of the light's extent.
    spec fn source_center(&self) -> Vec3;

    /// The radius of the light's extent: zero for a point.
    spec fn source_radius(&self) -> int;

    /// The light's intensity (fixed point).
    spec fn power(&self) -> int;

    /// The vector from `from` to the point of the light that `radial` picks.
    /// That point lies on the light's surface up to rounding: its squared
    /// distance from the centre is `radius^2` within `2 * radius^2 / UNIT + 6 * radius`.
    fn sample_ray(&self, from: Vec3, radial: Vec3) -> (r: Vec3)
        requires
            self.well_formed(),
            from.bounded(ORIGIN_BOUND as int),
            is_unit(radial),
        ensures
            self.sample_point(radial).bounded(LIGHT_POINT_BOUND as int),
            r == vsub(self.sample_point(radial), from),
            within(
                UNIT * (norm2(vsub(self.sample_point(radial), self.source_center()))
                    - self.source_radius() * self.source_radius()),
                2 * (self.source_radius() * self.source_radius()) + 6 * self.source_radius()
                    * UNIT,
            ),
    ;

    fn intensity(&self) -> (r: i64)
        requires
            self.well_formed(),
        ensures
            r == self.power(),
            within(r as int, COEF_BOUND as int),
    ;
}

/// A light at a single point; sampling ignores the random direction.
pub struct PointLight {
    position: Vec3,
    intensity: i64,
}

impl PointLight {
    pub closed spec fn position(&self) -> Vec3 {
        self.position
    }

    pub closed spec fn power_of(&self) -> int {
        self.intensity as int
    }

    pub fn new(position: Vec3, intensity: i64) -> (l: PointLight)
        requires
            position.bounded(SCENE_BOUND as int),
            within(intensity as int, COEF_BOUND as int),
        ensures
            l.position() == position,
            l.power() == intensity,
            l.well_formed(),
    {
        PointLight { position, intensity }
    }
}

impl Light for PointLight {
    open spec fn well_formed(&self) -> bool {
        self.position().bounded(SCENE_BOUND as int) && within(self.power_of(), COEF_BOUND as int)
    }

    open spec fn sample_point(&self, radial: Vec3) -> Vec3 {
        self.position()
    }

    open spec fn source_center(&self) -> Vec3 {
        self.position()
    }

    open spec fn source_radius(&self) -> int {
        0
    }

    open spec fn power(&self) -> int {
        self.power_of()
    }

    fn sample_ray(&self, from: Vec3, radial: Vec3) -> (r: Vec3) {
        self.position.sub(&from)
    }

    fn intensity(&self) -> (r: i64) {
        self.intensity
    }
}

/// A spherical area light; a sample picks the point of its surface in the
/// direction `radial` from its centre.
pub struct SphereLight {
    center: Vec3,
    radius: i64,
    intensity: i64,
}

impl SphereLight {
    pub closed spec fn center(&self) -> Vec3 {
        self.center
    }

    pub closed spec fn radius(&self) -> int {
        self.radius as int
    }

    pub closed spec fn power_of(&self) -> int {
        self.intensity as int
    }

    pub fn new(center: Vec3, radius: i64, intensity: i64) -> (l: SphereLight)
        requires
            center.bounded(SCENE_BOUND as int),
            0 <= radius <= SCENE_BOUND,
            within(intensity as int, COEF_BOUND as int),
        ensures
            l.center() == center,
            l.radius() == radius,
            l.power() == intensity,
            l.well_formed(),
    {
        SphereLight { center, radius, intensity }
    }
}

impl Light for SphereLight {
    open spec fn well_formed(&self) -> bool {
        &&& self.center().bounded(SCENE_BOUND as int)
        &&& 0 <= self.radius() <= SCENE_BOUND
        &&& within(self.power_of(), COEF_BOUND as int)
    }

    /// `center + radial * radius`, the scaling rounded toward zero.
    open spec fn sample_point(&self, radial: Vec3) -> Vec3 {
        vadd(self.center(), vscale(radial, self.radius(), UNIT as int))
    }

    open spec fn source_center(&self) -> Vec3 {
        self.center()
    }

    open spec fn source_radius(&self) -> int {
        self.radius()
    }

    open spec fn power(&self) -> int {
        self.power_of()
    }

    fn sample_ray(&self, from: Vec3, radial: Vec3) -> (r: Vec3) {
        proof {
            let u = UNIT as int;
            let s = SCENE_BOUND as int;
            lemma_abs_mul_bound(radial.x as int, self.radius as int, u, s);
            lemma_abs_mul_bound(radial.y as int, self.radius as int, u, s);
            lemma_abs_mul_bound(radial.z as int, self.radius as int, u, s);
        }
        let offset = radial.scale(self.radius, UNIT);
        proof {
            lemma_unit_scale(radial.x as int, self.radius as int);
            lemma_unit_scale(radial.y as int, self.radius as int);
            lemma_unit_scale(radial.z as int, self.radius as int);
        }
        proof {
            lemma_scaled_unit_length(radial, self.radius as int);
        }
        let point = self.center.add(&offset);
        assert(vsub(point, self.center) == offset);
        point.sub(&from)
    }

    fn intensity(&self) -> (r: i64) {
        self.intensity
    }
}

/// Rounding `r * radius / UNIT` toward zero moves its square, times `UNIT^2`,
/// down by less than `2 * radius * UNIT^2` and never up.
proof fn lemma_round_square(r: int, radius: int)
    requires
        within(r, UNIT as int),
        0 <= radius,
    ensures
        ({
            let q = crate::fixed::tdiv(r * radius, UNIT as int);
            let a = r * radius;
            (UNIT * q) * (UNIT * q) <= a * a && a * a - (UNIT * q) * (UNIT * q) <= 2 * radius * (
            UNIT * UNIT)
        }),
{
    let u = UNIT as int;
    let a = r * radius;
    let q = crate::fixed::tdiv(a, u);
    assert(within(a, radius * u)) by (nonlinear_arith)
        requires
            -u <= r <= u,
            0 <= radius,
            a == r * radius,
    ;
    let m = if a >= 0 { a } else { -a };
    let mq = m / u;
    assert(0 <= m - u * mq < u && mq >= 0) by (nonlinear_arith)
        requires
            m >= 0,
            u > 0,
            mq == m / u,
    ;
    assert(u * q == u * mq || u * q == -(u * mq));
    assert((u * q) * (u * q) == (u * mq) * (u * mq)) by (nonlinear_arith)
        requires
            u * q == u * mq || u * q == -(u * mq),
    ;
    assert(a * a == m * m) by (nonlinear_arith)
        requires
            m == a || m == -a,
    ;
    assert((u * mq) * (u * mq) <= m * m && m * m - (u * mq) * (u * mq) <= 2 * radius * (u * u))
        by (nonlinear_arith)
        requires
            0 <= u * mq <= m,
            m - u * mq < u,
            m <= radius * u,
            u > 0,
    ;
}

/// A fixed-point unit vector scaled to `radius` has squared length `radius^2`
/// up to rounding.
proof fn lemma_scaled_unit_length(radial: Vec3, radius: int)
    requires
        is_unit(radial),
        0 <= radius <= SCENE_BOUND,
    ensures
        within(
            UNIT * (norm2(vscale(radial, radius, UNIT as int)) - radius * radius),
            2 * (radius * radius) + 6 * radius * UNIT,
        ),
{
    let u = UNIT as int;
    let o = vscale(radial, radius, u);
    lemma_unit_scale(radial.x as int, radius);
    lemma_unit_scale(radial.y as int, radius);
    lemma_unit_scale(radial.z as int, radius);
    lemma_round_square(radial.x as int, radius);
    lemma_round_square(radial.y as int, radius);
    lemma_round_square(radial.z as int, radius);
    let n = norm2(radial);
    let ax = radial.x * radius;
    let ay = radial.y * radius;
    let az = radial.z * radius;
    let rr = radius * radius;
    let (px, py, pz) = (radial.x * radial.x, radial.y * radial.y, radial.z * radial.z);
    assert(ax * ax == px * rr && ay * ay == py * rr && az * az == pz * rr) by (nonlinear_arith)
        requires
            ax == radial.x * radius,
            ay == radial.y * radius,
            az == radial.z * radius,
            px == radial.x * radial.x,
            py == radial.y * radial.y,
            pz == radial.z * radial.z,
            rr == radius * radius,
    ;
    assert(px * rr + py * rr + pz * rr == n * rr) by (nonlinear_arith)
        requires
            n == px + py + pz,
    ;
    let (ox, oy, oz) = (o.x as int, o.y as int, o.z as int);
    assert((u * ox) * (u * ox) == (u * u) * (ox * ox) && (u * oy) * (u * oy) == (u * u) * (oy
        * oy) && (u * oz) * (u * oz) == (u * u) * (oz * oz)) by (nonlinear_arith);
    let s = (u * o.x) * (u * o.x) + (u * o.y) * (u * o.y) + (u * o.z) * (u * o.z);
    assert((u * u) * (ox * ox) + (u * u) * (oy * oy) + (u * u) * (oz * oz) == (u * u) * norm2(o))
        by (nonlinear_arith)
        requires
            norm2(o) == ox * ox + oy * oy + oz * oz,
    ;
    let d = n - u * u;
    assert(d * rr == n * rr - (u * u) * rr) by (nonlinear_arith)
        requires
            d == n - u * u,
    ;
    assert(within(d * rr, 2 * u * rr)) by (nonlinear_arith)
        requires
            -2 * u <= d <= 2 * u,
            rr >= 0,
    ;
    assert(within((u * u) * (norm2(o) - rr), u * (2 * rr + 6 * radius * u))) by (nonlinear_arith)
        requires
            s == (u * u) * norm2(o),
            s <= n * rr,
            n * rr - s <= 6 * radius * (u * u),
            -(2 * u * rr) <= n * rr - (u * u) * rr,
            n * rr - (u * u) * rr <= 2 * u * rr,
            radius >= 0,
            u > 0,
    ;
    assert(within(u * (norm2(o) - rr), 2 * rr + 6 * radius * u)) by (nonlinear_arith)
        requires
            within((u * u) * (norm2(o) - rr), u * (2 * rr + 6 * radius * u)),
            u > 0,
    ;
}

} // verus!
