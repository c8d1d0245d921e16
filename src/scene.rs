//! Scenes: the nearest-hit query over all primitives, and shading.
use vstd::prelude::*;

use crate::fixed::{
    isqrt, lemma_abs_mul_bound, lemma_sqrt_floor, sqrt_floor, tdiv, within, COEF_BOUND,
    DIR_BOUND, ORIGIN_BOUND, SCENE_BOUND, UNIT,
};
use crate::light::{Light, PointLight, SphereLight};
use crate::material::{Color, Material};
use crate::plane::Plane;
use crate::shape::{no_hit, ray_in_range, Intersection, Shape};
use crate::sphere::Sphere;
use crate::vector::{
    dot, is_unit, lemma_dot_bound, lemma_norm2_bound, lemma_tdiv_shrinks, norm2, normalized, vadd, vneg,
    vscale, vsub, Vec3,
};

verus! {

/// How far (fixed point, about 0.001) a shadow ray starts off the surface
/// along the normal, so that the surface does not shadow itself.
pub const SHADOW_BIAS: i64 = 4;

/// Largest coordinate of a shaded point.
pub const HIT_POINT_BOUND: i64 = 8388608;

/// Largest illumination (fixed point) that one light sample can give.
pub const SAMPLE_BOUND: i64 = 9007199254740992;

pub struct Scene {
    spheres: Vec<(usize, Sphere)>,
    planes: Vec<(usize, Plane)>,
    materials: Vec<Material>,
    point_lights: Vec<PointLight>,
    sphere_lights: Vec<SphereLight>,
    sphere_light_samples: usize,
}

/// The nearer of the best so far and a new result, keeping the best so far on a tie.
pub open spec fn closer(best: (Intersection, usize), h: Intersection, id: usize) -> (
    Intersection,
    usize,
) {
    if h.nearer(best.0) {
        (h, id)
    } else {
        best
    }
}

/// The nearest result of testing the ray against each entry in turn, starting
/// from `start`.
pub open spec fn scan<S: Shape>(
    shapes: Seq<(usize, S)>,
    start: (Intersection, usize),
    origin: Vec3,
    dir: Vec3,
) -> (Intersection, usize)
    decreases shapes.len(),
{
    if shapes.len() == 0 {
        start
    } else {
        closer(
            scan(shapes.drop_last(), start, origin, dir),
            shapes.last().1.hit(origin, dir),
            shapes.last().0,
        )
    }
}

/// `x^k` in fixed point, each product rounded down.
pub open spec fn pow_fixed(x: int, k: nat) -> int
    decreases k,
{
    if k == 0 {
        UNIT as int
    } else {
        pow_fixed(x, (k - 1) as nat) * x / (UNIT as int)
    }
}

/// `x` clamped to `0..=UNIT`.
pub open spec fn clamp_unit(x: int) -> int {
    if x < 0 {
        0
    } else if x > UNIT {
        UNIT as int
    } else {
        x
    }
}

pub open spec fn min(a: int, b: int) -> int {
    if a <= b {
        a
    } else {
        b
    }
}

/// Where a shadow ray from `point` starts.
pub open spec fn shadow_origin(point: Vec3, normal: Vec3) -> Vec3 {
    vadd(point, vscale(normal, SHADOW_BIAS as int, UNIT as int))
}

/// The direction `light_dir` mirrored about `normal`, normalized.
pub open spec fn reflected(normal: Vec3, light_dir: Vec3) -> Vec3 {
    let k = tdiv(2 * dot(light_dir, normal), UNIT as int);
    normalized(vsub(vscale(normal, k, UNIT as int), light_dir))
}

/// The Phong factor `diffusion * max(0, n.l) + reflection * max(0, r.(-v))^shininess`
/// (fixed point), the cosines capped at 1.0. A light behind the surface gives
/// no diffuse part but may still give a highlight.
pub open spec fn phong(m: Material, normal: Vec3, light_dir: Vec3, view: Vec3) -> int {
    let diffuse = tdiv(dot(normal, light_dir), UNIT as int);
    let cos = tdiv(dot(reflected(normal, light_dir), vneg(view)), UNIT as int);
    let specular = if cos > 0 {
        pow_fixed(min(cos, UNIT as int), m.shininess as nat)
    } else {
        0
    };
    (m.diffusion * clamp_unit(diffuse) + m.reflection * specular) / (UNIT as int)
}

/// A channel of the base colour `c` lit by `illumination`, clamped to `0..=UNIT`.
pub open spec fn lit_channel(c: int, illumination: int) -> int {
    let v = tdiv(c * illumination, UNIT as int);
    if v < 0 {
        0
    } else if v > UNIT {
        UNIT as int
    } else {
        v
    }
}


/// A scan returns its start or the result of one of the entries (then a hit);
/// it is never farther than the start or than any entry's hit.
pub proof fn lemma_scan<S: Shape>(
    shapes: Seq<(usize, S)>,
    start: (Intersection, usize),
    origin: Vec3,
    dir: Vec3,
)
    ensures
        scan(shapes, start, origin, dir) == start || (scan(shapes, start, origin, dir).0.found()
            && exists|i: int|
            0 <= i < shapes.len() && scan(shapes, start, origin, dir) == (
                #[trigger] shapes[i].1.hit(origin, dir),
                shapes[i].0,
            )),
        start.0.found() ==> scan(shapes, start, origin, dir).0.found() && scan(
            shapes,
            start,
            origin,
            dir,
        ).0.dist <= start.0.dist,
        forall|i: int|
            0 <= i < shapes.len() && (#[trigger] shapes[i].1.hit(origin, dir)).found() ==> scan(
                shapes,
                start,
                origin,
                dir,
            ).0.found() && scan(shapes, start, origin, dir).0.dist <= shapes[i].1.hit(
                origin,
                dir,
            ).dist,
    decreases shapes.len(),
{
    if shapes.len() > 0 {
        let rest = shapes.drop_last();
        lemma_scan(rest, start, origin, dir);
        let prev = scan(rest, start, origin, dir);
        let r = scan(shapes, start, origin, dir);
        let last = shapes.len() - 1;
        assert forall|i: int|
            0 <= i < shapes.len() && (#[trigger] shapes[i].1.hit(origin, dir)).found()
            implies r.0.found()
            && r.0.dist <= shapes[i].1.hit(origin, dir).dist by {
            if i < last {
                assert(rest[i] == shapes[i]);
            }
        }
        if r != start && r == prev {
            let i = choose|i: int|
                0 <= i < rest.len() && prev == (#[trigger] rest[i].1.hit(origin, dir), rest[i].0);
            assert(rest[i] == shapes[i]);
        }
        if r != prev {
            assert(r == (shapes[last].1.hit(origin, dir), shapes[last].0));
        }
    }
}

/// `x^k` in fixed point for `0 <= x <= 1.0`, each product rounded down.
fn fixed_pow(x: i64, k: u32) -> (r: i64)
    requires
        0 <= x <= UNIT,
    ensures
        r == pow_fixed(x as int, k as nat),
        0 <= r <= UNIT,
{
    let mut acc: i64 = UNIT;
    let mut i: u32 = 0;
    while i < k
        invariant
            0 <= x <= UNIT,
            i <= k,
            acc == pow_fixed(x as int, i as nat),
            0 <= acc <= UNIT,
        decreases k - i,
    {
        assert(0 <= acc * x <= UNIT * UNIT && (acc * x) / (UNIT as int) <= UNIT) by (nonlinear_arith)
            requires
                0 <= x <= UNIT,
                0 <= acc <= UNIT,
        ;
        acc = acc * x / UNIT;
        i += 1;
    }
    acc
}

/// A channel of the base colour lit by `illumination` (see `lit_channel`).
fn light_channel(c: i64, illumination: i128) -> (r: i64)
    requires
        0 <= c <= UNIT,
        within(illumination as int, 0x100_0000_0000_0000_0000_0000_0000_0000),
    ensures
        r == lit_channel(c as int, illumination as int),
        0 <= r <= UNIT,
{
    let ghost u = UNIT as int;
    if illumination <= 0 {
        assert(c * illumination <= 0) by (nonlinear_arith)
            requires
                0 <= c,
                illumination <= 0,
        ;
        proof {
            lemma_tdiv_shrinks(c * illumination, u);
        }
        return 0;
    }
    if illumination >= (UNIT as i128) * (UNIT as i128) {
        if c == 0 {
            return 0;
        }
        assert((c * illumination) / u >= u) by (nonlinear_arith)
            requires
                1 <= c,
                illumination >= u * u,
                u == 4096,
        ;
        return UNIT;
    }
    assert(0 <= c * illumination <= u * (u * u)) by (nonlinear_arith)
        requires
            0 <= c <= u,
            0 < illumination < u * u,
    ;
    let v = (c as i128) * illumination / (UNIT as i128);
    if v > UNIT as i128 {
        UNIT
    } else {
        v as i64
    }
}

/// A sum of fewer than `2^65` sample terms fits the accumulator.
proof fn lemma_sum_fits(i: int)
    requires
        0 <= i <= 2 * (usize::MAX as int),
    ensures
        (i + 1) * SAMPLE_BOUND <= 0x100_0000_0000_0000_0000_0000_0000_0000,
{
    assert((i + 1) * SAMPLE_BOUND <= 0x100_0000_0000_0000_0000_0000_0000_0000) by (nonlinear_arith)
        requires
            0 <= i <= 2 * (usize::MAX as int),
            usize::MAX <= 0xffff_ffff_ffff_ffff,
    ;
}

/// Adding a term within `b` to a sum of `i` such terms.
proof fn lemma_sum_step(acc: int, term: int, i: int, b: int)
    requires
        within(acc, i * b),
        within(term, b),
        0 <= i,
        0 <= b,
    ensures
        within(acc + term, (i + 1) * b),
{
    assert((i + 1) * b == i * b + b) by (nonlinear_arith);
}

/// The mean of `n` terms within `b` is within `b`.
proof fn lemma_mean_bound(acc: int, n: int, b: int)
    requires
        within(acc, n * b),
        n >= 1,
        0 <= b,
    ensures
        within(tdiv(acc, n), b),
{
    if acc >= 0 {
        assert(acc / n <= b) by (nonlinear_arith)
            requires
                0 <= acc <= n * b,
                n >= 1,
        ;
        lemma_tdiv_shrinks(acc, n);
    } else {
        assert((-acc) / n <= b) by (nonlinear_arith)
            requires
                0 < -acc <= n * b,
                n >= 1,
        ;
        lemma_tdiv_shrinks(acc, n);
    }
}

/// A scene that keeps all of a well-formed scene's parts and adds only
/// well-formed primitives (with ids of its materials), materials and lights is
/// well formed.
proof fn lemma_extends_well_formed(before: &Scene, after: &Scene)
    requires
        before.well_formed(),
        after.samples() >= 1,
        before.spheres().is_prefix_of(after.spheres()),
        before.planes().is_prefix_of(after.planes()),
        before.materials().is_prefix_of(after.materials()),
        before.point_lights().is_prefix_of(after.point_lights()),
        before.sphere_lights().is_prefix_of(after.sphere_lights()),
        forall|i: int|
            before.spheres().len() <= i < after.spheres().len()
                ==> (#[trigger] after.spheres()[i]).1.well_formed()
                && after.spheres()[i].0 < after.materials().len(),
        forall|i: int|
            before.planes().len() <= i < after.planes().len()
                ==> (#[trigger] after.planes()[i]).1.well_formed()
                && after.planes()[i].0 < after.materials().len(),
        forall|i: int|
            before.materials().len() <= i < after.materials().len()
                ==> (#[trigger] after.materials()[i]).well_formed(),
        forall|i: int|
            before.point_lights().len() <= i < after.point_lights().len()
                ==> (#[trigger] after.point_lights()[i]).well_formed(),
        forall|i: int|
            before.sphere_lights().len() <= i < after.sphere_lights().len()
                ==> (#[trigger] after.sphere_lights()[i]).well_formed(),
    ensures
        after.well_formed(),
{
    assert forall|i: int| 0 <= i < after.spheres().len()
        implies #[trigger] after.spheres()[i].1.well_formed()
        && after.spheres()[i].0 < after.materials().len() by {
        if i < before.spheres().len() {
            assert(after.spheres()[i] == before.spheres()[i]);
            assert(before.spheres()[i].1.well_formed());
        }
    }
    assert forall|i: int| 0 <= i < after.planes().len()
        implies #[trigger] after.planes()[i].1.well_formed()
        && after.planes()[i].0 < after.materials().len() by {
        if i < before.planes().len() {
            assert(after.planes()[i] == before.planes()[i]);
            assert(before.planes()[i].1.well_formed());
        }
    }
    assert forall|i: int| 0 <= i < after.materials().len()
        implies #[trigger] after.materials()[i].well_formed() by {
        if i < before.materials().len() {
            assert(after.materials()[i] == before.materials()[i]);
        }
    }
    assert forall|i: int| 0 <= i < after.point_lights().len()
        implies #[trigger] after.point_lights()[i].well_formed() by {
        if i < before.point_lights().len() {
            assert(after.point_lights()[i] == before.point_lights()[i]);
        }
    }
    assert forall|i: int| 0 <= i < after.sphere_lights().len()
        implies #[trigger] after.sphere_lights()[i].well_formed() by {
        if i < before.sphere_lights().len() {
            assert(after.sphere_lights()[i] == before.sphere_lights()[i]);
        }
    }
}

impl Scene {
    pub closed spec fn spheres(&self) -> Seq<(usize, Sphere)> {
        self.spheres@
    }

    pub closed spec fn planes(&self) -> Seq<(usize, Plane)> {
        self.planes@
    }

    pub closed spec fn materials(&self) -> Seq<Material> {
        self.materials@
    }

    pub closed spec fn point_lights(&self) -> Seq<PointLight> {
        self.point_lights@
    }

    pub closed spec fn sphere_lights(&self) -> Seq<SphereLight> {
        self.sphere_lights@
    }

    /// How many samples each sphere light gets per shaded point.
    pub closed spec fn samples(&self) -> nat {
        self.sphere_light_samples as nat
    }

    /// Every primitive and light is well formed, and every material id names a
    /// material of the scene.
    pub open spec fn well_formed(&self) -> bool {
        &&& forall|i: int|
            0 <= i < self.spheres().len() ==> #[trigger] self.spheres()[i].1.well_formed()
                && self.spheres()[i].0 < self.materials().len()
        &&& forall|i: int|
            0 <= i < self.planes().len() ==> #[trigger] self.planes()[i].1.well_formed()
                && self.planes()[i].0 < self.materials().len()
        &&& forall|i: int|
            0 <= i < self.materials().len() ==> #[trigger] self.materials()[i].well_formed()
        &&& forall|i: int|
            0 <= i < self.point_lights().len() ==> #[trigger] self.point_lights()[i].well_formed()
        &&& forall|i: int|
            0 <= i < self.sphere_lights().len() ==> #[trigger] self.sphere_lights()[i].well_formed()
        &&& self.samples() >= 1
    }

    /// The nearest hit among all spheres, then all planes, with its material id;
    /// `(no_hit(), 0)` when nothing is hit.
    pub open spec fn nearest_hit(&self, origin: Vec3, dir: Vec3) -> (Intersection, usize) {
        scan(self.planes(), scan(self.spheres(), (no_hit(), 0usize), origin, dir), origin, dir)
    }

    /// The illumination that a light sample at `to_light` from `point`, of the
    /// given intensity, gives there: zero when the sample sits on the point,
    /// or when a shadow ray toward it hits something nearer than the sample;
    /// else the intensity over the squared distance times the Phong factor.
    pub open spec fn sample_illumination(
        &self,
        point: Vec3,
        normal: Vec3,
        view: Vec3,
        m: Material,
        to_light: Vec3,
        intensity: int,
    ) -> int {
        let len2 = norm2(to_light);
        let light_dir = normalized(to_light);
        let blocker = self.nearest_hit(shadow_origin(point, normal), light_dir).0;
        if len2 == 0 {
            0
        } else if blocker.found() && blocker.dist < len2 {
            0
        } else {
            tdiv(intensity * phong(m, normal, light_dir, view) * UNIT, len2)
        }
    }

    /// The sum over the given point lights.
    pub open spec fn point_light_sum(
        &self,
        lights: Seq<PointLight>,
        point: Vec3,
        normal: Vec3,
        view: Vec3,
        m: Material,
    ) -> int
        decreases lights.len(),
    {
        if lights.len() == 0 {
            0
        } else {
            let light = lights.last();
            self.point_light_sum(lights.drop_last(), point, normal, view, m)
                + self.sample_illumination(
                point,
                normal,
                view,
                m,
                vsub(light.sample_point(Vec3 { x: UNIT as i64, y: 0, z: 0 }), point),
                light.power(),
            )
        }
    }

    /// The sum over one sphere light's samples, one for each of `radials`.
    pub open spec fn samples_sum(
        &self,
        light: SphereLight,
        radials: Seq<Vec3>,
        point: Vec3,
        normal: Vec3,
        view: Vec3,
        m: Material,
    ) -> int
        decreases radials.len(),
    {
        if radials.len() == 0 {
            0
        } else {
            self.samples_sum(light, radials.drop_last(), point, normal, view, m)
                + self.sample_illumination(
                point,
                normal,
                view,
                m,
                vsub(light.sample_point(radials.last()), point),
                light.power(),
            )
        }
    }

    /// The sum over the given sphere lights of each one's mean over its
    /// samples; light `j` takes `radials[j * n .. j * n + n]` with
    /// `n = self.samples()`.
    pub open spec fn sphere_light_sum(
        &self,
        lights: Seq<SphereLight>,
        radials: Seq<Vec3>,
        point: Vec3,
        normal: Vec3,
        view: Vec3,
        m: Material,
    ) -> int
        decreases lights.len(),
    {
        if lights.len() == 0 {
            0
        } else {
            let j = lights.len() - 1;
            let n = self.samples() as int;
            self.sphere_light_sum(lights.drop_last(), radials, point, normal, view, m) + tdiv(
                self.samples_sum(
                    lights.last(),
                    radials.subrange(j * n, j * n + n),
                    point,
                    normal,
                    view,
                    m,
                ),
                n,
            )
        }
    }

    /// All light that reaches `point`.
    pub open spec fn illumination(
        &self,
        radials: Seq<Vec3>,
        point: Vec3,
        normal: Vec3,
        view: Vec3,
        m: Material,
    ) -> int {
        self.point_light_sum(self.point_lights(), point, normal, view, m) + self.sphere_light_sum(
            self.sphere_lights(),
            radials,
            point,
            normal,
            view,
            m,
        )
    }

    /// The colour seen along the ray: black when nothing is hit; else the hit
    /// material's colour lit by all the lights at the hit point
    /// `origin + normalize(dir) * sqrt(dist)`.
    pub open spec fn color_of(&self, origin: Vec3, dir: Vec3, radials: Seq<Vec3>) -> Color {
        let (h, id) = self.nearest_hit(origin, dir);
        if !h.found() {
            Color { r: 0, g: 0, b: 0 }
        } else {
            let view = normalized(dir);
            let lin = sqrt_floor(h.dist as int);
            let point = vadd(origin, vscale(view, lin, UNIT as int));
            let m = self.materials()[id as int];
            let light = self.illumination(radials, point, h.normal, view, m);
            Color {
                r: lit_channel(m.color.r as int, light) as i64,
                g: lit_channel(m.color.g as int, light) as i64,
                b: lit_channel(m.color.b as int, light) as i64,
            }
        }
    }

    /// An empty scene; sphere lights get one sample each.
    pub fn new() -> (s: Scene)
        ensures
            s.spheres().len() == 0,
            s.planes().len() == 0,
            s.materials().len() == 0,
            s.point_lights().len() == 0,
            s.sphere_lights().len() == 0,
            s.samples() == 1,
            s.well_formed(),
    {
        Scene {
            spheres: Vec::new(),
            planes: Vec::new(),
            materials: Vec::new(),
            point_lights: Vec::new(),
            sphere_lights: Vec::new(),
            sphere_light_samples: 1,
        }
    }

    /// The nearest hit of the ray among all primitives, with the material id of
    /// the primitive hit; "no hit" with id 0 when nothing is hit.
    pub fn find_intersection(&self, origin: Vec3, dir: Vec3) -> (r: (Intersection, usize))
        requires
            self.well_formed(),
            ray_in_range(origin, dir),
        ensures
            r == self.nearest_hit(origin, dir),
            r.0.valid(),
            !r.0.found() ==> r == (no_hit(), 0usize),
            r.0.found() ==> r.1 < self.materials().len(),
            forall|i: int|
                0 <= i < self.spheres().len() && (#[trigger] self.spheres()[i].1.hit(
                    origin,
                    dir,
                )).found() ==> r.0.found() && r.0.dist <= self.spheres()[i].1.hit(origin, dir).dist,
            forall|i: int|
                0 <= i < self.planes().len() && (#[trigger] self.planes()[i].1.hit(
                    origin,
                    dir,
                )).found() ==> r.0.found() && r.0.dist <= self.planes()[i].1.hit(origin, dir).dist,
            r.0.found() ==> (exists|i: int|
                0 <= i < self.spheres().len() && r == (
                    #[trigger] self.spheres()[i].1.hit(origin, dir),
                    self.spheres()[i].0,
                )) || (exists|i: int|
                0 <= i < self.planes().len() && r == (
                    #[trigger] self.planes()[i].1.hit(origin, dir),
                    self.planes()[i].0,
                )),
    {
        let mut best_idx: usize = 0;
        let mut nearest = Intersection::new_empty();
        let ghost start = (no_hit(), 0usize);
        let mut i: usize = 0;
        while i < self.spheres.len()
            invariant
                self.well_formed(),
                ray_in_range(origin, dir),
                i <= self.spheres@.len(),
                (nearest, best_idx) == scan(self.spheres@.subrange(0, i as int), start, origin, dir),
                nearest.valid(),
            decreases self.spheres@.len() - i,
        {
            assert(self.spheres()[i as int].1.well_formed());
            let intersection = self.spheres[i].1.ray_intersect(origin, dir);
            if intersection < nearest {
                nearest = intersection;
                best_idx = self.spheres[i].0;
            }
            proof {
                assert(self.spheres@.subrange(0, i + 1).drop_last()
                    =~= self.spheres@.subrange(0, i as int));
            }
            i += 1;
        }
        proof {
            assert(self.spheres@.subrange(0, i as int) =~= self.spheres@);
        }
        let ghost after_spheres = (nearest, best_idx);
        let mut j: usize = 0;
        while j < self.planes.len()
            invariant
                self.well_formed(),
                ray_in_range(origin, dir),
                j <= self.planes@.len(),
                after_spheres == scan(self.spheres@, start, origin, dir),
                (nearest, best_idx) == scan(
                    self.planes@.subrange(0, j as int),
                    after_spheres,
                    origin,
                    dir,
                ),
                nearest.valid(),
            decreases self.planes@.len() - j,
        {
            assert(self.planes()[j as int].1.well_formed());
            let intersection = self.planes[j].1.ray_intersect(origin, dir);
            if intersection < nearest {
                nearest = intersection;
                best_idx = self.planes[j].0;
            }
            proof {
                assert(self.planes@.subrange(0, j + 1).drop_last()
                    =~= self.planes@.subrange(0, j as int));
            }
            j += 1;
        }
        proof {
            assert(self.planes@.subrange(0, j as int) =~= self.planes@);
            lemma_scan(self.spheres(), start, origin, dir);
            lemma_scan(self.planes(), after_spheres, origin, dir);
            let r = (nearest, best_idx);
            if r.0.found() {
                if r == after_spheres {
                    let k = choose|k: int|
                        0 <= k < self.spheres().len() && after_spheres == (
                            #[trigger] self.spheres()[k].1.hit(origin, dir),
                            self.spheres()[k].0,
                        );
                    assert(self.spheres()[k].1.well_formed());
                } else {
                    let k = choose|k: int|
                        0 <= k < self.planes().len() && r == (
                            #[trigger] self.planes()[k].1.hit(origin, dir),
                            self.planes()[k].0,
                        );
                    assert(self.planes()[k].1.well_formed());
                }
            }
        }
        (nearest, best_idx)
    }

    /// The illumination that one light sample gives at `point` (see
    /// `sample_illumination`); `to_light` runs from `point` to the sample.
    fn illumination_from_light(
        &self,
        point: Vec3,
        normal: Vec3,
        view: Vec3,
        material: &Material,
        to_light: Vec3,
        intensity: i64,
    ) -> (r: i64)
        requires
            self.well_formed(),
            point.bounded(HIT_POINT_BOUND as int),
            normal.bounded(UNIT as int),
            view.bounded(UNIT as int),
            material.well_formed(),
            to_light.bounded(ORIGIN_BOUND as int),
            within(intensity as int, COEF_BOUND as int),
        ensures
            r == self.sample_illumination(
                point,
                normal,
                view,
                *material,
                to_light,
                intensity as int,
            ),
            within(r as int, SAMPLE_BOUND as int),
    {
        let ghost u = UNIT as int;
        proof {
            lemma_norm2_bound(to_light, ORIGIN_BOUND as int);
        }
        let len2 = to_light.dot(&to_light);
        if len2 == 0 {
            return 0;
        }
        let light_dir = to_light.normalize();
        proof {
            lemma_abs_mul_bound(normal.x as int, SHADOW_BIAS as int, u, SHADOW_BIAS as int);
            lemma_abs_mul_bound(normal.y as int, SHADOW_BIAS as int, u, SHADOW_BIAS as int);
            lemma_abs_mul_bound(normal.z as int, SHADOW_BIAS as int, u, SHADOW_BIAS as int);
        }
        let offset = normal.scale(SHADOW_BIAS, UNIT);
        proof {
            lemma_tdiv_shrinks(normal.x * SHADOW_BIAS, u);
            lemma_tdiv_shrinks(normal.y * SHADOW_BIAS, u);
            lemma_tdiv_shrinks(normal.z * SHADOW_BIAS, u);
        }
        let expanded = point.add(&offset);
        let (blocker, _) = self.find_intersection(expanded, light_dir);
        if blocker.is_hit() && (blocker.dist as i128) < len2 {
            return 0;
        }
        proof {
            lemma_dot_bound(normal, light_dir, u, u);
            lemma_dot_bound(light_dir, normal, u, u);
        }
        let diffuse = normal.dot(&light_dir) / (UNIT as i128);
        let diffuse = if diffuse < 0 {
            0
        } else if diffuse > UNIT as i128 {
            UNIT as i128
        } else {
            diffuse
        };
        let k = 2 * light_dir.dot(&normal) / (UNIT as i128);
        proof {
            lemma_tdiv_shrinks(2 * dot(light_dir, normal), u);
            lemma_abs_mul_bound(normal.x as int, k as int, u, 6 * u * u);
            lemma_abs_mul_bound(normal.y as int, k as int, u, 6 * u * u);
            lemma_abs_mul_bound(normal.z as int, k as int, u, 6 * u * u);
        }
        let bent = normal.scale(k as i64, UNIT);
        proof {
            lemma_tdiv_shrinks(normal.x * k, u);
            lemma_tdiv_shrinks(normal.y * k, u);
            lemma_tdiv_shrinks(normal.z * k, u);
        }
        let mirror = bent.sub(&light_dir);
        let reflect = mirror.normalize();
        let back = view.neg();
        proof {
            lemma_dot_bound(reflect, back, u, u);
        }
        let cos = reflect.dot(&back) / (UNIT as i128);
        let specular: i128 = if cos > 0 {
            let c = if cos > UNIT as i128 {
                UNIT
            } else {
                cos as i64
            };
            fixed_pow(c, material.shininess) as i128
        } else {
            0
        };
        assert(phong(*material, normal, light_dir, view) == (material.diffusion * diffuse
            + material.reflection * specular) / u);
        assert(0 <= material.diffusion * diffuse + material.reflection * specular <= 2 * (
        COEF_BOUND * u)) by (nonlinear_arith)
            requires
                0 <= material.diffusion <= COEF_BOUND,
                0 <= material.reflection <= COEF_BOUND,
                0 <= diffuse <= u,
                0 <= specular <= u,
        ;
        let term = (material.diffusion as i128 * diffuse + material.reflection as i128 * specular)
            / (UNIT as i128);
        assert(0 <= term <= 2 * COEF_BOUND) by (nonlinear_arith)
            requires
                0 <= term * u <= 2 * (COEF_BOUND * u),
                term == (material.diffusion * diffuse + material.reflection * specular) / u,
                0 <= material.diffusion * diffuse + material.reflection * specular <= 2 * (
                COEF_BOUND * u),
                u == 4096,
        ;
        proof {
            lemma_abs_mul_bound(intensity as int, term as int, COEF_BOUND as int, 2 * COEF_BOUND);
            lemma_abs_mul_bound(
                intensity * term,
                u,
                COEF_BOUND * (2 * COEF_BOUND),
                u,
            );
            lemma_tdiv_shrinks(intensity * term * u, len2 as int);
        }
        let r = (intensity as i128) * term * (UNIT as i128) / len2;
        r as i64
    }

    /// The colour seen along the ray from `origin` in direction `dir`: black
    /// when nothing is hit, else the hit material's colour times the light
    /// that reaches the hit point (see `color_of`). Sphere light `j` is sampled
    /// at `radials[j * n + k]` for `k < n`, `n` being the sample count; each
    /// radial is a unit vector up to the rounding of a fixed-point draw. The
    /// origin must lie within `SCENE_BOUND` (256.0), so that the hit point and
    /// the shadow rays from it stay in the range the primitives accept.
    pub fn ray_color(&self, origin: Vec3, dir: Vec3, radials: &Vec<Vec3>) -> (c: Color)
        requires
            self.well_formed(),
            origin.bounded(SCENE_BOUND as int),
            dir.bounded(DIR_BOUND as int),
            radials@.len() == self.sphere_lights().len() * self.samples(),
            forall|i: int| 0 <= i < radials@.len() ==> is_unit(#[trigger] radials@[i]),
        ensures
            c == self.color_of(origin, dir, radials@),
            c.displayable(),
    {
        let ghost u = UNIT as int;
        let (intersection, id) = self.find_intersection(origin, dir);
        if !intersection.is_hit() {
            return Color::black();
        }
        let material = self.materials[id];
        assert(self.materials()[id as int].well_formed());
        let view = dir.normalize();
        proof {
        }
        let lin = isqrt(intersection.dist as u128) as i64;
        proof {
            lemma_sqrt_floor(intersection.dist as int);
            crate::fixed::lemma_sqrt_floor_lt(intersection.dist as int, 0x40_0001);
            lemma_abs_mul_bound(view.x as int, lin as int, u, 0x40_0000);
            lemma_abs_mul_bound(view.y as int, lin as int, u, 0x40_0000);
            lemma_abs_mul_bound(view.z as int, lin as int, u, 0x40_0000);
        }
        let step = view.scale(lin, UNIT);
        proof {
            crate::vector::lemma_unit_scale(view.x as int, lin as int);
            crate::vector::lemma_unit_scale(view.y as int, lin as int);
            crate::vector::lemma_unit_scale(view.z as int, lin as int);
        }
        let point = origin.add(&step);
        let normal = intersection.normal;
        let axis = Vec3::new(UNIT, 0, 0);
        let mut illumination: i128 = 0;
        let mut i: usize = 0;
        while i < self.point_lights.len()
            invariant
                self.well_formed(),
                point.bounded(HIT_POINT_BOUND as int),
                normal.bounded(UNIT as int),
                view.bounded(UNIT as int),
                material.well_formed(),
                axis == (Vec3 { x: UNIT as i64, y: 0, z: 0 }),
                i <= self.point_lights@.len(),
                illumination == self.point_light_sum(
                    self.point_lights@.subrange(0, i as int),
                    point,
                    normal,
                    view,
                    material,
                ),
                within(illumination as int, i * SAMPLE_BOUND),
            decreases self.point_lights@.len() - i,
        {
            let light = &self.point_lights[i];
            assert(self.point_lights()[i as int].well_formed());
            let to_light = light.sample_ray(point, axis);
            let power = light.intensity();
            let contribution = self.illumination_from_light(
                point,
                normal,
                view,
                &material,
                to_light,
                power,
            );
            proof {
                lemma_sum_fits(i as int);
                lemma_sum_step(illumination as int, contribution as int, i as int, SAMPLE_BOUND as int);
                assert(self.point_lights@.subrange(0, i + 1).drop_last()
                    =~= self.point_lights@.subrange(0, i as int));
            }
            illumination = illumination + contribution as i128;
            i += 1;
        }
        proof {
            assert(self.point_lights@.subrange(0, i as int) =~= self.point_lights@);
        }
        let ghost point_sum = illumination;
        let n = self.sphere_light_samples;
        let total = radials.len();
        let np = self.point_lights.len();
        let mut j: usize = 0;
        while j < self.sphere_lights.len()
            invariant
                self.well_formed(),
                point.bounded(HIT_POINT_BOUND as int),
                normal.bounded(UNIT as int),
                view.bounded(UNIT as int),
                material.well_formed(),
                n == self.samples(),
                total == radials@.len(),
                np == self.point_lights@.len(),
                radials@.len() == self.sphere_lights().len() * n,
                forall|i: int| 0 <= i < radials@.len() ==> is_unit(#[trigger] radials@[i]),
                j <= self.sphere_lights@.len(),
                point_sum == self.point_light_sum(self.point_lights(), point, normal, view, material),
                illumination == point_sum + self.sphere_light_sum(
                    self.sphere_lights@.subrange(0, j as int),
                    radials@,
                    point,
                    normal,
                    view,
                    material,
                ),
                within(illumination as int, (self.point_lights@.len() + j) * SAMPLE_BOUND),
            decreases self.sphere_lights@.len() - j,
        {
            let light = &self.sphere_lights[j];
            assert(self.sphere_lights()[j as int].well_formed());
            assert(j * n + n <= radials@.len()) by (nonlinear_arith)
                requires
                    j < self.sphere_lights@.len(),
                    radials@.len() == self.sphere_lights@.len() * n,
            ;
            let base = j * n;
            let mut acc: i128 = 0;
            let mut k: usize = 0;
            while k < n
                invariant
                    self.well_formed(),
                    point.bounded(HIT_POINT_BOUND as int),
                    normal.bounded(UNIT as int),
                    view.bounded(UNIT as int),
                    material.well_formed(),
                    light.well_formed(),
                    base + n <= radials@.len(),
                    total == radials@.len(),
                    forall|i: int|
                        0 <= i < radials@.len() ==> is_unit(#[trigger] radials@[i]),
                    k <= n,
                    acc == self.samples_sum(
                        *light,
                        radials@.subrange(base as int, base + k),
                        point,
                        normal,
                        view,
                        material,
                    ),
                    within(acc as int, k * SAMPLE_BOUND),
                decreases n - k,
            {
                let radial = radials[base + k];
                assert(is_unit(radials@[base + k]));
                let to_light = light.sample_ray(point, radial);
                let power = light.intensity();
                let contribution = self.illumination_from_light(
                    point,
                    normal,
                    view,
                    &material,
                    to_light,
                    power,
                );
                proof {
                    lemma_sum_step(acc as int, contribution as int, k as int, SAMPLE_BOUND as int);
                    assert(radials@.subrange(base as int, base + k + 1).drop_last()
                        =~= radials@.subrange(base as int, base + k));
                }
                acc = acc + contribution as i128;
                k += 1;
            }
            proof {
                lemma_mean_bound(acc as int, n as int, SAMPLE_BOUND as int);
                lemma_sum_fits(self.point_lights@.len() + j);
            }
            let mean = acc / (n as i128);
            proof {
                let lights = self.sphere_lights@.subrange(0, j + 1);
                assert(lights.drop_last() =~= self.sphere_lights@.subrange(0, j as int));
                assert(lights.last() == *light);
                lemma_sum_step(
                    illumination as int,
                    mean as int,
                    self.point_lights@.len() + j,
                    SAMPLE_BOUND as int,
                );
            }
            illumination = illumination + mean;
            j += 1;
        }
        proof {
            assert(self.sphere_lights@.subrange(0, j as int) =~= self.sphere_lights@);
            assert((self.point_lights@.len() + j) * SAMPLE_BOUND
                <= 0x100_0000_0000_0000_0000_0000_0000_0000) by (nonlinear_arith)
                requires
                    self.point_lights@.len() <= usize::MAX,
                    j <= usize::MAX,
                    usize::MAX <= 0xffff_ffff_ffff_ffff,
            ;
        }
        Color {
            r: light_channel(material.color.r, illumination),
            g: light_channel(material.color.g, illumination),
            b: light_channel(material.color.b, illumination),
        }
    }

    pub fn sphere_light_count(&self) -> (n: usize)
        ensures
            n == self.sphere_lights().len(),
    {
        self.sphere_lights.len()
    }

    pub fn sphere_light_samples(&self) -> (n: usize)
        ensures
            n == self.samples(),
    {
        self.sphere_light_samples
    }

    /// Sets how many samples each sphere light gets per shaded point.
    pub fn set_sphere_light_samples(self, count: usize) -> (s: Scene)
        requires
            count >= 1,
        ensures
            s.samples() == count,
            s.spheres() == self.spheres(),
            s.planes() == self.planes(),
            s.materials() == self.materials(),
            s.point_lights() == self.point_lights(),
            s.sphere_lights() == self.sphere_lights(),
            self.well_formed() ==> s.well_formed(),
    {
        let ghost before = self;
        let mut s = self;
        s.sphere_light_samples = count;
        proof {
            if before.well_formed() {
                lemma_extends_well_formed(&before, &s);
            }
        }
        s
    }

    /// Adds a sphere with its material; returns the material id, which is the
    /// number of materials before the call.
    pub fn add_sphere(&mut self, sphere: Sphere, material: Material) -> (id: usize)
        requires
            old(self).well_formed(),
            sphere.well_formed(),
            material.well_formed(),
        ensures
            id == old(self).materials().len(),
            final(self).materials() == old(self).materials().push(material),
            final(self).spheres() == old(self).spheres().push((id, sphere)),
            final(self).planes() == old(self).planes(),
            final(self).point_lights() == old(self).point_lights(),
            final(self).sphere_lights() == old(self).sphere_lights(),
            final(self).samples() == old(self).samples(),
            final(self).well_formed(),
    {
        let id = self.materials.len();
        self.spheres.push((id, sphere));
        self.materials.push(material);
        proof {
            lemma_extends_well_formed(old(self), self);
        }
        id
    }

    /// Adds a plane with its material; returns the material id, which is the
    /// number of materials before the call.
    pub fn add_plane(&mut self, plane: Plane, material: Material) -> (id: usize)
        requires
            old(self).well_formed(),
            plane.well_formed(),
            material.well_formed(),
        ensures
            id == old(self).materials().len(),
            final(self).materials() == old(self).materials().push(material),
            final(self).planes() == old(self).planes().push((id, plane)),
            final(self).spheres() == old(self).spheres(),
            final(self).point_lights() == old(self).point_lights(),
            final(self).sphere_lights() == old(self).sphere_lights(),
            final(self).samples() == old(self).samples(),
            final(self).well_formed(),
    {
        let id = self.materials.len();
        self.planes.push((id, plane));
        self.materials.push(material);
        proof {
            lemma_extends_well_formed(old(self), self);
        }
        id
    }

    pub fn add_point_light(&mut self, position: Vec3, intensity: i64)
        requires
            old(self).well_formed(),
            position.bounded(SCENE_BOUND as int),
            within(intensity as int, COEF_BOUND as int),
        ensures
            final(self).point_lights().len() == old(self).point_lights().len() + 1,
            final(self).point_lights().drop_last() == old(self).point_lights(),
            final(self).point_lights().last().position() == position,
            final(self).point_lights().last().power() == intensity,
            final(self).spheres() == old(self).spheres(),
            final(self).planes() == old(self).planes(),
            final(self).materials() == old(self).materials(),
            final(self).sphere_lights() == old(self).sphere_lights(),
            final(self).samples() == old(self).samples(),
            final(self).well_formed(),
    {
        let light = PointLight::new(position, intensity);
        self.point_lights.push(light);
        proof {
            assert(self.point_lights@.drop_last() =~= old(self).point_lights@);
        }
        proof {
            lemma_extends_well_formed(old(self), self);
        }
    }

    pub fn add_sphere_light(&mut self, center: Vec3, radius: i64, intensity: i64)
        requires
            old(self).well_formed(),
            center.bounded(SCENE_BOUND as int),
            0 <= radius <= SCENE_BOUND,
            within(intensity as int, COEF_BOUND as int),
        ensures
            final(self).sphere_lights().len() == old(self).sphere_lights().len() + 1,
            final(self).sphere_lights().drop_last() == old(self).sphere_lights(),
            final(self).sphere_lights().last().center() == center,
            final(self).sphere_lights().last().radius() == radius,
            final(self).sphere_lights().last().power() == intensity,
            final(self).spheres() == old(self).spheres(),
            final(self).planes() == old(self).planes(),
            final(self).materials() == old(self).materials(),
            final(self).point_lights() == old(self).point_lights(),
            final(self).samples() == old(self).samples(),
            final(self).well_formed(),
    {
        let light = SphereLight::new(center, radius, intensity);
        self.sphere_lights.push(light);
        proof {
            assert(self.sphere_lights@.drop_last() =~= old(self).sphere_lights@);
        }
        proof {
            lemma_extends_well_formed(old(self), self);
        }
    }
}

} // verus!

verus! {

/// Two scenes with the same primitives give the same nearest hit for the same
/// ray: the query depends on nothing else, so asking twice gives the same answer.
pub proof fn lemma_find_intersection_pure(a: &Scene, b: &Scene, origin: Vec3, dir: Vec3)
    requires
        a.spheres() == b.spheres(),
        a.planes() == b.planes(),
    ensures
        a.nearest_hit(origin, dir) == b.nearest_hit(origin, dir),
{
}

/// Some primitive of the scene is hit by the ray nearer than squared distance
/// `limit` (in units of `1 / UNIT^2`).
pub open spec fn occluded(scene: &Scene, origin: Vec3, dir: Vec3, limit: int) -> bool {
    (exists|i: int|
        0 <= i < scene.spheres().len() && (#[trigger] scene.spheres()[i].1.hit(origin, dir)).found()
            && scene.spheres()[i].1.hit(origin, dir).dist < limit) || (exists|i: int|
        0 <= i < scene.planes().len() && (#[trigger] scene.planes()[i].1.hit(origin, dir)).found()
            && scene.planes()[i].1.hit(origin, dir).dist < limit)
}

/// A light sample hidden behind any primitive gives no light: when the shadow
/// ray from the point toward the sample hits a sphere or plane nearer than
/// the sample, the sample contributes zero.
pub proof fn lemma_shadow_occlusion(
    scene: &Scene,
    point: Vec3,
    normal: Vec3,
    view: Vec3,
    m: Material,
    to_light: Vec3,
    intensity: int,
)
    requires
        occluded(scene, shadow_origin(point, normal), normalized(to_light), norm2(to_light)),
    ensures
        scene.sample_illumination(point, normal, view, m, to_light, intensity) == 0,
{
    let origin = shadow_origin(point, normal);
    let dir = normalized(to_light);
    let start = (no_hit(), 0usize);
    let after_spheres = scan(scene.spheres(), start, origin, dir);
    lemma_scan(scene.spheres(), start, origin, dir);
    lemma_scan(scene.planes(), after_spheres, origin, dir);
    if exists|i: int|
        0 <= i < scene.spheres().len() && (#[trigger] scene.spheres()[i].1.hit(origin, dir)).found()
            && scene.spheres()[i].1.hit(origin, dir).dist < norm2(to_light) {
        let i = choose|i: int|
            0 <= i < scene.spheres().len() && (#[trigger] scene.spheres()[i].1.hit(
                origin,
                dir,
            )).found() && scene.spheres()[i].1.hit(origin, dir).dist < norm2(to_light);
        let h = scene.spheres()[i].1.hit(origin, dir);
        let b = scene.nearest_hit(origin, dir).0;
    } else {
        let i = choose|i: int|
            0 <= i < scene.planes().len() && (#[trigger] scene.planes()[i].1.hit(
                origin,
                dir,
            )).found() && scene.planes()[i].1.hit(origin, dir).dist < norm2(to_light);
        let h = scene.planes()[i].1.hit(origin, dir);
        let b = scene.nearest_hit(origin, dir).0;
    }
    assert(norm2(to_light) > 0) by {
        crate::vector::lemma_norm2_bound(to_light, 0x8000_0000_0000_0000);
        if norm2(to_light) == 0 {
            let b = scene.nearest_hit(origin, dir).0;
        }
    }
}

/// Fixed-point powers of a number in `0..=1.0` stay in `0..=1.0`.
pub proof fn lemma_pow_fixed_range(x: int, k: nat)
    requires
        0 <= x <= UNIT,
    ensures
        0 <= pow_fixed(x, k) <= UNIT,
    decreases k,
{
    if k > 0 {
        lemma_pow_fixed_range(x, (k - 1) as nat);
        let p = pow_fixed(x, (k - 1) as nat);
        assert(0 <= p * x / (UNIT as int) <= UNIT) by (nonlinear_arith)
            requires
                0 <= p <= UNIT,
                0 <= x <= UNIT,
        ;
    }
}

/// Rounding toward zero keeps the order of numerators.
pub proof fn lemma_tdiv_monotone(a: int, b: int, d: int)
    requires
        a <= b,
        d > 0,
    ensures
        tdiv(a, d) <= tdiv(b, d),
{
    if a >= 0 {
        assert(a / d <= b / d) by (nonlinear_arith)
            requires
                0 <= a <= b,
                d > 0,
        ;
    } else if b >= 0 {
        lemma_tdiv_shrinks(a, d);
        lemma_tdiv_shrinks(b, d);
    } else {
        assert((-b) / d <= (-a) / d) by (nonlinear_arith)
            requires
                0 < -b <= -a,
                d > 0,
        ;
    }
}

/// The Phong factor of a well-formed material is never negative.
pub proof fn lemma_phong_nonneg(m: Material, normal: Vec3, light_dir: Vec3, view: Vec3)
    requires
        m.well_formed(),
    ensures
        phong(m, normal, light_dir, view) >= 0,
{
    let u = UNIT as int;
    let diffuse = tdiv(dot(normal, light_dir), u);
    let cos = tdiv(dot(reflected(normal, light_dir), vneg(view)), u);
    let specular = if cos > 0 {
        pow_fixed(min(cos, u), m.shininess as nat)
    } else {
        0
    };
    if cos > 0 {
        lemma_pow_fixed_range(min(cos, u), m.shininess as nat);
    }
    assert(m.diffusion * clamp_unit(diffuse) + m.reflection * specular >= 0) by (nonlinear_arith)
        requires
            m.diffusion >= 0,
            m.reflection >= 0,
            clamp_unit(diffuse) >= 0,
            specular >= 0,
    ;
}

/// A brighter light never gives less: raising the intensity of a sample, with
/// everything else fixed, does not lower the light it gives at the point.
pub proof fn lemma_sample_monotone(
    scene: &Scene,
    point: Vec3,
    normal: Vec3,
    view: Vec3,
    m: Material,
    to_light: Vec3,
    low: int,
    high: int,
)
    requires
        m.well_formed(),
        low <= high,
    ensures
        scene.sample_illumination(point, normal, view, m, to_light, low)
            <= scene.sample_illumination(point, normal, view, m, to_light, high),
{
    let light_dir = normalized(to_light);
    if norm2(to_light) != 0 {
        lemma_phong_nonneg(m, normal, light_dir, view);
        let t = phong(m, normal, light_dir, view);
        assert(low * t * UNIT <= high * t * UNIT) by (nonlinear_arith)
            requires
                low <= high,
                t >= 0,
        ;
        crate::vector::lemma_norm2_bound(to_light, 0x8000_0000_0000_0000);
        lemma_tdiv_monotone(low * t * UNIT, high * t * UNIT, norm2(to_light));
    }
}

/// Point-light sums over two lists that differ only in light `k`, at the same
/// place and at least as strong in the second list, are ordered the same way.
proof fn lemma_point_sum_monotone(
    a: &Scene,
    b: &Scene,
    la: Seq<PointLight>,
    lb: Seq<PointLight>,
    k: int,
    point: Vec3,
    normal: Vec3,
    view: Vec3,
    m: Material,
)
    requires
        m.well_formed(),
        a.spheres() == b.spheres(),
        a.planes() == b.planes(),
        la.len() == lb.len(),
        forall|i: int| 0 <= i < la.len() && i != k ==> la[i] == lb[i],
        0 <= k < la.len() ==> la[k].position() == lb[k].position() && la[k].power()
            <= lb[k].power(),
    ensures
        a.point_light_sum(la, point, normal, view, m) <= b.point_light_sum(
            lb,
            point,
            normal,
            view,
            m,
        ),
    decreases la.len(),
{
    if la.len() > 0 {
        let last = la.len() - 1;
        assert forall|i: int| 0 <= i < la.drop_last().len() && i != k implies la.drop_last()[i]
            == lb.drop_last()[i] by {
            assert(la[i] == lb[i]);
        }
        lemma_point_sum_monotone(a, b, la.drop_last(), lb.drop_last(), k, point, normal, view, m);
        let zero = Vec3 { x: UNIT as i64, y: 0, z: 0 };
        if last == k {
            lemma_sample_monotone(
                a,
                point,
                normal,
                view,
                m,
                vsub(la[k].sample_point(zero), point),
                la[k].power(),
                lb[k].power(),
            );
        } else {
            assert(la[last] == lb[last]);
        }
    }
}

/// Samples of one light give the same sum in two scenes with the same primitives.
proof fn lemma_samples_sum_same(
    a: &Scene,
    b: &Scene,
    light: SphereLight,
    radials: Seq<Vec3>,
    point: Vec3,
    normal: Vec3,
    view: Vec3,
    m: Material,
)
    requires
        a.spheres() == b.spheres(),
        a.planes() == b.planes(),
    ensures
        a.samples_sum(light, radials, point, normal, view, m) == b.samples_sum(
            light,
            radials,
            point,
            normal,
            view,
            m,
        ),
    decreases radials.len(),
{
    if radials.len() > 0 {
        lemma_samples_sum_same(a, b, light, radials.drop_last(), point, normal, view, m);
    }
}

/// Sphere lights give the same light in two scenes with the same primitives
/// and sample count.
proof fn lemma_sphere_sum_same(
    a: &Scene,
    b: &Scene,
    lights: Seq<SphereLight>,
    radials: Seq<Vec3>,
    point: Vec3,
    normal: Vec3,
    view: Vec3,
    m: Material,
)
    requires
        a.spheres() == b.spheres(),
        a.planes() == b.planes(),
        a.samples() == b.samples(),
    ensures
        a.sphere_light_sum(lights, radials, point, normal, view, m) == b.sphere_light_sum(
            lights,
            radials,
            point,
            normal,
            view,
            m,
        ),
    decreases lights.len(),
{
    if lights.len() > 0 {
        lemma_sphere_sum_same(a, b, lights.drop_last(), radials, point, normal, view, m);
        let j = lights.len() - 1;
        let n = a.samples() as int;
        lemma_samples_sum_same(
            a,
            b,
            lights.last(),
            radials.subrange(j * n, j * n + n),
            point,
            normal,
            view,
            m,
        );
    }
}

/// Turning up one point light of a scene, with the geometry, the materials and
/// the other lights fixed, never lowers the light that reaches any point.
pub proof fn lemma_energy_monotone(
    a: &Scene,
    b: &Scene,
    k: int,
    radials: Seq<Vec3>,
    point: Vec3,
    normal: Vec3,
    view: Vec3,
    m: Material,
)
    requires
        m.well_formed(),
        a.spheres() == b.spheres(),
        a.planes() == b.planes(),
        a.sphere_lights() == b.sphere_lights(),
        a.samples() == b.samples(),
        a.point_lights().len() == b.point_lights().len(),
        0 <= k < a.point_lights().len(),
        forall|i: int|
            0 <= i < a.point_lights().len() && i != k ==> a.point_lights()[i]
                == b.point_lights()[i],
        a.point_lights()[k].position() == b.point_lights()[k].position(),
        a.point_lights()[k].power() <= b.point_lights()[k].power(),
    ensures
        a.illumination(radials, point, normal, view, m) <= b.illumination(
            radials,
            point,
            normal,
            view,
            m,
        ),
{
    lemma_point_sum_monotone(
        a,
        b,
        a.point_lights(),
        b.point_lights(),
        k,
        point,
        normal,
        view,
        m,
    );
    lemma_sphere_sum_same(a, b, a.sphere_lights(), radials, point, normal, view, m);
}

/// Samples of two sphere lights of the same place and size give sums ordered
/// as their intensities.
proof fn lemma_samples_sum_monotone(
    a: &Scene,
    b: &Scene,
    la: SphereLight,
    lb: SphereLight,
    radials: Seq<Vec3>,
    point: Vec3,
    normal: Vec3,
    view: Vec3,
    m: Material,
)
    requires
        m.well_formed(),
        a.spheres() == b.spheres(),
        a.planes() == b.planes(),
        la.center() == lb.center(),
        la.radius() == lb.radius(),
        la.power() <= lb.power(),
    ensures
        a.samples_sum(la, radials, point, normal, view, m) <= b.samples_sum(
            lb,
            radials,
            point,
            normal,
            view,
            m,
        ),
    decreases radials.len(),
{
    if radials.len() > 0 {
        lemma_samples_sum_monotone(a, b, la, lb, radials.drop_last(), point, normal, view, m);
        lemma_sample_monotone(
            a,
            point,
            normal,
            view,
            m,
            vsub(la.sample_point(radials.last()), point),
            la.power(),
            lb.power(),
        );
    }
}

/// Sphere-light sums over two lists that differ only in the intensity of
/// light `k`, at least as strong in the second list, are ordered the same way.
proof fn lemma_sphere_sum_monotone(
    a: &Scene,
    b: &Scene,
    la: Seq<SphereLight>,
    lb: Seq<SphereLight>,
    k: int,
    radials: Seq<Vec3>,
    point: Vec3,
    normal: Vec3,
    view: Vec3,
    m: Material,
)
    requires
        m.well_formed(),
        a.spheres() == b.spheres(),
        a.planes() == b.planes(),
        a.samples() == b.samples(),
        a.samples() >= 1,
        la.len() == lb.len(),
        forall|i: int| 0 <= i < la.len() && i != k ==> la[i] == lb[i],
        0 <= k < la.len() ==> la[k].center() == lb[k].center() && la[k].radius() == lb[k].radius()
            && la[k].power() <= lb[k].power(),
    ensures
        a.sphere_light_sum(la, radials, point, normal, view, m) <= b.sphere_light_sum(
            lb,
            radials,
            point,
            normal,
            view,
            m,
        ),
    decreases la.len(),
{
    if la.len() > 0 {
        let last = la.len() - 1;
        assert forall|i: int| 0 <= i < la.drop_last().len() && i != k implies la.drop_last()[i]
            == lb.drop_last()[i] by {
            assert(la[i] == lb[i]);
        }
        lemma_sphere_sum_monotone(
            a,
            b,
            la.drop_last(),
            lb.drop_last(),
            k,
            radials,
            point,
            normal,
            view,
            m,
        );
        let n = a.samples() as int;
        let rs = radials.subrange(last * n, last * n + n);
        if last == k {
            lemma_samples_sum_monotone(a, b, la[k], lb[k], rs, point, normal, view, m);
        } else {
            assert(la[last] == lb[last]);
            lemma_samples_sum_same(a, b, la[last], rs, point, normal, view, m);
        }
        lemma_tdiv_monotone(
            a.samples_sum(la.last(), rs, point, normal, view, m),
            b.samples_sum(lb.last(), rs, point, normal, view, m),
            n,
        );
    }
}

/// Turning up one sphere light of a scene, with the geometry, the materials,
/// the sample count and the other lights fixed, never lowers the light that
/// reaches any point, whatever the samples drawn.
pub proof fn lemma_area_energy_monotone(
    a: &Scene,
    b: &Scene,
    k: int,
    radials: Seq<Vec3>,
    point: Vec3,
    normal: Vec3,
    view: Vec3,
    m: Material,
)
    requires
        m.well_formed(),
        a.well_formed(),
        a.spheres() == b.spheres(),
        a.planes() == b.planes(),
        a.point_lights() == b.point_lights(),
        a.samples() == b.samples(),
        a.sphere_lights().len() == b.sphere_lights().len(),
        0 <= k < a.sphere_lights().len(),
        forall|i: int|
            0 <= i < a.sphere_lights().len() && i != k ==> a.sphere_lights()[i]
                == b.sphere_lights()[i],
        a.sphere_lights()[k].center() == b.sphere_lights()[k].center(),
        a.sphere_lights()[k].radius() == b.sphere_lights()[k].radius(),
        a.sphere_lights()[k].power() <= b.sphere_lights()[k].power(),
    ensures
        a.illumination(radials, point, normal, view, m) <= b.illumination(
            radials,
            point,
            normal,
            view,
            m,
        ),
{
    lemma_point_sum_monotone(
        a,
        b,
        a.point_lights(),
        b.point_lights(),
        -1,
        point,
        normal,
        view,
        m,
    );
    lemma_sphere_sum_monotone(
        a,
        b,
        a.sphere_lights(),
        b.sphere_lights(),
        k,
        radials,
        point,
        normal,
        view,
        m,
    );
}

/// In a well-formed scene the nearest hit, when there is one, names a material
/// of the scene.
proof fn lemma_nearest_hit_id(scene: &Scene, origin: Vec3, dir: Vec3)
    requires
        scene.well_formed(),
    ensures
        scene.nearest_hit(origin, dir).0.found() ==> scene.nearest_hit(origin, dir).1
            < scene.materials().len(),
{
    let start = (no_hit(), 0usize);
    let after_spheres = scan(scene.spheres(), start, origin, dir);
    lemma_scan(scene.spheres(), start, origin, dir);
    lemma_scan(scene.planes(), after_spheres, origin, dir);
    let r = scene.nearest_hit(origin, dir);
    if r.0.found() {
        if r == after_spheres {
            let k = choose|k: int|
                0 <= k < scene.spheres().len() && after_spheres == (
                    #[trigger] scene.spheres()[k].1.hit(origin, dir),
                    scene.spheres()[k].0,
                );
            assert(scene.spheres()[k].1.well_formed());
        } else {
            let k = choose|k: int|
                0 <= k < scene.planes().len() && r == (
                    #[trigger] scene.planes()[k].1.hit(origin, dir),
                    scene.planes()[k].0,
                );
            assert(scene.planes()[k].1.well_formed());
        }
    }
}

/// More light never darkens a channel of a colour with non-negative channels.
pub proof fn lemma_lit_channel_monotone(c: int, low: int, high: int)
    requires
        0 <= c,
        low <= high,
    ensures
        lit_channel(c, low) <= lit_channel(c, high),
{
    assert(c * low <= c * high) by (nonlinear_arith)
        requires
            0 <= c,
            low <= high,
    ;
    lemma_tdiv_monotone(c * low, c * high, UNIT as int);
}

/// The colour seen along a ray is no darker in `b` than in `a`, channel by
/// channel, when the two scenes share primitives and materials and `b` gives
/// at least as much light at the point hit.
proof fn lemma_color_follows_light(a: &Scene, b: &Scene, origin: Vec3, dir: Vec3, radials: Seq<Vec3>)
    requires
        a.well_formed(),
        a.spheres() == b.spheres(),
        a.planes() == b.planes(),
        a.materials() == b.materials(),
        ({
            let (h, id) = a.nearest_hit(origin, dir);
            let view = normalized(dir);
            let point = vadd(origin, vscale(view, sqrt_floor(h.dist as int), UNIT as int));
            h.found() && id < a.materials().len() ==> a.illumination(
                radials,
                point,
                h.normal,
                view,
                a.materials()[id as int],
            ) <= b.illumination(radials, point, h.normal, view, a.materials()[id as int])
        }),
    ensures
        a.color_of(origin, dir, radials).r <= b.color_of(origin, dir, radials).r,
        a.color_of(origin, dir, radials).g <= b.color_of(origin, dir, radials).g,
        a.color_of(origin, dir, radials).b <= b.color_of(origin, dir, radials).b,
{
    lemma_nearest_hit_id(a, origin, dir);
    let (h, id) = a.nearest_hit(origin, dir);
    if h.found() {
        let m = a.materials()[id as int];
        assert(m.well_formed());
        let view = normalized(dir);
        let point = vadd(origin, vscale(view, sqrt_floor(h.dist as int), UNIT as int));
        let la = a.illumination(radials, point, h.normal, view, m);
        let lb = b.illumination(radials, point, h.normal, view, m);
        lemma_lit_channel_monotone(m.color.r as int, la, lb);
        lemma_lit_channel_monotone(m.color.g as int, la, lb);
        lemma_lit_channel_monotone(m.color.b as int, la, lb);
    }
}

/// Turning up one point light of a scene, with everything else fixed, never
/// darkens any channel of the colour seen along any ray.
pub proof fn lemma_color_monotone(
    a: &Scene,
    b: &Scene,
    k: int,
    origin: Vec3,
    dir: Vec3,
    radials: Seq<Vec3>,
)
    requires
        a.well_formed(),
        a.spheres() == b.spheres(),
        a.planes() == b.planes(),
        a.materials() == b.materials(),
        a.sphere_lights() == b.sphere_lights(),
        a.samples() == b.samples(),
        a.point_lights().len() == b.point_lights().len(),
        0 <= k < a.point_lights().len(),
        forall|i: int|
            0 <= i < a.point_lights().len() && i != k ==> a.point_lights()[i]
                == b.point_lights()[i],
        a.point_lights()[k].position() == b.point_lights()[k].position(),
        a.point_lights()[k].power() <= b.point_lights()[k].power(),
    ensures
        a.color_of(origin, dir, radials).r <= b.color_of(origin, dir, radials).r,
        a.color_of(origin, dir, radials).g <= b.color_of(origin, dir, radials).g,
        a.color_of(origin, dir, radials).b <= b.color_of(origin, dir, radials).b,
{
    let (h, id) = a.nearest_hit(origin, dir);
    let view = normalized(dir);
    let point = vadd(origin, vscale(view, sqrt_floor(h.dist as int), UNIT as int));
    if h.found() && id < a.materials().len() {
        let m = a.materials()[id as int];
        assert(m.well_formed());
        lemma_energy_monotone(a, b, k, radials, point, h.normal, view, m);
    }
    lemma_color_follows_light(a, b, origin, dir, radials);
}

/// Turning up one sphere light of a scene, with everything else fixed, never
/// darkens any channel of the colour seen along any ray, whatever the samples.
pub proof fn lemma_area_color_monotone(
    a: &Scene,
    b: &Scene,
    k: int,
    origin: Vec3,
    dir: Vec3,
    radials: Seq<Vec3>,
)
    requires
        a.well_formed(),
        a.spheres() == b.spheres(),
        a.planes() == b.planes(),
        a.materials() == b.materials(),
        a.point_lights() == b.point_lights(),
        a.samples() == b.samples(),
        a.sphere_lights().len() == b.sphere_lights().len(),
        0 <= k < a.sphere_lights().len(),
        forall|i: int|
            0 <= i < a.sphere_lights().len() && i != k ==> a.sphere_lights()[i]
                == b.sphere_lights()[i],
        a.sphere_lights()[k].center() == b.sphere_lights()[k].center(),
        a.sphere_lights()[k].radius() == b.sphere_lights()[k].radius(),
        a.sphere_lights()[k].power() <= b.sphere_lights()[k].power(),
    ensures
        a.color_of(origin, dir, radials).r <= b.color_of(origin, dir, radials).r,
        a.color_of(origin, dir, radials).g <= b.color_of(origin, dir, radials).g,
        a.color_of(origin, dir, radials).b <= b.color_of(origin, dir, radials).b,
{
    let (h, id) = a.nearest_hit(origin, dir);
    let view = normalized(dir);
    let point = vadd(origin, vscale(view, sqrt_floor(h.dist as int), UNIT as int));
    if h.found() && id < a.materials().len() {
        let m = a.materials()[id as int];
        assert(m.well_formed());
        lemma_area_energy_monotone(a, b, k, radials, point, h.normal, view, m);
    }
    lemma_color_follows_light(a, b, origin, dir, radials);
}

} // verus!
