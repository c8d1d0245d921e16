use std::cmp::Ordering;

use rand::SeedableRng;
use rand_distr::{Distribution, UnitSphere};

use raytracer::fixed::{isqrt, SCENE_BOUND};
use raytracer::{
    Color, GeometryError, Intersection, Light, Material, Plane, PointLight, Scene, Shape, Sphere,
    SphereLight, Vec3, UNIT,
};

const U: i64 = UNIT;

fn v(x: i64, y: i64, z: i64) -> Vec3 {
    Vec3::new(x, y, z)
}

fn origin() -> Vec3 {
    v(0, 0, 0)
}

fn sphere(center: Vec3, radius: i64) -> Sphere {
    Sphere::new(center, radius).unwrap()
}

fn plane(point: Vec3, normal: Vec3) -> Plane {
    Plane::new(point, normal).unwrap()
}

fn to_fixed(x: f64) -> i64 {
    (x * U as f64).round() as i64
}

fn radial_sample(rng: &mut rand::rngs::StdRng) -> Vec3 {
    let [x, y, z]: [f64; 3] = UnitSphere.sample(rng);
    let clamp = |c: f64| to_fixed(c).clamp(-U, U);
    v(clamp(x), clamp(y), clamp(z))
}

#[test]
fn plane_ray_intersect1() {
    let plane = plane(v(0, 0, U), v(0, 0, -U));
    let intersection = plane.ray_intersect(origin(), v(0, 0, U));
    assert_eq!(intersection.dist, U * U);
}

#[test]
fn plane_ray_intersect2() {
    let plane = plane(v(0, 0, U), v(0, 0, -2 * U));
    let intersection = plane.ray_intersect(origin(), v(0, 0, U));
    assert_eq!(intersection.dist, U * U);
}

#[test]
fn plane_ray_intersect3() {
    // Squared distance: the plane lies 2.0 away, so 4.0.
    let plane = plane(v(0, 0, 2 * U), v(0, 0, -U));
    let intersection = plane.ray_intersect(origin(), v(0, 0, U));
    assert_eq!(intersection.dist, 4 * U * U);
}

#[test]
fn plane_ray_intersect4() {
    // The hit lies sqrt(17) away: a squared distance of 17.0, up to rounding.
    let plane = plane(v(0, -U, 0), v(0, U, 0));
    let dir = v(0, -U / 2, 2 * U).normalize();
    let intersection = plane.ray_intersect(v(0, 0, -U), dir);
    assert!(intersection.is_hit());
    assert!((intersection.dist - 17 * U * U).abs() <= 17 * U * U / 1000);
}

#[test]
fn sphere_ray_intersect1() {
    let sphere = sphere(v(0, 0, 2 * U), U);
    let intersection = sphere.ray_intersect(origin(), v(0, 0, U));
    assert_eq!(intersection.dist, U * U);
}

#[test]
fn sphere_ray_intersect2() {
    // Squared distance (3 - 1)^2 = 4.0.
    let sphere = sphere(v(0, 0, 3 * U), U);
    let intersection = sphere.ray_intersect(origin(), v(0, 0, U));
    assert_eq!(intersection.dist, 4 * U * U);
}

#[test]
fn sphere_ray_intersect3() {
    let sphere = sphere(v(0, 0, 2 * U), U);
    let intersection = sphere.ray_intersect(origin(), v(0, 0, U));
    assert_eq!(intersection.dist, U * U);
}

#[test]
fn sphere_ray_intersect4() {
    let sphere = sphere(v(0, 0, 3 * U), U);
    let intersection = sphere.ray_intersect(origin(), v(0, 0, U));
    assert_eq!(intersection.dist, 4 * U * U);
}

#[test]
fn sphere_ray_intersect5() {
    // Linear distance between 2.5 and 2.8, so squared between 6.25 and 7.84.
    let sphere = sphere(v(0, 0, 3 * U), U);
    let intersection1 = sphere.ray_intersect(origin(), v(0, -U, 3 * U).normalize());
    let intersection2 = sphere.ray_intersect(origin(), v(0, -U / 2, 3 * U / 2).normalize());
    assert_eq!(intersection1.dist, intersection2.dist);
    assert!(intersection1.dist * 100 > 625 * U * U);
    assert!(intersection1.dist * 100 < 784 * U * U);
}

#[test]
fn sphere_hit_is_square_of_gap() {
    // Centre 5.0 ahead, radius 2.0: squared distance 9.0, normal facing the ray.
    let sphere = sphere(v(0, 0, 5 * U), 2 * U);
    let intersection = sphere.ray_intersect(origin(), v(0, 0, U));
    assert_eq!(intersection.dist, 9 * U * U);
    assert_eq!(intersection.normal, v(0, 0, -U));
}

#[test]
fn sphere_hit_with_long_direction() {
    // The direction need not be unit length: the distance is the same.
    let sphere = sphere(v(0, 0, 3 * U), U);
    let intersection = sphere.ray_intersect(origin(), v(0, 0, 3 * U));
    assert_eq!(intersection.dist, 4 * U * U);
}

#[test]
fn sphere_miss_when_line_passes_outside() {
    let sphere = sphere(v(0, 3 * U, 5 * U), U);
    let intersection = sphere.ray_intersect(origin(), v(0, 0, U));
    assert!(!intersection.is_hit());
    assert!(intersection.dist < 0);
}

#[test]
fn sphere_miss_when_behind_or_inside() {
    let behind = sphere(v(0, 0, -3 * U), U);
    assert!(!behind.ray_intersect(origin(), v(0, 0, U)).is_hit());
    let around = sphere(v(0, 0, U / 2), U);
    assert!(!around.ray_intersect(origin(), v(0, 0, U)).is_hit());
}

#[test]
fn sphere_miss_when_tangent() {
    let sphere = sphere(v(0, U, 5 * U), U);
    assert!(!sphere.ray_intersect(origin(), v(0, 0, U)).is_hit());
}

#[test]
fn plane_seen_from_both_sides() {
    // Met from behind its normal: still a hit, with the plane's own normal.
    let plane = plane(v(0, 0, U), v(0, 0, U));
    let intersection = plane.ray_intersect(origin(), v(0, 0, U));
    assert_eq!(intersection.dist, U * U);
    assert_eq!(intersection.normal, v(0, 0, U));
    let parallel = Plane::new(v(0, 0, U), v(0, U, 0)).unwrap();
    assert!(!parallel.ray_intersect(origin(), v(0, 0, U)).is_hit());
    let behind = Plane::new(v(0, 0, -U), v(0, 0, -U)).unwrap();
    assert!(!behind.ray_intersect(origin(), v(0, 0, U)).is_hit());
}

#[test]
fn far_hits_do_not_count() {
    // 1100.0 away lies beyond the tracer's range.
    let plane = Plane::new(v(0, -U, 0), v(0, U, 0)).unwrap();
    let dir = v(0, -1, 1100 * 4);
    assert!(!plane.ray_intersect(origin(), dir).is_hit());
}

#[test]
fn geometry_errors() {
    assert_eq!(Sphere::new(origin(), 0).err(), Some(GeometryError::NonPositiveRadius));
    assert_eq!(Sphere::new(origin(), -U).err(), Some(GeometryError::NonPositiveRadius));
    assert_eq!(
        Sphere::new(v(SCENE_BOUND + 1, 0, 0), U).err(),
        Some(GeometryError::OutOfRange)
    );
    assert_eq!(Sphere::new(origin(), SCENE_BOUND + 1).err(), Some(GeometryError::OutOfRange));
    assert_eq!(Plane::new(origin(), origin()).err(), Some(GeometryError::ZeroNormal));
    assert_eq!(
        Plane::new(v(0, 0, -SCENE_BOUND - 1), v(0, U, 0)).err(),
        Some(GeometryError::OutOfRange)
    );
    assert!(Sphere::new(v(SCENE_BOUND, 0, 0), SCENE_BOUND).is_ok());
}

#[test]
fn intersection_ordering() {
    let near = Intersection::new(U, v(U, 0, 0));
    let far = Intersection::new(2 * U, v(U, 0, 0));
    let none = Intersection::new_empty();
    assert!(near < far);
    assert!(!(far < near));
    assert_eq!(near.partial_cmp(&far), Some(Ordering::Less));
    assert_eq!(far.partial_cmp(&near), Some(Ordering::Greater));
    assert_eq!(near.partial_cmp(&near), Some(Ordering::Equal));
    // Any hit is nearer than "no hit", however far it is.
    let very_far = Intersection::new(1 << 30, v(U, 0, 0));
    assert!(very_far < none);
    assert!(!(none < very_far));
    assert_eq!(none.partial_cmp(&none), None);
    assert!(none != none);
    assert!(near == Intersection::new(U, v(0, U, 0)));
}

#[test]
fn normalize_rounds_toward_zero() {
    assert_eq!(v(3 * U, 0, 4 * U).normalize(), v(2457, 0, 3276));
    assert_eq!(v(-3 * U, 0, -4 * U).normalize(), v(-2457, 0, -3276));
    assert_eq!(v(0, 0, 7).normalize(), v(0, 0, U));
    assert_eq!(origin().normalize(), origin());
}

#[test]
fn integer_square_root() {
    assert_eq!(isqrt(0), 0);
    assert_eq!(isqrt(15), 3);
    assert_eq!(isqrt(16), 4);
    assert_eq!(isqrt(u64::MAX as u128), 4294967295);
}

#[test]
fn color_to_bytes_clamps() {
    let color = Color::new(-5, U / 2, 2 * U);
    assert_eq!(color.to_rgb8(), [0, 128, 255]);
    assert_eq!(Color::black().to_rgb8(), [0, 0, 0]);
    assert_eq!(Color::new(U, U - 1, 16).to_rgb8(), [255, 255, 1]);
}

#[test]
fn material_defaults() {
    let m = Material::new(U, U / 2, 0);
    assert_eq!(m.color, Color::new(U, U / 2, 0));
    assert_eq!(m.diffusion, U);
    assert_eq!(m.reflection, 3 * U);
    assert_eq!(m.shininess, 10);
}

#[test]
fn light_samples() {
    let point = PointLight::new(v(U, 2 * U, 3 * U), 3 * U);
    assert_eq!(point.sample_ray(v(U, 0, 0), v(0, U, 0)), v(0, 2 * U, 3 * U));
    assert_eq!(point.intensity(), 3 * U);
    let area = SphereLight::new(v(0, 0, 4 * U), U / 2, 2 * U);
    assert_eq!(area.sample_ray(v(0, 0, U), v(U, 0, 0)), v(U / 2, 0, 3 * U));
    assert_eq!(area.sample_ray(v(0, 0, U), v(0, 0, -U)), v(0, 0, 5 * U / 2));
    assert_eq!(area.intensity(), 2 * U);
}

#[test]
fn material_ids_are_sequential() {
    let mut scene = Scene::new();
    let m = Material::new(U, U, U);
    assert_eq!(scene.add_sphere(sphere(v(0, 0, -3 * U), U), m), 0);
    assert_eq!(scene.add_plane(plane(v(0, -U, 0), v(0, U, 0)), m), 1);
    assert_eq!(scene.add_sphere(sphere(v(0, 0, -8 * U), U), m), 2);
}

fn two_spheres_and_floor() -> Scene {
    let mut scene = Scene::new();
    scene.add_plane(plane(v(0, -U, 0), v(0, U, 0)), Material::new(U, U, U));
    scene.add_sphere(sphere(v(0, 0, -5 * U), U), Material::new(U, 0, 0));
    scene.add_sphere(sphere(v(0, 0, -3 * U), U), Material::new(0, U, 0));
    scene
}

#[test]
fn find_intersection_takes_nearest() {
    let scene = two_spheres_and_floor();
    let (hit, id) = scene.find_intersection(origin(), v(0, 0, -U));
    assert_eq!(hit.dist, 4 * U * U);
    assert_eq!(id, 2);
    assert_eq!(hit.normal, v(0, 0, U));
    // Straight down only the floor is hit.
    let (hit, id) = scene.find_intersection(origin(), v(0, -U, 0));
    assert_eq!(hit.dist, U * U);
    assert_eq!(id, 0);
}

#[test]
fn find_intersection_misses_with_id_zero() {
    let scene = two_spheres_and_floor();
    let (hit, id) = scene.find_intersection(origin(), v(0, U, 0));
    assert!(!hit.is_hit());
    assert_eq!(id, 0);
}

#[test]
fn find_intersection_is_repeatable() {
    let scene = two_spheres_and_floor();
    let dir = v(100, -300, -U);
    let (a, ia) = scene.find_intersection(origin(), dir);
    let (b, ib) = scene.find_intersection(origin(), dir);
    assert!(a.is_hit());
    assert_eq!((a.dist, a.normal, ia), (b.dist, b.normal, ib));
}

fn lit_sphere(intensity: i64, with_occluder: bool) -> Scene {
    let mut scene = Scene::new();
    scene.add_sphere(sphere(v(0, 0, -3 * U), U), Material::new(U / 2, U / 4, U));
    if with_occluder {
        // Between the sphere's lit side and the light, facing the sphere.
        scene.add_plane(plane(v(0, 0, U), v(0, 0, -U)), Material::new(U, U, U));
    }
    scene.add_point_light(v(0, 0, 2 * U), intensity);
    scene
}

#[test]
fn ray_color_single_point_light() {
    // Hit at (0, 0, -2) facing the light 4.0 away head on: diffuse 1, specular 1,
    // so 3.0 * (1.0 * 1 + 3.0 * 1) / 16 = 0.75 of the base colour.
    let scene = lit_sphere(3 * U, false);
    let color = scene.ray_color(origin(), v(0, 0, -U), &Vec::new());
    assert_eq!(color, Color::new(1536, 768, 3072));
    assert_eq!(color.to_rgb8(), [96, 48, 192]);
}

#[test]
fn ray_color_background_is_black() {
    let scene = lit_sphere(3 * U, false);
    assert_eq!(scene.ray_color(origin(), v(0, U, 0), &Vec::new()), Color::black());
}

#[test]
fn shadow_occlusion_blocks_point_light() {
    let lit = lit_sphere(3 * U, false).ray_color(origin(), v(0, 0, -U), &Vec::new());
    let shadowed = lit_sphere(3 * U, true).ray_color(origin(), v(0, 0, -U), &Vec::new());
    assert_ne!(lit, Color::black());
    assert_eq!(shadowed, Color::black());
}

#[test]
fn light_behind_sphere_is_shadowed_by_it() {
    // The shadow ray toward a light behind the surface runs into the sphere itself.
    let mut scene = Scene::new();
    scene.add_sphere(sphere(v(0, 0, -3 * U), U), Material::new(U, U, U));
    scene.add_point_light(v(0, 0, -8 * U), 3 * U);
    assert_eq!(scene.ray_color(origin(), v(0, 0, -U), &Vec::new()), Color::black());
}

#[test]
fn brighter_light_never_darkens() {
    let dim = lit_sphere(U, false).ray_color(origin(), v(0, 0, -U), &Vec::new());
    let bright = lit_sphere(2 * U, false).ray_color(origin(), v(0, 0, -U), &Vec::new());
    assert!(dim.r <= bright.r && dim.g <= bright.g && dim.b <= bright.b);
    assert!(dim.b < bright.b);
}

#[test]
fn channels_clamp_at_one() {
    let color = lit_sphere(100 * U, false).ray_color(origin(), v(0, 0, -U), &Vec::new());
    assert_eq!(color, Color::new(U, U, U));
}

fn penumbra_scene(samples: usize) -> Scene {
    let mut scene = Scene::new();
    scene.add_sphere(sphere(v(0, 0, -3 * U), U), Material::new(U, U, U));
    // A small sphere that hides about half of the light from the hit point.
    scene.add_sphere(sphere(v(U / 2, 0, U), U / 2), Material::new(U, U, U));
    scene.add_sphere_light(v(0, 0, 4 * U), U, 3 * U);
    scene.set_sphere_light_samples(samples)
}

fn penumbra_stats(samples: usize, runs: usize, rng: &mut rand::rngs::StdRng) -> (f64, f64) {
    let scene = penumbra_scene(samples);
    let values: Vec<f64> = (0..runs)
        .map(|_| {
            let radials: Vec<Vec3> = (0..samples).map(|_| radial_sample(rng)).collect();
            scene.ray_color(origin(), v(0, 0, -U), &radials).r as f64
        })
        .collect();
    let mean = values.iter().sum::<f64>() / runs as f64;
    let var = values.iter().map(|x| (x - mean) * (x - mean)).sum::<f64>() / runs as f64;
    (mean, var)
}

#[test]
fn area_light_converges() {
    let mut rng = rand::rngs::StdRng::seed_from_u64(17);
    let (mean1, var1) = penumbra_stats(1, 200, &mut rng);
    let (mean100, var100) = penumbra_stats(100, 60, &mut rng);
    let (mean1000, var1000) = penumbra_stats(1000, 20, &mut rng);
    assert!(var100 < var1);
    assert!(var1000 < var100);
    // A penumbra: neither dark nor fully lit.
    assert!(mean1000 > 0.0);
    assert!((mean100 - mean1000).abs() < 0.1 * U as f64);
    assert!((mean1 - mean1000).abs() < 0.25 * U as f64);
}

#[test]
fn area_light_fully_visible_matches_point_light_of_same_power() {
    // With a radius of zero every sample sits at the centre.
    let mut area = Scene::new();
    area.add_sphere(sphere(v(0, 0, -3 * U), U), Material::new(U / 2, U / 4, U));
    area.add_sphere_light(v(0, 0, 2 * U), 0, 3 * U);
    let area = area.set_sphere_light_samples(3);
    let radials = vec![v(U, 0, 0), v(0, U, 0), v(0, 0, U)];
    let color = area.ray_color(origin(), v(0, 0, -U), &radials);
    assert_eq!(color, Color::new(1536, 768, 3072));
}

#[test]
fn color_sums() {
    let a = Color::new(1, 2, 3);
    assert_eq!(a.add(&Color::new(10, -20, 30)), Color::new(11, -18, 33));
    let mut b = Color::black();
    b.add_assign(Color::new(U, U / 2, 7));
    b.add_assign(Color::new(1, 1, 1));
    assert_eq!(b, Color::new(U + 1, U / 2 + 1, 8));
}

#[test]
fn sphere_ahead_of_offset_origin() {
    // The same gap from another origin and a longer direction: (2.5 - 0.5)^2 = 4.0.
    let o = v(U, -2 * U, U / 4);
    let sphere = sphere(v(U, -2 * U, U / 4 + 5 * U / 2), U / 2);
    let intersection = sphere.ray_intersect(o, v(0, 0, 2 * U));
    assert_eq!(intersection.dist, 4 * U * U);
    assert_eq!(intersection.normal, v(0, 0, -U));
}

#[test]
fn brighter_area_light_never_darkens() {
    let mut rng = rand::rngs::StdRng::seed_from_u64(5);
    let radials: Vec<Vec3> = (0..50).map(|_| radial_sample(&mut rng)).collect();
    let scene = |intensity: i64| {
        let mut scene = Scene::new();
        scene.add_sphere(sphere(v(0, 0, -3 * U), U), Material::new(U / 2, U / 2, U / 2));
        scene.add_sphere(sphere(v(U / 2, 0, U), U / 2), Material::new(U, U, U));
        scene.add_sphere_light(v(0, 0, 4 * U), U, intensity);
        scene.set_sphere_light_samples(50)
    };
    let dim = scene(U).ray_color(origin(), v(0, 0, -U), &radials);
    let bright = scene(2 * U).ray_color(origin(), v(0, 0, -U), &radials);
    assert!(dim.r <= bright.r && dim.g <= bright.g && dim.b <= bright.b);
    assert!(dim.r > 0 && dim.r < bright.r);
}

#[test]
fn sphere_ahead_along_slanted_direction() {
    // Direction of length 4000 (units of 1 / UNIT), centre two lengths along it,
    // radius 2048: squared distance (8000 - 2048)^2.
    let dir = v(2400, 3200, 0);
    let sphere = sphere(v(4800, 6400, 0), 2048);
    let intersection = sphere.ray_intersect(origin(), dir);
    assert_eq!(intersection.dist, 5952 * 5952);
}

#[test]
fn near_plane_hit_counts() {
    // A plane 8 / UNIT (about 0.002) ahead is still hit, at squared distance 64.
    let plane = plane(v(0, 0, 8), v(0, 0, -U));
    let intersection = plane.ray_intersect(origin(), v(0, 0, U));
    assert_eq!(intersection.dist, 64);
}
