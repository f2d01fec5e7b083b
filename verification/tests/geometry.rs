use raytracer_rust::hittable::{Hittable, Material, Plane, Shape, Sphere};
use raytracer_rust::ray::Ray;
use raytracer_rust::vec3::{clamp, length, normalize, Color, Vec3};

fn sphere_surface(cx: i64, cy: i64, cz: i64, r: i64) -> Hittable {
    Hittable::new(
        Shape::sphere(Vec3::new(cx, cy, cz), r),
        Material::Lambertian(Color::white()),
    )
}

#[test]
fn vec3_new_and_fields() {
    let v = Vec3::new(1, -2, 3);
    assert_eq!(v.x, 1);
    assert_eq!(v.y, -2);
    assert_eq!(v.z, 3);
}

#[test]
fn vec3_add_sub() {
    let a = Vec3::new(100, 200, 300);
    let b = Vec3::new(10, 20, 30);
    assert_eq!(a.add(&b), Vec3::new(110, 220, 330));
    assert_eq!(a.sub(&b), Vec3::new(90, 180, 270));
}

#[test]
fn vec3_dot_is_raw_sum_of_products() {
    let a = Vec3::new(1, 2, 3);
    let b = Vec3::new(4, 5, 6);
    assert_eq!(a.dot(&b), 32);
}

#[test]
fn vec3_componentwise_mul_rescales() {
    let a = Vec3::new(500, 400, 0);
    let b = Vec3::new(2000, 500, 123);
    assert_eq!(a.mul(&b), Vec3::new(1000, 200, 0));
}

#[test]
fn vec3_scale_truncates_toward_zero() {
    let a = Vec3::new(1000, -500, 250);
    assert_eq!(a.scale(500), Vec3::new(500, -250, 125));
}

#[test]
fn length_of_pythagorean_vector() {
    assert_eq!(length(Vec3::new(3000, 4000, 0)), 5000);
}

#[test]
fn normalize_gives_unit_scale() {
    assert_eq!(normalize(&Vec3::new(3000, 4000, 0)), Vec3::new(600, 800, 0));
    assert_eq!(normalize(&Vec3::new(0, 0, -11000)), Vec3::new(0, 0, -1000));
}

#[test]
fn clamp_bounds_components() {
    assert_eq!(clamp(&Vec3::new(-5, 500, 1500)), Vec3::new(0, 500, 999));
}

#[test]
fn palette_values() {
    assert_eq!(Color::red(), Vec3::new(1000, 0, 0));
    assert_eq!(Color::blue(), Vec3::new(0, 0, 1000));
    assert_eq!(Color::green(), Vec3::new(0, 1000, 0));
    assert_eq!(Color::orange(), Vec3::new(1000, 647, 0));
    assert_eq!(Color::white(), Vec3::new(1000, 1000, 1000));
    assert_eq!(Color::black(), Vec3::new(0, 0, 0));
    assert_eq!(Vec3::red(), Color::red());
    assert_eq!(Vec3::white(), Color::white());
    assert_eq!(Vec3::black(), Color::black());
}

#[test]
fn ray_normalizes_direction_at_construction() {
    let ray = Ray::new(Vec3::new(0, 0, 10000), Vec3::new(0, 0, -11000));
    assert_eq!(ray.get_origin(), Vec3::new(0, 0, 10000));
    assert_eq!(ray.get_direction(), Vec3::new(0, 0, -1000));
}

#[test]
fn ray_scale_walks_along_direction() {
    let ray = Ray::new(Vec3::new(0, 0, 0), Vec3::new(0, 0, -1000));
    assert_eq!(ray.scale(500), Vec3::new(0, 0, -500));
}

#[test]
fn sphere_head_on_hit_at_center_distance_minus_radius() {
    // aimed straight at the center from distance 10 with radius 0.5:
    // the hit is at 9.5 exactly
    let s = sphere_surface(0, 0, 0, 500);
    let ray = Ray::new(Vec3::new(0, 0, 10000), Vec3::new(0, 0, -1000));
    assert_eq!(s.is_hit(&ray), Ok(9500));
}

#[test]
fn sphere_aimed_away_misses() {
    let s = sphere_surface(0, 0, 0, 500);
    let ray = Ray::new(Vec3::new(0, 0, 10000), Vec3::new(0, 0, 1000));
    assert_eq!(s.is_hit(&ray), Err(()));
}

#[test]
fn sphere_interior_origin_reports_no_hit() {
    // the near-root-only policy: a ray starting at the center misses
    let s = sphere_surface(0, 0, 0, 500);
    let ray = Ray::new(Vec3::new(0, 0, 0), Vec3::new(0, 0, -1000));
    assert_eq!(s.is_hit(&ray), Err(()));
}

#[test]
fn sphere_passing_ray_misses() {
    // the ray passes 1 unit to the side of a 0.5-unit sphere
    let s = sphere_surface(0, 0, 0, 500);
    let ray = Ray::new(Vec3::new(1000, 0, 10000), Vec3::new(0, 0, -1000));
    assert_eq!(s.is_hit(&ray), Err(()));
}

#[test]
fn plane_head_on_hit() {
    // the floor y = -1.2, approached straight down from the origin
    let p = Hittable::new(
        Shape::plane(0, 1000, 0, -1200),
        Material::Lambertian(Color::white()),
    );
    let ray = Ray::new(Vec3::new(0, 0, 0), Vec3::new(0, -1000, 0));
    assert_eq!(p.is_hit(&ray), Ok(1200));
}

#[test]
fn plane_parallel_ray_misses() {
    let p = Hittable::new(
        Shape::plane(0, 1000, 0, -1200),
        Material::Lambertian(Color::white()),
    );
    let ray = Ray::new(Vec3::new(0, 0, 0), Vec3::new(1000, 0, 0));
    assert_eq!(p.is_hit(&ray), Err(()));
    let elsewhere = Ray::new(Vec3::new(5000, 7000, -2000), Vec3::new(1000, 0, 0));
    assert_eq!(p.is_hit(&elsewhere), Err(()));
}

#[test]
fn plane_behind_origin_misses() {
    let p = Hittable::new(
        Shape::plane(0, 1000, 0, -1200),
        Material::Lambertian(Color::white()),
    );
    let ray = Ray::new(Vec3::new(0, 0, 0), Vec3::new(0, 1000, 0));
    assert_eq!(p.is_hit(&ray), Err(()));
}

#[test]
fn sphere_normal_points_outward() {
    let s = sphere_surface(0, 0, 0, 500);
    let p = Vec3::new(0, 0, 605);
    let n = s.get_normal(&p);
    assert_eq!(n, Vec3::new(0, 0, 1000));
    // outward: positive dot with the displacement from the center
    assert!(n.dot(&p) > 0);
    // unit scale within the stated bracket
    let nn = n.dot(&n);
    assert!((250_000..=3_000_000).contains(&nn));
}

#[test]
fn plane_normal_is_normalized_coefficients() {
    let p = Hittable::new(
        Shape::plane(0, 2000, 0, -1200),
        Material::Lambertian(Color::white()),
    );
    assert_eq!(p.get_normal(&Vec3::new(123, -1200, 456)), Vec3::new(0, 1000, 0));
}

#[test]
fn shortest_dist_sphere() {
    let s = sphere_surface(0, 0, 0, 500);
    assert_eq!(s.shortest_dist(&Vec3::new(0, 0, 2000)), 1500);
    // negative inside the sphere
    assert_eq!(s.shortest_dist(&Vec3::new(0, 0, 100)), -400);
}

#[test]
fn shortest_dist_plane() {
    let p = Hittable::new(
        Shape::plane(0, 1000, 0, -1200),
        Material::Lambertian(Color::white()),
    );
    assert_eq!(p.shortest_dist(&Vec3::new(0, 0, 0)), 1200);
    assert_eq!(p.shortest_dist(&Vec3::new(4000, -1200, 250)), 0);
}

#[test]
fn shape_constructors_build_the_variants() {
    let s = Shape::sphere(Vec3::new(1, 2, 3), 4);
    assert_eq!(s, Shape::Sphere(Sphere { c: Vec3::new(1, 2, 3), r: 4 }));
    let p = Shape::plane(1, 2, 3, 4);
    assert_eq!(p, Shape::Plane(Plane { a: 1, b: 2, c: 3, d: 4 }));
}
