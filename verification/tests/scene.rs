use raytracer_rust::hittable::{Material, Shape};
use raytracer_rust::sampling::{random_jitter, JITTER_LIMIT};
use raytracer_rust::ray::Ray;
use raytracer_rust::vec3::{Color, Vec3};
use raytracer_rust::world::{RenderError, World, SAMPLES_PER_PIXEL};

fn small_world() -> World {
    World::new(4)
}

#[test]
fn new_world_has_default_sun_and_no_surfaces() {
    let w = small_world();
    assert_eq!(w.width, 4);
    assert!(w.hittables.is_empty());
    assert_eq!(w.sun.material, Material::Light);
    assert_eq!(
        w.sun.shape,
        Shape::sphere(Vec3::new(3000, 8000, 2000), 1000)
    );
}

#[test]
fn set_sun_replaces_the_light() {
    let mut w = small_world();
    w.set_sun(Shape::sphere(Vec3::new(-10000, 8000, 5000), 2000));
    assert_eq!(
        w.sun.shape,
        Shape::sphere(Vec3::new(-10000, 8000, 5000), 2000)
    );
    assert_eq!(w.sun.material, Material::Light);
}

#[test]
fn nearest_hit_picks_first_reached_sphere() {
    // two non-overlapping spheres on the ray's path: the nearer one wins,
    // in either insertion order
    let mut w = small_world();
    w.add(Shape::sphere(Vec3::new(0, 0, -2000), 500), Material::Lambertian(Color::red()));
    w.add(Shape::sphere(Vec3::new(0, 0, -4000), 500), Material::Lambertian(Color::blue()));
    let ray = Ray::new(Vec3::new(0, 0, 0), Vec3::new(0, 0, -1000));
    assert_eq!(w.nearest_hit(&ray), Some((0, 1500)));

    let mut rev = small_world();
    rev.add(Shape::sphere(Vec3::new(0, 0, -4000), 500), Material::Lambertian(Color::blue()));
    rev.add(Shape::sphere(Vec3::new(0, 0, -2000), 500), Material::Lambertian(Color::red()));
    assert_eq!(rev.nearest_hit(&ray), Some((1, 1500)));
}

#[test]
fn nearest_hit_breaks_ties_by_first_index() {
    let mut w = small_world();
    w.add(Shape::sphere(Vec3::new(0, 0, -2000), 500), Material::Lambertian(Color::red()));
    w.add(Shape::sphere(Vec3::new(0, 0, -2000), 500), Material::Lambertian(Color::blue()));
    let ray = Ray::new(Vec3::new(0, 0, 0), Vec3::new(0, 0, -1000));
    assert_eq!(w.nearest_hit(&ray), Some((0, 1500)));
}

#[test]
fn nearest_hit_none_when_all_miss() {
    let mut w = small_world();
    w.add(Shape::sphere(Vec3::new(0, 0, -2000), 500), Material::Lambertian(Color::red()));
    let ray = Ray::new(Vec3::new(0, 0, 0), Vec3::new(0, 0, 1000));
    assert_eq!(w.nearest_hit(&ray), None);
}

#[test]
fn occlusion_sees_blocking_surface() {
    let mut w = small_world();
    w.add(Shape::sphere(Vec3::new(0, 0, -2000), 500), Material::Lambertian(Color::red()));
    assert!(w.is_occluded(&Vec3::new(0, 0, 0), &Vec3::new(0, 0, -1000)));
    assert!(!w.is_occluded(&Vec3::new(0, 0, 0), &Vec3::new(0, 0, 1000)));
}

#[test]
fn index_of_closest_by_implicit_distance() {
    let mut w = small_world();
    w.add(Shape::sphere(Vec3::new(0, 0, -4000), 500), Material::Lambertian(Color::red()));
    w.add(Shape::sphere(Vec3::new(0, 0, -2000), 500), Material::Lambertian(Color::blue()));
    assert_eq!(w.index_of_closest_hittable(&Vec3::new(0, 0, -1000)), 1);
    assert_eq!(w.index_of_closest_hittable(&Vec3::new(0, 0, -5000)), 0);
}

#[test]
fn normal_lookup_from_bare_point() {
    let mut w = small_world();
    w.add(Shape::plane(0, 1000, 0, -1200), Material::Lambertian(Color::white()));
    w.add(Shape::sphere(Vec3::new(0, 0, -2000), 500), Material::Lambertian(Color::red()));
    // near the sphere's surface the sphere owns the point
    assert_eq!(
        w.get_normal_at_surface_point(&Vec3::new(0, 0, -1395)),
        Vec3::new(0, 0, 1000)
    );
    // near the floor the plane owns the point
    assert_eq!(
        w.get_normal_at_surface_point(&Vec3::new(0, -1188, 5000)),
        Vec3::new(0, 1000, 0)
    );
}

#[test]
fn shading_is_bright_when_lit_and_black_when_blocked() {
    // a point just above the floor, lit by the default sun
    let mut w = small_world();
    w.add(Shape::plane(0, 1000, 0, -1200), Material::Lambertian(Color::white()));
    let p = Vec3::new(0, -1188, 0);
    let lit = w.reflection(&p);
    assert_eq!(lit, Vec3::new(930, 930, 930));

    // an opaque sphere placed on the segment toward the sun blocks it
    w.add(Shape::sphere(Vec3::new(606, 672, 404), 1000), Material::Lambertian(Color::red()));
    let dark = w.reflection(&p);
    assert_eq!(dark, Vec3::new(0, 0, 0));
}

#[test]
fn shading_is_black_facing_away_from_light() {
    // the same floor, but the sun is moved below it
    let mut w = small_world();
    w.add(Shape::plane(0, 1000, 0, -1200), Material::Lambertian(Color::white()));
    w.set_sun(Shape::sphere(Vec3::new(0, -9000, 0), 1000));
    let p = Vec3::new(0, -1188, 0);
    assert_eq!(w.reflection(&p), Vec3::new(0, 0, 0));
}

#[test]
fn center_ray_scenario_hits_and_shades() {
    // one sphere at (0,0,-1) radius 0.5, the light at (-10,8,5) radius 2,
    // camera at (0,0,10): the center ray hits at 10.5 and the shaded
    // color is non-black
    let mut w = small_world();
    w.add(Shape::sphere(Vec3::new(0, 0, -1000), 500), Material::Lambertian(Color::red()));
    w.set_sun(Shape::sphere(Vec3::new(-10000, 8000, 5000), 2000));
    let ray = Ray::new(Vec3::new(0, 0, 10000), Vec3::new(0, 0, -11000));
    assert_eq!(w.nearest_hit(&ray), Some((0, 10500)));
    let col = w.ray_trace(ray).unwrap();
    assert_eq!(col, Vec3::new(252, 0, 0));
    assert!(col != Vec3::new(0, 0, 0));
}

#[test]
fn ray_trace_background_is_black() {
    let mut w = small_world();
    w.add(Shape::sphere(Vec3::new(0, 0, -2000), 500), Material::Lambertian(Color::red()));
    let miss = Ray::new(Vec3::new(0, 0, 10000), Vec3::new(0, 0, 1000));
    assert_eq!(w.ray_trace(miss), Ok(Vec3::new(0, 0, 0)));
}

#[test]
fn ray_trace_beyond_max_distance_is_black() {
    let mut w = small_world();
    // a sphere 50 units away: hit distance 49.5 exceeds the 30-unit cutoff
    w.add(Shape::sphere(Vec3::new(0, 0, -50_000), 500), Material::Lambertian(Color::red()));
    let ray = Ray::new(Vec3::new(0, 0, 0), Vec3::new(0, 0, -1000));
    assert_eq!(w.nearest_hit(&ray), Some((0, 49_500)));
    assert_eq!(w.ray_trace(ray), Ok(Vec3::new(0, 0, 0)));
}

#[test]
fn ray_trace_reports_emissive_primary_hit() {
    let mut w = small_world();
    w.add(Shape::sphere(Vec3::new(0, 0, -1000), 500), Material::Light);
    let ray = Ray::new(Vec3::new(0, 0, 10000), Vec3::new(0, 0, -11000));
    assert_eq!(w.ray_trace(ray), Err(RenderError::UnreachableMaterial));
}

#[test]
fn ray_trace_empty_scene_is_degenerate() {
    let w = small_world();
    let ray = Ray::new(Vec3::new(0, 0, 10000), Vec3::new(0, 0, -11000));
    assert_eq!(w.ray_trace(ray), Err(RenderError::DegenerateInput));
}

#[test]
fn render_empty_scene_reports_degenerate_input() {
    let w = small_world();
    assert_eq!(w.render(), Err(RenderError::DegenerateInput));
}

#[test]
fn render_produces_full_scanlines() {
    let mut w = small_world();
    w.add(Shape::plane(0, 0, 1000, -2000), Material::Lambertian(Color::white()));
    let rows = w.render().unwrap();
    assert_eq!(rows.len(), 2);
    for row in &rows {
        assert_eq!(row.len(), 4);
    }
}

#[test]
fn render_pixel_is_deterministic_in_the_jitter() {
    let mut w = small_world();
    w.add(Shape::plane(0, 0, 1000, -2000), Material::Lambertian(Color::white()));
    let mut jitters: Vec<(i64, i64)> = Vec::new();
    for i in 0..SAMPLES_PER_PIXEL {
        let v = (i as i64 * 37) % 900;
        jitters.push((v, (v * 3) % 900));
    }
    let first = w.render_pixel(1, 1, &jitters);
    let second = w.render_pixel(1, 1, &jitters);
    assert!(first.is_ok());
    assert_eq!(first, second);
}

#[test]
fn render_with_jitter_is_deterministic_in_the_grid() {
    let mut w = small_world();
    w.add(Shape::plane(0, 0, 1000, -2000), Material::Lambertian(Color::white()));
    let mut grid: Vec<Vec<Vec<(i64, i64)>>> = Vec::new();
    for yi in 0..2 {
        let mut row = Vec::new();
        for x in 0..4 {
            let mut cell = Vec::new();
            for s in 0..SAMPLES_PER_PIXEL {
                let v = ((yi * 131 + x * 17 + s) as i64 * 53) % 900;
                cell.push((v, (v * 7) % 900));
            }
            row.push(cell);
        }
        grid.push(row);
    }
    let first = w.render_with_jitter(&grid);
    let second = w.render_with_jitter(&grid);
    assert!(first.is_ok());
    assert_eq!(first, second);
}

#[test]
fn single_sample_pixel_renders_one_trace() {
    // a single sample with zero jitter is one deterministic primary ray
    let mut w = small_world();
    w.add(Shape::plane(0, 0, 1000, -2000), Material::Lambertian(Color::white()));
    let jitters = vec![(0i64, 0i64)];
    let first = w.render_pixel(0, 0, &jitters);
    let second = w.render_pixel(0, 0, &jitters);
    assert!(first.is_ok());
    assert_eq!(first, second);
}

#[test]
fn jitter_samples_stay_in_range() {
    for _ in 0..2000 {
        let j = random_jitter();
        assert!((0..JITTER_LIMIT).contains(&j));
    }
}
