//! The scene: an ordered list of surfaces plus one designated light
//! surface. Owns nearest-hit selection, shadow testing, shading and the
//! pixel loop that renders the scene into scanlines of byte colors.

use vstd::prelude::*;
use vstd::arithmetic::div_mod::{
    lemma_div_is_ordered, lemma_div_multiples_vanish, lemma_div_pos_is_pos,
};
use crate::hittable::{
    hittable_wf, shape_wf, spec_hit, spec_shape_normal, spec_shortest_dist, Hittable, Material,
    Shape, Sphere,
};
use crate::math::{div_pos_i64, isqrt_u128, mul_div, mul_div_i64, lemma_mul_div_bounded};
use crate::ray::{ray_wf, Ray};
use crate::vec3::{
    bounded, is_zero, v3_add, v3_dot, v3_mul, v3_scale, v3_sub, spec_normalize, normalize, Vec3,
    V3, COORD_LIMIT, POINT_LIMIT, SCALE,
};

verus! {

/// Hits farther than this fixed-point distance are treated as background.
pub const MAX_DISTANCE: i64 = 30_000;

/// A rendering failure: an empty scene or a degenerate normal query, or a
/// primary ray whose nearest visible surface is the emissive light.
#[derive(Clone, Copy, PartialEq, Eq, Structural, Debug)]
pub enum RenderError {
    DegenerateInput,
    UnreachableMaterial,
}

#[derive(Clone, Debug)]
pub struct World {
    pub hittables: Vec<Hittable>,
    pub width: i32,
    pub sun: Hittable,
}

/// Scene invariant: every surface and the light satisfy the shape and
/// material invariants, the light is a sphere, and the image width is
/// large enough for the pixel mapping to divide by width-1 and height-1.
pub open spec fn world_wf(w: World) -> bool {
    &&& forall|i: int|
        0 <= i < w.hittables@.len() ==> hittable_wf(#[trigger] w.hittables@[i])
    &&& shape_wf(w.sun.shape)
    &&& w.sun.shape is Sphere
    &&& w.sun.material == Material::Light
    &&& 4 <= w.width <= 10_000
}

/// The representative point of the light: the center of its sphere.
pub open spec fn sun_center(w: World) -> V3 {
    w.sun.shape->Sphere_0.c@
}

/// The nearest hit among the first `n` surfaces: minimal reported
/// distance, ties broken by the earlier index.
pub open spec fn spec_nearest_upto(hs: Seq<Hittable>, o: V3, d: V3, n: int) -> Option<(int, int)>
    decreases n,
{
    if n <= 0 {
        Option::None
    } else {
        let prev = spec_nearest_upto(hs, o, d, n - 1);
        match spec_hit(hs[n - 1].shape, o, d) {
            Option::None => prev,
            Option::Some(t) => match prev {
                Option::None => Option::Some((n - 1, t)),
                Option::Some(p) => if t < p.1 {
                    Option::Some((n - 1, t))
                } else {
                    prev
                },
            },
        }
    }
}

pub open spec fn spec_nearest_hit(hs: Seq<Hittable>, o: V3, d: V3) -> Option<(int, int)> {
    spec_nearest_upto(hs, o, d, hs.len() as int)
}

/// Whether any of the surfaces is hit by the ray from `o` along the
/// (normalized) direction `d`.
pub open spec fn spec_occluded(hs: Seq<Hittable>, o: V3, d: V3) -> bool {
    exists|j: int| 0 <= j < hs.len() && spec_hit(#[trigger] hs[j].shape, o, d) is Some
}

/// The index of the surface geometrically closest to `p` among the first
/// `n`, by implicit distance; ties keep the earlier index.
pub open spec fn spec_closest_upto(hs: Seq<Hittable>, p: V3, n: int) -> int
    decreases n,
{
    if n <= 1 {
        0
    } else {
        let prev = spec_closest_upto(hs, p, n - 1);
        if spec_shortest_dist(hs[n - 1].shape, p) < spec_shortest_dist(hs[prev].shape, p) {
            n - 1
        } else {
            prev
        }
    }
}

pub open spec fn spec_index_of_closest(hs: Seq<Hittable>, p: V3) -> int {
    spec_closest_upto(hs, p, hs.len() as int)
}

/// The normal at `p` is well defined unless `p` coincides with the center
/// of the closest surface's sphere.
pub open spec fn spec_normal_ok(hs: Seq<Hittable>, p: V3) -> bool {
    match hs[spec_index_of_closest(hs, p)].shape {
        Shape::Sphere(s) => p != s.c@,
        Shape::Plane(_) => true,
    }
}

/// Bridges the executable option to the mathematical one.
pub open spec fn nearest_matches(r: Option<(usize, i64)>, s: Option<(int, int)>) -> bool {
    &&& r is Some <==> s is Some
    &&& r is Some ==> r->Some_0.0 as int == s->Some_0.0 && r->Some_0.1 as int == s->Some_0.1
}

impl World {
    pub fn new(width: i32) -> (w: World)
        requires
            4 <= width <= 10_000,
        ensures
            w.hittables@.len() == 0,
            w.width == width,
            w.sun == (Hittable {
                shape: Shape::Sphere(
                    Sphere { c: Vec3 { x: 3000, y: 8000, z: 2000 }, r: 1000 },
                ),
                material: Material::Light,
            }),
            world_wf(w),
    {
        let sun = Hittable {
            // default sun
            shape: Shape::sphere(Vec3::new(3000, 8000, 2000), 1000),
            material: Material::Light,
        };
        World { hittables: Vec::new(), width, sun }
    }

    pub fn add(&mut self, shape: Shape, material: Material)
        requires
            shape_wf(shape),
            crate::hittable::material_wf(material),
        ensures
            final(self).hittables@ == old(self).hittables@.push(Hittable { shape, material }),
            final(self).width == old(self).width,
            final(self).sun == old(self).sun,
            world_wf(*old(self)) ==> world_wf(*final(self)),
    {
        self.hittables.push(Hittable::new(shape, material));
        proof {
            if world_wf(*old(self)) {
                let hs = self.hittables@;
                assert forall|i: int| 0 <= i < hs.len() implies hittable_wf(#[trigger] hs[i]) by {
                    if i < hs.len() - 1 {
                        assert(hs[i] == old(self).hittables@[i]);
                        assert(hittable_wf(old(self).hittables@[i]));
                    }
                }
            }
        }
    }

    pub fn set_sun(&mut self, shape: Shape)
        requires
            shape_wf(shape),
            shape is Sphere,
        ensures
            final(self).sun == (Hittable { shape, material: Material::Light }),
            final(self).hittables == old(self).hittables,
            final(self).width == old(self).width,
            world_wf(*old(self)) ==> world_wf(*final(self)),
    {
        self.sun = Hittable { shape, material: Material::Light };
    }

    /// The surface struck first by the ray: the smallest reported hit
    /// distance over all surfaces, earliest index on a tie.
    pub fn nearest_hit(&self, ray: &Ray) -> (r: Option<(usize, i64)>)
        requires
            world_wf(*self),
            ray_wf(*ray),
        ensures
            nearest_matches(r, spec_nearest_hit(self.hittables@, ray.origin@, ray.direction@)),
            r is Some ==> r->Some_0.0 < self.hittables@.len(),
            r is Some ==> 0 <= r->Some_0.1 <= 4_000_000_000_000_000_000,
    {
        let mut best: Option<(usize, i64)> = None;
        let mut i: usize = 0;
        while i < self.hittables.len()
            invariant
                world_wf(*self),
                ray_wf(*ray),
                0 <= i <= self.hittables@.len(),
                nearest_matches(
                    best,
                    spec_nearest_upto(self.hittables@, ray.origin@, ray.direction@, i as int),
                ),
                best is Some ==> best->Some_0.0 < i,
                best is Some ==> 0 <= best->Some_0.1 <= 4_000_000_000_000_000_000,
            decreases self.hittables@.len() - i,
        {
            match self.hittables[i].is_hit(ray) {
                Ok(new_distance) => {
                    match best {
                        Some(pair) => {
                            if new_distance < pair.1 {
                                best = Some((i, new_distance));
                            }
                        },
                        None => {
                            best = Some((i, new_distance));
                        },
                    }
                },
                Err(_) => (),
            }
            i = i + 1;
        }
        best
    }

    /// Whether any surface blocks the ray from `origin` along
    /// `direction`; any positive-distance hit occludes, with no upper
    /// bound on the distance. The designated light is not consulted.
    pub fn is_occluded(&self, origin: &Vec3, direction: &Vec3) -> (r: bool)
        requires
            world_wf(*self),
            bounded(origin@, POINT_LIMIT as int),
            bounded(direction@, crate::vec3::VLEN_LIMIT as int),
            !is_zero(direction@),
        ensures
            r == spec_occluded(self.hittables@, origin@, spec_normalize(direction@)),
    {
        let ray = Ray::new(*origin, *direction);
        let mut i: usize = 0;
        while i < self.hittables.len()
            invariant
                world_wf(*self),
                ray_wf(ray),
                ray.origin@ == origin@,
                ray.direction@ == spec_normalize(direction@),
                0 <= i <= self.hittables@.len(),
                forall|j: int|
                    0 <= j < i ==> !(spec_hit(
                        #[trigger] self.hittables@[j].shape,
                        origin@,
                        spec_normalize(direction@),
                    ) is Some),
            decreases self.hittables@.len() - i,
        {
            match self.hittables[i].is_hit(&ray) {
                Ok(_) => {
                    return true;
                },
                Err(_) => (),
            }
            i = i + 1;
        }
        false
    }

    /// The index of the surface with the smallest implicit distance to
    /// `p`; the scene must hold at least one surface.
    pub fn index_of_closest_hittable(&self, p: &Vec3) -> (r: usize)
        requires
            world_wf(*self),
            self.hittables@.len() >= 1,
            bounded(p@, POINT_LIMIT as int),
        ensures
            r as int == spec_index_of_closest(self.hittables@, p@),
            r < self.hittables@.len(),
    {
        let mut index_closest: usize = 0;
        if self.hittables.len() == 1 {
            return index_closest;
        }
        let mut i: usize = 1;
        while i < self.hittables.len()
            invariant
                world_wf(*self),
                bounded(p@, POINT_LIMIT as int),
                1 <= i <= self.hittables@.len(),
                index_closest < i,
                index_closest as int == spec_closest_upto(self.hittables@, p@, i as int),
            decreases self.hittables@.len() - i,
        {
            if self.hittables[i].shortest_dist(p) < self.hittables[index_closest].shortest_dist(p)
            {
                index_closest = i;
            }
            i = i + 1;
        }
        index_closest
    }

    /// The normal at a bare point, re-deriving which surface owns the
    /// point through the implicit-distance query.
    pub fn get_normal_at_surface_point(&self, p: &Vec3) -> (r: Vec3)
        requires
            world_wf(*self),
            self.hittables@.len() >= 1,
            bounded(p@, POINT_LIMIT as int),
            spec_normal_ok(self.hittables@, p@),
        ensures
            r@ == spec_shape_normal(
                self.hittables@[spec_index_of_closest(self.hittables@, p@)].shape,
                p@,
            ),
            bounded(r@, SCALE as int),
            v3_dot(r@, r@) >= 250_000,
    {
        let index_to_closest = self.index_of_closest_hittable(p);
        let closest_hittable = &self.hittables[index_to_closest];
        closest_hittable.get_normal(p)
    }
}

/// What the shading step returns at point `p`: black when the surface
/// faces away from the light or the light is blocked, else white scaled
/// by the Lambert term.
pub open spec fn spec_reflection(hs: Seq<Hittable>, sun_c: V3, p: V3) -> V3 {
    let dir = spec_normalize(v3_sub(sun_c, p));
    let n = spec_shape_normal(hs[spec_index_of_closest(hs, p)].shape, p);
    let dp = v3_dot(n, dir);
    if dp < 0 {
        V3 { x: 0, y: 0, z: 0 }
    } else {
        let col = v3_scale(V3 { x: 1000, y: 1000, z: 1000 }, dp / SCALE as int);
        if spec_occluded(hs, p, spec_normalize(dir)) {
            V3 { x: 0, y: 0, z: 0 }
        } else {
            col
        }
    }
}

/// What tracing one ray returns: background black on a miss or a hit
/// beyond MAX_DISTANCE; otherwise the shaded, albedo-tinted color with a
/// linear distance falloff. An empty scene and a degenerate normal query
/// are reported; so is an emissive surface as the nearest visible hit.
pub open spec fn spec_ray_trace(hs: Seq<Hittable>, sun_c: V3, o: V3, d: V3) -> Result<
    V3,
    RenderError,
> {
    if hs.len() == 0 {
        Result::Err(RenderError::DegenerateInput)
    } else {
        match spec_nearest_hit(hs, o, d) {
            Option::None => Result::Ok(V3 { x: 0, y: 0, z: 0 }),
            Option::Some(pr) => {
                if pr.1 > MAX_DISTANCE {
                    Result::Ok(V3 { x: 0, y: 0, z: 0 })
                } else {
                    match hs[pr.0].material {
                        Material::Light => Result::Err(RenderError::UnreachableMaterial),
                        Material::Lambertian(alb) => {
                            let hp = v3_add(o, v3_scale(d, mul_div(pr.1, 99, 100)));
                            if hp == sun_c || !spec_normal_ok(hs, hp) {
                                Result::Err(RenderError::DegenerateInput)
                            } else {
                                let col = v3_mul(spec_reflection(hs, sun_c, hp), alb@);
                                let falloff = SCALE - mul_div(pr.1, SCALE as int, MAX_DISTANCE as int);
                                Result::Ok(v3_scale(col, falloff))
                            }
                        },
                    }
                }
            },
        }
    }
}

/// Bridges the executable result to the mathematical one.
pub open spec fn trace_matches(r: Result<Vec3, RenderError>, s: Result<V3, RenderError>) -> bool {
    &&& r is Ok <==> s is Ok
    &&& r is Ok ==> r->Ok_0@ == s->Ok_0
    &&& r is Err ==> r->Err_0 == s->Err_0
}

impl World {
    /// Direct lighting at the point `p`: the Lambert term toward the
    /// light, zeroed when the surface faces away or the light is blocked.
    pub fn reflection(&self, p: &Vec3) -> (r: Vec3)
        requires
            world_wf(*self),
            self.hittables@.len() >= 1,
            bounded(p@, POINT_LIMIT as int),
            p@ != sun_center(*self),
            spec_normal_ok(self.hittables@, p@),
        ensures
            r@ == spec_reflection(self.hittables@, sun_center(*self), p@),
            0 <= r@.x <= 3000,
            0 <= r@.y <= 3000,
            0 <= r@.z <= 3000,
    {
        let dir_to_sun = match &self.sun.shape {
            Shape::Plane(_) => {
                // excluded by the precondition: the light is a sphere
                Vec3::new(0, 0, 1000)
            },
            Shape::Sphere(sphere) => {
                let diff = sphere.c.sub(p);
                proof {
                    if is_zero(diff@) {
                        assert(p@ == sun_center(*self));
                    }
                }
                normalize(&diff)
            },
        };
        let normal = self.get_normal_at_surface_point(p);
        let dot_prod: i64 = normal.dot(&dir_to_sun);
        proof {
            crate::hittable::lemma_dot_bounds(normal@, dir_to_sun@, SCALE as int, SCALE as int);
        }
        if dot_prod < 0 {
            return Vec3::black();
        }
        let lambert: i64 = div_pos_i64(dot_prod, SCALE);
        proof {
            lemma_div_is_ordered(dot_prod as int, 3_000_000, SCALE as int);
            lemma_div_multiples_vanish(lambert as int, SCALE as int);
        }
        let col = Vec3::white().scale(lambert);
        // check if the light is blocked by any surface
        if self.is_occluded(p, &dir_to_sun) {
            return Vec3::black();
        }
        col
    }

    /// Trace one primary ray to a color, or report why it cannot be
    /// shaded. The ray origin must lie within the scene data bound.
    pub fn ray_trace(&self, ray: Ray) -> (r: Result<Vec3, RenderError>)
        requires
            world_wf(*self),
            ray_wf(ray),
            bounded(ray.origin@, COORD_LIMIT as int),
        ensures
            trace_matches(
                r,
                spec_ray_trace(self.hittables@, sun_center(*self), ray.origin@, ray.direction@),
            ),
            r is Ok ==> 0 <= r->Ok_0@.x <= 300_000_000 && 0 <= r->Ok_0@.y <= 300_000_000 && 0
                <= r->Ok_0@.z <= 300_000_000,
    {
        if self.hittables.len() == 0 {
            return Err(RenderError::DegenerateInput);
        }
        let nh = self.nearest_hit(&ray);
        match nh {
            None => Ok(Vec3::black()),
            Some((index_closest, d)) => {
                if d > MAX_DISTANCE {
                    return Ok(Vec3::black());
                }
                let albedo: Vec3 = match &self.hittables[index_closest].material {
                    Material::Light => {
                        return Err(RenderError::UnreachableMaterial);
                    },
                    Material::Lambertian(col) => *col,
                };
                let pulled: i64 = mul_div_i64(d, 99, 100);
                proof {
                    crate::math::lemma_mul_div_nonneg(d as int, 99, 100);
                    lemma_mul_div_bounded(d as int, 99, 100, MAX_DISTANCE as int);
                    lemma_step_bound(ray.direction@.x, pulled as int);
                    lemma_step_bound(ray.direction@.y, pulled as int);
                    lemma_step_bound(ray.direction@.z, pulled as int);
                }
                let hit_point = ray.scale(pulled);
                let sun_vec: Vec3 = match &self.sun.shape {
                    Shape::Sphere(s) => s.c,
                    Shape::Plane(_) => {
                        // excluded by the invariant: the light is a sphere
                        Vec3::new(0, 0, 0)
                    },
                };
                if hit_point == sun_vec {
                    return Err(RenderError::DegenerateInput);
                }
                let ci = self.index_of_closest_hittable(&hit_point);
                let center_clash: bool = match &self.hittables[ci].shape {
                    Shape::Sphere(s) => hit_point == s.c,
                    Shape::Plane(_) => false,
                };
                if center_clash {
                    return Err(RenderError::DegenerateInput);
                }
                let refl = self.reflection(&hit_point);
                proof {
                    lemma_tint_bound(refl@.x, albedo@.x);
                    lemma_tint_bound(refl@.y, albedo@.y);
                    lemma_tint_bound(refl@.z, albedo@.z);
                }
                let col = refl.mul(&albedo);
                let fall_part: i64 = mul_div_i64(d, SCALE, MAX_DISTANCE);
                proof {
                    crate::math::lemma_mul_div_nonneg(d as int, SCALE as int, MAX_DISTANCE as int);
                    lemma_mul_div_bounded(d as int, SCALE as int, MAX_DISTANCE as int, SCALE as int);
                    lemma_fade_bound(col@.x, (SCALE - fall_part) as int);
                    lemma_fade_bound(col@.y, (SCALE - fall_part) as int);
                    lemma_fade_bound(col@.z, (SCALE - fall_part) as int);
                }
                let fall: i64 = SCALE - fall_part;
                Ok(col.scale(fall))
            },
        }
    }
}

/// Samples drawn per pixel by `render`.
pub const SAMPLES_PER_PIXEL: usize = 20;

/// Width of the viewport in fixed-point units (4.0 real units).
pub const U_RANGE: i64 = 4000;

/// Height of the viewport: U_RANGE over the 16:9 aspect ratio.
pub const V_RANGE: i64 = 2250;

/// The camera sits at (0, 0, 10) looking down the negative z axis.
pub const CAMERA_Z: i64 = 10_000;

/// Image height for a given width under the 16:9 aspect ratio.
pub open spec fn spec_height(width: int) -> int {
    width * 9 / 16
}

/// One jittered camera sample: map the pixel plus jitter to a point on
/// the viewport plane at z = -1, aim a ray from the camera through it,
/// and trace.
pub open spec fn spec_sample_color(
    hs: Seq<Hittable>,
    sun_c: V3,
    width: int,
    x: int,
    y: int,
    jx: int,
    jy: int,
) -> Result<V3, RenderError> {
    let hgt = spec_height(width);
    let ufp = (x * SCALE + jx) / (width - 1);
    let vfp = (y * SCALE + jy) / (hgt - 1);
    let uv = V3 {
        x: -2000 + mul_div(ufp, U_RANGE as int, SCALE as int),
        y: -1125 + mul_div(vfp, V_RANGE as int, SCALE as int),
        z: -(SCALE as int),
    };
    let camera = V3 { x: 0, y: 0, z: CAMERA_Z as int };
    spec_ray_trace(hs, sun_c, camera, spec_normalize(v3_sub(uv, camera)))
}

pub open spec fn jitters_view(js: Seq<(i64, i64)>) -> Seq<(int, int)> {
    js.map_values(|p: (i64, i64)| (p.0 as int, p.1 as int))
}

/// The summed color of a pixel over a sequence of jittered samples; the
/// first failing sample reports its error.
pub open spec fn spec_pixel_color(
    hs: Seq<Hittable>,
    sun_c: V3,
    width: int,
    x: int,
    y: int,
    js: Seq<(int, int)>,
) -> Result<V3, RenderError>
    decreases js.len(),
{
    if js.len() <= 0 {
        Result::Ok(V3 { x: 0, y: 0, z: 0 })
    } else {
        match spec_pixel_color(hs, sun_c, width, x, y, js.drop_last()) {
            Result::Err(e) => Result::Err(e),
            Result::Ok(acc) => match spec_sample_color(
                hs,
                sun_c,
                width,
                x,
                y,
                js.last().0,
                js.last().1,
            ) {
                Result::Err(e) => Result::Err(e),
                Result::Ok(c) => Result::Ok(v3_add(acc, c)),
            },
        }
    }
}

/// Gamma correction and byte conversion of one averaged color component:
/// the square root of the sample average, scaled to the byte range.
pub open spec fn spec_gamma_byte(sum: int, n: int) -> int {
    let avg = sum / n;
    let g = crate::math::spec_isqrt(avg * SCALE);
    let b = g * 255_999 / 1_000_000;
    if b > 255 {
        255
    } else {
        b
    }
}

#[derive(Clone, Copy, PartialEq, Eq, Structural, Debug)]
pub struct Rgb {
    pub r: u8,
    pub g: u8,
    pub b: u8,
}

/// The finished byte color of a pixel: samples averaged under the gamma
/// transform, componentwise.
pub open spec fn spec_render_pixel(
    hs: Seq<Hittable>,
    sun_c: V3,
    width: int,
    x: int,
    y: int,
    js: Seq<(int, int)>,
) -> Result<Rgb, RenderError> {
    match spec_pixel_color(hs, sun_c, width, x, y, js) {
        Result::Err(e) => Result::Err(e),
        Result::Ok(c) => Result::Ok(
            Rgb {
                r: spec_gamma_byte(c.x, js.len() as int) as u8,
                g: spec_gamma_byte(c.y, js.len() as int) as u8,
                b: spec_gamma_byte(c.z, js.len() as int) as u8,
            },
        ),
    }
}

/// The gamma byte always lands in the byte range.
pub proof fn lemma_gamma_byte_range(sum: int, n: int)
    requires
        0 <= sum,
        1 <= n,
    ensures
        0 <= spec_gamma_byte(sum, n) <= 255,
{
    lemma_div_pos_is_pos(sum, n);
    crate::math::lemma_isqrt_props(sum / n * SCALE);
    lemma_div_pos_is_pos(crate::math::spec_isqrt(sum / n * SCALE) * 255_999, 1_000_000);
}

impl World {
    fn image_height(&self) -> (h: i32)
        requires
            world_wf(*self),
        ensures
            h as int == spec_height(self.width as int),
            2 <= h <= 5625,
    {
        ((self.width as u32) * 9 / 16) as i32
    }

    /// Trace one jittered camera sample for pixel (x, y).
    pub fn sample_color(&self, x: i32, y: i32, jx: i64, jy: i64) -> (r: Result<
        Vec3,
        RenderError,
    >)
        requires
            world_wf(*self),
            0 <= x < self.width,
            0 <= y < spec_height(self.width as int),
            0 <= jx < 900,
            0 <= jy < 900,
        ensures
            trace_matches(
                r,
                spec_sample_color(
                    self.hittables@,
                    sun_center(*self),
                    self.width as int,
                    x as int,
                    y as int,
                    jx as int,
                    jy as int,
                ),
            ),
            r is Ok ==> 0 <= r->Ok_0@.x <= 300_000_000 && 0 <= r->Ok_0@.y <= 300_000_000 && 0
                <= r->Ok_0@.z <= 300_000_000,
    {
        let hgt = self.image_height();
        let ufp: i64 = div_pos_i64((x as i64) * SCALE + jx, (self.width as i64) - 1);
        let vfp: i64 = div_pos_i64((y as i64) * SCALE + jy, (hgt as i64) - 1);
        proof {
            crate::math::lemma_mul_div_nonneg(ufp as int, U_RANGE as int, SCALE as int);
            lemma_mul_div_bounded(ufp as int, U_RANGE as int, SCALE as int, 44_000_000);
            crate::math::lemma_mul_div_nonneg(vfp as int, V_RANGE as int, SCALE as int);
            lemma_mul_div_bounded(vfp as int, V_RANGE as int, SCALE as int, 44_000_000);
        }
        let uv = Vec3::new(
            -2000 + mul_div_i64(ufp, U_RANGE, SCALE),
            -1125 + mul_div_i64(vfp, V_RANGE, SCALE),
            -SCALE,
        );
        let camera = Vec3::new(0, 0, CAMERA_Z);
        let rdir = uv.sub(&camera);
        let ray = Ray::new(camera, rdir);
        self.ray_trace(ray)
    }

    /// The summed color of pixel (x, y) over the given jitter samples.
    pub fn pixel_color(&self, x: i32, y: i32, jitters: &Vec<(i64, i64)>) -> (r: Result<
        Vec3,
        RenderError,
    >)
        requires
            world_wf(*self),
            0 <= x < self.width,
            0 <= y < spec_height(self.width as int),
            jitters@.len() <= 1000,
            forall|s: int|
                0 <= s < jitters@.len() ==> 0 <= (#[trigger] jitters@[s]).0 < 900 && 0
                    <= jitters@[s].1 < 900,
        ensures
            trace_matches(
                r,
                spec_pixel_color(
                    self.hittables@,
                    sun_center(*self),
                    self.width as int,
                    x as int,
                    y as int,
                    jitters_view(jitters@),
                ),
            ),
            r is Ok ==> 0 <= r->Ok_0@.x <= 300_000_000 * jitters@.len() && 0 <= r->Ok_0@.y
                <= 300_000_000 * jitters@.len() && 0 <= r->Ok_0@.z <= 300_000_000
                * jitters@.len(),
    {
        let ghost jv = jitters_view(jitters@);
        let mut color = Vec3::black();
        let mut s: usize = 0;
        proof {
            assert(jv.take(0) =~= Seq::<(int, int)>::empty());
        }
        while s < jitters.len()
            invariant
                world_wf(*self),
                0 <= x < self.width,
                0 <= y < spec_height(self.width as int),
                jitters@.len() <= 1000,
                forall|q: int|
                    0 <= q < jitters@.len() ==> 0 <= (#[trigger] jitters@[q]).0 < 900 && 0
                        <= jitters@[q].1 < 900,
                jv == jitters_view(jitters@),
                0 <= s <= jitters@.len(),
                spec_pixel_color(
                    self.hittables@,
                    sun_center(*self),
                    self.width as int,
                    x as int,
                    y as int,
                    jv.take(s as int),
                ) == Result::<V3, RenderError>::Ok(color@),
                0 <= color@.x <= 300_000_000 * s,
                0 <= color@.y <= 300_000_000 * s,
                0 <= color@.z <= 300_000_000 * s,
            decreases jitters@.len() - s,
        {
            let pair = jitters[s];
            let sample = self.sample_color(x, y, pair.0, pair.1);
            proof {
                assert(jv[s as int] == (pair.0 as int, pair.1 as int));
                assert(jv.take(s as int + 1).drop_last() =~= jv.take(s as int));
                assert(jv.take(s as int + 1).last() == jv[s as int]);
            }
            match sample {
                Ok(c) => {
                    color = color.add(&c);
                },
                Err(e) => {
                    proof {
                        lemma_pixel_err_persists(
                            self.hittables@,
                            sun_center(*self),
                            self.width as int,
                            x as int,
                            y as int,
                            jv,
                            s as int + 1,
                        );
                    }
                    return Err(e);
                },
            }
            s = s + 1;
        }
        proof {
            assert(jv.take(jitters@.len() as int) =~= jv);
        }
        Ok(color)
    }

    /// The finished byte color of pixel (x, y) over the given jitters:
    /// the sample average, gamma corrected and scaled to bytes.
    pub fn render_pixel(&self, x: i32, y: i32, jitters: &Vec<(i64, i64)>) -> (r: Result<
        Rgb,
        RenderError,
    >)
        requires
            world_wf(*self),
            0 <= x < self.width,
            0 <= y < spec_height(self.width as int),
            1 <= jitters@.len() <= 1000,
            forall|s: int|
                0 <= s < jitters@.len() ==> 0 <= (#[trigger] jitters@[s]).0 < 900 && 0
                    <= jitters@[s].1 < 900,
        ensures
            r == spec_render_pixel(
                self.hittables@,
                sun_center(*self),
                self.width as int,
                x as int,
                y as int,
                jitters_view(jitters@),
            ),
    {
        let n: i64 = jitters.len() as i64;
        match self.pixel_color(x, y, jitters) {
            Err(e) => Err(e),
            Ok(c) => {
                proof {
                    lemma_gamma_byte_range(c@.x, n as int);
                    lemma_gamma_byte_range(c@.y, n as int);
                    lemma_gamma_byte_range(c@.z, n as int);
                }
                Ok(
                    Rgb {
                        r: gamma_byte(c.x, n),
                        g: gamma_byte(c.y, n),
                        b: gamma_byte(c.z, n),
                    },
                )
            },
        }
    }
}

pub open spec fn row_view(rj: Seq<Vec<(i64, i64)>>) -> Seq<Seq<(int, int)>> {
    rj.map_values(|cell: Vec<(i64, i64)>| jitters_view(cell@))
}

pub open spec fn grid_view(g: Seq<Vec<Vec<(i64, i64)>>>) -> Seq<Seq<Seq<(int, int)>>> {
    g.map_values(|row: Vec<Vec<(i64, i64)>>| row_view(row@))
}

/// Bridges one executable scanline to the mathematical one.
pub open spec fn row_matches(r: Result<Vec<Rgb>, RenderError>, s: Result<Seq<Rgb>, RenderError>) -> bool {
    &&& r is Ok <==> s is Ok
    &&& r is Ok ==> r->Ok_0@ == s->Ok_0
    &&& r is Err ==> r->Err_0 == s->Err_0
}

/// A jitter grid fit for rendering: one cell of SAMPLES_PER_PIXEL
/// in-range jitter pairs for every pixel of the image.
pub open spec fn grid_ok(g: Seq<Seq<Seq<(int, int)>>>, width: int) -> bool {
    &&& g.len() == spec_height(width)
    &&& forall|yi: int| 0 <= yi < g.len() ==> (#[trigger] g[yi]).len() == width
    &&& forall|yi: int, x: int|
        0 <= yi < g.len() && 0 <= x < width ==> (#[trigger] g[yi][x]).len()
            == SAMPLES_PER_PIXEL
    &&& forall|yi: int, x: int, s: int|
        0 <= yi < g.len() && 0 <= x < width && 0 <= s < SAMPLES_PER_PIXEL ==> 0 <= (
        #[trigger] g[yi][x][s]).0 < 900 && 0 <= g[yi][x][s].1 < 900
}

/// The first `k` pixels of the scanline at row `y`, left to right; the
/// first failing pixel reports its error.
pub open spec fn spec_render_row(
    hs: Seq<Hittable>,
    sun_c: V3,
    width: int,
    y: int,
    cells: Seq<Seq<(int, int)>>,
    k: int,
) -> Result<Seq<Rgb>, RenderError>
    decreases k,
{
    if k <= 0 {
        Result::Ok(Seq::empty())
    } else {
        match spec_render_row(hs, sun_c, width, y, cells, k - 1) {
            Result::Err(e) => Result::Err(e),
            Result::Ok(s) => match spec_render_pixel(hs, sun_c, width, k - 1, y, cells[k - 1]) {
                Result::Err(e) => Result::Err(e),
                Result::Ok(p) => Result::Ok(s.push(p)),
            },
        }
    }
}

/// The first `m` scanlines, top row first: row index `yi` holds the
/// pixel row `spec_height(width) - 1 - yi`.
pub open spec fn spec_render_rows(
    hs: Seq<Hittable>,
    sun_c: V3,
    width: int,
    grid: Seq<Seq<Seq<(int, int)>>>,
    m: int,
) -> Result<Seq<Seq<Rgb>>, RenderError>
    decreases m,
{
    if m <= 0 {
        Result::Ok(Seq::empty())
    } else {
        match spec_render_rows(hs, sun_c, width, grid, m - 1) {
            Result::Err(e) => Result::Err(e),
            Result::Ok(rs) => match spec_render_row(
                hs,
                sun_c,
                width,
                spec_height(width) - m,
                grid[m - 1],
                width,
            ) {
                Result::Err(e) => Result::Err(e),
                Result::Ok(row) => Result::Ok(rs.push(row)),
            },
        }
    }
}

/// The whole image for a given jitter grid.
pub open spec fn spec_render(
    hs: Seq<Hittable>,
    sun_c: V3,
    width: int,
    grid: Seq<Seq<Seq<(int, int)>>>,
) -> Result<Seq<Seq<Rgb>>, RenderError> {
    spec_render_rows(hs, sun_c, width, grid, spec_height(width))
}

/// Bridges the executable scanlines to the mathematical ones.
pub open spec fn render_matches(
    r: Result<Vec<Vec<Rgb>>, RenderError>,
    s: Result<Seq<Seq<Rgb>>, RenderError>,
) -> bool {
    &&& r is Ok <==> s is Ok
    &&& r is Ok ==> r->Ok_0@.len() == s->Ok_0.len()
    &&& r is Ok ==> forall|i: int|
        0 <= i < s->Ok_0.len() ==> (#[trigger] r->Ok_0@[i])@ == s->Ok_0[i]
    &&& r is Err ==> r->Err_0 == s->Err_0
}

/// Once a pixel fails, the whole scanline reports the same failure.
proof fn lemma_row_err_persists(
    hs: Seq<Hittable>,
    sun_c: V3,
    width: int,
    y: int,
    cells: Seq<Seq<(int, int)>>,
    k: int,
)
    requires
        0 <= k <= width,
        spec_render_row(hs, sun_c, width, y, cells, k) is Err,
    ensures
        spec_render_row(hs, sun_c, width, y, cells, width) == spec_render_row(
            hs,
            sun_c,
            width,
            y,
            cells,
            k,
        ),
    decreases width - k,
{
    if k < width {
        lemma_row_err_persists(hs, sun_c, width, y, cells, k + 1);
    }
}

/// Once a scanline fails, the whole image reports the same failure.
proof fn lemma_rows_err_persists(
    hs: Seq<Hittable>,
    sun_c: V3,
    width: int,
    grid: Seq<Seq<Seq<(int, int)>>>,
    m: int,
)
    requires
        0 <= m <= spec_height(width),
        spec_render_rows(hs, sun_c, width, grid, m) is Err,
    ensures
        spec_render(hs, sun_c, width, grid) == spec_render_rows(hs, sun_c, width, grid, m),
    decreases spec_height(width) - m,
{
    if m < spec_height(width) {
        lemma_rows_err_persists(hs, sun_c, width, grid, m + 1);
    }
}

/// A finished scanline holds one pixel per column.
proof fn lemma_row_ok_len(
    hs: Seq<Hittable>,
    sun_c: V3,
    width: int,
    y: int,
    cells: Seq<Seq<(int, int)>>,
    k: int,
)
    requires
        0 <= k,
        spec_render_row(hs, sun_c, width, y, cells, k) is Ok,
    ensures
        spec_render_row(hs, sun_c, width, y, cells, k)->Ok_0.len() == k,
    decreases k,
{
    if k > 0 {
        lemma_row_ok_len(hs, sun_c, width, y, cells, k - 1);
    }
}

/// A finished image holds one scanline per row, each of full width.
proof fn lemma_rows_ok_shape(
    hs: Seq<Hittable>,
    sun_c: V3,
    width: int,
    grid: Seq<Seq<Seq<(int, int)>>>,
    m: int,
)
    requires
        0 <= m,
        0 <= width,
        spec_render_rows(hs, sun_c, width, grid, m) is Ok,
    ensures
        spec_render_rows(hs, sun_c, width, grid, m)->Ok_0.len() == m,
        forall|i: int|
            0 <= i < m ==> (#[trigger] spec_render_rows(hs, sun_c, width, grid, m)->Ok_0[i]).len()
                == width,
    decreases m,
{
    if m > 0 {
        lemma_rows_ok_shape(hs, sun_c, width, grid, m - 1);
        lemma_row_ok_len(hs, sun_c, width, spec_height(width) - m, grid[m - 1], width);
    }
}

impl World {
    /// Render one scanline at pixel row `y` with the supplied jitter
    /// cells, one cell per column.
    pub fn render_row(&self, y: i32, row_jitters: &Vec<Vec<(i64, i64)>>) -> (r: Result<
        Vec<Rgb>,
        RenderError,
    >)
        requires
            world_wf(*self),
            0 <= y < spec_height(self.width as int),
            row_jitters@.len() == self.width as int,
            forall|b: int|
                0 <= b < row_jitters@.len() ==> (#[trigger] row_jitters@[b])@.len()
                    == SAMPLES_PER_PIXEL,
            forall|b: int, c: int|
                0 <= b < row_jitters@.len() && 0 <= c < SAMPLES_PER_PIXEL ==> 0 <= (
                #[trigger] row_jitters@[b]@[c]).0 < 900 && 0 <= row_jitters@[b]@[c].1 < 900,
        ensures
            row_matches(
                r,
                spec_render_row(
                    self.hittables@,
                    sun_center(*self),
                    self.width as int,
                    y as int,
                    row_view(row_jitters@),
                    self.width as int,
                ),
            ),
    {
        let ghost hs = self.hittables@;
        let ghost sun_c = sun_center(*self);
        let ghost w = self.width as int;
        let ghost cells = row_view(row_jitters@);
        let mut row: Vec<Rgb> = Vec::new();
        let mut x: i32 = 0;
        while x < self.width
            invariant
                world_wf(*self),
                hs == self.hittables@,
                sun_c == sun_center(*self),
                w == self.width as int,
                cells == row_view(row_jitters@),
                0 <= y < spec_height(w),
                row_jitters@.len() == w,
                forall|b: int|
                    0 <= b < row_jitters@.len() ==> (#[trigger] row_jitters@[b])@.len()
                        == SAMPLES_PER_PIXEL,
                forall|b: int, c: int|
                    0 <= b < row_jitters@.len() && 0 <= c < SAMPLES_PER_PIXEL ==> 0 <= (
                    #[trigger] row_jitters@[b]@[c]).0 < 900 && 0 <= row_jitters@[b]@[c].1 < 900,
                0 <= x <= w,
                spec_render_row(hs, sun_c, w, y as int, cells, x as int) is Ok,
                spec_render_row(hs, sun_c, w, y as int, cells, x as int)->Ok_0 == row@,
            decreases self.width - x,
        {
            let cell = &row_jitters[x as usize];
            proof {
                assert(cells[x as int] == jitters_view(cell@));
                assert forall|s: int| 0 <= s < cell@.len() implies 0 <= (#[trigger] cell@[s]).0
                    < 900 && 0 <= cell@[s].1 < 900 by {
                    assert(cell@[s] == row_jitters@[x as int]@[s]);
                }
            }
            match self.render_pixel(x, y, cell) {
                Ok(px) => {
                    row.push(px);
                },
                Err(e) => {
                    proof {
                        assert(spec_render_row(hs, sun_c, w, y as int, cells, x as int + 1)
                            == Result::<Seq<Rgb>, RenderError>::Err(e));
                        lemma_row_err_persists(hs, sun_c, w, y as int, cells, x as int + 1);
                    }
                    return Err(e);
                },
            }
            x = x + 1;
        }
        Ok(row)
    }

    /// Render the whole image with an explicitly supplied jitter grid;
    /// the result is a function of the scene and the grid alone.
    pub fn render_with_jitter(&self, jitters: &Vec<Vec<Vec<(i64, i64)>>>) -> (r: Result<
        Vec<Vec<Rgb>>,
        RenderError,
    >)
        requires
            world_wf(*self),
            jitters@.len() == spec_height(self.width as int),
            forall|yi: int|
                0 <= yi < jitters@.len() ==> (#[trigger] jitters@[yi])@.len() == self.width as int,
            forall|yi: int, x: int|
                0 <= yi < jitters@.len() && 0 <= x < self.width ==> (
                #[trigger] jitters@[yi]@[x])@.len() == SAMPLES_PER_PIXEL,
            forall|yi: int, x: int, s: int|
                0 <= yi < jitters@.len() && 0 <= x < self.width && 0 <= s < SAMPLES_PER_PIXEL
                    ==> 0 <= (#[trigger] jitters@[yi]@[x]@[s]).0 < 900 && 0
                    <= jitters@[yi]@[x]@[s].1 < 900,
        ensures
            render_matches(
                r,
                spec_render(
                    self.hittables@,
                    sun_center(*self),
                    self.width as int,
                    grid_view(jitters@),
                ),
            ),
    {
        let ghost gv = grid_view(jitters@);
        let ghost hs = self.hittables@;
        let ghost sun_c = sun_center(*self);
        let ghost w = self.width as int;
        let hgt = self.image_height();
        let mut rows: Vec<Vec<Rgb>> = Vec::new();
        let mut yi: i32 = 0;
        while yi < hgt
            invariant
                world_wf(*self),
                gv == grid_view(jitters@),
                hs == self.hittables@,
                sun_c == sun_center(*self),
                w == self.width as int,
                hgt as int == spec_height(w),
                jitters@.len() == spec_height(w),
                forall|a: int|
                    0 <= a < jitters@.len() ==> (#[trigger] jitters@[a])@.len() == w,
                forall|a: int, b: int|
                    0 <= a < jitters@.len() && 0 <= b < w ==> (#[trigger] jitters@[a]@[b])@.len()
                        == SAMPLES_PER_PIXEL,
                forall|a: int, b: int, c: int|
                    0 <= a < jitters@.len() && 0 <= b < w && 0 <= c < SAMPLES_PER_PIXEL ==> 0 <= (
                    #[trigger] jitters@[a]@[b]@[c]).0 < 900 && 0 <= jitters@[a]@[b]@[c].1 < 900,
                0 <= yi <= hgt,
                spec_render_rows(hs, sun_c, w, gv, yi as int) is Ok,
                rows@.len() == yi as int,
                spec_render_rows(hs, sun_c, w, gv, yi as int)->Ok_0.len() == yi as int,
                forall|i: int|
                    0 <= i < yi as int ==> (#[trigger] rows@[i])@ == spec_render_rows(
                        hs,
                        sun_c,
                        w,
                        gv,
                        yi as int,
                    )->Ok_0[i],
            decreases hgt - yi,
        {
            let y: i32 = hgt - 1 - yi;
            let row_jitters = &jitters[yi as usize];
            proof {
                assert(gv[yi as int] == row_view(row_jitters@));
                assert forall|b: int| 0 <= b < row_jitters@.len() implies (
                #[trigger] row_jitters@[b])@.len() == SAMPLES_PER_PIXEL by {
                    assert(row_jitters@[b] == jitters@[yi as int]@[b]);
                }
                assert forall|b: int, c: int|
                    0 <= b < row_jitters@.len() && 0 <= c < SAMPLES_PER_PIXEL implies 0 <= (
                #[trigger] row_jitters@[b]@[c]).0 < 900 && 0 <= row_jitters@[b]@[c].1 < 900 by {
                    assert(row_jitters@[b] == jitters@[yi as int]@[b]);
                }
            }
            match self.render_row(y, row_jitters) {
                Ok(row) => {
                    rows.push(row);
                },
                Err(e) => {
                    proof {
                        assert(y as int == spec_height(w) - (yi as int + 1));
                        assert(spec_render_rows(hs, sun_c, w, gv, yi as int + 1)
                            == Result::<Seq<Seq<Rgb>>, RenderError>::Err(e));
                        lemma_rows_err_persists(hs, sun_c, w, gv, yi as int + 1);
                    }
                    return Err(e);
                },
            }
            yi = yi + 1;
        }
        Ok(rows)
    }

    /// Render the whole image, drawing fresh jitter for every sample:
    /// scanlines of byte colors, top image row first. An empty scene is
    /// reported as degenerate input before any pixel is produced.
    pub fn render(&self) -> (r: Result<Vec<Vec<Rgb>>, RenderError>)
        requires
            world_wf(*self),
        ensures
            self.hittables@.len() == 0 ==> r is Err && r->Err_0 == RenderError::DegenerateInput,
            self.hittables@.len() > 0 ==> exists|g: Seq<Seq<Seq<(int, int)>>>|
                #[trigger] grid_ok(g, self.width as int) && render_matches(
                    r,
                    spec_render(self.hittables@, sun_center(*self), self.width as int, g),
                ),
            r is Ok ==> r->Ok_0@.len() == spec_height(self.width as int),
            r is Ok ==> forall|i: int|
                0 <= i < r->Ok_0@.len() ==> (#[trigger] r->Ok_0@[i])@.len() == self.width as int,
    {
        if self.hittables.len() == 0 {
            return Err(RenderError::DegenerateInput);
        }
        let hgt = self.image_height();
        let mut grid: Vec<Vec<Vec<(i64, i64)>>> = Vec::new();
        let mut yi: i32 = 0;
        while yi < hgt
            invariant
                4 <= self.width <= 10_000,
                2 <= hgt <= 5625,
                0 <= yi <= hgt,
                grid@.len() == yi as int,
                forall|a: int|
                    0 <= a < grid@.len() ==> (#[trigger] grid@[a])@.len() == self.width as int,
                forall|a: int, b: int|
                    0 <= a < grid@.len() && 0 <= b < self.width ==> (
                    #[trigger] grid@[a]@[b])@.len() == SAMPLES_PER_PIXEL,
                forall|a: int, b: int, c: int|
                    0 <= a < grid@.len() && 0 <= b < self.width && 0 <= c < SAMPLES_PER_PIXEL
                        ==> 0 <= (#[trigger] grid@[a]@[b]@[c]).0 < 900 && 0
                        <= grid@[a]@[b]@[c].1 < 900,
            decreases hgt - yi,
        {
            let mut grow: Vec<Vec<(i64, i64)>> = Vec::new();
            let mut x: i32 = 0;
            while x < self.width
                invariant
                    4 <= self.width <= 10_000,
                    0 <= x <= self.width,
                    grow@.len() == x as int,
                    forall|b: int|
                        0 <= b < grow@.len() ==> (#[trigger] grow@[b])@.len()
                            == SAMPLES_PER_PIXEL,
                    forall|b: int, c: int|
                        0 <= b < grow@.len() && 0 <= c < SAMPLES_PER_PIXEL ==> 0 <= (
                        #[trigger] grow@[b]@[c]).0 < 900 && 0 <= grow@[b]@[c].1 < 900,
                decreases self.width - x,
            {
                let mut cell: Vec<(i64, i64)> = Vec::new();
                let mut s: usize = 0;
                while s < SAMPLES_PER_PIXEL
                    invariant
                        0 <= s <= SAMPLES_PER_PIXEL,
                        cell@.len() == s as int,
                        forall|c: int|
                            0 <= c < cell@.len() ==> 0 <= (#[trigger] cell@[c]).0 < 900 && 0
                                <= cell@[c].1 < 900,
                    decreases SAMPLES_PER_PIXEL - s,
                {
                    let jx = crate::sampling::random_jitter();
                    let jy = crate::sampling::random_jitter();
                    cell.push((jx, jy));
                    s = s + 1;
                }
                grow.push(cell);
                x = x + 1;
            }
            grid.push(grow);
            yi = yi + 1;
        }
        let r = self.render_with_jitter(&grid);
        proof {
            let gv = grid_view(grid@);
            let w = self.width as int;
            assert forall|a: int| 0 <= a < gv.len() implies (#[trigger] gv[a]).len() == w by {
                assert(gv[a] == grid@[a]@.map_values(
                    |cell: Vec<(i64, i64)>| jitters_view(cell@),
                ));
            }
            assert forall|a: int, b: int|
                0 <= a < gv.len() && 0 <= b < w implies (#[trigger] gv[a][b]).len()
                == SAMPLES_PER_PIXEL by {
                assert(gv[a][b] == jitters_view(grid@[a]@[b]@));
            }
            assert forall|a: int, b: int, c: int|
                0 <= a < gv.len() && 0 <= b < w && 0 <= c < SAMPLES_PER_PIXEL implies 0 <= (
            #[trigger] gv[a][b][c]).0 < 900 && 0 <= gv[a][b][c].1 < 900 by {
                assert(gv[a][b] == jitters_view(grid@[a]@[b]@));
                assert(gv[a][b][c] == (grid@[a]@[b]@[c].0 as int, grid@[a]@[b]@[c].1 as int));
            }
            assert(grid_ok(gv, w));
            if r is Ok {
                lemma_rows_ok_shape(
                    self.hittables@,
                    sun_center(*self),
                    w,
                    gv,
                    spec_height(w),
                );
            }
        }
        r
    }
}

/// What the nearest-hit selection returns over the first `n` surfaces:
/// nothing only when no surface is hit; otherwise a hit surface at the
/// minimal reported distance, and every earlier surface either misses or
/// is strictly farther.
pub proof fn lemma_nearest_hit_characterization(hs: Seq<Hittable>, o: V3, d: V3, n: int)
    requires
        0 <= n <= hs.len(),
    ensures
        spec_nearest_upto(hs, o, d, n) is None ==> forall|j: int|
            0 <= j < n ==> !(spec_hit(#[trigger] hs[j].shape, o, d) is Some),
        spec_nearest_upto(hs, o, d, n) matches Some(pr) ==> {
            &&& 0 <= pr.0 < n
            &&& spec_hit(hs[pr.0].shape, o, d) == Option::Some(pr.1)
            &&& forall|j: int|
                0 <= j < n && spec_hit(#[trigger] hs[j].shape, o, d) is Some ==> pr.1 <= spec_hit(
                    hs[j].shape,
                    o,
                    d,
                )->Some_0
            &&& forall|j: int|
                0 <= j < pr.0 && spec_hit(#[trigger] hs[j].shape, o, d) is Some ==> pr.1
                    < spec_hit(hs[j].shape, o, d)->Some_0
        },
    decreases n,
{
    if n > 0 {
        lemma_nearest_hit_characterization(hs, o, d, n - 1);
    }
}

/// Over a scene of exactly two surfaces both struck by one ray at
/// different distances, the nearest hit is the surface the ray reaches
/// first, at its distance.
pub proof fn lemma_nearest_hit_two_surfaces(hs: Seq<Hittable>, o: V3, d: V3, t0: int, t1: int)
    requires
        hs.len() == 2,
        spec_hit(hs[0].shape, o, d) == Option::Some(t0),
        spec_hit(hs[1].shape, o, d) == Option::Some(t1),
        t0 != t1,
    ensures
        t0 < t1 ==> spec_nearest_hit(hs, o, d) == Option::Some((0int, t0)),
        t1 < t0 ==> spec_nearest_hit(hs, o, d) == Option::Some((1int, t1)),
{
    assert(spec_nearest_upto(hs, o, d, 0) is None);
    assert(spec_nearest_upto(hs, o, d, 1) == Option::Some((0int, t0)));
    assert(spec_nearest_upto(hs, o, d, 2) == if t1 < t0 {
        Option::Some((1int, t1))
    } else {
        Option::Some((0int, t0))
    });
}

/// Occlusion forces black: when some surface blocks the shadow ray from
/// `p` toward the light, the shading at `p` is black.
pub proof fn lemma_occluded_shade_black(hs: Seq<Hittable>, sun_c: V3, p: V3)
    requires
        spec_occluded(hs, p, spec_normalize(spec_normalize(v3_sub(sun_c, p)))),
    ensures
        spec_reflection(hs, sun_c, p) == (V3 { x: 0, y: 0, z: 0 }),
{
}

/// Placing a surface that the shadow ray strikes into the scene forces
/// the shading at `p` to black.
pub proof fn lemma_blocker_forces_black(
    hs: Seq<Hittable>,
    hs2: Seq<Hittable>,
    s: Hittable,
    sun_c: V3,
    p: V3,
)
    requires
        hs2 == hs.push(s),
        spec_hit(s.shape, p, spec_normalize(spec_normalize(v3_sub(sun_c, p)))) is Some,
    ensures
        spec_reflection(hs2, sun_c, p) == (V3 { x: 0, y: 0, z: 0 }),
{
    let dir = spec_normalize(spec_normalize(v3_sub(sun_c, p)));
    assert(hs2[hs.len() as int] == s);
    assert(spec_occluded(hs2, p, dir));
    lemma_occluded_shade_black(hs2, sun_c, p);
}

/// With no blocker and a Lambert term of at least one fixed-point step,
/// the shading at `p` is strictly brighter than black in every
/// component: white scaled by the Lambert term.
pub proof fn lemma_unoccluded_shade_bright(hs: Seq<Hittable>, sun_c: V3, p: V3)
    requires
        !spec_occluded(hs, p, spec_normalize(spec_normalize(v3_sub(sun_c, p)))),
        v3_dot(
            spec_shape_normal(hs[spec_index_of_closest(hs, p)].shape, p),
            spec_normalize(v3_sub(sun_c, p)),
        ) >= SCALE,
    ensures
        ({
            let dp = v3_dot(
                spec_shape_normal(hs[spec_index_of_closest(hs, p)].shape, p),
                spec_normalize(v3_sub(sun_c, p)),
            );
            let lambert = dp / SCALE as int;
            &&& spec_reflection(hs, sun_c, p) == (V3 { x: lambert, y: lambert, z: lambert })
            &&& lambert >= 1
        }),
{
    let dp = v3_dot(
        spec_shape_normal(hs[spec_index_of_closest(hs, p)].shape, p),
        spec_normalize(v3_sub(sun_c, p)),
    );
    let lambert = dp / SCALE as int;
    lemma_div_is_ordered(SCALE as int, dp, SCALE as int);
    lemma_div_multiples_vanish(1, SCALE as int);
    assert(lambert >= 1);
    lemma_div_multiples_vanish(lambert, SCALE as int);
    assert(mul_div(1000, lambert, SCALE as int) == lambert);
}

/// Once a sample fails, every longer prefix of the jitter sequence
/// reports the same failure.
proof fn lemma_pixel_err_persists(
    hs: Seq<Hittable>,
    sun_c: V3,
    width: int,
    x: int,
    y: int,
    js: Seq<(int, int)>,
    k: int,
)
    requires
        0 <= k <= js.len(),
        spec_pixel_color(hs, sun_c, width, x, y, js.take(k)) is Err,
    ensures
        spec_pixel_color(hs, sun_c, width, x, y, js) == spec_pixel_color(
            hs,
            sun_c,
            width,
            x,
            y,
            js.take(k),
        ),
    decreases js.len() - k,
{
    if k == js.len() {
        assert(js.take(k) =~= js);
    } else {
        assert(js.take(k + 1).drop_last() =~= js.take(k));
        lemma_pixel_err_persists(hs, sun_c, width, x, y, js, k + 1);
    }
}

fn gamma_byte(sum: i64, n: i64) -> (b: u8)
    requires
        0 <= sum <= 400_000_000_000,
        1 <= n <= 1000,
    ensures
        b as int == spec_gamma_byte(sum as int, n as int),
{
    let avg: i64 = div_pos_i64(sum, n);
    let g: u64 = isqrt_u128((avg as u128) * (SCALE as u128));
    proof {
        crate::math::lemma_isqrt_lt(avg as int * SCALE as int, 21_000_000);
        crate::math::lemma_isqrt_props(avg as int * SCALE as int);
    }
    let scaled: i64 = div_pos_i64((g as i64) * 255_999, 1_000_000);
    if scaled > 255 {
        255u8
    } else {
        scaled as u8
    }
}

/// Walking at most MAX_DISTANCE along a unit-scale direction moves each
/// coordinate by at most MAX_DISTANCE.
proof fn lemma_step_bound(d: int, t: int)
    requires
        -SCALE <= d <= SCALE,
        0 <= t <= MAX_DISTANCE,
    ensures
        -MAX_DISTANCE <= mul_div(d, t, SCALE as int) <= MAX_DISTANCE,
{
    crate::vec3::lemma_mul_bounds(d, t, SCALE as int, MAX_DISTANCE as int);
    lemma_mul_div_bounded(d, t, SCALE as int, MAX_DISTANCE as int);
}

/// Tinting a shading component by an albedo component keeps it within
/// [0, 300_000_000].
proof fn lemma_tint_bound(r: int, a: int)
    requires
        0 <= r <= 3000,
        0 <= a <= COORD_LIMIT,
    ensures
        0 <= mul_div(r, a, SCALE as int) <= 300_000_000,
{
    crate::math::lemma_mul_div_nonneg(r, a, SCALE as int);
    crate::vec3::lemma_mul_bounds(r, a, 3000, COORD_LIMIT as int);
    lemma_mul_div_bounded(r, a, SCALE as int, 300_000_000);
}

/// The distance falloff keeps a color component within its bound.
proof fn lemma_fade_bound(c: int, f: int)
    requires
        0 <= c <= 300_000_000,
        0 <= f <= SCALE,
    ensures
        0 <= mul_div(c, f, SCALE as int) <= 300_000_000,
{
    crate::math::lemma_mul_div_nonneg(c, f, SCALE as int);
    crate::vec3::lemma_mul_bounds(c, f, 300_000_000, SCALE as int);
    lemma_mul_div_bounded(c, f, SCALE as int, 300_000_000);
}

} // verus!
