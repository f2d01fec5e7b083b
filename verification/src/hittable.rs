//! Primitives (spheres and planes), materials, and the surface type that
//! binds one primitive to one material. Holds the analytic intersection
//! formulas, the normal computation, and the implicit-distance query.

use vstd::prelude::*;
use vstd::arithmetic::div_mod::{
    lemma_div_is_ordered, lemma_div_is_ordered_by_denominator, lemma_div_pos_is_pos,
};
use vstd::math::abs;
use crate::math::{isqrt_u128, lemma_isqrt_lt, lemma_isqrt_props, spec_isqrt};
use crate::ray::{ray_wf, Ray};
use crate::vec3::{
    bounded, is_zero, lemma_mul_bounds, length, normalize, spec_length, spec_normalize, v3_dot,
    v3_sub, Vec3, V3, COORD_LIMIT, POINT_LIMIT, SCALE,
};

verus! {

/// A ray whose direction-normal product is smaller than this raw bound
/// counts as parallel to a plane. This is 0.001 in raw (1/SCALE^2) units.
pub const PARALLEL_EPS: i64 = 1000;

#[derive(Clone, Copy, PartialEq, Eq, Structural, Debug)]
pub struct Sphere {
    pub c: Vec3,
    pub r: i64,
}

#[derive(Clone, Copy, PartialEq, Eq, Structural, Debug)]
pub struct Plane {
    pub a: i64,
    pub b: i64,
    pub c: i64,
    pub d: i64,
}

#[derive(Clone, Copy, PartialEq, Eq, Structural, Debug)]
pub enum Shape {
    Sphere(Sphere),
    Plane(Plane),
}

#[derive(Clone, Copy, PartialEq, Eq, Structural, Debug)]
pub enum Material {
    Light,
    Lambertian(Vec3),
}

#[derive(Clone, Copy, PartialEq, Eq, Structural, Debug)]
pub struct Hittable {
    pub shape: Shape,
    pub material: Material,
}

/// The normal vector a plane's first three coefficients define.
pub open spec fn plane_normal(p: Plane) -> V3 {
    V3 { x: p.a as int, y: p.b as int, z: p.c as int }
}

/// Shape invariant: a sphere has a positive radius, a plane a nonzero
/// normal, and all stored coordinates stay within COORD_LIMIT.
pub open spec fn shape_wf(s: Shape) -> bool {
    match s {
        Shape::Sphere(sp) => bounded(sp.c@, COORD_LIMIT as int) && 0 < sp.r <= COORD_LIMIT,
        Shape::Plane(pl) => {
            &&& bounded(plane_normal(pl), COORD_LIMIT as int)
            &&& !is_zero(plane_normal(pl))
            &&& -COORD_LIMIT <= pl.d <= COORD_LIMIT
        },
    }
}

/// Material invariant: an albedo is componentwise nonnegative and within
/// COORD_LIMIT, so that color products cannot overflow.
pub open spec fn material_wf(m: Material) -> bool {
    match m {
        Material::Light => true,
        Material::Lambertian(alb) => {
            0 <= alb@.x <= COORD_LIMIT && 0 <= alb@.y <= COORD_LIMIT && 0 <= alb@.z
                <= COORD_LIMIT
        },
    }
}

pub open spec fn hittable_wf(h: Hittable) -> bool {
    shape_wf(h.shape) && material_wf(h.material)
}

/// Where a ray meets a sphere, in fixed-point distance along the ray:
/// the smaller root of the intersection quadratic, or nothing when the
/// discriminant is negative or the near intersection lies behind the
/// origin. Rays starting inside the sphere therefore report no hit.
pub open spec fn spec_sphere_hit(s: Sphere, o: V3, d: V3) -> Option<int> {
    let oc = v3_sub(o, s.c@);
    let a2 = v3_dot(d, d);
    let b = 2 * v3_dot(oc, d);
    let cc = v3_dot(oc, oc) - s.r * s.r;
    let disc = b * b - 4 * a2 * cc;
    if disc < 0 {
        Option::None
    } else {
        let num = -b - spec_isqrt(disc);
        if num < 0 {
            Option::None
        } else {
            Option::Some(SCALE * num / (2 * a2))
        }
    }
}

/// Where a ray meets a plane: the linear solve for t, or nothing when
/// the ray is (nearly) parallel to the plane or the intersection lies
/// behind the origin.
pub open spec fn spec_plane_hit(p: Plane, o: V3, d: V3) -> Option<int> {
    let ddn = v3_dot(plane_normal(p), d);
    if -PARALLEL_EPS < ddn < PARALLEL_EPS {
        Option::None
    } else {
        let num = p.d * SCALE - v3_dot(plane_normal(p), o);
        if num == 0 {
            Option::Some(0)
        } else if (num > 0) != (ddn > 0) {
            Option::None
        } else {
            Option::Some(SCALE * abs(num) as int / abs(ddn) as int)
        }
    }
}

pub open spec fn spec_hit(shape: Shape, o: V3, d: V3) -> Option<int> {
    match shape {
        Shape::Sphere(s) => spec_sphere_hit(s, o, d),
        Shape::Plane(p) => spec_plane_hit(p, o, d),
    }
}

/// The unit-scale outward normal of a shape at a point on it.
pub open spec fn spec_shape_normal(shape: Shape, p: V3) -> V3 {
    match shape {
        Shape::Sphere(s) => spec_normalize(v3_sub(p, s.c@)),
        Shape::Plane(pl) => spec_normalize(plane_normal(pl)),
    }
}

/// The implicit distance from an arbitrary point to the shape's boundary:
/// distance to the sphere surface (negative inside), or the normalized
/// unsigned distance to the plane.
pub open spec fn spec_shortest_dist(shape: Shape, p: V3) -> int {
    match shape {
        Shape::Sphere(s) => spec_length(v3_sub(p, s.c@)) - s.r,
        Shape::Plane(pl) => {
            let num = abs(v3_dot(plane_normal(pl), p) - pl.d * SCALE);
            num as int / spec_isqrt(v3_dot(plane_normal(pl), plane_normal(pl)))
        },
    }
}

impl Shape {
    pub fn plane(a: i64, b: i64, c: i64, d: i64) -> (r: Shape)
        ensures
            r == (Shape::Plane(Plane { a, b, c, d })),
    {
        Shape::Plane(Plane { a, b, c, d })
    }

    pub fn sphere(c: Vec3, r: i64) -> (s: Shape)
        ensures
            s == (Shape::Sphere(Sphere { c, r })),
    {
        Shape::Sphere(Sphere { c, r })
    }
}

impl Hittable {
    pub fn new(shape: Shape, material: Material) -> (h: Hittable)
        ensures
            h == (Hittable { shape, material }),
    {
        Hittable { shape, material }
    }

    /// Implicit distance from `p` to this surface's boundary.
    pub fn shortest_dist(&self, p: &Vec3) -> (r: i64)
        requires
            shape_wf(self.shape),
            bounded(p@, POINT_LIMIT as int),
        ensures
            r as int == spec_shortest_dist(self.shape, p@),
    {
        match &self.shape {
            Shape::Plane(plane) => {
                let normal = Vec3::new(plane.a, plane.b, plane.c);
                let raw: i64 = normal.dot(p);
                proof {
                    lemma_dot_bounds(normal@, p@, COORD_LIMIT as int, POINT_LIMIT as int);
                    lemma_dot_bounds(normal@, normal@, COORD_LIMIT as int, COORD_LIMIT as int);
                    lemma_dot_self_pos(normal@);
                }
                let num: i64 = raw - plane.d * SCALE;
                let an: i64 = if num < 0 {
                    -num
                } else {
                    num
                };
                let den_sq: i64 = normal.dot(&normal);
                let den: u64 = isqrt_u128(den_sq as u128);
                proof {
                    lemma_isqrt_pos(den_sq as int);
                    lemma_isqrt_lt(den_sq as int, 300_000_000);
                }
                crate::math::div_pos_i64(an, den as i64)
            },
            Shape::Sphere(sphere) => {
                let diff = p.sub(&sphere.c);
                length(diff) - sphere.r
            },
        }
    }

    /// Outward unit-scale normal of this surface at `p`; for a sphere the
    /// point must differ from the center, or the direction is undefined.
    pub fn get_normal(&self, p: &Vec3) -> (r: Vec3)
        requires
            shape_wf(self.shape),
            bounded(p@, POINT_LIMIT as int),
            self.shape matches Shape::Sphere(s) ==> p@ != s.c@,
        ensures
            r@ == spec_shape_normal(self.shape, p@),
            bounded(r@, SCALE as int),
            v3_dot(r@, r@) >= 250_000,
    {
        match &self.shape {
            Shape::Plane(plane) => normalize(&Vec3::new(plane.a, plane.b, plane.c)),
            Shape::Sphere(sphere) => {
                let diff = p.sub(&sphere.c);
                proof {
                    if is_zero(diff@) {
                        assert(p@ == sphere.c@);
                    }
                }
                normalize(&diff)
            },
        }
    }

    /// Where the ray meets this surface, as a fixed-point distance, or
    /// `Err` when it does not.
    pub fn is_hit(&self, ray: &Ray) -> (r: Result<i64, ()>)
        requires
            shape_wf(self.shape),
            ray_wf(*ray),
        ensures
            r is Ok <==> spec_hit(self.shape, ray.origin@, ray.direction@) is Some,
            r is Ok ==> r->Ok_0 as int == spec_hit(self.shape, ray.origin@, ray.direction@)->Some_0,
            r is Ok ==> 0 <= r->Ok_0 <= 4_000_000_000_000_000_000,
    {
        match &self.shape {
            Shape::Plane(plane) => {
                let origin = ray.get_origin();
                let dir = ray.get_direction();
                let normal = Vec3::new(plane.a, plane.b, plane.c);
                let ddn: i64 = normal.dot(&dir);
                proof {
                    lemma_dot_bounds(normal@, dir@, COORD_LIMIT as int, SCALE as int);
                }
                if -PARALLEL_EPS < ddn && ddn < PARALLEL_EPS {
                    // the ray is essentially parallel to the plane
                    return Err(());
                }
                proof {
                    lemma_dot_bounds(normal@, origin@, COORD_LIMIT as int, POINT_LIMIT as int);
                }
                let num: i64 = plane.d * SCALE - normal.dot(&origin);
                if num == 0 {
                    return Ok(0);
                }
                if (num > 0) != (ddn > 0) {
                    // the plane lies behind the ray origin
                    return Err(());
                }
                let an: i64 = if num < 0 {
                    -num
                } else {
                    num
                };
                let ad: i64 = if ddn < 0 {
                    -ddn
                } else {
                    ddn
                };
                let t128: u128 = (SCALE as u128) * (an as u128) / (ad as u128);
                proof {
                    lemma_div_is_ordered_by_denominator(
                        SCALE as int * an as int,
                        PARALLEL_EPS as int,
                        ad as int,
                    );
                    lemma_div_is_ordered(
                        SCALE as int * an as int,
                        400_000_000_000_000_000_000,
                        PARALLEL_EPS as int,
                    );
                    lemma_div_pos_is_pos(SCALE as int * an as int, ad as int);
                }
                Ok(t128 as i64)
            },
            Shape::Sphere(sphere) => {
                let origin = ray.get_origin();
                let dir = ray.get_direction();
                let oc = origin.sub(&sphere.c);
                let a2: i64 = dir.dot(&dir);
                let b_half: i64 = oc.dot(&dir);
                let cc_raw: i64 = oc.dot(&oc);
                proof {
                    lemma_dot_bounds(dir@, dir@, SCALE as int, SCALE as int);
                    lemma_dot_bounds(oc@, dir@, 1_100_000_000, SCALE as int);
                    lemma_dot_bounds(oc@, oc@, 1_100_000_000, 1_100_000_000);
                    lemma_mul_bounds(sphere.r as int, sphere.r as int, COORD_LIMIT as int,
                        COORD_LIMIT as int);
                }
                let b: i128 = 2 * (b_half as i128);
                let cc: i128 = (cc_raw as i128) - (sphere.r as i128) * (sphere.r as i128);
                proof {
                    lemma_mul_bounds(b as int, b as int, 7_000_000_000_000, 7_000_000_000_000);
                    lemma_mul_bounds(4 * a2 as int, cc as int, 12_000_000, 4_000_000_000_000_000_000);
                }
                let disc: i128 = b * b - 4 * (a2 as i128) * cc;
                if disc < 0 {
                    return Err(());
                }
                let sq: u64 = isqrt_u128(disc as u128);
                proof {
                    lemma_isqrt_props(disc as int);
                    lemma_isqrt_lt(disc as int, 10_000_000_000_000);
                }
                let num: i128 = -b - (sq as i128);
                if num < 0 {
                    // the near intersection lies behind the ray origin
                    return Err(());
                }
                let den: i128 = 2 * (a2 as i128);
                let t128: u128 = (SCALE as u128) * (num as u128) / (den as u128);
                proof {
                    lemma_div_is_ordered_by_denominator(SCALE as int * num as int, 2, den as int);
                    lemma_div_is_ordered(SCALE as int * num as int, 8_000_000_000_000_000, 2);
                    lemma_div_pos_is_pos(SCALE as int * num as int, den as int);
                }
                Ok(t128 as i64)
            },
        }
    }
}

/// A ray fired from outside a sphere straight at its center strikes it at
/// distance |origin - center| - radius, exactly. Stated for aims the
/// fixed-point grid represents exactly: the direction is exactly unit
/// scale and the displacement to the center is a whole multiple of it,
/// `m` fixed-point steps long.
pub proof fn lemma_sphere_ray_toward_center(s: Sphere, o: V3, d: V3, m: int)
    requires
        0 < s.r,
        v3_dot(d, d) == SCALE * SCALE,
        m > s.r,
        (s.c@.x - o.x) * SCALE == d.x * m,
        (s.c@.y - o.y) * SCALE == d.y * m,
        (s.c@.z - o.z) * SCALE == d.z * m,
    ensures
        m == spec_length(v3_sub(o, s.c@)),
        spec_sphere_hit(s, o, d) == Option::Some(m - s.r),
{
    let oc = v3_sub(o, s.c@);
    let ocx = o.x - s.c@.x;
    let ocy = o.y - s.c@.y;
    let ocz = o.z - s.c@.z;
    lemma_collinear_component(ocx, d.x, m);
    lemma_collinear_component(ocy, d.y, m);
    lemma_collinear_component(ocz, d.z, m);
    let dxx = d.x * d.x;
    let dyy = d.y * d.y;
    let dzz = d.z * d.z;
    let mm = m * m;
    vstd::arithmetic::mul::lemma_mul_is_distributive_add(m, dxx, dyy + dzz);
    vstd::arithmetic::mul::lemma_mul_is_distributive_add(m, dyy, dzz);
    assert(dxx + dyy + dzz == 1000000);
    assert(1000 * v3_dot(oc, d) == -(m * 1000000));
    assert(v3_dot(oc, d) == -(m * 1000));
    vstd::arithmetic::mul::lemma_mul_is_distributive_add(mm, dxx, dyy + dzz);
    vstd::arithmetic::mul::lemma_mul_is_distributive_add(mm, dyy, dzz);
    assert(1000000 * v3_dot(oc, oc) == mm * 1000000);
    assert(v3_dot(oc, oc) == mm);
    let b = 2 * v3_dot(oc, d);
    let a2 = v3_dot(d, d);
    let cc = v3_dot(oc, oc) - s.r * s.r;
    let disc = b * b - 4 * a2 * cc;
    assert(disc == (2000 * s.r) * (2000 * s.r)) by (nonlinear_arith)
        requires
            b == -(2000 * m),
            a2 == 1000000,
            cc == m * m - s.r * s.r,
            disc == b * b - 4 * a2 * cc,
    ;
    crate::math::lemma_isqrt_square(2000 * s.r);
    let num = -b - 2000 * s.r;
    assert(num == 2000 * m - 2000 * s.r);
    assert(SCALE * num == 2000000 * (m - s.r));
    vstd::arithmetic::div_mod::lemma_div_multiples_vanish(m - s.r, 2000000);
    assert(SCALE * num / (2 * a2) == m - s.r);
    crate::math::lemma_isqrt_square(m);
}

/// One component of a displacement that is collinear with the direction:
/// scaling relations between the products.
proof fn lemma_collinear_component(oc: int, dc: int, m: int) by (nonlinear_arith)
    requires
        oc * 1000 == -(dc * m),
    ensures
        1000 * (oc * dc) == -(m * (dc * dc)),
        1000000 * (oc * oc) == (m * m) * (dc * dc),
{
}

/// A ray aimed away from a sphere (negative dot of the direction with
/// the origin-to-center displacement), fired from outside it, reports no
/// hit.
pub proof fn lemma_sphere_ray_away_misses(s: Sphere, o: V3, d: V3)
    requires
        0 < s.r,
        v3_dot(d, v3_sub(s.c@, o)) < 0,
        v3_dot(v3_sub(o, s.c@), v3_sub(o, s.c@)) > s.r * s.r,
    ensures
        spec_sphere_hit(s, o, d) == Option::<int>::None,
{
    let oc = v3_sub(o, s.c@);
    assert(v3_dot(oc, d) == -v3_dot(d, v3_sub(s.c@, o))) by (nonlinear_arith)
        requires
            oc == v3_sub(o, s.c@),
    ;
    let b = 2 * v3_dot(oc, d);
    let disc = b * b - 4 * v3_dot(d, d) * (v3_dot(oc, oc) - s.r * s.r);
    if disc >= 0 {
        crate::math::lemma_isqrt_props(disc);
        assert(-b - crate::math::spec_isqrt(disc) < 0);
    }
}

/// A ray parallel to a plane (direction orthogonal to the plane normal)
/// reports no hit, wherever its origin lies.
pub proof fn lemma_plane_parallel_misses(p: Plane, o: V3, d: V3)
    requires
        v3_dot(plane_normal(p), d) == 0,
    ensures
        spec_plane_hit(p, o, d) == Option::<int>::None,
{
}

/// The sphere normal points outward from the center: its dot with the
/// displacement from the center is strictly positive, and its self
/// product lies in a fixed bracket around the unit scale.
pub proof fn lemma_sphere_normal_outward(s: Sphere, p: V3)
    requires
        bounded(p, crate::vec3::POINT_LIMIT as int),
        bounded(s.c@, COORD_LIMIT as int),
        p != s.c@,
    ensures
        v3_dot(spec_shape_normal(Shape::Sphere(s), p), v3_sub(p, s.c@)) >= 500,
        250_000 <= v3_dot(
            spec_shape_normal(Shape::Sphere(s), p),
            spec_shape_normal(Shape::Sphere(s), p),
        ) <= 3_000_000,
{
    let v = v3_sub(p, s.c@);
    assert(!is_zero(v));
    crate::vec3::lemma_normalize_quality(v);
    let n = crate::vec3::spec_normalize(v);
    lemma_dot_bounds(n, n, SCALE as int, SCALE as int);
}

/// The raw dot product of two componentwise-bounded vectors is bounded by
/// three times the product of the bounds.
pub proof fn lemma_dot_bounds(a: V3, b: V3, m: int, n: int)
    requires
        0 <= m,
        0 <= n,
        bounded(a, m),
        bounded(b, n),
    ensures
        -(3 * (m * n)) <= v3_dot(a, b) <= 3 * (m * n),
{
    lemma_mul_bounds(a.x, b.x, m, n);
    lemma_mul_bounds(a.y, b.y, m, n);
    lemma_mul_bounds(a.z, b.z, m, n);
}

/// The self product of a nonzero vector is at least one.
pub proof fn lemma_dot_self_pos(a: V3)
    requires
        !is_zero(a),
    ensures
        v3_dot(a, a) >= 1,
{
    assert(a.x * a.x >= 0 && (a.x != 0 ==> a.x * a.x >= 1)) by (nonlinear_arith);
    assert(a.y * a.y >= 0 && (a.y != 0 ==> a.y * a.y >= 1)) by (nonlinear_arith);
    assert(a.z * a.z >= 0 && (a.z != 0 ==> a.z * a.z >= 1)) by (nonlinear_arith);
}

/// The floor square root of a positive value is positive.
pub proof fn lemma_isqrt_pos(n: int)
    requires
        n >= 1,
    ensures
        spec_isqrt(n) >= 1,
{
    lemma_isqrt_props(n);
    let q = spec_isqrt(n);
    if q == 0 {
        assert(n < (q + 1) * (q + 1));
        assert((q + 1) * (q + 1) == 1) by (nonlinear_arith)
            requires
                q == 0,
        ;
        assert(false);
    }
}

} // verus!
