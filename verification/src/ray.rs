//! Rays: an origin and a direction that is normalized at construction,
//! so the intersection formulas may assume a unit-scale direction.

use vstd::prelude::*;
use crate::math::{lemma_mul_div_bounded, mul_div};
use crate::vec3::{
    bounded, is_zero, lemma_mul_bounds, normalize, spec_normalize, v3_add, v3_dot, v3_scale,
    Vec3, V3, POINT_LIMIT, SCALE, VLEN_LIMIT,
};

verus! {

#[derive(Clone, Copy, PartialEq, Eq, Structural, Debug)]
pub struct Ray {
    pub origin: Vec3,
    pub direction: Vec3,
}

/// Every ray built through `Ray::new` satisfies this: the origin is in
/// range and the direction is a unit-scale, nonzero vector.
pub open spec fn ray_wf(r: Ray) -> bool {
    &&& bounded(r.origin@, POINT_LIMIT as int)
    &&& bounded(r.direction@, SCALE as int)
    &&& v3_dot(r.direction@, r.direction@) >= 1
}

/// The point reached after walking `t` fixed-point units along the ray.
pub open spec fn spec_ray_at(r: Ray, t: int) -> V3 {
    v3_add(r.origin@, v3_scale(r.direction@, t))
}

impl Ray {
    pub fn new(origin: Vec3, direction: Vec3) -> (r: Ray)
        requires
            bounded(origin@, POINT_LIMIT as int),
            bounded(direction@, VLEN_LIMIT as int),
            !is_zero(direction@),
        ensures
            r.origin == origin,
            r.direction@ == spec_normalize(direction@),
            ray_wf(r),
    {
        let direction = normalize(&direction);
        Ray { origin, direction }
    }

    /// The point at fixed-point distance `distance` along the ray.
    pub fn scale(&self, distance: i64) -> (p: Vec3)
        requires
            ray_wf(*self),
            0 <= distance <= 1_000_000_000_000,
        ensures
            p@ == spec_ray_at(*self, distance as int),
    {
        proof {
            lemma_step_bounds(self.direction@.x, distance as int);
            lemma_step_bounds(self.direction@.y, distance as int);
            lemma_step_bounds(self.direction@.z, distance as int);
        }
        let step = self.direction.scale(distance);
        self.origin.add(&step)
    }

    pub fn get_origin(&self) -> (r: Vec3)
        ensures
            r == self.origin,
    {
        self.origin
    }

    pub fn get_direction(&self) -> (r: Vec3)
        ensures
            r == self.direction,
    {
        self.direction
    }
}

/// One component of a unit-scale direction, scaled by a distance of at
/// most 10^12, moves the origin by at most 10^12 steps.
proof fn lemma_step_bounds(d: int, t: int)
    requires
        -SCALE <= d <= SCALE,
        0 <= t <= 1_000_000_000_000,
    ensures
        -1_000_000_000_000 <= mul_div(d, t, SCALE as int) <= 1_000_000_000_000,
{
    lemma_mul_bounds(d, t, SCALE as int, 1_000_000_000_000);
    lemma_mul_div_bounded(d, t, SCALE as int, 1_000_000_000_000);
}

} // verus!
