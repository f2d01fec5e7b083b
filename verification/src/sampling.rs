//! The random jitter source for stochastic supersampling.

use vstd::prelude::*;
use rand::Rng;

verus! {

/// Exclusive upper bound of the per-pixel jitter: 0.9 in fixed point.
pub const JITTER_LIMIT: i64 = 900;

/// Relies on rand::Rng::gen_range called on rand::thread_rng(): the
/// sample lies within the given half-open range, which is nonempty here.
/// Nothing further is assumed of the value.
#[verifier::external_body]
pub fn random_jitter() -> (r: i64)
    ensures
        0 <= r < JITTER_LIMIT,
{
    let mut rng = rand::thread_rng();
    rng.gen_range(0..JITTER_LIMIT)
}

} // verus!
