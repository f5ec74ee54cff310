//! Random samples drawn from a seeded generator of the `rand` crate.
use vstd::prelude::*;
use rand::Rng;
use rand::rngs::StdRng;
use crate::fixed::SCALE;
use crate::vec3::{Vec3, length_squared_spec};

verus! {

/// Rejection samplers give up after this many draws and use a fixed fallback.
pub const MAX_TRIES: u32 = 64;

#[verifier::external_type_specification]
#[verifier::external_body]
pub struct ExStdRng(StdRng);

/// Relies on rand's `Rng::gen_range` over a half-open integer range: the
/// value lies in `[low, high)`. It panics on an empty range.
#[verifier::external_body]
fn draw(rng: &mut StdRng, low: i64, high: i64) -> (r: i64)
    requires
        low < high,
    ensures
        low <= r < high,
{
    rng.gen_range(low..high)
}

/// A fixed-point value in `[min, max)`.
pub fn rand_double(rng: &mut StdRng, min: i64, max: i64) -> (r: i64)
    requires
        min < max,
    ensures
        min <= r < max,
{
    draw(rng, min, max)
}

/// A vector whose components lie in `[min, max)`.
pub fn rand_vector(rng: &mut StdRng, min: i64, max: i64) -> (r: Vec3)
    requires
        min < max,
    ensures
        min <= r.x < max,
        min <= r.y < max,
        min <= r.z < max,
{
    let x = draw(rng, min, max);
    let y = draw(rng, min, max);
    let z = draw(rng, min, max);
    Vec3::new(x, y, z)
}

/// A point strictly inside the unit sphere, by rejection from the cube
/// `[-1, 1)^3`; the center if every try is rejected.
pub fn rand_in_unit_sphere(rng: &mut StdRng) -> (r: Vec3)
    ensures
        r.wf(),
        length_squared_spec(r) < SCALE,
        -SCALE <= r.x <= SCALE && -SCALE <= r.y <= SCALE && -SCALE <= r.z <= SCALE,
{
    let mut tries: u32 = 0;
    while tries < MAX_TRIES
        invariant
            tries <= MAX_TRIES,
        decreases MAX_TRIES - tries,
    {
        let p = rand_vector(rng, -SCALE, SCALE);
        if p.length_squared() < SCALE {
            return p;
        }
        tries = tries + 1;
    }
    Vec3::new(0, 0, 0)
}

/// A point strictly inside the unit disk of the `xy` plane, by rejection;
/// the center if every try is rejected.
pub fn rand_in_unit_disk(rng: &mut StdRng) -> (r: Vec3)
    ensures
        r.wf(),
        r.z == 0,
        length_squared_spec(r) < SCALE,
        -SCALE <= r.x <= SCALE && -SCALE <= r.y <= SCALE,
{
    let mut tries: u32 = 0;
    while tries < MAX_TRIES
        invariant
            tries <= MAX_TRIES,
        decreases MAX_TRIES - tries,
    {
        let x = draw(rng, -SCALE, SCALE);
        let y = draw(rng, -SCALE, SCALE);
        let p = Vec3::new(x, y, 0);
        if p.length_squared() < SCALE {
            return p;
        }
        tries = tries + 1;
    }
    Vec3::new(0, 0, 0)
}

/// A direction of length close to one: a normalized sample of the unit
/// sphere, drawn again while the sample is shorter than one half (too short
/// to normalize well); straight up if every try fails.
pub fn rand_unit_vector(rng: &mut StdRng) -> (r: Vec3)
    ensures
        r.wf(),
        SCALE / 2 <= length_squared_spec(r) <= 2 * SCALE,
        -2 * SCALE <= r.x <= 2 * SCALE && -2 * SCALE <= r.y <= 2 * SCALE && -2 * SCALE <= r.z <= 2 * SCALE,
{
    let mut tries: u32 = 0;
    while tries < MAX_TRIES
        invariant
            tries <= MAX_TRIES,
        decreases MAX_TRIES - tries,
    {
        let p = rand_in_unit_sphere(rng);
        if p.length_squared() < SCALE / 4 {
            tries = tries + 1;
            continue;
        }
        if let Some(u) = p.unit_vector() {
            let ls = u.length_squared();
            if SCALE / 2 <= ls && ls <= 2 * SCALE && -2 * SCALE <= u.x && u.x <= 2 * SCALE
                && -2 * SCALE <= u.y && u.y <= 2 * SCALE && -2 * SCALE <= u.z && u.z <= 2 * SCALE {
                return u;
            }
        }
        tries = tries + 1;
    }
    Vec3::new(0, SCALE, 0)
}

} // verus!
