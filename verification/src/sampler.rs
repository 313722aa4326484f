//! Where generation gets its numbers from.
//!
//! A `Sampler` hands out one number per draw, meant to lie in a range that the
//! caller names. The library never relies on that: `draw_within` brings every
//! draw back into the range, so a sampler whose numbers stray (a normal
//! distribution has tails) still yields valid output.

use vstd::prelude::*;
use rand::rngs::StdRng;
use rand::Rng;
use rand::SeedableRng;

verus! {

/// A source of draws.
pub trait Sampler {
    /// One draw, meant for the range `low..=high`.
    fn draw(&mut self, low: u64, high: u64) -> u64;
}

/// `raw` where it lies in `low..=high`, else the nearer bound.
pub open spec fn clamped(raw: u64, low: u64, high: u64) -> u64 {
    if raw < low {
        low
    } else if raw > high {
        high
    } else {
        raw
    }
}

/// Brings `raw` into `low..=high` by moving it to the nearer bound.
pub fn clamp(raw: u64, low: u64, high: u64) -> (r: u64)
    ensures
        r == clamped(raw, low, high),
        low <= high ==> low <= r <= high,
{
    if raw < low {
        low
    } else if raw > high {
        high
    } else {
        raw
    }
}

/// One draw from `sampler`, brought into `low..=high`.
pub fn draw_within<S: Sampler>(sampler: &mut S, low: u64, high: u64) -> (r: u64)
    ensures
        low <= high ==> low <= r <= high,
{
    let raw = sampler.draw(low, high);
    clamp(raw, low, high)
}

/// How many steps the unit interval is divided into where a position in it is
/// given as a whole number.
pub const UNIT_STEPS: u64 = 0x1_0000_0000;

/// Where the position `steps / UNIT_STEPS` of the unit interval falls in
/// `low..=high`: the range is cut into equal parts, one for each of its
/// numbers, and a position below the interval counts as its start, one at or
/// above its end as the last number.
pub open spec fn scaled(steps: i64, low: u64, high: u64) -> int {
    if steps <= 0 || high < low {
        low as int
    } else if steps >= UNIT_STEPS {
        high as int
    } else {
        low + (steps * (high - low + 1)) / (UNIT_STEPS as int)
    }
}

/// Scales a position in the unit interval, given in steps of
/// `1 / UNIT_STEPS`, into `low..=high`. Positions outside the interval are
/// brought to the nearer end.
pub fn scale_unit(steps: i64, low: u64, high: u64) -> (r: u64)
    ensures
        r == scaled(steps, low, high),
        low <= high ==> low <= r <= high,
{
    if steps <= 0 || high < low {
        return low;
    }
    if steps >= UNIT_STEPS as i64 {
        return high;
    }
    let span: u128 = (high - low) as u128 + 1;
    let part: u128 = steps as u128;
    assert(part * span < 0x1_0000_0000 * span && 0x1_0000_0000 * span
        <= 0x1_0000_0000 * 0x1_0000_0000_0000_0000) by (nonlinear_arith)
        requires
            0 < part < 0x1_0000_0000,
            0 < span <= 0x1_0000_0000_0000_0000,
    ;
    let offset: u128 = part * span / (UNIT_STEPS as u128);
    assert(offset < span) by (nonlinear_arith)
        requires
            offset == part * span / 0x1_0000_0000,
            0 < part < 0x1_0000_0000,
            0 < span,
    ;
    low + offset as u64
}

/// `rand::rngs::StdRng`, the seedable generator of the `rand` crate, held as a
/// value that nothing is known of.
#[verifier::external_type_specification]
#[verifier::external_body]
pub struct ExStdRng(StdRng);

/// `rand::SeedableRng::seed_from_u64` for `rand::rngs::StdRng`: a generator
/// whose state is derived from `seed`. Nothing is claimed of the generator.
#[verifier::external_body]
fn seeded_rng(seed: u64) -> StdRng {
    StdRng::seed_from_u64(seed)
}

/// `rand::Rng::gen_range` on an inclusive range of `u64`: the value returned
/// lies in `low..=high`. The call panics on an empty range, which `requires`
/// leaves out.
#[verifier::external_body]
fn uniform_between(rng: &mut StdRng, low: u64, high: u64) -> (r: u64)
    requires
        low <= high,
    ensures
        low <= r <= high,
{
    rng.gen_range(low..=high)
}

/// `rand::random::<u64>()`: a number from the thread-local generator. Nothing
/// is claimed of it.
#[verifier::external_body]
fn thread_random() -> u64 {
    rand::random::<u64>()
}

/// Draws uniformly over the range asked for, from a generator seeded once.
pub struct UniformSampler {
    rng: StdRng,
}

impl UniformSampler {
    /// A sampler whose draws are determined by `seed`.
    pub fn new(seed: u64) -> UniformSampler {
        UniformSampler { rng: seeded_rng(seed) }
    }
}

impl Sampler for UniformSampler {
    /// A draw from `low..=high`; `low` where the range is empty.
    fn draw(&mut self, low: u64, high: u64) -> (r: u64)
        ensures
            low <= high ==> low <= r <= high,
            low > high ==> r == low,
    {
        if low <= high {
            uniform_between(&mut self.rng, low, high)
        } else {
            low
        }
    }
}

/// Draws from the thread-local generator, which the system seeds.
pub struct ThreadSampler {}

impl ThreadSampler {
    /// A sampler over the thread-local generator.
    pub fn new() -> ThreadSampler {
        ThreadSampler {  }
    }
}

/// `low` plus the remainder of `raw` by the size of `low..=high`.
pub open spec fn folded(raw: u64, low: u64, high: u64) -> int {
    if low <= high && high - low < u64::MAX {
        low + raw as int % (high - low + 1)
    } else {
        raw as int
    }
}

/// Folds `raw` into `low..=high` by its remainder; with the full range of `u64`
/// there is nothing to fold.
pub fn fold_into(raw: u64, low: u64, high: u64) -> (r: u64)
    ensures
        r == folded(raw, low, high),
        low <= high ==> low <= r <= high,
{
    if low <= high && high - low < u64::MAX {
        let size: u64 = high - low + 1;
        low + raw % size
    } else {
        raw
    }
}

impl Sampler for ThreadSampler {
    /// A random number folded into `low..=high`.
    fn draw(&mut self, low: u64, high: u64) -> (r: u64)
        ensures
            low <= high ==> low <= r <= high,
    {
        fold_into(thread_random(), low, high)
    }
}

} // verus!
