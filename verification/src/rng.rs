//! Random choices.
use rand::rngs::StdRng;
use rand::Rng;
use rand::SeedableRng;
use vstd::prelude::*;

verus! {

#[verifier::external_type_specification]
#[verifier::external_body]
pub struct ExStdRng(rand::rngs::StdRng);

/// The generator that `rand::SeedableRng::seed_from_u64` makes from a seed.
pub uninterp spec fn seeded(seed: u64) -> StdRng;

/// Whether `rng` may be the generator for an optional seed: that of the seed where there is
/// one.
pub open spec fn starts_from(seed: Option<u64>, rng: StdRng) -> bool {
    seed matches Some(s) ==> rng == seeded(s)
}

/// The number that a generator gives when `rand::Rng::gen_range` asks it for one below `n`.
pub uninterp spec fn drawn(rng: StdRng, n: u64) -> u64;

/// The generator after it was asked for a number below `n`.
pub uninterp spec fn after_draw(rng: StdRng, n: u64) -> StdRng;

/// The number that a generator gives when `rand::Rng::gen_range` asks it for one from `lo`
/// to `hi`.
pub uninterp spec fn drawn_between(rng: StdRng, lo: u32, hi: u32) -> u32;

/// The generator after it was asked for a number from `lo` to `hi`.
pub uninterp spec fn after_draw_between(rng: StdRng, lo: u32, hi: u32) -> StdRng;

/// `rand::SeedableRng::seed_from_u64`: the generator for `seed`, which depends on the
/// seed alone.
#[verifier::external_body]
pub(crate) fn seeded_rng(seed: u64) -> (rng: StdRng)
    ensures
        rng == seeded(seed),
{
    StdRng::seed_from_u64(seed)
}

/// `rand::SeedableRng::from_entropy`: a generator with a seed from the system.
/// Nothing is claimed of the numbers that it will give.
#[verifier::external_body]
pub(crate) fn entropy_rng() -> StdRng {
    StdRng::from_entropy()
}

/// `rand::Rng::gen_range` on `0..n`, asked for 64 bits on every machine: a number below `n`.
/// The number and the generator after it depend on the generator before and on `n` alone. The
/// range must not be empty, for which the outside function panics.
#[verifier::external_body]
pub(crate) fn pick(rng: &mut StdRng, n: usize) -> (i: usize)
    requires
        n > 0,
    ensures
        i < n,
        i == drawn(*old(rng), n as u64),
        *final(rng) == after_draw(*old(rng), n as u64),
{
    rng.gen_range(0..n as u64) as usize
}

/// `rand::Rng::gen_range` on `lo..=hi`: a number from `lo` to `hi`. The number and the
/// generator after it depend on the generator before, on `lo` and on `hi` alone. The range
/// must not be empty, for which the outside function panics.
#[verifier::external_body]
pub(crate) fn pick_between(rng: &mut StdRng, lo: u32, hi: u32) -> (i: u32)
    requires
        lo <= hi,
    ensures
        lo <= i <= hi,
        i == drawn_between(*old(rng), lo, hi),
        *final(rng) == after_draw_between(*old(rng), lo, hi),
{
    rng.gen_range(lo..=hi)
}

} // verus!
