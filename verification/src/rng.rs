use vstd::prelude::*;

use rand::rngs::SmallRng;

use crate::map::Position;

verus! {

/// rand's small generator, opaque to verification: nothing is assumed of the
/// values it yields beyond what each wrapper below states.
#[verifier::external_type_specification]
#[verifier::external_body]
pub struct ExSmallRng(SmallRng);

/// Relies on rand_seeder's Seeder: it hashes the seed text into generator
/// state, so one seed always yields the same generator.
#[verifier::external_body]
pub fn seeded_rng(seed: &str) -> SmallRng {
    rand_seeder::Seeder::from(seed).into_rng()
}

/// Relies on Rng::random_ratio: a Bernoulli draw that is true with
/// probability `num / den`.  Nothing is promised of the outcome.
#[verifier::external_body]
pub fn rng_ratio(rng: &mut SmallRng, num: u32, den: u32) -> bool
    requires
        den >= 1,
        num <= den,
{
    rand::Rng::random_ratio(rng, num, den)
}

/// Relies on Rng::random_range over `lo..hi`: the draw lies inside the
/// half-open range; the range must not be empty.
#[verifier::external_body]
pub fn rng_below(rng: &mut SmallRng, lo: usize, hi: usize) -> (r: usize)
    requires
        lo < hi,
    ensures
        lo <= r < hi,
{
    rand::Rng::random_range(rng, lo..hi)
}

/// Relies on Rng::random_range over `0..=9`: the draw is a digit value.
#[verifier::external_body]
pub fn rng_digit(rng: &mut SmallRng) -> (r: u32)
    ensures
        r <= 9,
{
    rand::Rng::random_range(rng, 0..=9u32)
}

/// Relies on SliceRandom::shuffle, a Fisher-Yates pass: the result is a
/// permutation of the input, so it keeps the length and the membership.
#[verifier::external_body]
pub fn shuffle_positions(v: &mut Vec<Position>, rng: &mut SmallRng)
    ensures
        final(v)@.len() == old(v)@.len(),
        final(v)@.to_multiset() == old(v)@.to_multiset(),
        forall|p: Position| final(v)@.contains(p) <==> old(v)@.contains(p),
{
    rand::seq::SliceRandom::shuffle(v.as_mut_slice(), rng)
}

} // verus!
