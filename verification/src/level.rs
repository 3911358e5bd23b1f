//! The level sampler: draws the top layer of a newly inserted point from
//! the geometric distribution with ratio `1/m`, so each layer holds on
//! average a `1/m` fraction of the layer below, clamped to the configured
//! maximum. Randomness comes from an injected seeded generator so that
//! builds are reproducible; the draws are consumed by a verified function
//! whose contract is exact for every possible value of the draws.

use vstd::prelude::*;

verus! {

#[verifier::external_type_specification]
#[verifier::external_body]
pub struct ExStdRng(rand::rngs::StdRng);

/// Relies on rand's `RngCore::next_u64`: draws the generator's next
/// value; nothing is promised of a random draw.
#[verifier::external_body]
pub(crate) fn rng_next(rng: &mut rand::rngs::StdRng) -> u64 {
    rand::RngCore::next_u64(rng)
}

/// The length of the longest prefix of `draws` whose values are all
/// divisible by `m`: how many layers a sequence of uniform draws climbs.
pub open spec fn zero_mod_prefix(draws: Seq<u64>, m: u64) -> int
    decreases draws.len(),
{
    if draws.len() == 0 {
        0
    } else if draws[0] % m == 0 {
        1 + zero_mod_prefix(draws.drop_first(), m)
    } else {
        0
    }
}

proof fn lemma_zero_mod_prefix(draws: Seq<u64>, m: u64, n: int)
    requires
        m >= 1,
        0 <= n <= draws.len(),
        forall|k: int| 0 <= k < n ==> (#[trigger] draws[k]) % m == 0,
    ensures
        n <= zero_mod_prefix(draws, m) <= draws.len(),
        n < draws.len() && draws[n] % m != 0 ==> zero_mod_prefix(draws, m) == n,
    decreases draws.len(),
{
    if draws.len() == 0 {
    } else {
        let t = draws.drop_first();
        assert(forall|k: int| 0 <= k < t.len() ==> #[trigger] t[k] == draws[k + 1]);
        if n == 0 {
            lemma_zero_mod_prefix(t, m, 0);
        } else {
            assert(draws[0] % m == 0);
            lemma_zero_mod_prefix(t, m, n - 1);
            if n < draws.len() && draws[n] % m != 0 {
                assert(t[n - 1] == draws[n]);
            }
        }
    }
}

/// The level a sequence of uniform draws yields: the number of leading
/// draws divisible by `m`, clamped to `max_level`. This is the whole
/// draw-consuming decision of the sampler, verified exactly for every
/// value of the draws.
pub fn level_from_draws(draws: &Vec<u64>, m: usize, max_level: usize) -> (level: usize)
    requires
        m >= 2,
    ensures
        level as int == if zero_mod_prefix(draws@, m as u64) < max_level as int {
            zero_mod_prefix(draws@, m as u64)
        } else {
            max_level as int
        },
{
    let mm = m as u64;
    let mut i: usize = 0;
    while i < draws.len() && i < max_level && draws[i] % mm == 0
        invariant
            mm == m as u64,
            m >= 2,
            i <= draws@.len(),
            i <= max_level,
            forall|k: int| 0 <= k < i ==> (#[trigger] draws@[k]) % mm == 0,
        decreases draws@.len() - i,
    {
        i += 1;
    }
    proof {
        lemma_zero_mod_prefix(draws@, mm, i as int);
    }
    i
}

/// Draw a layer for a new point: take one uniform draw per possible
/// layer and keep climbing while a draw is divisible by `m`, so layer
/// `k` is reached with probability `m^-k` — the geometric distribution
/// that `floor(-ln(u)/ln(m))` gives — clamped to `[0, max_level]`. `m`
/// below two would make the distribution degenerate and is ruled out,
/// as the graph's parameter validation does.
pub fn sample_level(rng: &mut rand::rngs::StdRng, m: usize, max_level: usize) -> (level: usize)
    requires
        m >= 2,
    ensures
        level <= max_level,
{
    let mut draws: Vec<u64> = Vec::new();
    while draws.len() < max_level
        invariant
            draws@.len() <= max_level,
        decreases max_level - draws@.len(),
    {
        draws.push(rng_next(rng));
    }
    level_from_draws(&draws, m, max_level)
}

} // verus!
