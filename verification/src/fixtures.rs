//! Keyword and integer fixtures for exercising the index: the random
//! draws come from rand behind a trusted wrapper, and everything the
//! draws shape — range membership, list length, the words picked — is
//! verified for every value of the draws.

use vstd::prelude::*;
use vstd::string::StringExecFns;

verus! {

/// Relies on rand's `Rng::gen_range` over `0..bound`: returns a value
/// inside the range; an empty range would panic and is ruled out.
#[verifier::external_body]
fn rng_below(rng: &mut rand::rngs::StdRng, bound: u64) -> (r: u64)
    requires
        bound >= 1,
    ensures
        r < bound,
{
    rand::Rng::gen_range(rng, 0..bound)
}

/// A list of `num_values` random integers, each inside `[0, 500)`.
pub fn random_int_payload(rnd_gen: &mut rand::rngs::StdRng, num_values: usize) -> (r: Vec<i64>)
    ensures
        r@.len() == num_values,
        forall|i: int| 0 <= i < r@.len() ==> 0 <= #[trigger] r@[i] < 500,
{
    let mut out: Vec<i64> = Vec::new();
    while out.len() < num_values
        invariant
            out@.len() <= num_values,
            forall|i: int| 0 <= i < out@.len() ==> 0 <= #[trigger] out@[i] < 500,
        decreases num_values - out@.len(),
    {
        let v = rng_below(rnd_gen, 500);
        out.push(v as i64);
    }
    out
}

/// The adjective table of the keyword fixtures.
pub open spec fn adjective_spec(i: int) -> Seq<char> {
    if i == 0 {
        "jobless"@
    } else if i == 1 {
        "rightful"@
    } else if i == 2 {
        "breakable"@
    } else if i == 3 {
        "impartial"@
    } else if i == 4 {
        "shocking"@
    } else if i == 5 {
        "faded"@
    } else if i == 6 {
        "phobic"@
    } else if i == 7 {
        "overt"@
    } else if i == 8 {
        "like"@
    } else if i == 9 {
        "wide-eyed"@
    } else {
        "broad"@
    }
}

/// The noun table of the keyword fixtures.
pub open spec fn noun_spec(i: int) -> Seq<char> {
    if i == 0 {
        "territory"@
    } else if i == 1 {
        "jam"@
    } else if i == 2 {
        "neck"@
    } else if i == 3 {
        "chicken"@
    } else if i == 4 {
        "cap"@
    } else if i == 5 {
        "kiss"@
    } else if i == 6 {
        "veil"@
    } else if i == 7 {
        "trail"@
    } else if i == 8 {
        "size"@
    } else if i == 9 {
        "digestion"@
    } else if i == 10 {
        "rod"@
    } else {
        "seed"@
    }
}

fn adjective_word(i: usize) -> (r: &'static str)
    requires
        i < 11,
    ensures
        r@ == adjective_spec(i as int),
{
    if i == 0 {
        "jobless"
    } else if i == 1 {
        "rightful"
    } else if i == 2 {
        "breakable"
    } else if i == 3 {
        "impartial"
    } else if i == 4 {
        "shocking"
    } else if i == 5 {
        "faded"
    } else if i == 6 {
        "phobic"
    } else if i == 7 {
        "overt"
    } else if i == 8 {
        "like"
    } else if i == 9 {
        "wide-eyed"
    } else {
        "broad"
    }
}

fn noun_word(i: usize) -> (r: &'static str)
    requires
        i < 12,
    ensures
        r@ == noun_spec(i as int),
{
    if i == 0 {
        "territory"
    } else if i == 1 {
        "jam"
    } else if i == 2 {
        "neck"
    } else if i == 3 {
        "chicken"
    } else if i == 4 {
        "cap"
    } else if i == 5 {
        "kiss"
    } else if i == 6 {
        "veil"
    } else if i == 7 {
        "trail"
    } else if i == 8 {
        "size"
    } else if i == 9 {
        "digestion"
    } else if i == 10 {
        "rod"
    } else {
        "seed"
    }
}

/// A random two-word keyword: a random adjective and a random noun from
/// the fixture word tables, joined by one space.
pub fn random_keyword(rnd_gen: &mut rand::rngs::StdRng) -> (r: String)
    ensures
        exists|i: int, j: int|
            0 <= i < 11 && 0 <= j < 12 && r@ == adjective_spec(i) + " "@ + noun_spec(j),
{
    let ai = rng_below(rnd_gen, 11) as usize;
    let ni = rng_below(rnd_gen, 12) as usize;
    let adj = adjective_word(ai);
    let noun = noun_word(ni);
    let mut r = String::from_str(adj);
    r.append(" ");
    r.append(noun);
    proof {
        assert(r@ == adjective_spec(ai as int) + " "@ + noun_spec(ni as int));
    }
    r
}

} // verus!
