use rand::rngs::StdRng;
use rand::seq::SliceRandom;
use rand::Rng;
use vstd::prelude::*;

verus! {

/// rand's seedable generator; every random decision of the search draws from it.
#[verifier::external_type_specification]
#[verifier::external_body]
pub struct ExStdRng(StdRng);

/// Relies on rand's `Rng::gen_range`: a value drawn from `0..bound` (which is
/// not empty here, so the call does not panic).
#[verifier::external_body]
pub(crate) fn draw_below(rng: &mut StdRng, bound: u64) -> (r: u64)
    requires
        bound > 0,
    ensures
        r < bound,
{
    rng.gen_range(0..bound)
}

/// Relies on rand's `SliceRandom::shuffle`: the elements are reordered in
/// place, none is added or lost.
#[verifier::external_body]
pub(crate) fn shuffle(rng: &mut StdRng, v: &mut Vec<i64>)
    ensures
        final(v)@.to_multiset() == old(v)@.to_multiset(),
{
    v.shuffle(rng)
}

/// Returns `true` with probability `percent / 100`.
pub fn probability(rng: &mut StdRng, percent: u64) -> (r: bool)
    requires
        percent <= 100,
    ensures
        percent == 0 ==> !r,
        percent == 100 ==> r,
{
    draw_below(rng, 100) < percent
}

/// A value drawn from `lo..=hi`.
pub fn draw_between(rng: &mut StdRng, lo: u64, hi: u64) -> (r: u64)
    requires
        lo <= hi < u64::MAX,
    ensures
        lo <= r <= hi,
{
    lo + draw_below(rng, hi - lo + 1)
}

} // verus!
