//! The random source, and the three draws the search makes from it.
//!
//! Nothing in this module is proved: each function hands its arguments to the
//! `rand` crate, and its contract says only what holds of every value that
//! can come back.

use rand::rngs::StdRng;
use rand::seq::SliceRandom;
use rand::Rng;
use vstd::prelude::*;

verus! {

/// `rand::rngs::StdRng`, the generator every draw is made from. Its state is
/// opaque here.
#[verifier::external_type_specification]
#[verifier::external_body]
pub struct ExStdRng(rand::rngs::StdRng);

/// A probability, held as the ratio `numerator / denominator`.
#[derive(Clone, Copy, Debug, PartialEq, Eq)]
pub struct Rate {
    pub numerator: u32,
    pub denominator: u32,
}

impl Rate {
    /// The ratio names a probability: it lies between zero and one.
    pub open spec fn wf(self) -> bool {
        0 < self.denominator && self.numerator <= self.denominator
    }

    /// The rate `numerator / denominator`, or nothing when that is no
    /// probability.
    pub fn new(numerator: u32, denominator: u32) -> (rate: Option<Rate>)
        ensures
            rate is Some <==> 0 < denominator && numerator <= denominator,
            rate is Some ==> rate->0 == (Rate { numerator, denominator }),
    {
        if denominator == 0 || numerator > denominator {
            None
        } else {
            Some(Rate { numerator, denominator })
        }
    }
}

/// `Rng::random_range` on `0..bound`: some index below `bound`. The call
/// panics on an empty range, which the precondition rules out.
#[verifier::external_body]
pub(crate) fn random_below(rng: &mut StdRng, bound: usize) -> (index: usize)
    requires
        bound > 0,
    ensures
        index < bound,
{
    rng.random_range(0..bound)
}

/// `Rng::random_ratio`: true with probability `rate`. The crate promises
/// `false` for a zero numerator and `true` when numerator and denominator
/// agree; it panics unless the ratio is a probability.
#[verifier::external_body]
pub(crate) fn random_chance(rng: &mut StdRng, rate: Rate) -> (hit: bool)
    requires
        rate.wf(),
    ensures
        rate.numerator == 0 ==> !hit,
        rate.numerator == rate.denominator ==> hit,
{
    rng.random_ratio(rate.numerator, rate.denominator)
}

/// `SliceRandom::shuffle`: rearranges the items in place. The items are
/// swapped among themselves, so the same values remain, each as often as
/// before.
#[verifier::external_body]
pub(crate) fn shuffle(items: &mut Vec<usize>, rng: &mut StdRng)
    ensures
        final(items)@.to_multiset() == old(items)@.to_multiset(),
{
    items.shuffle(rng);
}

} // verus!
