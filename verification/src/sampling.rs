//! The random draws that a walk makes.

use rand::distributions::Distribution;
use rand::distributions::WeightedIndex;
use vstd::prelude::*;

verus! {

/// The sum of a list of weights.
pub open spec fn weight_sum(weights: Seq<usize>) -> nat
    decreases weights.len(),
{
    if weights.len() == 0 {
        0
    } else {
        weight_sum(weights.drop_last()) + weights.last() as nat
    }
}

/// Appending a weight adds it to the sum.
pub proof fn lemma_sum_push(weights: Seq<usize>, weight: usize)
    ensures
        weight_sum(weights.push(weight)) == weight_sum(weights) + weight,
{
    assert(weights.push(weight).drop_last() =~= weights);
}

/// Replacing one weight changes the sum by the difference.
pub proof fn lemma_sum_update(weights: Seq<usize>, at: int, weight: usize)
    requires
        0 <= at < weights.len(),
    ensures
        weight_sum(weights.update(at, weight)) == weight_sum(weights) - weights[at] + weight,
    decreases weights.len(),
{
    if at == weights.len() - 1 {
        assert(weights.update(at, weight).drop_last() =~= weights.drop_last());
    } else {
        lemma_sum_update(weights.drop_last(), at, weight);
        assert(weights.update(at, weight).drop_last() =~= weights.drop_last().update(at, weight));
    }
}

/// No weight exceeds the sum.
pub proof fn lemma_sum_bounds_each(weights: Seq<usize>, at: int)
    requires
        0 <= at < weights.len(),
    ensures
        weights[at] <= weight_sum(weights),
    decreases weights.len(),
{
    if at < weights.len() - 1 {
        lemma_sum_bounds_each(weights.drop_last(), at);
    }
}

/// Calls `rand::random::<usize>()`, which draws an integer from the calling
/// thread's generator. Nothing is claimed of the value drawn.
#[verifier::external_body]
pub(crate) fn random_draw() -> usize {
    rand::random::<usize>()
}

/// Builds a `rand::distributions::WeightedIndex` over `weights` and samples
/// it once with the generator that `rand::thread_rng()` returns.
///
/// `WeightedIndex::new` adds the weights up in `usize` and refuses an empty
/// list and a sum of zero: the precondition leaves those lists out. The
/// sample is a position in `weights`, drawn with probability proportional to
/// the weight there, so never one that holds a zero. Which position comes
/// back is left open.
#[verifier::external_body]
pub(crate) fn sample_weighted(weights: &Vec<usize>) -> (index: usize)
    requires
        weights@.len() > 0,
        0 < weight_sum(weights@) <= usize::MAX,
    ensures
        index < weights@.len(),
        weights@[index as int] > 0,
{
    let distribution = WeightedIndex::new(weights).unwrap();
    let mut generator = rand::thread_rng();
    distribution.sample(&mut generator)
}

} // verus!
