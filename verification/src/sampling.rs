//! Weighted random choice for the probabilistic fallback policy. The one
//! call into the random-number crates lives here; everything that depends
//! on the drawn index is verified for every index the contract allows.
use rand::prelude::Distribution;
use vstd::prelude::*;

verus! {

/// Draws one index at random with probability proportional to its weight.
///
/// Relies on rand_distr's weighted alias index sampled with rand's thread
/// rng: construction succeeds exactly under the conditions required here
/// (at least one weight, no more than `u32::MAX`, each weight at most the
/// type maximum divided by the length, not all zero), and with integer
/// weights the alias method returns an index in range whose weight is
/// positive, whatever the random draws were.
#[verifier::external_body]
fn sample_weighted_index(weights: &Vec<u64>) -> (r: usize)
    requires
        1 <= weights@.len() <= u32::MAX,
        forall|i: int| 0 <= i < weights@.len() ==> #[trigger] weights@[i] <= u64::MAX as int / weights@.len() as int,
        exists|i: int| 0 <= i < weights@.len() && #[trigger] weights@[i] > 0,
    ensures
        r < weights@.len(),
        weights@[r as int] > 0,
{
    let dist = rand_distr::WeightedAliasIndex::new(weights.clone()).unwrap();
    let mut rng = rand::thread_rng();
    dist.sample(&mut rng)
}

/// Picks, by weighted random draw, one position among the scores. Returns
/// a position holding a positive score; every result the randomness can
/// produce satisfies that.
pub fn choose_weighted(scores: &Vec<u64>) -> (r: usize)
    requires
        1 <= scores@.len() <= crate::MAX_RECORDS,
        forall|i: int| 0 <= i < scores@.len() ==> #[trigger] scores@[i] <= crate::MAX_SCORE,
        exists|i: int| 0 <= i < scores@.len() && #[trigger] scores@[i] > 0,
    ensures
        r < scores@.len(),
        scores@[r as int] > 0,
{
    proof {
        let len = scores@.len() as int;
        assert(crate::MAX_SCORE * len <= u64::MAX) by (nonlinear_arith)
            requires 1 <= len <= crate::MAX_RECORDS;
        vstd::arithmetic::div_mod::lemma_div_multiples_vanish(crate::MAX_SCORE as int, len);
        vstd::arithmetic::div_mod::lemma_div_is_ordered(
            len * crate::MAX_SCORE as int,
            u64::MAX as int,
            len,
        );
        assert(len * crate::MAX_SCORE as int == crate::MAX_SCORE as int * len)
            by (nonlinear_arith);
        assert forall|i: int| 0 <= i < scores@.len() implies #[trigger] scores@[i]
            <= u64::MAX as int / scores@.len() as int by {
            assert(crate::MAX_SCORE as int <= u64::MAX as int / len);
        }
    }
    sample_weighted_index(scores)
}

} // verus!
