//! Categorical sampling from integer weight vectors.
//!
//! The one place where the library meets the random-number source: drawing
//! an index from a non-negative weight vector.  Scaling all weights by a
//! common positive factor does not change the distribution, which is why the
//! model can sample from exact integer numerators instead of normalized
//! fractions.

use vstd::prelude::*;
use rand::Rng;
use rand::distributions::WeightedIndex;

verus! {

/// The random generator the library draws from.  Verus sees it as an opaque
/// value; reproducibility under a fixed seed is rand's own promise.
#[verifier::external_type_specification]
#[verifier::external_body]
pub struct ExStdRng(rand::rngs::StdRng);

/// The sum of the first `k` weights.
pub open spec fn weights_sum(s: Seq<u64>, k: int) -> int
    decreases k,
{
    if k <= 0 {
        0
    } else {
        weights_sum(s, k - 1) + s[k - 1]
    }
}

/// A positive sum of weights has a positive weight.
pub proof fn lemma_weights_pos(s: Seq<u64>, k: int)
    requires
        weights_sum(s, k) > 0,
        k <= s.len(),
    ensures
        exists|t: int| 0 <= t < k && #[trigger] s[t] > 0,
    decreases k,
{
    if k > 0 {
        if s[k - 1] > 0 {
            assert(0 <= k - 1 < k && s[k - 1] > 0);
        } else {
            lemma_weights_pos(s, k - 1);
        }
    }
}

/// Draw one index from the categorical distribution given by `weights`.
///
/// Relies on rand's `WeightedIndex::new` and `Rng::sample`: with at least
/// one positive weight and a total that fits in `u64`, construction
/// succeeds, and sampling returns an in-range index whose weight is
/// positive (an index is returned with probability proportional to its
/// weight, so zero-weight indices are never returned).
#[verifier::external_body]
pub fn sample_weighted(weights: &Vec<u64>, rng: &mut rand::rngs::StdRng) -> (r: usize)
    requires
        weights_sum(weights@, weights@.len() as int) > 0,
        weights_sum(weights@, weights@.len() as int) <= u64::MAX,
    ensures
        r < weights@.len(),
        weights@[r as int] > 0,
{
    let dist = WeightedIndex::new(weights.iter()).unwrap();
    rng.sample(dist)
}

} // verus!
