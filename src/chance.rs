use vstd::prelude::*;
use crate::units::sum_u64;
use rand_distr::Distribution;
use rand::{Rng, SeedableRng};

verus! {

/// The `n` integers in `[-100, 100]` that a `StdRng` seeded with `seed` draws first.
pub uninterp spec fn jitter_draws(seed: u32, n: nat) -> Seq<i32>;

/// Relies on `rand::rngs::StdRng::seed_from_u64` and `Rng::gen_range(-100..=100)`:
/// a seeded generator replays the same draws, each inside the inclusive range.
#[verifier::external_body]
pub(crate) fn draw_jitter(seed: u32, n: usize) -> (r: Vec<i32>)
    ensures
        r@ == jitter_draws(seed, n as nat),
        r@.len() == n,
        forall|i: int| 0 <= i < n ==> -100 <= #[trigger] r@[i] <= 100,
{
    let mut rng = rand::rngs::StdRng::seed_from_u64(seed as u64);
    (0..n).map(|_| rng.gen_range(-100..=100)).collect()
}

/// Relies on `rand::thread_rng` and `Rng::gen_range(0..n)`: a value below `n`.
#[verifier::external_body]
pub(crate) fn random_below(n: usize) -> (r: usize)
    requires
        n > 0,
    ensures
        r < n,
{
    rand::thread_rng().gen_range(0..n)
}

/// Relies on `rand_distr::WeightedIndex::new` (rand's `WeightedIndex`, re-exported) and
/// its `sample`: construction fails
/// exactly when there is no weight or every weight is zero, and each sampled index
/// carries a positive weight.
#[verifier::external_body]
pub(crate) fn sample_indices(weights: &Vec<u64>, count: usize) -> (r: Option<Vec<usize>>)
    requires
        sum_u64(weights@, weights@.len() as int) <= u64::MAX,
    ensures
        r.is_none() <==> sum_u64(weights@, weights@.len() as int) == 0,
        r.is_some() ==> r.unwrap()@.len() == count,
        r.is_some() ==> forall|i: int|
            0 <= i < count ==> #[trigger] r.unwrap()@[i] < weights@.len() && weights@[r.unwrap()@[i] as int] > 0,
{
    match rand_distr::WeightedIndex::new(weights.iter()) {
        Ok(dist) => {
            let mut rng = rand::thread_rng();
            Some((0..count).map(|_| dist.sample(&mut rng)).collect())
        },
        Err(_) => None,
    }
}

} // verus!
