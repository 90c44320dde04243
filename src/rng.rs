use vstd::prelude::*;

verus! {

/// fastrand's generator, carried by the board and never looked into.
#[verifier::external_type_specification]
#[verifier::external_body]
pub struct ExRng(fastrand::Rng);

/// Relies on fastrand::Rng::with_seed: a generator whose stream the seed fixes.
#[verifier::external_body]
pub(crate) fn rng_with_seed(seed: u64) -> fastrand::Rng {
    fastrand::Rng::with_seed(seed)
}

/// Relies on fastrand::Rng::new: a generator seeded from fastrand's thread-local one.
#[verifier::external_body]
pub(crate) fn rng_fresh() -> fastrand::Rng {
    fastrand::Rng::new()
}

/// Relies on fastrand::Rng::usize: a number drawn from `0..n`.
#[verifier::external_body]
pub(crate) fn random_below(rng: &mut fastrand::Rng, n: usize) -> (r: usize)
    requires
        n > 0,
    ensures
        r < n,
{
    rng.usize(0..n)
}

/// Relies on fastrand::Rng::choice: one of the items, or `None` when there are none.
#[verifier::external_body]
pub(crate) fn random_choice(rng: &mut fastrand::Rng, items: Vec<usize>) -> (r: Option<usize>)
    ensures
        items@.len() == 0 <==> r is None,
        r is Some ==> items@.contains(r->0),
{
    rng.choice(items)
}

/// Relies on fastrand::Rng::shuffle: the items are only swapped among themselves.
#[verifier::external_body]
pub(crate) fn random_shuffle(rng: &mut fastrand::Rng, items: &mut Vec<usize>)
    ensures
        final(items)@.to_multiset() == old(items)@.to_multiset(),
{
    rng.shuffle(items.as_mut_slice())
}

} // verus!
