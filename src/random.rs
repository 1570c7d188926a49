use vstd::prelude::*;
use rand::rngs::StdRng;
use rand::seq::SliceRandom;

verus! {

/// rand's standard generator, carried through opaquely.
#[verifier::external_type_specification]
#[verifier::external_body]
pub struct ExStdRng(StdRng);

/// Relies on rand's `SliceRandom::shuffle`: it reorders the slice in place and keeps its
/// elements.
#[verifier::external_body]
pub(crate) fn shuffle_digits(digits: &mut [u8; 9], rng: &mut StdRng)
    ensures
        final(digits)@.to_multiset() == old(digits)@.to_multiset(),
{
    digits.shuffle(rng);
}

/// Relies on `rand::seq::index::sample`: exactly `amount` distinct indices from
/// `0..length`. It panics when `amount > length`.
#[verifier::external_body]
pub(crate) fn sample_indices(rng: &mut StdRng, length: usize, amount: usize) -> (r: Vec<usize>)
    requires
        amount <= length,
    ensures
        r@.len() == amount,
        r@.no_duplicates(),
        forall|i: int| 0 <= i < r@.len() ==> #[trigger] r@[i] < length,
{
    rand::seq::index::sample(rng, length, amount).into_vec()
}

} // verus!
