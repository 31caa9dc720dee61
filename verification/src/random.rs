//! The random source. Randomness enters the engine only through the
//! functions of this module, and always from a generator that the caller
//! passes in.

use rand::rngs::SmallRng;
use rand::seq::SliceRandom;
use rand::SeedableRng;
use vstd::prelude::*;

verus! {

/// `rand::rngs::SmallRng`, the small fast generator of the `rand` crate.
/// Its state is opaque to the proofs.
#[verifier::external_type_specification]
#[verifier::external_body]
pub struct ExSmallRng(rand::rngs::SmallRng);

/// Shuffles `items` in place with `rand::seq::SliceRandom::shuffle`.
///
/// Trusted: the shuffle only swaps elements, so the result holds the same
/// elements as before, each as often as before. Nothing is claimed about
/// their order.
#[verifier::external_body]
pub(crate) fn shuffle<T>(items: &mut Vec<T>, rng: &mut SmallRng)
    ensures
        final(items)@.to_multiset() == old(items)@.to_multiset(),
{
    items.shuffle(rng);
}

/// A generator seeded with `rand::SeedableRng::seed_from_u64`.
///
/// Trusted, and nothing is claimed of the generator that comes back.
#[verifier::external_body]
pub(crate) fn seeded_rng(seed: u64) -> (rng: SmallRng) {
    SmallRng::seed_from_u64(seed)
}

/// After a shuffle the sequence has its old length, and holds exactly the
/// elements it held before.
pub proof fn lemma_shuffled<T>(before: Seq<T>, after: Seq<T>)
    requires
        after.to_multiset() == before.to_multiset(),
    ensures
        after.len() == before.len(),
        forall|v: T| before.contains(v) <==> after.contains(v),
{
    before.to_multiset_ensures();
    after.to_multiset_ensures();
    assert forall|v: T| before.contains(v) <==> after.contains(v) by {
        assert(before.contains(v) <==> before.to_multiset().count(v) > 0);
        assert(after.contains(v) <==> after.to_multiset().count(v) > 0);
    }
}

} // verus!
