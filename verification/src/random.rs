//! The random number generators that the search and the question generator
//! draw on, and the one thing that is asked of them: to put a list into a
//! random order.

use rand::seq::SliceRandom;
use rand::Rng;
use rand::SeedableRng;
use vstd::prelude::*;

verus! {

/// `rand::rngs::StdRng`, the seedable generator. Nothing is known of its state.
#[verifier::external_type_specification]
#[verifier::external_body]
pub struct ExStdRng(rand::rngs::StdRng);

/// `rand::rngs::ThreadRng`, the handle to the generator of the running thread.
#[verifier::external_type_specification]
#[verifier::external_body]
pub struct ExThreadRng(rand::rngs::ThreadRng);

/// `rand::thread_rng`: the generator of the running thread, seeded by the system.
pub assume_specification[ rand::thread_rng ]() -> rand::rngs::ThreadRng
;

/// `StdRng::from_entropy`: a generator seeded by the system. Nothing is
/// claimed of the generator that comes back.
#[verifier::external_body]
pub(crate) fn std_rng_from_entropy() -> rand::rngs::StdRng {
    rand::rngs::StdRng::from_entropy()
}

/// The generator that `StdRng::seed_from_u64` makes of a seed.
pub uninterp spec fn seeded_rng(seed: u64) -> rand::rngs::StdRng;

/// `StdRng::seed_from_u64`: a generator seeded with `seed`. It expands the
/// seed by a fixed recurrence and hands the bytes to the generator, so what
/// comes back depends on the seed alone: equal seeds give equal generators.
#[verifier::external_body]
pub(crate) fn std_rng_from_seed(seed: u64) -> (r: rand::rngs::StdRng)
    ensures
        r == seeded_rng(seed),
{
    rand::rngs::StdRng::seed_from_u64(seed)
}

/// `SliceRandom::shuffle` with a seedable generator: the items are swapped
/// among themselves, so the list holds the same items afterwards, each as
/// often as before. Nothing is claimed of their order.
#[verifier::external_body]
pub(crate) fn shuffle_seeded<T>(items: &mut Vec<T>, rng: &mut rand::rngs::StdRng)
    ensures
        final(items)@.to_multiset() == old(items)@.to_multiset(),
{
    items.shuffle(rng);
}

/// `SliceRandom::shuffle` with the generator of the running thread: the list
/// holds the same items afterwards, each as often as before. Nothing is
/// claimed of their order.
#[verifier::external_body]
pub(crate) fn shuffle_thread<T>(items: &mut Vec<T>, rng: &mut rand::rngs::ThreadRng)
    ensures
        final(items)@.to_multiset() == old(items)@.to_multiset(),
{
    items.shuffle(rng);
}

/// `Rng::gen_range` on a seedable generator: a number from `low` up to, but
/// not including, `high`. It panics where `low` is not below `high`.
#[verifier::external_body]
pub(crate) fn gen_range_seeded(rng: &mut rand::rngs::StdRng, low: usize, high: usize) -> (r: usize)
    requires
        low < high,
    ensures
        low <= r < high,
{
    rng.gen_range(low, high)
}

/// A list in another order holds the same items, and as many.
pub proof fn lemma_same_items<T>(a: Seq<T>, b: Seq<T>)
    requires
        a.to_multiset() == b.to_multiset(),
    ensures
        a.len() == b.len(),
        forall|x: T| a.contains(x) <==> b.contains(x),
        a.no_duplicates() ==> b.no_duplicates(),
{
    vstd::seq_lib::to_multiset_len(a);
    vstd::seq_lib::to_multiset_len(b);
    assert forall|x: T| a.contains(x) <==> b.contains(x) by {
        vstd::seq_lib::to_multiset_contains(a, x);
        vstd::seq_lib::to_multiset_contains(b, x);
    }
    if a.no_duplicates() {
        a.lemma_multiset_has_no_duplicates();
        b.lemma_multiset_has_no_duplicates_conv();
    }
}

} // verus!
