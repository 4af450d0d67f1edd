//! The two places where chance enters a user's run: the order of the tasks
//! within a bucket, and the length of the wait between two tasks.

use rand::rngs::ThreadRng;
use rand::seq::SliceRandom;
use rand::Rng;
use vstd::prelude::*;

verus! {

/// Whether `a` and `b` hold the same entries, each as often, in some order.
pub open spec fn is_permutation(a: Seq<usize>, b: Seq<usize>) -> bool {
    a.to_multiset() == b.to_multiset()
}

/// A permutation is as long as what it permutes.
pub proof fn lemma_permutation_length(a: Seq<usize>, b: Seq<usize>)
    requires
        is_permutation(a, b),
    ensures
        a.len() == b.len(),
{
    a.to_multiset_ensures();
    b.to_multiset_ensures();
}

/// The generator of random numbers of `rand`'s threads. Nothing of its state
/// is known here.
#[verifier::external_type_specification]
#[verifier::external_body]
pub struct ExThreadRng(ThreadRng);

/// The generator of the calling thread, by `rand::thread_rng`. A thread's
/// first call seeds the generator from the operating system, and panics where
/// the system gives no seed. Nothing is promised of the generator.
#[verifier::external_body]
pub(crate) fn thread_generator() -> (rng: ThreadRng) {
    rand::thread_rng()
}

/// Brings `entries` into a random order, by `rand::seq::SliceRandom::shuffle`.
/// The shuffle only swaps entries of the slice, so the vector afterwards holds
/// what it held before, as often, in an order that no contract foretells.
#[verifier::external_body]
pub(crate) fn shuffle(entries: &mut Vec<usize>, rng: &mut ThreadRng)
    ensures
        is_permutation(final(entries)@, old(entries)@),
{
    entries.shuffle(rng);
}

/// Draws a number from `low` up to, not including, `high`, by
/// `rand::Rng::gen_range`. The call panics unless `low < high`; which number
/// of the range comes back no contract foretells.
#[verifier::external_body]
pub(crate) fn draw_between(rng: &mut ThreadRng, low: usize, high: usize) -> (n: usize)
    requires
        low < high,
    ensures
        low <= n < high,
{
    rng.gen_range(low, high)
}

/// What a wait may be under the bounds `min_wait` and `max_wait`: 0 where the
/// maximum is 0, and otherwise at least the minimum and below the maximum.
pub open spec fn wait_allowed(min_wait: usize, max_wait: usize, wait: usize) -> bool {
    if max_wait == 0 {
        wait == 0
    } else {
        min_wait <= wait < max_wait
    }
}

/// Draws the number of seconds to wait after a task: none where `max_wait` is
/// 0, and otherwise a number from `min_wait` up to, not including, `max_wait`.
pub fn draw_wait(min_wait: usize, max_wait: usize) -> (wait: usize)
    requires
        max_wait == 0 || min_wait < max_wait,
    ensures
        wait_allowed(min_wait, max_wait, wait),
{
    if max_wait > 0 {
        let mut rng = thread_generator();
        draw_between(&mut rng, min_wait, max_wait)
    } else {
        0
    }
}

} // verus!
