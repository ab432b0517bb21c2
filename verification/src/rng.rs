//! Random words from the generator of the calling thread.

use vstd::prelude::*;

verus! {

/// `rand::rngs::ThreadRng`, the handle to the generator of a thread. What
/// is inside is not looked at.
#[verifier::external_type_specification]
#[verifier::external_body]
pub struct ExThreadRng(rand::rngs::ThreadRng);

/// `rand::thread_rng` hands out a handle to the generator of the calling
/// thread, seeded by the system. Nothing is claimed of the handle. The call
/// fails only where the system cannot seed the generator.
pub assume_specification[ rand::thread_rng ]() -> (rng: rand::rngs::ThreadRng);

/// `rand::Rng::sample` with the `Standard` distribution draws the next
/// 64-bit word of the generator. Nothing is claimed of the word: any value
/// may come back, and two calls may differ.
#[verifier::external_body]
pub(crate) fn next_word(rng: &mut rand::rngs::ThreadRng) -> (w: u64) {
    rand::Rng::sample(rng, rand::distributions::Standard)
}

/// `n` words drawn one after the other from `rng`.
pub fn draw_words(rng: &mut rand::rngs::ThreadRng, n: usize) -> (words: Vec<u64>)
    ensures
        words@.len() == n,
{
    let mut words: Vec<u64> = Vec::new();
    let mut i: usize = 0;
    while i < n
        invariant
            i <= n,
            words@.len() == i,
        decreases n - i,
    {
        let w: u64 = next_word(rng);
        words.push(w);
        i += 1;
    }
    words
}

/// `n` words drawn one after the other from the generator of the thread.
pub fn random_words(n: usize) -> (words: Vec<u64>)
    ensures
        words@.len() == n,
{
    let mut rng = rand::thread_rng();
    draw_words(&mut rng, n)
}

} // verus!
