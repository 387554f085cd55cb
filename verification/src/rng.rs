//! The seeded random source that drives room placement.
//!
//! Draws come from the ChaCha generator with eight rounds. The state of that
//! generator is kept here in plain values, the seed it was made from and its
//! position in the output stream, so that every draw is a function of values
//! a caller can write down.

use rand::Rng;
use rand::SeedableRng;
use rand_chacha::ChaCha8Rng;
use vstd::prelude::*;

verus! {

/// What a `ChaCha8Rng` made by `seed_from_u64(seed)` and moved to
/// `word_pos` by `set_word_pos` returns from `gen_range(low..high)`, together
/// with the position that `get_word_pos` reports afterwards.
pub uninterp spec fn chacha8_range_draw(seed: u64, word_pos: u128, low: u32, high: u32) -> (
    u32,
    u128,
);

/// Calls `rand::Rng::gen_range` on a `rand_chacha::ChaCha8Rng` that
/// `seed_from_u64` made from `seed` and `set_word_pos` moved to `word_pos`,
/// and reads the new position with `get_word_pos`.
///
/// Trusted: the value and the new position depend on the four arguments
/// alone, and the value lies in `low..high`. The range must not be empty,
/// because `gen_range` panics on an empty range.
#[verifier::external_body]
fn chacha8_gen_range(seed: u64, word_pos: u128, low: u32, high: u32) -> (drawn: (u32, u128))
    requires
        low < high,
    ensures
        drawn == chacha8_range_draw(seed, word_pos, low, high),
        low <= drawn.0 < high,
{
    let mut rng = ChaCha8Rng::seed_from_u64(seed);
    rng.set_word_pos(word_pos);
    let value: u32 = rng.gen_range(low..high);
    (value, rng.get_word_pos())
}

/// A seeded random source: the seed and the number of 32-bit words already
/// taken from the stream that belongs to it.
#[derive(Debug, Clone, Copy, PartialEq, Eq, Structural)]
pub struct SeededRng {
    pub seed: u64,
    pub word_pos: u128,
}

impl SeededRng {
    /// The value that the next draw from `low..high` gives, and the source after it.
    pub open spec fn draw(self, low: u32, high: u32) -> (u32, SeededRng) {
        let drawn = chacha8_range_draw(self.seed, self.word_pos, low, high);
        (drawn.0, SeededRng { seed: self.seed, word_pos: drawn.1 })
    }

    /// A source at the start of the stream that belongs to `seed`.
    pub fn new(seed: u64) -> (rng: SeededRng)
        ensures
            rng == (SeededRng { seed, word_pos: 0 }),
    {
        SeededRng { seed, word_pos: 0 }
    }

    /// Draws a value from `low..high` and moves on in the stream.
    pub fn gen_range(&mut self, low: u32, high: u32) -> (value: u32)
        requires
            low < high,
        ensures
            (value, *final(self)) == old(self).draw(low, high),
            low <= value < high,
    {
        let drawn = chacha8_gen_range(self.seed, self.word_pos, low, high);
        self.word_pos = drawn.1;
        drawn.0
    }
}

} // verus!
