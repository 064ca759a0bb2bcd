//! The game's random generator, which is `quad_rand`'s global one.

use vstd::prelude::*;

verus! {

/// The number `quad_rand::gen_range(0, high)` gives right after
/// `quad_rand::srand(seed)`. `srand` resets the generator's whole state from
/// `seed`, and `gen_range` computes from that state alone, so the number is a
/// function of `seed` and `high`.
pub uninterp spec fn seeded_roll(seed: u64, high: i32) -> i32;

/// Calls `quad_rand::srand(seed)`, then `quad_rand::gen_range(0, high)`, on
/// the global generator. `srand` sets the state from `seed` alone, and
/// `gen_range` turns the generator's next 32-bit output `u` into
/// `(high * (u / 2^32)) as i32`. Claimed: the result is `seeded_roll(seed,
/// high)`, and it lies in `0..high`. The generator's state after the call is
/// not described.
#[verifier::external_body]
pub(crate) fn roll_seeded(seed: u64, high: i32) -> (r: i32)
    requires
        0 < high,
    ensures
        r == seeded_roll(seed, high),
        0 <= r < high,
{
    quad_rand::srand(seed);
    quad_rand::gen_range(0, high)
}

} // verus!
