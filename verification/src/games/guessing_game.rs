//! Guess a number: the secret is drawn at random, each guess is judged
//! against it.

use rand::Rng;
use vstd::prelude::*;

verus! {

/// The least number that can be the secret.
pub const LOWEST: u32 = 1;

/// The greatest number that can be the secret.
pub const HIGHEST: u32 = 100;

/// What a guess is told.
#[derive(Clone, Copy, Debug, PartialEq, Eq, Structural)]
pub enum Verdict {
    TooSmall,
    TooLarge,
    Win,
}

/// How a guess stands to the secret.
pub open spec fn verdict_of(guess: u32, secret: u32) -> Verdict {
    if guess < secret {
        Verdict::TooSmall
    } else if guess > secret {
        Verdict::TooLarge
    } else {
        Verdict::Win
    }
}

/// Judges one guess.
pub fn judge(guess: u32, secret: u32) -> (verdict: Verdict)
    ensures
        verdict == verdict_of(guess, secret),
{
    if guess < secret {
        Verdict::TooSmall
    } else if guess > secret {
        Verdict::TooLarge
    } else {
        Verdict::Win
    }
}

/// Draws a number with `rand::thread_rng().gen_range(low..=high)`. The rand
/// crate documents that the value lies in the given range, and that the call
/// panics on an empty range, which `low <= high` rules out. Which number
/// comes is left open: two calls may differ. The generator is seeded by the
/// operating system, and the crate gives up where that fails.
#[verifier::external_body]
fn random_between(low: u32, high: u32) -> (number: u32)
    requires
        low <= high,
    ensures
        low <= number <= high,
{
    rand::thread_rng().gen_range(low..=high)
}

/// Draws the secret number of a round. Which number comes is the
/// generator's to say; only the range is fixed.
pub fn pick_secret() -> (secret: u32)
    ensures
        LOWEST <= secret <= HIGHEST,
{
    random_between(LOWEST, HIGHEST)
}

} // verus!
