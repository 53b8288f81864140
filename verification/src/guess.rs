//! The guessing-game demo: comparing a guess against the secret number.

use vstd::prelude::*;
use core::cmp::Ordering;

verus! {

/// How a guess compares to the secret: `Less` and `Greater` ask for a
/// bigger or smaller guess, `Equal` wins the game.
pub fn check_guess(guess: u32, secret: u32) -> (r: Ordering)
    ensures
        r == Ordering::Less <==> guess < secret,
        r == Ordering::Greater <==> guess > secret,
        r == Ordering::Equal <==> guess == secret,
{
    if guess < secret {
        Ordering::Less
    } else if guess > secret {
        Ordering::Greater
    } else {
        Ordering::Equal
    }
}

} // verus!
