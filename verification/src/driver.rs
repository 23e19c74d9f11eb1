//! The pace of the loop that asks, works and leaves.

use vstd::prelude::*;

verus! {

/// No pause lasts this many milliseconds or more.
pub const PAUSE_LIMIT: u64 = 5000;

/// `rand::random` for `u64`: a number drawn afresh at each call.  Nothing is
/// known of it.
#[verifier::external_body]
fn draw() -> u64 {
    rand::random::<u64>()
}

/// The pause, in milliseconds, that the draw `drawn` stands for.
pub fn pause_of(drawn: u64) -> (millis: u64)
    ensures
        millis == drawn % PAUSE_LIMIT,
        millis < PAUSE_LIMIT,
{
    drawn % PAUSE_LIMIT
}

/// A pause of random length, in milliseconds, below [`PAUSE_LIMIT`].
pub fn random_pause() -> (millis: u64)
    ensures
        millis < PAUSE_LIMIT,
{
    pause_of(draw())
}

} // verus!
