//! The retry curve that every protocol shares.

use vstd::prelude::*;

verus! {

/// How many times a read or write is tried.
pub const MAX_READ_ATTEMPTS: u32 = 5;

/// The pause after a failed attempt, counted from zero: half a second,
/// doubled with every attempt.
pub open spec fn pause_ms(attempt: nat) -> nat
    decreases attempt,
{
    if attempt == 0 {
        500
    } else {
        2 * pause_ms((attempt - 1) as nat)
    }
}

/// A sequence of attempts.
#[derive(Debug, Clone, Copy, PartialEq, Eq, Structural)]
pub struct Attempts {
    /// How many have failed.
    pub failed: u32,
}

/// What follows a failed attempt.
#[derive(Debug, Clone, Copy, PartialEq, Eq, Structural)]
pub struct Pause {
    /// How long to wait, in milliseconds.
    pub millis: u64,
    /// Whether there is another attempt after the wait.
    pub again: bool,
}

impl Attempts {
    /// Before the first attempt.
    pub fn new() -> (r: Attempts)
        ensures
            r.failed == 0,
    {
        Attempts { failed: 0 }
    }

    /// Note a failed attempt. There is a pause after every one, after the last
    /// one too.
    pub fn fail(&mut self) -> (r: Pause)
        requires
            old(self).failed < MAX_READ_ATTEMPTS,
        ensures
            final(self).failed == old(self).failed + 1,
            r.millis == pause_ms(old(self).failed as nat),
            r.again == (final(self).failed < MAX_READ_ATTEMPTS),
    {
        let mut millis: u64 = 500;
        let mut i: u32 = 0;
        while i < self.failed
            invariant
                i <= self.failed,
                self.failed < MAX_READ_ATTEMPTS,
                millis == pause_ms(i as nat),
                millis <= 500 * 16,
                i == 0 ==> millis == 500,
                i == 1 ==> millis == 1000,
                i == 2 ==> millis == 2000,
                i == 3 ==> millis == 4000,
                i == 4 ==> millis == 8000,
            decreases self.failed - i,
        {
            millis = millis * 2;
            i = i + 1;
        }
        self.failed = self.failed + 1;
        Pause { millis, again: self.failed < MAX_READ_ATTEMPTS }
    }
}

/// All pauses of `n` failed attempts together.
pub open spec fn total_pause_ms(n: nat) -> nat
    decreases n,
{
    if n == 0 {
        0
    } else {
        total_pause_ms((n - 1) as nat) + pause_ms((n - 1) as nat)
    }
}

/// A read that never succeeds gives up after fifteen and a half seconds of
/// pauses.
pub proof fn lemma_exhausted_pause()
    ensures
        total_pause_ms(MAX_READ_ATTEMPTS as nat) == 15_500,
{
    reveal_with_fuel(pause_ms, 6);
    reveal_with_fuel(total_pause_ms, 6);
}

/// Every pause is twice the one before it, from half a second on, and all pauses
/// together fall half a second short of the next one.
pub proof fn lemma_pauses_double(attempt: nat)
    ensures
        pause_ms(0) == 500,
        pause_ms(attempt + 1) == 2 * pause_ms(attempt),
        total_pause_ms(attempt) + 500 == pause_ms(attempt),
    decreases attempt,
{
    if attempt > 0 {
        lemma_pauses_double((attempt - 1) as nat);
    }
}

} // verus!
