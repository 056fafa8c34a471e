//! Rounds are fixed-width time buckets, counted in minutes from the epoch:
//! round `b` covers the wall-clock seconds `[(b - 1) * 60, b * 60)`, so a
//! round's end time is `b * 60` seconds since the epoch.

use vstd::prelude::*;

verus! {

/// Width of one round in seconds.
pub const ROUND_SECONDS: u64 = 60;

/// The round that is open at `seconds` since the epoch: the round whose
/// end time is the next bucket boundary strictly after `seconds`.
pub open spec fn round_after(seconds: int) -> int {
    seconds / (ROUND_SECONDS as int) + 1
}

/// The end time of round `round`, in seconds since the epoch.
pub open spec fn round_end_seconds(round: int) -> int {
    round * (ROUND_SECONDS as int)
}

/// Errors from converting between wall-clock times and rounds.
#[derive(Debug, Clone, Copy, PartialEq, Eq, Structural)]
pub enum TimeError {
    /// The timestamp lies before the Unix epoch.
    BeforeEpoch,
    /// The round's end time does not fit in a signed 64-bit second count.
    OutOfRange,
}

/// A round identifier: the number of whole minutes from the epoch to the
/// round's end.
#[derive(Debug, Clone, Copy, PartialEq, Eq, Structural)]
pub struct GuessTimestamp(pub u64);

impl GuessTimestamp {
    /// The round accepting wagers at a wall-clock time (seconds since the
    /// epoch, possibly negative): the round that finishes next. A time
    /// before the epoch is rejected.
    pub fn after(seconds: i64) -> (r: Result<GuessTimestamp, TimeError>)
        ensures
            seconds >= 0 ==> r == Ok::<GuessTimestamp, TimeError>(
                GuessTimestamp((round_after(seconds as int)) as u64),
            ),
            seconds < 0 ==> r == Err::<GuessTimestamp, TimeError>(TimeError::BeforeEpoch),
    {
        if seconds < 0 {
            Err(TimeError::BeforeEpoch)
        } else {
            Ok(GuessTimestamp(seconds as u64 / ROUND_SECONDS + 1))
        }
    }

    /// The round's end time in seconds since the epoch, exact and
    /// invertible; fails only when the product leaves the `i64` range.
    pub fn end_seconds(self) -> (r: Result<i64, TimeError>)
        ensures
            round_end_seconds(self.0 as int) <= i64::MAX as int ==> r == Ok::<i64, TimeError>(
                (self.0 * ROUND_SECONDS) as i64,
            ) && r.unwrap() as int == round_end_seconds(self.0 as int),
            round_end_seconds(self.0 as int) > i64::MAX as int ==> r == Err::<i64, TimeError>(
                TimeError::OutOfRange,
            ),
    {
        if self.0 <= i64::MAX as u64 / ROUND_SECONDS {
            Ok((self.0 * ROUND_SECONDS) as i64)
        } else {
            Err(TimeError::OutOfRange)
        }
    }
}

/// Bucketing inverts the end-time map: asking for the current round exactly
/// at, or anywhere inside, round `b`'s final minute yields `b + 1`.
pub proof fn lemma_round_after_inverts_end(round: u64, seconds: int)
    requires
        round_end_seconds(round as int) <= seconds < round_end_seconds(round as int + 1),
    ensures
        round_after(seconds) == round + 1,
{
    let w = ROUND_SECONDS as int;
    assert(round * w <= seconds < (round + 1) * w);
    assert((round + 1) * w == round * w + w) by (nonlinear_arith);
    assert(seconds / w == round as int) by (nonlinear_arith)
        requires
            w == 60,
            round * w <= seconds < round * w + w,
    ;
}

} // verus!
