//! Reading the clock for time-limited searches.
use vstd::prelude::*;
use std::time::{Duration, Instant};

verus! {

#[verifier::external_type_specification]
#[verifier::external_body]
pub struct ExInstant(std::time::Instant);

/// Calls `Instant::elapsed`: the time since `start`. It depends on the clock,
/// so nothing is stated of the result.
#[verifier::external_body]
fn elapsed(start: &Instant) -> (d: Duration) {
    start.elapsed()
}

/// Calls `<` of `Duration`. Verus sees nothing inside a `Duration`, so no
/// clause states the result.
#[verifier::external_body]
fn duration_lt(a: &Duration, b: &Duration) -> (res: bool) {
    *a < *b
}

/// Evidence that the clock, read from `start`, had reached `deadline`: only
/// `check_deadline` makes one, and only after such a reading.
pub struct TimeUp {
    start: Instant,
    deadline: Duration,
}

impl TimeUp {
    /// The start the clock was read from.
    pub closed spec fn started(self) -> Instant {
        self.start
    }

    /// The deadline the clock had reached.
    pub closed spec fn limit(self) -> Duration {
        self.deadline
    }
}

/// `None` while less than `deadline` has passed since `start`; otherwise the
/// evidence that it has.
pub fn check_deadline(start: &Instant, deadline: &Duration) -> (res: Option<TimeUp>)
    ensures
        res matches Some(t) ==> t.started() == *start && t.limit() == *deadline,
{
    if before_deadline(start, deadline) {
        None
    } else {
        Some(TimeUp { start: *start, deadline: *deadline })
    }
}

/// Evidence that a budget of `limit` rounds was used up: only
/// `RoundBudget::take` makes one.
pub struct RoundsUp {
    limit: usize,
}

impl RoundsUp {
    /// The size of the budget that was used up.
    pub closed spec fn limit(self) -> usize {
        self.limit
    }
}

/// A budget of rounds: `take` spends one, or gives the evidence that none
/// is left.
pub struct RoundBudget {
    left: usize,
    limit: usize,
}

impl RoundBudget {
    /// Rounds still to spend.
    pub closed spec fn left(self) -> usize {
        self.left
    }

    /// The size of the budget.
    pub closed spec fn limit(self) -> usize {
        self.limit
    }

    /// A budget of `limit` rounds.
    pub fn new(limit: usize) -> (b: RoundBudget)
        ensures
            b.limit() == limit,
            b.left() == limit,
    {
        RoundBudget { left: limit, limit }
    }

    /// Spends a round, or, when none is left, gives the evidence.
    pub fn take(&mut self) -> (res: Option<RoundsUp>)
        ensures
            final(self).limit() == old(self).limit(),
            res is None ==> old(self).left() > 0 && final(self).left() == old(self).left() - 1,
            res matches Some(t) ==> t.limit() == old(self).limit() && final(self).left() == old(self).left(),
    {
        if self.left == 0 {
            Some(RoundsUp { limit: self.limit })
        } else {
            self.left = self.left - 1;
            None
        }
    }
}

/// Why a search stopped before it was done: its deadline passed, or its
/// budget of rounds was used up.
pub enum SearchStop {
    Time(TimeUp),
    Rounds(RoundsUp),
}

/// Whether less than `deadline` has passed since `start`; every outcome is
/// possible as far as the proofs go.
pub fn before_deadline(start: &Instant, deadline: &Duration) -> (res: bool) {
    let e = elapsed(start);
    duration_lt(&e, deadline)
}

} // verus!
