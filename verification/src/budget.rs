//! The wall-clock budget of a solve. Reading the clock is the one thing here
//! that is not computed; what is made of a reading is.

use std::time::{Duration, Instant};
use vstd::prelude::*;

verus! {

/// `std::time::Instant`, a reading of the monotonic clock. Nothing of what
/// it holds is visible here.
#[verifier::external_type_specification]
#[verifier::external_body]
pub struct ExInstant(std::time::Instant);

/// `Instant::now` reads the monotonic clock; nothing is claimed of the
/// instant that it returns.
pub assume_specification[ std::time::Instant::now ]() -> (now: Instant);

/// `Instant::elapsed` gives the time since the instant was taken; nothing is
/// claimed of its length.
pub assume_specification[ std::time::Instant::elapsed ](start: &Instant) -> (elapsed: Duration);

/// `Duration::as_nanos` gives the whole duration in nanoseconds; a duration
/// is opaque here, so nothing is claimed of the number.
pub assume_specification[ std::time::Duration::as_nanos ](duration: &Duration) -> (nanos: u128);

pub const NANOS_PER_MILLI: u128 = 1_000_000;

/// The budget left, in whole milliseconds, once `elapsed_nanos` nanoseconds
/// of a budget of `budget_ms` milliseconds have gone by.
pub open spec fn millis_left(budget_ms: int, elapsed_nanos: int) -> int {
    if budget_ms == 0 || elapsed_nanos >= budget_ms * NANOS_PER_MILLI {
        0
    } else {
        (budget_ms * NANOS_PER_MILLI - elapsed_nanos) / (NANOS_PER_MILLI as int)
    }
}

/// Whether a budget of `budget_ms` milliseconds is used up after
/// `elapsed_nanos` nanoseconds: a budget of zero always is.
pub open spec fn used_up(budget_ms: int, elapsed_nanos: int) -> bool {
    budget_ms == 0 || elapsed_nanos >= budget_ms * NANOS_PER_MILLI
}

/// Whole milliseconds in a count of nanoseconds, kept to 64 bits.
pub fn whole_millis(nanos: u128) -> (millis: u64)
    ensures
        millis as int == (nanos / NANOS_PER_MILLI) % 0x1_0000_0000_0000_0000,
{
    let whole: u128 = nanos / NANOS_PER_MILLI;
    let millis: u64 = #[verifier::truncate]
    (whole as u64);
    assert(millis as u128 == whole % 0x1_0000_0000_0000_0000u128) by (bit_vector)
        requires
            millis == #[verifier::truncate]
            (whole as u64),
    ;
    millis
}

pub fn remaining_after(budget_ms: u64, elapsed_nanos: u128) -> (left: u64)
    ensures
        left as int == millis_left(budget_ms as int, elapsed_nanos as int),
        left <= budget_ms,
{
    let budget_nanos: u128 = (budget_ms as u128) * NANOS_PER_MILLI;
    if budget_ms == 0 || elapsed_nanos >= budget_nanos {
        0
    } else {
        ((budget_nanos - elapsed_nanos) / NANOS_PER_MILLI) as u64
    }
}

pub fn exhausted_after(budget_ms: u64, elapsed_nanos: u128) -> (done: bool)
    ensures
        done == used_up(budget_ms as int, elapsed_nanos as int),
{
    let budget_nanos: u128 = (budget_ms as u128) * NANOS_PER_MILLI;
    budget_ms == 0 || elapsed_nanos >= budget_nanos
}

/// Tracks a wall-clock budget from the moment it is made.
pub struct BudgetClock {
    start: Instant,
    budget_ms: u64,
}

impl BudgetClock {
    /// The budget in milliseconds.
    pub closed spec fn budget(&self) -> int {
        self.budget_ms as int
    }

    /// Starts a clock with a budget of `budget_ms` milliseconds; a negative
    /// budget counts as none.
    pub fn new(budget_ms: i32) -> (clock: BudgetClock)
        ensures
            clock.budget() == if budget_ms < 0 { 0 } else { budget_ms as int },
    {
        let budget_ms: u64 = if budget_ms < 0 { 0 } else { budget_ms as u64 };
        BudgetClock { start: Instant::now(), budget_ms }
    }

    pub fn budget_millis(&self) -> (budget_ms: u64)
        ensures
            budget_ms as int == self.budget(),
    {
        self.budget_ms
    }

    /// The time since the clock was made.
    pub fn elapsed(&self) -> Duration {
        self.start.elapsed()
    }

    /// The time since the clock was made, in whole milliseconds.
    pub fn elapsed_millis(&self) -> u64 {
        whole_millis(self.elapsed().as_nanos())
    }

    /// The budget left in whole milliseconds: [`millis_left`] of the time
    /// that has gone by when it is asked.
    pub fn remaining_millis(&self) -> (left: u64)
        ensures
            left <= self.budget(),
            self.budget() == 0 ==> left == 0,
    {
        remaining_after(self.budget_ms, self.elapsed().as_nanos())
    }

    /// Whether the budget is used up: [`used_up`] of the time that has gone
    /// by when it is asked.
    pub fn exhausted(&self) -> (done: bool)
        ensures
            self.budget() == 0 ==> done,
    {
        exhausted_after(self.budget_ms, self.elapsed().as_nanos())
    }
}

} // verus!
