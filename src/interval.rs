use vstd::prelude::*;
use vstd::string::*;

use crate::size::{chars_of, parse_unsigned, parse_unsigned_range};

verus! {

/// Bounds on the polling interval of every feed, in seconds.
#[derive(Clone, Copy, Debug, PartialEq, Eq, Structural)]
pub struct Limits {
    pub min_interval: u32,
    pub max_interval: u32,
}

impl Limits {
    pub open spec fn wf(self) -> bool {
        1 <= self.min_interval <= self.max_interval
    }
}

/// What one fetch of a feed came to, as far as its interval is concerned.
#[derive(Clone, Copy, Debug, PartialEq, Eq, Structural)]
pub enum Outcome {
    /// The fetch succeeded and brought entries never seen before.
    NewEntries,
    /// The fetch succeeded (or the server said not modified) with nothing new.
    NothingNew,
    /// The fetch or the parse failed.
    Failed,
}

pub open spec fn clamp(x: int, lo: int, hi: int) -> int {
    if x < lo {
        lo
    } else if x > hi {
        hi
    } else {
        x
    }
}

/// The interval before clamping: halve on news, grow by a fifth when quiet,
/// double after a failure.
pub open spec fn raw_interval(current: int, outcome: Outcome) -> int {
    match outcome {
        Outcome::NewEntries => current / 2,
        Outcome::NothingNew => current * 6 / 5,
        Outcome::Failed => current * 2,
    }
}

pub open spec fn next_interval_spec(current: int, outcome: Outcome, limits: Limits) -> int {
    clamp(raw_interval(current, outcome), limits.min_interval as int, limits.max_interval as int)
}

/// The interval that follows `current` after a fetch with the given outcome.
pub fn next_interval(current: u32, outcome: Outcome, limits: Limits) -> (r: u32)
    requires
        limits.wf(),
    ensures
        r == next_interval_spec(current as int, outcome, limits),
        limits.min_interval <= r <= limits.max_interval,
{
    let raw: u64 = match outcome {
        Outcome::NewEntries => (current / 2) as u64,
        Outcome::NothingNew => (current as u64) * 6 / 5,
        Outcome::Failed => (current as u64) * 2,
    };
    if raw < limits.min_interval as u64 {
        limits.min_interval
    } else if raw > limits.max_interval as u64 {
        limits.max_interval
    } else {
        raw as u32
    }
}

/// Checks a command-line interval: a decimal `u32` of at least one second.
/// On refusal the error is the message to show.
pub fn check_interval(s: String) -> (r: Result<(), String>)
    ensures
        match parse_unsigned(s@, u32::MAX as int) {
            Ok(n) => if n < 1 {
                r matches Err(m) && m@ == "must >= 1"@
            } else {
                r is Ok
            },
            Err(e) => r matches Err(m) && m@ == e.text(),
        },
{
    let v = chars_of(s.as_str());
    assert(v@.subrange(0, v@.len() as int) =~= s@);
    match parse_unsigned_range(&v, 0, v.len(), u32::MAX as u64) {
        Ok(n) => if n < 1 {
            Err(String::from_str("must >= 1"))
        } else {
            Ok(())
        },
        Err(e) => Err(e.message()),
    }
}

} // verus!
