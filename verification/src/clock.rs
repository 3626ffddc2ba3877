//! Wall-clock time for search budgets.
use std::time::Instant;
use vstd::prelude::*;

verus! {

#[verifier::external_type_specification]
#[verifier::external_body]
pub struct ExInstant(std::time::Instant);

/// `std::time::Instant::now`: the present instant. Nothing is claimed of it.
#[verifier::external_body]
fn now() -> Instant {
    Instant::now()
}

/// `std::time::Instant::elapsed`: the nanoseconds since `start`. Nothing is
/// claimed of the number.
#[verifier::external_body]
fn elapsed_nanos(start: &Instant) -> u64 {
    start.elapsed().as_nanos() as u64
}

/// Whether the clock may have given `start` as the present instant.
pub closed spec fn began(start: Instant) -> bool {
    call_ensures(now, (), start)
}

/// Whether the clock may have said that `spent` nanoseconds have passed since `start`.
pub closed spec fn clock_says(start: Instant, spent: u64) -> bool {
    call_ensures(elapsed_nanos, (&start,), spent)
}

/// Whether the clock may have measured `spent` nanoseconds.
pub open spec fn took(spent: u64) -> bool {
    exists|start: Instant| began(start) && #[trigger] clock_says(start, spent)
}

/// The present instant.
pub fn start_clock() -> (start: Instant)
    ensures
        began(start),
{
    let start = now();
    assert(call_ensures(now, (), start));
    start
}

/// The nanoseconds since `start`.
pub fn spent_since(start: &Instant) -> (spent: u64)
    ensures
        clock_says(*start, spent),
        began(*start) ==> took(spent),
{
    let spent: u64 = elapsed_nanos(start);
    assert(call_ensures(elapsed_nanos, (start,), spent));
    assert(clock_says(*start, spent));
    spent
}

/// Nanoseconds in whole milliseconds, with the rest cut off.
pub fn whole_millis(nanos: u64) -> (millis: u64)
    ensures
        millis == nanos / 1_000_000,
{
    nanos / 1_000_000
}

/// Nanoseconds in the nearest milliseconds, halves up.
pub fn nearest_millis(nanos: u64) -> (millis: u64)
    ensures
        millis == (nanos + 500_000) / 1_000_000,
{
    ((nanos as u128 + 500_000) / 1_000_000) as u64
}

/// What is left of a budget after `spent` nanoseconds; nothing if it is spent.
pub fn left_of(budget_nanos: u64, spent: u64) -> (left: Option<u64>)
    ensures
        left == (if spent >= budget_nanos {
            None
        } else {
            Some((budget_nanos - spent) as u64)
        }),
{
    if limit_passed(spent, budget_nanos) {
        None
    } else {
        Some(budget_nanos - spent)
    }
}

/// Whether a limit has passed after `spent` nanoseconds.
pub fn limit_passed(spent: u64, limit_nanos: u64) -> (r: bool)
    ensures
        r == (spent >= limit_nanos),
{
    spent >= limit_nanos
}

/// A point in time that lies `limit_nanos` after `start`.
pub struct Deadline {
    pub start: Instant,
    pub limit_nanos: u64,
}

/// Whether `d` is the deadline for a limit; none without a limit.
pub open spec fn deadline_for(limit: Option<u64>, d: Option<Deadline>) -> bool {
    match (limit, d) {
        (Some(nanos), Some(d)) => began(d.start) && d.limit_nanos == nanos,
        (None, None) => true,
        _ => false,
    }
}

/// Whether the clock, asked about a deadline, may have said that it has passed, or that it
/// has not. Without a deadline time is never up.
pub open spec fn clock_answers(d: Option<Deadline>, up: bool) -> bool {
    match d {
        Some(d) => exists|spent: u64| #[trigger]
            clock_says(d.start, spent) && up == (spent >= d.limit_nanos),
        None => !up,
    }
}

/// Whether a search may have kept a time limit that began with it: if it went on after its
/// first step, the clock said that there was time left, and if it was cut short, the clock
/// said that time was up.
pub open spec fn limit_kept(limit: Option<u64>, went_on: bool, cut_short: bool) -> bool {
    exists|d: Option<Deadline>| #[trigger]
        deadline_for(limit, d) && (went_on ==> clock_answers(d, false)) && (cut_short
            ==> clock_answers(d, true))
}

/// The deadline for a time limit that begins with `start`.
pub fn deadline_from(start: Instant, limit: Option<u64>) -> (d: Option<Deadline>)
    requires
        began(start),
    ensures
        deadline_for(limit, d),
        d matches Some(d) ==> d.start == start,
{
    match limit {
        Some(limit_nanos) => Some(Deadline { start, limit_nanos }),
        None => None,
    }
}

/// Whether the deadline, if there is one, has passed. Without a deadline time
/// is never up.
pub fn time_is_up(deadline: &Option<Deadline>) -> (r: bool)
    ensures
        clock_answers(*deadline, r),
{
    match deadline {
        Some(d) => limit_passed(spent_since(&d.start), d.limit_nanos),
        None => false,
    }
}

/// A search is cut short only by a limit, and only after the clock said that it has passed; a
/// search with a limit goes on only after the clock said that it has not.
pub proof fn law_limits_are_kept(limit: Option<u64>, went_on: bool, cut_short: bool)
    requires
        limit_kept(limit, went_on, cut_short),
    ensures
        cut_short ==> limit is Some && exists|start: Instant, spent: u64|
            began(start) && #[trigger] clock_says(start, spent) && spent >= limit->0,
        went_on && limit is Some ==> exists|start: Instant, spent: u64|
            began(start) && #[trigger] clock_says(start, spent) && spent < limit->0,
{
    let d = choose|d: Option<Deadline>| #[trigger]
        deadline_for(limit, d) && (went_on ==> clock_answers(d, false)) && (cut_short
            ==> clock_answers(d, true));
    if let Some(d) = d {
        assert(began(d.start));
    }
}

} // verus!
