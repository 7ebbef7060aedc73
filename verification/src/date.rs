//! Plain-value calendar types. A day is counted as days from the common era,
//! a moment adds the seconds elapsed since that day's midnight, so comparing
//! dates and advancing a stale schedule are plain integer arithmetic. The
//! conversions from wall-clock time live behind trusted wrappers over chrono.

use vstd::prelude::*;

verus! {

/// Seconds in one calendar day.
pub const SECS_PER_DAY: u32 = 86400;

/// A calendar day, as a count of days from the start of the common era.
#[derive(Clone, Copy, Debug, PartialEq, Eq, Structural)]
pub struct Date {
    pub days: i64,
}

/// A date together with a time of day, in whole seconds since midnight.
#[derive(Clone, Copy, Debug, PartialEq, Eq, Structural)]
pub struct Moment {
    pub days: i64,
    pub secs: u32,
}

impl Date {
    /// Strict calendar order: `self` falls on an earlier day than `other`.
    pub fn before(&self, other: &Date) -> (r: bool)
        ensures
            r <==> self.days < other.days,
    {
        self.days < other.days
    }

    /// Both values name the same calendar day.
    pub fn same_day(&self, other: &Date) -> (r: bool)
        ensures
            r <==> self.days == other.days,
    {
        self.days == other.days
    }
}

impl Moment {
    /// The calendar day this moment falls on.
    pub fn date(&self) -> (d: Date)
        ensures
            d == (Date { days: self.days }),
    {
        Date { days: self.days }
    }
}

/// Relies on chrono's `Utc::now`: the current UTC wall-clock time, converted
/// to a day count from the common era and in-day seconds. Nothing is assumed
/// about the value beyond chrono's documented bound on in-day seconds.
#[verifier::external_body]
pub(crate) fn now_utc() -> (m: Moment)
    ensures
        m.secs < SECS_PER_DAY,
{
    let t = chrono::Utc::now().naive_utc();
    Moment {
        days: chrono::Datelike::num_days_from_ce(&t.date()) as i64,
        secs: chrono::Timelike::num_seconds_from_midnight(&t.time()),
    }
}

/// Relies on chrono's `Local::now`: the current calendar day in the local
/// time zone, as a day count from the common era. The value depends on the
/// clock and the machine's time zone, so nothing is assumed about it.
#[verifier::external_body]
pub(crate) fn today_local() -> (d: Date)
{
    Date { days: chrono::Datelike::num_days_from_ce(&chrono::Local::now().date_naive()) as i64 }
}

} // verus!
