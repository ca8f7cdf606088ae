use vstd::prelude::*;
use chrono::Datelike;
use chrono::Timelike;
use crate::timestamp::Timestamp;
use crate::timestamp::is_well_formed;
use crate::timestamp::retention_cutoff;
use crate::timestamp::spec_sub_days;
use crate::timestamp::RETENTION_DAYS;

verus! {

/// Relies on chrono::Utc::now: the current instant in UTC, read from the
/// system clock, handed over as plain civil fields. Nothing can be promised
/// of a clock reading, so the callers validate the fields themselves.
#[verifier::external_body]
fn now_timestamp() -> Timestamp {
    let t = chrono::Utc::now();
    Timestamp {
        year: t.year() as u32,
        month: t.month() as u8,
        day: t.day() as u8,
        hour: t.hour() as u8,
        minute: t.minute() as u8,
        second: t.second() as u8,
        nanos: t.nanosecond() as u32,
    }
}

/// The cutoff for a run started now: the current instant minus the retention
/// window. `None` when the clock hands back fields outside the calendar
/// (a broken clock, or a year past the cache format's four digits).
pub fn current_cutoff() -> (r: Option<Timestamp>)
    ensures
        r matches Some(c) ==> c.wf(),
        r matches Some(c) ==> exists|now: Timestamp|
            now.wf() && c == spec_sub_days(now, RETENTION_DAYS as nat),
{
    let now = now_timestamp();
    if is_well_formed(&now) {
        Some(retention_cutoff(&now))
    } else {
        None
    }
}

} // verus!
