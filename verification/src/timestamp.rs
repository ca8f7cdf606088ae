use vstd::prelude::*;

verus! {

/// A timezone-aware instant, held as plain civil fields of the UTC calendar.
/// Well-formed values compare chronologically through `key`.
#[derive(Clone, Copy, PartialEq, Eq, Structural, Debug)]
pub struct Timestamp {
    pub year: u32,
    pub month: u8,
    pub day: u8,
    pub hour: u8,
    pub minute: u8,
    pub second: u8,
    pub nanos: u32,
}

/// Length of the retention window, in days: favourites older than this are removed.
pub const RETENTION_DAYS: u64 = 90;

/// A proleptic-Gregorian leap year.
pub open spec fn is_leap_year(y: int) -> bool {
    y % 4 == 0 && (y % 100 != 0 || y % 400 == 0)
}

/// Number of days in month `m` of year `y` (months counted 1 to 12).
pub open spec fn days_in_month(y: int, m: int) -> int {
    if m == 2 {
        if is_leap_year(y) {
            29
        } else {
            28
        }
    } else if m == 4 || m == 6 || m == 9 || m == 11 {
        30
    } else {
        31
    }
}

impl Timestamp {
    /// Mixed-radix packing of the fields; each field's range is narrower than
    /// its radix on well-formed values, so `key` orders them lexicographically,
    /// which is chronological order.
    pub open spec fn key(self) -> int {
        (((((self.year * 100 + self.month) * 100 + self.day) * 100 + self.hour) * 100
            + self.minute) * 100 + self.second) * 1000000000 + self.nanos
    }

    /// Field ranges of a real UTC instant (year capped at four decimal digits,
    /// the width the cache format stores).
    pub open spec fn wf(self) -> bool {
        &&& 1 <= self.month <= 12
        &&& 1 <= self.day <= days_in_month(self.year as int, self.month as int)
        &&& self.year <= 9999
        &&& self.hour < 24
        &&& self.minute < 60
        &&& self.second < 60
        &&& self.nanos < 1000000000
    }
}

/// Exec mirror of `is_leap_year`.
pub fn leap_year(y: u32) -> (r: bool)
    ensures
        r == is_leap_year(y as int),
{
    y % 4 == 0 && (y % 100 != 0 || y % 400 == 0)
}

/// Exec mirror of `days_in_month`.
pub fn month_length(y: u32, m: u8) -> (r: u8)
    ensures
        r as int == days_in_month(y as int, m as int),
{
    if m == 2 {
        if leap_year(y) {
            29
        } else {
            28
        }
    } else if m == 4 || m == 6 || m == 9 || m == 11 {
        30
    } else {
        31
    }
}

/// Exec mirror of `wf`.
pub fn is_well_formed(t: &Timestamp) -> (r: bool)
    ensures
        r == t.wf(),
{
    1 <= t.month && t.month <= 12 && 1 <= t.day && t.day <= month_length(t.year, t.month)
        && t.year <= 9999 && t.hour < 24 && t.minute < 60 && t.second < 60
        && t.nanos < 1000000000
}

/// Whether `a` denotes a strictly earlier instant than `b`.
pub fn ts_before(a: &Timestamp, b: &Timestamp) -> (r: bool)
    ensures
        r == (a.key() < b.key()),
{
    let ka: u128 = (((((a.year as u128) * 100 + a.month as u128) * 100 + a.day as u128) * 100
        + a.hour as u128) * 100 + a.minute as u128) * 100 + a.second as u128;
    let kb: u128 = (((((b.year as u128) * 100 + b.month as u128) * 100 + b.day as u128) * 100
        + b.hour as u128) * 100 + b.minute as u128) * 100 + b.second as u128;
    (ka * 1000000000 + a.nanos as u128) < (kb * 1000000000 + b.nanos as u128)
}

/// The instant one civil day earlier, same time of day; clamped at the
/// calendar origin, which no realistic clock reading comes near.
pub open spec fn spec_prev_day(t: Timestamp) -> Timestamp {
    if t.day > 1 {
        Timestamp { day: (t.day - 1) as u8, ..t }
    } else if t.month > 1 {
        Timestamp {
            month: (t.month - 1) as u8,
            day: days_in_month(t.year as int, t.month as int - 1) as u8,
            ..t
        }
    } else if t.year > 0 {
        Timestamp { year: (t.year - 1) as u32, month: 12, day: 31, ..t }
    } else {
        t
    }
}

/// The instant `n` civil days earlier.
pub open spec fn spec_sub_days(t: Timestamp, n: nat) -> Timestamp
    decreases n,
{
    if n == 0 {
        t
    } else {
        spec_prev_day(spec_sub_days(t, (n - 1) as nat))
    }
}

/// Exec mirror of `spec_prev_day`.
pub fn prev_day(t: &Timestamp) -> (r: Timestamp)
    requires
        t.wf(),
    ensures
        r == spec_prev_day(*t),
        r.wf(),
{
    if t.day > 1 {
        Timestamp { day: t.day - 1, ..*t }
    } else if t.month > 1 {
        Timestamp { month: t.month - 1, day: month_length(t.year, t.month - 1), ..*t }
    } else if t.year > 0 {
        Timestamp { year: t.year - 1, month: 12, day: 31, ..*t }
    } else {
        *t
    }
}

/// The retention cutoff for a run: `now` minus the retention window.
/// Entries strictly before the result are eligible for deletion.
pub fn retention_cutoff(now: &Timestamp) -> (r: Timestamp)
    requires
        now.wf(),
    ensures
        r == spec_sub_days(*now, RETENTION_DAYS as nat),
        r.wf(),
{
    let mut current: Timestamp = *now;
    let mut i: u64 = 0;
    while i < RETENTION_DAYS
        invariant
            i <= RETENTION_DAYS,
            current == spec_sub_days(*now, i as nat),
            current.wf(),
        decreases RETENTION_DAYS - i,
    {
        current = prev_day(&current);
        i = i + 1;
    }
    current
}

} // verus!
