//! Points in time, to the nanosecond, in UTC.

use crate::calendar::{clock_text, date_text, moment_text, rfc3339_text, stamp_text};
use chrono::{DateTime, Utc};
use vstd::prelude::*;

verus! {

/// Nanoseconds in a second.
pub const NANOS_PER_SEC: i128 = 1_000_000_000;

/// Nanoseconds in a day.
pub const NANOS_PER_DAY: i128 = 86_400_000_000_000;

/// The first second that the calendar can express, counted from 1970.
pub const EARLIEST_SECS: i64 = -8_334_601_228_800;

/// The last second that the calendar can express, counted from 1970.
pub const LATEST_SECS: i64 = 8_210_266_876_799;

/// A point in time that the calendar can express.
#[derive(Clone, Copy, Debug)]
pub struct Timestamp {
    secs: i64,
    nanos: u32,
}

impl View for Timestamp {
    type V = int;

    /// Nanoseconds since the beginning of 1970.
    closed spec fn view(&self) -> int {
        self.secs * NANOS_PER_SEC + self.nanos
    }
}

/// A span of nanoseconds in whole seconds, any fraction dropped.
pub open spec fn whole_seconds(span: int) -> int {
    if span >= 0 {
        span / NANOS_PER_SEC as int
    } else {
        -((-span) / NANOS_PER_SEC as int)
    }
}

impl Timestamp {
    #[verifier::type_invariant]
    spec fn in_calendar(self) -> bool {
        EARLIEST_SECS <= self.secs <= LATEST_SECS && self.nanos < 1_000_000_000
    }

    /// The point `secs` seconds and `nanos` nanoseconds after the beginning of
    /// 1970, if the calendar can express it.
    pub fn new(secs: i64, nanos: u32) -> (r: Option<Timestamp>)
        ensures
            r is Some <==> EARLIEST_SECS <= secs <= LATEST_SECS && nanos < 1_000_000_000,
            r is Some ==> r->0@ == secs * NANOS_PER_SEC + nanos,
    {
        if EARLIEST_SECS <= secs && secs <= LATEST_SECS && nanos < 1_000_000_000 {
            Some(Timestamp { secs, nanos })
        } else {
            None
        }
    }

    /// Whole seconds since the beginning of 1970.
    pub fn secs(&self) -> (r: i64)
        ensures
            r == self@ / NANOS_PER_SEC as int,
            EARLIEST_SECS <= r <= LATEST_SECS,
    {
        proof {
            use_type_invariant(self);
            vstd::arithmetic::div_mod::lemma_fundamental_div_mod_converse(
                self@,
                NANOS_PER_SEC as int,
                self.secs as int,
                self.nanos as int,
            );
        }
        self.secs
    }

    /// The nanoseconds behind the whole seconds.
    pub fn nanos(&self) -> (r: u32)
        ensures
            r == self@ % NANOS_PER_SEC as int,
    {
        proof {
            use_type_invariant(self);
            vstd::arithmetic::div_mod::lemma_fundamental_div_mod_converse(
                self@,
                NANOS_PER_SEC as int,
                self.secs as int,
                self.nanos as int,
            );
        }
        self.nanos
    }

    /// Nanoseconds since the beginning of 1970.
    pub fn total_nanos(&self) -> (r: i128)
        ensures
            r == self@,
            EARLIEST_SECS * NANOS_PER_SEC <= r < (LATEST_SECS + 1) * NANOS_PER_SEC,
    {
        proof {
            use_type_invariant(self);
        }
        self.secs as i128 * NANOS_PER_SEC + self.nanos as i128
    }

    /// Whole seconds from `earlier` to this point; negative if it is later.
    pub fn seconds_since(&self, earlier: &Timestamp) -> (r: i64)
        ensures
            r == whole_seconds(self@ - earlier@),
    {
        let span: i128 = self.total_nanos() - earlier.total_nanos();
        if span >= 0 {
            (span / NANOS_PER_SEC) as i64
        } else {
            -(((-span) / NANOS_PER_SEC) as i64)
        }
    }
}

/// The present. Calls chrono's `Utc::now`, which reads the system clock and
/// gives no point before 1970. Nothing else is stated of the result.
#[verifier::external_body]
pub(crate) fn now() -> (t: Timestamp)
    ensures
        t@ >= 0,
{
    let t = Utc::now();
    Timestamp { secs: t.timestamp(), nanos: t.timestamp_subsec_nanos() }
}

/// The UTC date of a point in time. Calls chrono's `DateTime::date_naive` and
/// displays the date: the year, in four digits or with a sign and at least four,
/// the month and the day in two each, with hyphens between them.
#[verifier::external_body]
pub(crate) fn utc_date(t: &Timestamp) -> (r: String)
    ensures
        r@ == date_text(t@ / NANOS_PER_DAY as int),
{
    DateTime::<Utc>::from_timestamp(t.secs, t.nanos).unwrap().date_naive().to_string()
}

/// A point in time in the notation of RFC 3339. Calls chrono's
/// `DateTime::to_rfc3339`: the date, a T, the time of day, the fraction of the second
/// in three, six or nine digits if there is one, and the offset of UTC.
#[verifier::external_body]
pub(crate) fn rfc3339(t: &Timestamp) -> (r: String)
    ensures
        r@ == rfc3339_text(t@),
{
    DateTime::<Utc>::from_timestamp(t.secs, t.nanos).unwrap().to_rfc3339()
}

/// Whether `pattern` is one that this crate writes points in time with.
pub open spec fn known_pattern(pattern: Seq<char>) -> bool {
    pattern == "%H:%M:%S"@ || pattern == "%Y%m%dT%H%M%S"@ || pattern == "%Y-%m-%d %H:%M:%S UTC"@
}

/// A point in time written by a pattern. Calls chrono's `DateTime::format`
/// and displays what it gives: of the known patterns, each field in two digits, and
/// the year as in a date, with what stands between them in the pattern.
#[verifier::external_body]
pub(crate) fn formatted(t: &Timestamp, pattern: &str) -> (r: String)
    requires
        known_pattern(pattern@),
    ensures
        pattern@ == "%H:%M:%S"@ ==> r@ == clock_text(t@ / NANOS_PER_SEC as int),
        pattern@ == "%Y%m%dT%H%M%S"@ ==> r@ == stamp_text(t@ / NANOS_PER_SEC as int),
        pattern@ == "%Y-%m-%d %H:%M:%S UTC"@ ==> r@ == moment_text(t@ / NANOS_PER_SEC as int),
{
    DateTime::<Utc>::from_timestamp(t.secs, t.nanos).unwrap().format(pattern).to_string()
}

} // verus!
