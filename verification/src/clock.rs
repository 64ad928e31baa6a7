//! Civil time: what the zone database says of a wall-clock reading in a named
//! time zone. Nothing here is proved; the zone rules are the database's.

use chrono::TimeZone;
use std::fmt::Write;
use vstd::prelude::*;

verus! {

/// A wall-clock reading to the minute, in whatever zone its holder lives.
#[derive(Clone, Copy, Debug, PartialEq, Eq, Structural)]
pub struct LocalMoment {
    pub year: i32,
    pub month: u32,
    pub day: u32,
    pub hour: u32,
    pub minute: u32,
}

/// The instant, in seconds since the epoch, at which the clocks of the zone
/// named `tz` show the given reading; `None` where the zone is unknown, the
/// reading is no date and time, or the zone shows it never or twice.
pub uninterp spec fn utc_seconds(
    tz: Seq<char>,
    year: int,
    month: int,
    day: int,
    hour: int,
    minute: int,
) -> Option<i64>;

/// The instant `at`, in seconds since the epoch, as the clocks of the zone named
/// `tz` show it, written after `pattern`; `None` where the zone is unknown, the
/// instant is out of range or the pattern cannot be followed.
pub uninterp spec fn local_text(tz: Seq<char>, at: i64, pattern: Seq<char>) -> Option<Seq<char>>;

impl LocalMoment {
    /// The instant that this reading names in the zone `tz`.
    pub open spec fn instant(self, tz: Seq<char>) -> Option<i64> {
        utc_seconds(
            tz,
            self.year as int,
            self.month as int,
            self.day as int,
            self.hour as int,
            self.minute as int,
        )
    }

    /// The instant that this reading names in the zone `tz`, in seconds since
    /// the epoch.
    pub fn globalize(&self, tz: &str) -> (r: Option<i64>)
        ensures
            r == self.instant(tz@),
    {
        globalize(tz, self)
    }
}

/// Calls `chrono_tz::Tz::from_str` and `chrono::TimeZone::with_ymd_and_hms`
/// (seconds zero), keeps a single mapping and takes its `timestamp`. The
/// contract only names the outcome: the same zone name and reading always give
/// the same answer, since the zone rules are compiled into the crate.
#[verifier::external_body]
pub(crate) fn globalize(tz: &str, at: &LocalMoment) -> (r: Option<i64>)
    ensures
        r == utc_seconds(
            tz@,
            at.year as int,
            at.month as int,
            at.day as int,
            at.hour as int,
            at.minute as int,
        ),
{
    let zone = match tz.parse::<chrono_tz::Tz>() {
        Ok(zone) => zone,
        Err(_) => return None,
    };
    match zone.with_ymd_and_hms(at.year, at.month, at.day, at.hour, at.minute, 0).single() {
        Some(moment) => Some(moment.timestamp()),
        None => None,
    }
}

/// Calls `chrono::TimeZone::timestamp_opt` on `Utc`, `DateTime::with_timezone`
/// with the zone that `chrono_tz::Tz::from_str` gives, and `DateTime::format`,
/// whose output is written into a fresh string. The contract only names the
/// outcome, which the three arguments determine.
#[verifier::external_body]
pub(crate) fn localize(tz: &str, at: i64, pattern: &str) -> (r: Option<String>)
    ensures
        match r {
            Some(text) => local_text(tz@, at, pattern@) == Some(text@),
            None => local_text(tz@, at, pattern@) is None,
        },
{
    let zone = match tz.parse::<chrono_tz::Tz>() {
        Ok(zone) => zone,
        Err(_) => return None,
    };
    let moment = match chrono::Utc.timestamp_opt(at, 0).single() {
        Some(instant) => instant.with_timezone(&zone),
        None => return None,
    };
    let mut text = String::new();
    match write!(text, "{}", moment.format(pattern)) {
        Ok(()) => Some(text),
        Err(_) => None,
    }
}

} // verus!
