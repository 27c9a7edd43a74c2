//! Time that is kept by calendars and zones.

use chrono::{Datelike, TimeZone, Timelike};
use vstd::prelude::*;

verus! {

/// The seconds of the years 1 to 9999, counted from 1970.
pub open spec fn civil_secs(secs: int) -> bool {
    -62135596800 <= secs <= 253402300799
}

pub fn is_civil(secs: i64) -> (r: bool)
    ensures
        r == civil_secs(secs as int),
{
    -62135596800 <= secs && secs <= 253402300799
}

/// The date and the time of day in Shanghai at a second, as `YYYY-MM-DD HH:MM:SS`.
pub uninterp spec fn shanghai_text(secs: int) -> Seq<char>;

/// `chrono::DateTime::with_timezone` for `chrono_tz::Asia::Shanghai`, and `format`. What
/// the clocks there show at a second is left to the zone table of `chrono_tz`.
#[verifier::external_body]
pub(crate) fn shanghai_clock(secs: i64) -> (r: String)
    requires
        civil_secs(secs as int),
    ensures
        r@ == shanghai_text(secs as int),
{
    let utc = chrono::DateTime::from_timestamp(secs, 0).unwrap();
    utc.with_timezone(&chrono_tz::Asia::Shanghai).format("%Y-%m-%d %H:%M:%S").to_string()
}

/// What the clocks and calendars of a zone show.
#[derive(Debug, Clone, PartialEq, Eq)]
pub struct LocalTime {
    pub day: String,
    pub hour: u32,
    pub minute: u32,
    /// From one for Monday to seven for Sunday.
    pub weekday: u32,
    pub iso_year: i32,
    pub iso_week: u32,
}

pub struct LocalData {
    pub day: Seq<char>,
    pub hour: int,
    pub minute: int,
    pub weekday: int,
    pub iso_year: int,
    pub iso_week: int,
}

impl View for LocalTime {
    type V = LocalData;

    open spec fn view(&self) -> LocalData {
        LocalData {
            day: self.day@,
            hour: self.hour as int,
            minute: self.minute as int,
            weekday: self.weekday as int,
            iso_year: self.iso_year as int,
            iso_week: self.iso_week as int,
        }
    }
}

pub open spec fn opt_local(o: Option<LocalTime>) -> Option<LocalData> {
    match o {
        Some(t) => Some(t@),
        None => None,
    }
}

pub open spec fn opt_secs(o: Option<i64>) -> Option<int> {
    match o {
        Some(n) => Some(n as int),
        None => None,
    }
}

/// Whether a text is the name of a zone.
pub uninterp spec fn zone_known(zone: Seq<char>) -> bool;

/// `chrono_tz::Tz::from_str`. Claimed: whether a name is found in the zone table depends on
/// the name alone.
#[verifier::external_body]
pub(crate) fn is_zone(zone: &str) -> (r: bool)
    ensures
        r == zone_known(zone@),
{
    zone.parse::<chrono_tz::Tz>().is_ok()
}

/// What the clocks of a zone show at a second.
pub uninterp spec fn local_clock(zone: Seq<char>, secs: int) -> Option<LocalData>;

/// `chrono::DateTime::with_timezone`, and the day, the time and the week that it shows.
/// Claimed: they depend on the zone and the second alone, and are there for every known
/// zone and every second of a year with four digits.
#[verifier::external_body]
pub(crate) fn local_time(zone: &str, secs: i64) -> (r: Option<LocalTime>)
    ensures
        opt_local(r) == local_clock(zone@, secs as int),
        r is Some ==> zone_known(zone@),
        zone_known(zone@) && civil_secs(secs as int) ==> r is Some,
{
    let tz = zone.parse::<chrono_tz::Tz>().ok()?;
    let now = chrono::DateTime::from_timestamp(secs, 0)?.with_timezone(&tz);
    Some(LocalTime {
        day: now.format("%Y-%m-%d").to_string(),
        hour: now.hour(),
        minute: now.minute(),
        weekday: now.weekday().number_from_monday(),
        iso_year: now.iso_week().year(),
        iso_week: now.iso_week().week(),
    })
}

/// The second at which a day, written as `YYYY-MM-DD`, starts in a zone.
pub uninterp spec fn midnight_of(day: Seq<char>, zone: Seq<char>) -> Option<int>;

/// `chrono::NaiveDate::parse_from_str` and `chrono::TimeZone::from_local_datetime`. There is
/// no result where the text is no date, the zone is unknown, or its clocks do not show
/// midnight exactly once on that day.
#[verifier::external_body]
pub(crate) fn day_start(day: &str, zone: &str) -> (r: Option<i64>)
    ensures
        opt_secs(r) == midnight_of(day@, zone@),
        r is Some ==> zone_known(zone@),
{
    let tz = zone.parse::<chrono_tz::Tz>().ok()?;
    let date = chrono::NaiveDate::parse_from_str(day, "%Y-%m-%d").ok()?;
    let start = tz.from_local_datetime(&date.and_hms_opt(0, 0, 0)?).single()?;
    Some(start.timestamp())
}

/// The second at which the Monday of a calendar week starts in a zone.
pub uninterp spec fn monday_of(year: int, week: int, zone: Seq<char>) -> Option<int>;

/// `chrono::NaiveDate::from_isoywd_opt` and `chrono::TimeZone::from_local_datetime`. There
/// is no result where the year has no such week, the zone is unknown, or its clocks do not
/// show midnight exactly once on that day.
#[verifier::external_body]
pub(crate) fn week_start(year: i32, week: u32, zone: &str) -> (r: Option<i64>)
    requires
        -9999 <= year <= 9999,
    ensures
        opt_secs(r) == monday_of(year as int, week as int, zone@),
        r is Some ==> zone_known(zone@) && 1 <= week <= 53,
{
    let tz = zone.parse::<chrono_tz::Tz>().ok()?;
    let date = chrono::NaiveDate::from_isoywd_opt(year, week, chrono::Weekday::Mon)?;
    let start = tz.from_local_datetime(&date.and_hms_opt(0, 0, 0)?).single()?;
    Some(start.timestamp())
}

// ---------------------------------------------------------------------------
// Counting back
// ---------------------------------------------------------------------------

/// The seconds of the years -262143 to 262142, counted from 1970: those that have a date.
pub open spec fn dated_secs(secs: int) -> bool {
    -8334601228800 <= secs <= 8210266876799
}

/// A second and a fraction of it as a date and a time of day in UTC, as RFC 3339 has it.
pub uninterp spec fn utc_text(secs: int, nanos: int) -> Seq<char>;

/// `chrono::DateTime::from_timestamp` and `to_rfc3339`. Claimed: the text depends on the
/// second and the nanoseconds alone, and is there for every second that has a date.
#[verifier::external_body]
fn write_utc(secs: i64, nanos: u32) -> (r: String)
    requires
        dated_secs(secs as int),
        nanos < 1_000_000_000,
    ensures
        r@ == utc_text(secs as int, nanos as int),
{
    chrono::DateTime::from_timestamp(secs, nanos).unwrap().to_rfc3339()
}

/// The second that lies some days before another one.
pub open spec fn days_before(secs: int, days: int) -> int {
    secs - days * 86400
}

/// Whether the second that lies some days before another one has a date.
pub fn can_count_back(secs: i64, days: u64) -> (r: bool)
    ensures
        r == dated_secs(days_before(secs as int, days as int)),
{
    let back: i128 = secs as i128 - days as i128 * 86400;
    -8334601228800 <= back && back <= 8210266876799
}

/// The text of the time that lies some days before another one.
pub fn text_days_before(secs: i64, nanos: u32, days: u64) -> (r: String)
    requires
        dated_secs(days_before(secs as int, days as int)),
        nanos < 1_000_000_000,
    ensures
        r@ == utc_text(days_before(secs as int, days as int), nanos as int),
{
    let back: i128 = secs as i128 - days as i128 * 86400;
    write_utc(back as i64, nanos)
}

/// Days before a second add up, and a day has as many seconds as a day has.
pub proof fn lemma_days_before(secs: int, a: int, b: int)
    ensures
        days_before(days_before(secs, a), b) == days_before(secs, a + b),
        days_before(secs, 1) == secs - 24 * 60 * 60,
        days_before(secs, 0) == secs,
{
}

} // verus!
