//! When reports are due.

use crate::clock;
use crate::clock::{LocalData, LocalTime, local_time};
use crate::config::AppConfig;
use crate::reporter;
use crate::reporter::{
    DailyReportOutput, DailyReporter, WeeklyReportOutput, format_week_key, parse_timezone,
};
use crate::task_store::store::TaskStore;
use crate::text;
use crate::text::{blank, cat2, copy_opt, owned, parse_unsigned, same, split_once, trimmed};
use vstd::prelude::*;

verus! {

/// A report that is written once a day, from a time of day on.
#[derive(Debug, Clone)]
pub struct DailyReportSchedule {
    pub timezone: String,
    pub hour: u32,
    pub minute: u32,
    pub report_to_user_id: Option<String>,
}

/// A report that is written once a week, from a time of one of its days on.
#[derive(Debug, Clone)]
pub struct WeeklyReportSchedule {
    pub timezone: String,
    pub weekday_monday_based: u32,
    pub hour: u32,
    pub minute: u32,
    pub report_to_user_id: Option<String>,
}

// ---------------------------------------------------------------------------
// Settings
// ---------------------------------------------------------------------------

/// The time of day that a text `HH:MM` gives, or what is wrong with it.
pub open spec fn run_time(raw: Seq<char>) -> Result<(int, int), Seq<char>> {
    match text::split_at_first(text::trim(raw), ":"@) {
        None => Err("daily_run_time 格式应为 HH:MM"@),
        Some((h, m)) => match text::unsigned_value(h, 10) {
            None => Err("解析调度小时失败"@),
            Some(hour) => match text::unsigned_value(m, 10) {
                None => Err("解析调度分钟失败"@),
                Some(minute) => if hour > 23 || minute > 59 {
                    Err("daily_run_time 超出范围: "@ + raw)
                } else {
                    Ok((hour as int, minute as int))
                },
            },
        },
    }
}

pub fn parse_daily_run_time(raw: &str) -> (r: Result<(u32, u32), String>)
    ensures
        match r {
            Ok((h, m)) => run_time(raw@) == Ok::<(int, int), Seq<char>>((h as int, m as int)),
            Err(e) => run_time(raw@) == Err::<(int, int), Seq<char>>(e@),
        },
{
    let t = trimmed(raw);
    match split_once(t.as_str(), ":") {
        None => Err(owned("daily_run_time 格式应为 HH:MM")),
        Some((h, m)) => match parse_unsigned(h.as_str(), 10) {
            None => Err(owned("解析调度小时失败")),
            Some(hour) => match parse_unsigned(m.as_str(), 10) {
                None => Err(owned("解析调度分钟失败")),
                Some(minute) => if hour > 23 || minute > 59 {
                    Err(cat2("daily_run_time 超出范围: ", raw))
                } else {
                    Ok((hour, minute))
                },
            },
        },
    }
}

/// The user who gets the reports; a blank name is none.
pub open spec fn report_target(config: AppConfig) -> Option<Seq<char>> {
    match config.scheduler.report_to_user_id {
        Some(u) => if text::is_blank(u@) {
            None
        } else {
            Some(text::trim(u@))
        },
        None => None,
    }
}

pub fn parse_report_to_user_id(config: &AppConfig) -> (r: Option<String>)
    ensures
        text::opt_text(r) == report_target(*config),
{
    match &config.scheduler.report_to_user_id {
        Some(u) => if blank(u.as_str()) {
            None
        } else {
            Some(trimmed(u.as_str()))
        },
        None => None,
    }
}

/// The time of day at which reports are due, or what is wrong with the settings.
pub open spec fn planned_time(config: AppConfig) -> Result<(int, int), Seq<char>> {
    if clock::zone_known(config.agent.timezone@) {
        run_time(config.scheduler.daily_run_time@)
    } else {
        Err(reporter::unknown_zone(config.agent.timezone@))
    }
}

fn read_planned_time(config: &AppConfig) -> (r: Result<(String, u32, u32), String>)
    ensures
        match r {
            Ok((zone, h, m)) => zone@ == config.agent.timezone@ && planned_time(*config) == Ok::<
                (int, int),
                Seq<char>,
            >((h as int, m as int)),
            Err(e) => planned_time(*config) == Err::<(int, int), Seq<char>>(e@),
        },
{
    match parse_timezone(config.agent.timezone.as_str()) {
        Err(e) => Err(e),
        Ok(zone) => match parse_daily_run_time(config.scheduler.daily_run_time.as_str()) {
            Err(e) => Err(e),
            Ok((h, m)) => Ok((zone, h, m)),
        },
    }
}

// ---------------------------------------------------------------------------
// Due times
// ---------------------------------------------------------------------------

/// The time of day has come.
pub open spec fn time_reached(t: LocalData, hour: int, minute: int) -> bool {
    t.hour > hour || (t.hour == hour && t.minute >= minute)
}

/// The day whose report is due.
pub open spec fn due_day(t: LocalData, hour: int, minute: int, last: Option<Seq<char>>) -> Option<
    Seq<char>,
> {
    if last != Some(t.day) && time_reached(t, hour, minute) {
        Some(t.day)
    } else {
        None
    }
}

/// The week whose report is due.
pub open spec fn due_week(
    t: LocalData,
    weekday: int,
    hour: int,
    minute: int,
    last: Option<Seq<char>>,
) -> Option<Seq<char>> {
    let week = reporter::week_key(t.iso_year, t.iso_week);
    if last != Some(week) && (t.weekday > weekday || (t.weekday == weekday && time_reached(
        t,
        hour,
        minute,
    ))) {
        Some(week)
    } else {
        None
    }
}

fn has_come(t: &LocalTime, hour: u32, minute: u32) -> (r: bool)
    ensures
        r == time_reached(t@, hour as int, minute as int),
{
    t.hour > hour || (t.hour == hour && t.minute >= minute)
}

fn was_last(last: Option<&str>, key: &str) -> (r: bool)
    ensures
        r == (text::opt_str(last) == Some(key@)),
{
    match last {
        Some(l) => same(l, key),
        None => false,
    }
}

impl DailyReportSchedule {
    /// There is no schedule where schedules are switched off.
    pub fn from_config(config: &AppConfig) -> (r: Result<Option<Self>, String>)
        ensures
            match r {
                Ok(None) => !config.scheduler.enabled,
                Ok(Some(s)) => {
                    &&& config.scheduler.enabled
                    &&& planned_time(*config) == Ok::<(int, int), Seq<char>>(
                        (s.hour as int, s.minute as int),
                    )
                    &&& s.timezone@ == config.agent.timezone@
                    &&& text::opt_text(s.report_to_user_id) == report_target(*config)
                },
                Err(e) => config.scheduler.enabled && planned_time(*config) == Err::<
                    (int, int),
                    Seq<char>,
                >(e@),
            },
    {
        if !config.scheduler.enabled {
            return Ok(None);
        }
        match read_planned_time(config) {
            Err(e) => Err(e),
            Ok((timezone, hour, minute)) => Ok(
                Some(
                    DailyReportSchedule {
                        timezone,
                        hour,
                        minute,
                        report_to_user_id: parse_report_to_user_id(config),
                    },
                ),
            ),
        }
    }

    pub fn report_to_user_id(&self) -> (r: Option<String>)
        ensures
            text::opt_text(r) == text::opt_text(self.report_to_user_id),
    {
        copy_opt(&self.report_to_user_id)
    }

    /// The day whose report is due, when the clocks show `now`.
    pub fn should_run_at(&self, now: &LocalTime, last_run_day: Option<&str>) -> (r: Option<String>)
        ensures
            text::opt_text(r) == due_day(
                now@,
                self.hour as int,
                self.minute as int,
                text::opt_str(last_run_day),
            ),
    {
        if was_last(last_run_day, now.day.as_str()) {
            return None;
        }
        if has_come(now, self.hour, self.minute) {
            Some(now.day.clone())
        } else {
            None
        }
    }

    /// The day whose report is due at a second.
    pub fn should_run_now(&self, now_secs: i64, last_run_day: Option<&str>) -> (r: Option<String>)
        ensures
            match clock::local_clock(self.timezone@, now_secs as int) {
                Some(t) => text::opt_text(r) == due_day(
                    t,
                    self.hour as int,
                    self.minute as int,
                    text::opt_str(last_run_day),
                ),
                None => r is None,
            },
    {
        match local_time(self.timezone.as_str(), now_secs) {
            Some(t) => self.should_run_at(&t, last_run_day),
            None => None,
        }
    }

    /// The day whose report is to be sent at a second, and to whom.
    pub fn push_due(&self, now_secs: i64, last_push_day: Option<&str>) -> (r: Option<
        (String, String),
    >)
        ensures
            ({
                let due = match clock::local_clock(self.timezone@, now_secs as int) {
                    Some(t) => due_day(
                        t,
                        self.hour as int,
                        self.minute as int,
                        text::opt_str(last_push_day),
                    ),
                    None => None,
                };
                match r {
                    Some((day, user)) => due == Some(day@) && text::opt_text(self.report_to_user_id)
                        == Some(user@),
                    None => due is None || self.report_to_user_id is None,
                }
            }),
    {
        match (self.should_run_now(now_secs, last_push_day), self.report_to_user_id()) {
            (Some(day), Some(user)) => Some((day, user)),
            _ => None,
        }
    }
}

impl WeeklyReportSchedule {
    /// There is no schedule where schedules are switched off. Weekly reports are due on
    /// Mondays.
    pub fn from_config(config: &AppConfig) -> (r: Result<Option<Self>, String>)
        ensures
            match r {
                Ok(None) => !config.scheduler.enabled,
                Ok(Some(s)) => {
                    &&& config.scheduler.enabled
                    &&& planned_time(*config) == Ok::<(int, int), Seq<char>>(
                        (s.hour as int, s.minute as int),
                    )
                    &&& s.timezone@ == config.agent.timezone@
                    &&& s.weekday_monday_based == 1
                    &&& text::opt_text(s.report_to_user_id) == report_target(*config)
                },
                Err(e) => config.scheduler.enabled && planned_time(*config) == Err::<
                    (int, int),
                    Seq<char>,
                >(e@),
            },
    {
        if !config.scheduler.enabled {
            return Ok(None);
        }
        match read_planned_time(config) {
            Err(e) => Err(e),
            Ok((timezone, hour, minute)) => Ok(
                Some(
                    WeeklyReportSchedule {
                        timezone,
                        weekday_monday_based: 1,
                        hour,
                        minute,
                        report_to_user_id: parse_report_to_user_id(config),
                    },
                ),
            ),
        }
    }

    pub fn report_to_user_id(&self) -> (r: Option<String>)
        ensures
            text::opt_text(r) == text::opt_text(self.report_to_user_id),
    {
        copy_opt(&self.report_to_user_id)
    }

    /// The week whose report is due, when the clocks show `now`.
    pub fn should_run_at(&self, now: &LocalTime, last_run_week: Option<&str>) -> (r: Option<String>)
        ensures
            text::opt_text(r) == due_week(
                now@,
                self.weekday_monday_based as int,
                self.hour as int,
                self.minute as int,
                text::opt_str(last_run_week),
            ),
    {
        let week = format_week_key(now.iso_year, now.iso_week);
        if was_last(last_run_week, week.as_str()) {
            return None;
        }
        if now.weekday < self.weekday_monday_based {
            return None;
        }
        if now.weekday > self.weekday_monday_based || has_come(now, self.hour, self.minute) {
            Some(week)
        } else {
            None
        }
    }

    /// The week whose report is due at a second.
    pub fn should_run_now(&self, now_secs: i64, last_run_week: Option<&str>) -> (r: Option<String>)
        ensures
            match clock::local_clock(self.timezone@, now_secs as int) {
                Some(t) => text::opt_text(r) == due_week(
                    t,
                    self.weekday_monday_based as int,
                    self.hour as int,
                    self.minute as int,
                    text::opt_str(last_run_week),
                ),
                None => r is None,
            },
    {
        match local_time(self.timezone.as_str(), now_secs) {
            Some(t) => self.should_run_at(&t, last_run_week),
            None => None,
        }
    }

    /// The week whose report is to be sent at a second, and to whom.
    pub fn push_due(&self, now_secs: i64, last_push_week: Option<&str>) -> (r: Option<
        (String, String),
    >)
        ensures
            ({
                let due = match clock::local_clock(self.timezone@, now_secs as int) {
                    Some(t) => due_week(
                        t,
                        self.weekday_monday_based as int,
                        self.hour as int,
                        self.minute as int,
                        text::opt_str(last_push_week),
                    ),
                    None => None,
                };
                match r {
                    Some((week, user)) => due == Some(week@) && text::opt_text(self.report_to_user_id)
                        == Some(user@),
                    None => due is None || self.report_to_user_id is None,
                }
            }),
    {
        match (self.should_run_now(now_secs, last_push_week), self.report_to_user_id()) {
            (Some(week), Some(user)) => Some((week, user)),
            _ => None,
        }
    }
}

/// A report is due only once its time has come, and a day that had its report is not due
/// again.
pub proof fn lemma_daily_once(t: LocalData, later: LocalData, hour: int, minute: int, last: Option<Seq<char>>)
    requires
        t.day == later.day,
    ensures
        due_day(t, hour, minute, last) is Some ==> time_reached(t, hour, minute) && due_day(
            later,
            hour,
            minute,
            due_day(t, hour, minute, last),
        ) is None,
{
}

/// A weekly report is due from its weekday and time on, and a week that had its report is
/// not due again.
pub proof fn lemma_weekly_once(
    t: LocalData,
    later: LocalData,
    weekday: int,
    hour: int,
    minute: int,
    last: Option<Seq<char>>,
)
    requires
        t.iso_year == later.iso_year,
        t.iso_week == later.iso_week,
    ensures
        due_week(t, weekday, hour, minute, last) is Some ==> t.weekday >= weekday && due_week(
            later,
            weekday,
            hour,
            minute,
            due_week(t, weekday, hour, minute, last),
        ) is None,
{
}

// ---------------------------------------------------------------------------
// Watching the scheduler
// ---------------------------------------------------------------------------

/// What the watchdog of the scheduler does next.
#[derive(Debug, Clone, Copy, PartialEq, Eq, Structural)]
pub enum WatchdogStep {
    /// The scheduler ended though nobody stopped it.
    Alarm,
    Wait,
    Stop,
}

pub fn watchdog_step(running: bool, finished: bool) -> (r: WatchdogStep)
    ensures
        r == (if !running {
            WatchdogStep::Stop
        } else if finished {
            WatchdogStep::Alarm
        } else {
            WatchdogStep::Wait
        }),
{
    if !running {
        WatchdogStep::Stop
    } else if finished {
        WatchdogStep::Alarm
    } else {
        WatchdogStep::Wait
    }
}

// ---------------------------------------------------------------------------
// Reports on demand
// ---------------------------------------------------------------------------

/// The report of a day by the settings.
pub fn generate_daily_report_once(config: &AppConfig, store: &TaskStore, day: &str) -> (r: Result<
    (DailyReportOutput, String),
    String,
>)
    ensures
        !clock::zone_known(config.agent.timezone@) ==> (r matches Err(e) && e@ == reporter::unknown_zone(
            config.agent.timezone@,
        )),
        clock::zone_known(config.agent.timezone@) ==> reporter::daily_report_is(
            r,
            config.root(),
            config.agent.timezone@,
            store@,
            day@,
        ),
{
    match DailyReporter::from_config(config) {
        Err(e) => Err(e),
        Ok(reporter) => reporter.generate_for_day(store, day),
    }
}

/// The report of a week by the settings.
pub fn generate_weekly_report_once(config: &AppConfig, store: &TaskStore, week: &str) -> (r: Result<
    (WeeklyReportOutput, String),
    String,
>)
    ensures
        !clock::zone_known(config.agent.timezone@) ==> (r matches Err(e) && e@ == reporter::unknown_zone(
            config.agent.timezone@,
        )),
        clock::zone_known(config.agent.timezone@) ==> reporter::weekly_report_is(
            r,
            config.root(),
            config.agent.timezone@,
            store@,
            week@,
        ),
{
    match DailyReporter::from_config(config) {
        Err(e) => Err(e),
        Ok(reporter) => reporter.generate_weekly_for_week(store, week),
    }
}

// ---------------------------------------------------------------------------
// Laws
// ---------------------------------------------------------------------------

/// A time of day is read from its digits on both sides of the colon, whatever white space
/// stands around it; one that no day has is refused.
pub proof fn lemma_time_is_read(a: Seq<char>, h: Seq<char>, m: Seq<char>, b: Seq<char>)
    requires
        h.len() > 0,
        m.len() > 0,
        text::all_digits(h, 10),
        text::all_digits(m, 10),
        text::digits_value(h, 10) <= u32::MAX,
        text::digits_value(m, 10) <= u32::MAX,
        forall|i: int| 0 <= i < a.len() ==> text::is_whitespace(#[trigger] a[i]),
        forall|i: int| 0 <= i < b.len() ==> text::is_whitespace(#[trigger] b[i]),
    ensures
        text::digits_value(h, 10) < 24 && text::digits_value(m, 10) < 60 ==> run_time(
            a + (h + seq![':'] + m) + b,
        ) == Ok::<(int, int), Seq<char>>(
            (text::digits_value(h, 10) as int, text::digits_value(m, 10) as int),
        ),
        text::digits_value(h, 10) >= 24 || text::digits_value(m, 10) >= 60 ==> run_time(
            a + (h + seq![':'] + m) + b,
        ) is Err,
{
    let core = h + seq![':'] + m;
    assert(text::digit_value(h[0]) < 10);
    assert(text::digit_value(m[m.len() - 1]) < 10);
    assert(text::digit_value(m[0]) < 10);
    assert(h[0] != '+' && m[0] != '+');
    assert(!text::is_whitespace(h[0]) && !text::is_whitespace(m.last()));
    text::lemma_trim_exact(a, core, b);
    reveal_strlit(":");
    assert(":"@ =~= seq![':']);
    let n = h.len() as int;
    text::lemma_occurs_char(core, ':', n);
    assert(core[n] == ':');
    assert forall|k: int| 0 <= k < n implies !#[trigger] text::occurs_at(core, seq![':'], k) by {
        text::lemma_occurs_char(core, ':', k);
        assert(core[k] == h[k]);
        assert(text::digit_value(h[k]) < 10);
    }
    text::lemma_find_is(core, seq![':'], 0, n);
    assert(core.take(n) =~= h);
    assert(core.skip(n + 1) =~= m);
}

/// The time of day has come just where as many minutes of the day have passed.
pub proof fn lemma_minutes_of_the_day(t: LocalData, hour: int, minute: int)
    requires
        0 <= t.minute < 60,
        0 <= minute < 60,
    ensures
        time_reached(t, hour, minute) == (t.hour * 60 + t.minute >= hour * 60 + minute),
{
}

/// The report of a day is due from its time on, once a day, and is that of the day.
pub proof fn lemma_day_is_due(t: LocalData, hour: int, minute: int, last: Option<Seq<char>>)
    requires
        0 <= t.minute < 60,
        0 <= minute < 60,
    ensures
        due_day(t, hour, minute, last) is Some ==> due_day(t, hour, minute, last) == Some(t.day),
        (due_day(t, hour, minute, last) is Some) == (t.hour * 60 + t.minute >= hour * 60 + minute
            && last != Some(t.day)),
{
}

/// The report of a week is due from its time on its weekday on, on every later day of the
/// week too, and once a week.
pub proof fn lemma_week_is_due(
    t: LocalData,
    weekday: int,
    hour: int,
    minute: int,
    last: Option<Seq<char>>,
)
    requires
        0 <= t.minute < 60,
        0 <= minute < 60,
        0 <= t.hour < 24,
        0 <= hour < 24,
    ensures
        (due_week(t, weekday, hour, minute, last) is Some) == (t.weekday * 1440 + t.hour * 60
            + t.minute >= weekday * 1440 + hour * 60 + minute && last != Some(
            reporter::week_key(t.iso_year, t.iso_week),
        )),
        due_week(t, weekday, hour, minute, last) is Some ==> due_week(
            t,
            weekday,
            hour,
            minute,
            last,
        ) == Some(reporter::week_key(t.iso_year, t.iso_week)),
{
}

/// Reports go to the user who is named in the settings, without the white space around the
/// name; a blank name is none. In a zone that is not known nothing is planned.
pub proof fn lemma_settings(config: AppConfig)
    ensures
        config.scheduler.report_to_user_id is None ==> report_target(config) is None,
        config.scheduler.report_to_user_id matches Some(u) ==> (report_target(config) is None)
            == text::is_blank(u@),
        config.scheduler.report_to_user_id matches Some(u) ==> !text::is_blank(u@)
            ==> report_target(config) == Some(text::trim(u@)),
        !clock::zone_known(config.agent.timezone@) ==> planned_time(config) is Err,
        clock::zone_known(config.agent.timezone@) ==> planned_time(config) == run_time(
            config.scheduler.daily_run_time@,
        ),
{
}

} // verus!
