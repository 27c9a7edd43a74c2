use amclaw::clock::LocalTime;
use amclaw::config::AppConfig;
use amclaw::scheduler::{
    generate_daily_report_once, generate_weekly_report_once, parse_daily_run_time, watchdog_step,
    DailyReportSchedule, WatchdogStep, WeeklyReportSchedule,
};
use amclaw::task_store::TaskStore;
use chrono::TimeZone;

fn secs(year: i32, month: u32, day: u32, hour: u32, minute: u32) -> i64 {
    chrono::Utc
        .with_ymd_and_hms(year, month, day, hour, minute, 0)
        .single()
        .expect("构造 UTC 时间失败")
        .timestamp()
}

fn config(enabled: bool, time: &str, user: Option<&str>) -> AppConfig {
    let mut config = AppConfig::default();
    config.agent.timezone = "Asia/Shanghai".to_string();
    config.scheduler.enabled = enabled;
    config.scheduler.daily_run_time = time.to_string();
    config.scheduler.report_to_user_id = user.map(str::to_string);
    config
}

fn day(s: &str) -> Option<String> {
    Some(s.to_string())
}

#[test]
fn daily_run_time_is_parsed() {
    assert_eq!(parse_daily_run_time("09:30").expect("解析失败"), (9, 30));
}

#[test]
fn invalid_daily_run_time_is_rejected() {
    assert!(parse_daily_run_time("25:00").is_err());
    assert!(parse_daily_run_time("bad").is_err());
}

#[test]
fn each_fault_of_a_run_time_is_named() {
    assert_eq!(parse_daily_run_time("bad"), Err("daily_run_time 格式应为 HH:MM".to_string()));
    assert_eq!(parse_daily_run_time("x:30"), Err("解析调度小时失败".to_string()));
    assert_eq!(parse_daily_run_time("9:"), Err("解析调度分钟失败".to_string()));
    assert_eq!(
        parse_daily_run_time(" 9:60 "),
        Err("daily_run_time 超出范围:  9:60 ".to_string())
    );
    assert_eq!(parse_daily_run_time(" 9:05 "), Ok((9, 5)));
}

#[test]
fn should_run_only_after_scheduled_time_and_once_per_day() {
    let schedule = DailyReportSchedule {
        timezone: "Asia/Shanghai".to_string(),
        hour: 9,
        minute: 30,
        report_to_user_id: None,
    };
    let now = secs(2026, 4, 10, 1, 31);
    assert_eq!(schedule.should_run_now(now, None), day("2026-04-10"));
    assert_eq!(schedule.should_run_now(now, Some("2026-04-10")), None);

    let early = secs(2026, 4, 10, 1, 29);
    assert_eq!(schedule.should_run_now(early, None), None);
}

#[test]
fn daily_report_schedule_is_built_from_config() {
    let schedule = DailyReportSchedule::from_config(&config(true, "09:30", Some("user-a")))
        .expect("构造 schedule 失败")
        .expect("应存在 schedule");
    let now = secs(2026, 4, 10, 1, 31);
    assert_eq!(schedule.report_to_user_id(), Some("user-a".to_string()));
    assert_eq!(schedule.should_run_now(now, None), day("2026-04-10"));
    assert_eq!(
        schedule.push_due(now, None),
        Some(("2026-04-10".to_string(), "user-a".to_string()))
    );
    assert_eq!(schedule.push_due(now, Some("2026-04-10")), None);
}

#[test]
fn schedule_is_built_without_push_target() {
    let daily = DailyReportSchedule::from_config(&config(true, "09:30", None))
        .expect("构造 schedule 失败")
        .expect("无推送目标时 schedule 仍应存在");
    assert_eq!(daily.report_to_user_id(), None);
    assert_eq!(daily.push_due(secs(2026, 4, 10, 1, 31), None), None);
    let weekly = WeeklyReportSchedule::from_config(&config(true, "09:30", Some("  ")))
        .expect("构造 weekly schedule 失败")
        .expect("无推送目标时 weekly schedule 仍应存在");
    assert_eq!(weekly.report_to_user_id(), None);
    assert_eq!(weekly.push_due(secs(2026, 4, 13, 1, 31), None), None);
}

#[test]
fn schedule_is_none_when_scheduler_disabled() {
    let off = config(false, "09:30", Some("user-a"));
    assert!(DailyReportSchedule::from_config(&off).expect("构造 schedule 失败").is_none());
    assert!(WeeklyReportSchedule::from_config(&off)
        .expect("构造 weekly schedule 失败")
        .is_none());
}

#[test]
fn should_run_weekly_after_target_weekday_and_once_per_week() {
    let schedule = WeeklyReportSchedule {
        timezone: "Asia/Shanghai".to_string(),
        weekday_monday_based: 1,
        hour: 9,
        minute: 30,
        report_to_user_id: None,
    };
    let now = secs(2026, 4, 13, 1, 31);
    assert_eq!(schedule.should_run_now(now, None), day("2026-16"));
    assert_eq!(schedule.should_run_now(now, Some("2026-16")), None);
    let early = secs(2026, 4, 13, 1, 29);
    assert_eq!(schedule.should_run_now(early, None), None);
    let tuesday = secs(2026, 4, 14, 1, 31);
    assert_eq!(schedule.should_run_now(tuesday, None), day("2026-16"));
}

#[test]
fn weekly_report_schedule_is_built_from_config() {
    let schedule = WeeklyReportSchedule::from_config(&config(true, "09:30", Some("user-a")))
        .expect("构造 weekly schedule 失败")
        .expect("应存在 weekly schedule");
    let now = secs(2026, 4, 13, 1, 31);
    assert_eq!(schedule.report_to_user_id(), Some("user-a".to_string()));
    assert_eq!(schedule.should_run_now(now, None), day("2026-16"));
    assert_eq!(
        schedule.push_due(now, None),
        Some(("2026-16".to_string(), "user-a".to_string()))
    );
}

#[test]
fn a_schedule_names_a_zone_that_is_not_known() {
    let mut bad = config(true, "bad", None);
    bad.agent.timezone = "Mars/Base".to_string();
    assert_eq!(
        DailyReportSchedule::from_config(&bad).expect_err("应失败"),
        "无效 timezone: Mars/Base"
    );
    assert_eq!(
        WeeklyReportSchedule::from_config(&config(true, "bad", None)).expect_err("应失败"),
        "daily_run_time 格式应为 HH:MM"
    );
    let store = TaskStore::new();
    assert_eq!(
        generate_daily_report_once(&bad, &store, "2026-04-10").expect_err("应失败"),
        "无效 timezone: Mars/Base"
    );
    assert_eq!(
        generate_weekly_report_once(&bad, &store, "2026-16").expect_err("应失败"),
        "无效 timezone: Mars/Base"
    );
}

#[test]
fn a_day_is_due_once_by_the_clocks_of_its_zone() {
    let schedule = DailyReportSchedule {
        timezone: "Asia/Shanghai".to_string(),
        hour: 9,
        minute: 30,
        report_to_user_id: None,
    };
    let mut now = LocalTime {
        day: "2026-04-10".to_string(),
        hour: 9,
        minute: 30,
        weekday: 5,
        iso_year: 2026,
        iso_week: 15,
    };
    let due = schedule.should_run_at(&now, Some("2026-04-09"));
    assert_eq!(due, day("2026-04-10"));
    now.hour = 23;
    assert_eq!(schedule.should_run_at(&now, due.as_deref()), None);
}

#[test]
fn the_watchdog_sounds_when_the_scheduler_ends_by_itself() {
    assert_eq!(watchdog_step(true, true), WatchdogStep::Alarm);
    assert_eq!(watchdog_step(true, false), WatchdogStep::Wait);
    assert_eq!(watchdog_step(false, true), WatchdogStep::Stop);
    assert_eq!(watchdog_step(false, false), WatchdogStep::Stop);
}
