use amclaw::config::AppConfig;
use amclaw::reporter::{
    day_range, flatten_summary, format_week_key, normalize_week_key, week_range, DailyReporter,
};
use amclaw::task_store::url_guard::IpAddress;
use amclaw::task_store::{MarkTaskArchivedInput, Stamp, TaskStore};

fn unresolved(_: &str) -> Vec<IpAddress> {
    vec![]
}

fn reporter() -> DailyReporter {
    let mut config = AppConfig::default();
    config.base_dir = "/work".to_string();
    config.agent.timezone = "Asia/Shanghai".to_string();
    DailyReporter::from_config(&config).expect("初始化 reporter 失败")
}

fn at(secs: i64) -> Stamp {
    Stamp { text: format!("second {secs}"), secs: Some(secs) }
}

fn archive(store: &mut TaskStore, url: &str, title: &str, page_kind: &str, summary: Option<&str>, secs: i64) -> String {
    let n = store.tasks.len();
    let created = store
        .record_link_submission(
            url,
            unresolved,
            &at(secs),
            &format!("article-{n}"),
            &format!("task-{n}"),
        )
        .expect("写入链接失败");
    let done = store.mark_task_archived(
        &created.task_id,
        MarkTaskArchivedInput {
            output_path: &format!("/tmp/{n}.md"),
            title: Some(title),
            page_kind: Some(page_kind),
            snapshot_path: None,
            content_source: Some("http"),
            summary,
        },
        &at(secs),
    );
    assert!(done);
    created.task_id
}

/// 2024-01-15 00:00 in Shanghai.
const MIDNIGHT: i64 = 1_705_248_000;

#[test]
fn daily_report_is_generated_for_archived_tasks() {
    let mut store = TaskStore::new();
    archive(&mut store, "https://example.com/report-item", "Report Item Title", "article", None, MIDNIGHT + 10);
    let (output, markdown) =
        reporter().generate_for_day(&store, "2024-01-15").expect("生成日报失败");

    assert_eq!(output.day, "2024-01-15");
    assert_eq!(output.item_count, 1);
    assert_eq!(output.markdown_path, "/work/./data/reports/daily-2024-01-15.md");
    assert!(markdown.contains("# AMClaw Daily Report"));
    assert!(markdown.contains("Report Item Title"));
    assert!(output.summary.contains("archived_count: 1"));
}

#[test]
fn daily_report_includes_summary_when_available() {
    let mut store = TaskStore::new();
    archive(
        &mut store,
        "https://example.com/with-summary",
        "Summary Article",
        "article",
        Some("这是一篇关于Rust的文章\n介绍了async运行时的设计\n适合初学者入门"),
        MIDNIGHT + 10,
    );
    archive(&mut store, "https://example.com/without-summary", "No Summary Article", "webpage", None, MIDNIGHT + 20);
    let (output, markdown) =
        reporter().generate_for_day(&store, "2024-01-15").expect("生成日报失败");

    assert_eq!(output.item_count, 2);
    assert!(markdown
        .contains("summary: 这是一篇关于Rust的文章 介绍了async运行时的设计 适合初学者入门"));
    assert!(output.summary.contains(
        "Summary Article | 这是一篇关于Rust的文章 介绍了async运行时的设计 适合初学者入门"
    ));
    assert!(output.summary.contains("No Summary Article"));
    assert!(!markdown.contains("summary: None"));
}

#[test]
fn weekly_report_is_generated_for_archived_tasks() {
    let mut store = TaskStore::new();
    archive(
        &mut store,
        "https://example.com/weekly-report-item",
        "Weekly Item",
        "article",
        Some("weekly summary"),
        MIDNIGHT + 3 * 86400,
    );
    let reporter = reporter();
    let week = reporter.current_week(MIDNIGHT + 4 * 86400).expect("应有当前周");
    let (output, markdown) =
        reporter.generate_weekly_for_week(&store, &week).expect("生成周报失败");

    assert_eq!(output.week, week);
    assert_eq!(output.week, "2024-03");
    assert_eq!(output.item_count, 1);
    assert_eq!(output.markdown_path, "/work/./data/reports/weekly-2024-03.md");
    assert!(markdown.contains("# AMClaw Weekly Report"));
    assert!(markdown.contains("Weekly Item"));
    assert!(output.summary.contains("周报"));
    assert!(output.summary.contains("archived_count: 1"));
}

#[test]
fn daily_report_does_not_miss_entries_when_recent_history_is_large() {
    let mut store = TaskStore::new();
    for i in 0..502 {
        archive(
            &mut store,
            &format!("https://example.com/yesterday-{i}"),
            &format!("Yesterday Item {i}"),
            "article",
            None,
            MIDNIGHT + 86400,
        );
    }
    for i in 0..5 {
        archive(
            &mut store,
            &format!("https://example.com/twodays-{i}"),
            &format!("Two Days Ago Item {i}"),
            "article",
            None,
            MIDNIGHT,
        );
    }
    let (output, _) = reporter().generate_for_day(&store, "2024-01-15").expect("生成前天日报失败");
    assert_eq!(output.item_count, 5, "前天的 5 条数据不应被全局 LIMIT 截断");
}

#[test]
fn utc_storage_with_local_timezone_boundary_is_correct() {
    let mut store = TaskStore::new();
    // 2024-01-14T15:59:59Z, 2024-01-14T16:00:00Z, 2024-01-15T15:59:59Z, 2024-01-15T16:00:00Z
    let times = [MIDNIGHT - 1, MIDNIGHT, MIDNIGHT + 86399, MIDNIGHT + 86400];
    for (i, secs) in times.iter().enumerate() {
        archive(
            &mut store,
            &format!("https://example.com/boundary-{i}"),
            &format!("Boundary {i}"),
            "article",
            None,
            *secs,
        );
    }
    let (output, _) = reporter().generate_for_day(&store, "2024-01-15").expect("生成日报失败");
    assert_eq!(output.item_count, 2, "应恰好命中 UTC 跨日边界内的 2 条数据");
    assert!(output.summary.contains("Boundary 1") && output.summary.contains("Boundary 2"));
    assert!(!output.summary.contains("Boundary 0") && !output.summary.contains("Boundary 3"));
}

#[test]
fn an_empty_report_says_so() {
    let store = TaskStore::new();
    let (output, markdown) =
        reporter().generate_for_day(&store, "2024-01-15").expect("生成日报失败");
    assert_eq!(output.summary, "日报 2024-01-15\n- 当天没有新的 archived 任务");
    assert_eq!(
        markdown,
        "# AMClaw Daily Report 2024-01-15\n\n- archived_count: 0\n\n## Archived Tasks\n\n- (none)\n"
    );
    let (output, _) =
        reporter().generate_weekly_for_week(&store, " 2024-03 ").expect("生成周报失败");
    assert_eq!(output.summary, "周报 2024-03\n- 当周没有新的 archived 任务");
}

#[test]
fn a_report_lists_its_tasks_in_full() {
    let mut store = TaskStore::new();
    archive(&mut store, "https://example.com/a", "A", "article", Some("一 \n 二"), MIDNIGHT);
    let (output, markdown) =
        reporter().generate_for_day(&store, "2024-01-15").expect("生成日报失败");
    assert_eq!(output.summary, "日报 2024-01-15\n- archived_count: 1\n- A | 一 二");
    assert_eq!(
        markdown,
        "# AMClaw Daily Report 2024-01-15\n\n- archived_count: 1\n\n## Archived Tasks\n\n### A\n\n- task_id: task-0\n- article_id: article-0\n- url: https://example.com/a\n- content_source: http\n- page_kind: article\n- summary: 一 二\n- output_path: /tmp/0.md\n- updated_at: second 1705248000\n"
    );
}

#[test]
fn what_is_no_day_or_week_is_refused() {
    let store = TaskStore::new();
    let reporter = reporter();
    assert_eq!(
        reporter.generate_for_day(&store, "tomorrow").expect_err("应失败"),
        "无法计算日期范围: tomorrow"
    );
    let week = |raw: &str| reporter.generate_weekly_for_week(&store, raw).expect_err("应失败");
    assert_eq!(week("202403"), "周报 week 格式应为 YYYY-WW");
    assert_eq!(week("24-03"), "周报 week 格式应为 YYYY-WW: 24-03");
    assert_eq!(week("二-03"), "周报 week 格式应为 YYYY-WW: 二-03");
    assert_eq!(week("abcd-03"), "解析周报年份失败");
    assert_eq!(week("2024-x3"), "解析周报周数失败");
    assert_eq!(week("2024-54"), "周报周数超出范围: 2024-54");
    assert_eq!(week("2024-53"), "无法计算周范围: 2024-53");
}

#[test]
fn week_keys_are_made_normal_once() {
    assert_eq!(format_week_key(2026, 5), "2026-05");
    assert_eq!(format_week_key(7, 12), "0007-12");
    assert_eq!(format_week_key(-7, 12), "-007-12");
    assert_eq!(format_week_key(12345, 1), "12345-01");
    assert_eq!(normalize_week_key(" +123-05 "), Ok("0123-05".to_string()));
    for raw in ["2026-16", "0001-01", "+123-+5"] {
        let key = normalize_week_key(raw).expect("应规范化");
        assert_eq!(normalize_week_key(&key), Ok(key.clone()));
    }
}

#[test]
fn a_day_and_a_week_span_their_seconds() {
    let (start, end) = day_range("2024-01-15", "Asia/Shanghai").expect("应有范围");
    assert_eq!((start.secs, end.secs), (Some(MIDNIGHT), Some(MIDNIGHT + 86400)));
    let (start, end) = week_range(2024, 3, "Asia/Shanghai").expect("应有范围");
    assert_eq!((start.secs, end.secs), (Some(MIDNIGHT), Some(MIDNIGHT + 7 * 86400)));
    assert!(day_range("2024-01-15", "Mars/Base").is_none());
    assert!(day_range("2024-02-30", "Asia/Shanghai").is_none());
    assert_eq!(reporter().current_day(MIDNIGHT - 1), Some("2024-01-14".to_string()));
    assert_eq!(reporter().current_day(MIDNIGHT), Some("2024-01-15".to_string()));
    assert_eq!(flatten_summary(" a\n\tb  c "), "a b c");
}
