use amclaw::command_router::{route_text, RouteIntent};
use amclaw::context_pack::{ContextPack, ContextSection, ContextSectionKind};
use amclaw::mode_policy::{check_url, AgentMode};
use amclaw::ordering::{sort_rows, KeyPart};
use amclaw::paths::{is_absolute, join_path, normalize_absolute};
use amclaw::pipeline::archive::{choose_manual_title, extract_manual_title};
use amclaw::pipeline::archive::{
    browser_result, http_file_names, http_result, manual_file_names, manual_result, HttpArchive,
};
use amclaw::pipeline::capture::{
    capture_file_names, fallback_reason, format_browser_failure_message, judge_capture,
    judge_worker_exit, summarize_output, timeout_millis, validate_browser_capture_paths, wait_step,
    worker_error, BrowserCaptureRequest, BrowserCaptureResponse, WaitStep, WorkerFailure,
    WorkerState,
};
use amclaw::pipeline::fetch::{
    follow_redirect,
    body_failed, fetch_step, judge_body, judge_status, next_backoff_ms, plan_task, request_failed,
    FetchPlan, FetchStep,
};
use amclaw::pipeline::html_extract::{extract_element_inner_html_by_id, preview_text, truncate_line};
use amclaw::pipeline::markdown::{
    decode_entities_in_text, html_fragment_to_markdown, normalize_fragment_text, strip_html_tags,
};
use amclaw::pipeline::outcome::{PipelineFailureKind, PipelineResult, PipelineTaskError};
use amclaw::session_summary::{summarize_for_markdown, SessionSummaryStrategy};
use amclaw::task_executor::{record_outcome, take_task, Claim, Inflight};
use amclaw::task_store::url_guard::{parse_ipv4_address, parse_ipv6_address, IpAddress};
use amclaw::task_store::{
    normalize_url, source_domain, summarize_text_for_log, FeedbackKind, MemoryFeedbackState, MemoryType, MemoryWriteState,
    PromoteReason, Stamp, TaskStore, TaskStoreError, WriteDecision,
};
use amclaw::url::{url_domain, url_host};

fn unresolved(_: &str) -> Vec<IpAddress> {
    vec![]
}

fn at(secs: i64) -> Stamp {
    Stamp { text: format!("second {secs:05}"), secs: Some(secs) }
}

fn submit(store: &mut TaskStore, url: &str, n: i64) -> String {
    store
        .record_link_submission(url, unresolved, &at(n), &format!("article-{n}"), &format!("task-{n}"))
        .expect("写入链接失败")
        .task_id
}

// ---------------------------------------------------------------------------
// Tasks
// ---------------------------------------------------------------------------

#[test]
fn a_task_is_worked_off_by_one_worker() {
    let mut store = TaskStore::new();
    let id = submit(&mut store, "https://example.com/a", 1);
    let Claim::Taken(task) = take_task(&mut store, &id, "w1", &at(10), &at(310)) else {
        panic!("应领取任务");
    };
    assert_eq!(task.normalized_url, "https://example.com/a");
    assert_eq!(take_task(&mut store, &id, "w2", &at(20), &at(320)), Claim::Skipped);
    let done = PipelineResult {
        output_path: "/out.md".to_string(),
        raw_path: "/raw.html".to_string(),
        snapshot_path: None,
        title: Some("标题".to_string()),
        page_kind: "article".to_string(),
        content_source: "http".to_string(),
        summary: Some("摘要".to_string()),
    };
    assert!(record_outcome(&mut store, &id, &Ok(done), &at(30)));
    let status = store.get_task_status(&id).expect("应存在任务");
    assert_eq!(status.status, "archived");
    assert_eq!(status.output_path, Some("/out.md".to_string()));
    assert_eq!(take_task(&mut store, &id, "w3", &at(40), &at(340)), Claim::Skipped);
    assert_eq!(take_task(&mut store, "missing", "w3", &at(40), &at(340)), Claim::Skipped);
    assert_eq!(store.list_archived_tasks(5).expect("查询失败")[0].summary, Some("摘要".to_string()));
}

#[test]
fn a_failed_task_can_be_tried_again() {
    let mut store = TaskStore::new();
    let id = submit(&mut store, "https://example.com/a", 1);
    assert!(matches!(take_task(&mut store, &id, "w", &at(10), &at(310)), Claim::Taken(_)));
    let failed: Result<PipelineResult, PipelineTaskError> =
        Err(PipelineTaskError::failed("boom".to_string()));
    assert!(record_outcome(&mut store, &id, &failed, &at(20)));
    assert_eq!(store.get_task_status(&id).expect("应存在任务").status, "failed");
    let retried = store.retry_task(&id, &at(30)).expect("应可重试").expect("应存在任务");
    assert_eq!((retried.status.as_str(), retried.retry_count), ("pending", 1));
    assert!(matches!(take_task(&mut store, &id, "w", &at(40), &at(340)), Claim::Taken(_)));
    let waiting: Result<PipelineResult, PipelineTaskError> =
        Err(PipelineTaskError::awaiting_manual_input("wechat_captcha", "需要验证码"));
    assert!(record_outcome(&mut store, &id, &waiting, &at(50)));
    let status = store.get_task_status(&id).expect("应存在任务");
    assert_eq!(status.status, "awaiting_manual_input");
    assert_eq!(status.page_kind, Some("wechat_captcha".to_string()));
    assert_eq!(status.last_error, Some("需要验证码".to_string()));
}

#[test]
fn a_task_is_enqueued_once_at_a_time() {
    let mut inflight = Inflight::new();
    assert!(inflight.enqueue("a"));
    assert!(!inflight.enqueue("a"));
    assert!(inflight.enqueue("b"));
    assert_eq!(inflight.pending_count(), 2);
    inflight.finish("a");
    assert_eq!(inflight.pending_count(), 1);
    assert!(inflight.enqueue("a"));
}

#[test]
fn a_lease_that_ran_out_can_be_taken_over() {
    let mut store = TaskStore::new();
    let id = submit(&mut store, "https://example.com/a", 1);
    assert!(store.claim_task(&id, "w1", &at(10), &at(20)));
    assert!(!store.claim_task(&id, "w2", &at(19), &at(99)));
    assert!(store.claim_task(&id, "w2", &at(21), &at(99)));
    assert_eq!(store.tasks[0].worker_id, Some("w2".to_string()));
}

#[test]
fn governing_a_memory_twice_changes_nothing_more() {
    let mut store = TaskStore::new();
    let mut ws = MemoryWriteState::default();
    let first = store.govern_memory_write("u", "我在北京工作", MemoryType::Explicit, 100, &mut ws, "m1", "t1");
    assert!(matches!(first, WriteDecision::Written(_)));
    let rows = store.memories.clone();
    let again = store.govern_memory_write("u", " 我在北京工作 ", MemoryType::Explicit, 100, &mut ws, "m2", "t2");
    assert!(matches!(again, WriteDecision::Skipped { .. }));
    assert_eq!(store.memories, rows);
    assert_eq!((ws.written_count(), ws.skipped_count()), (1, 1));
}

#[test]
fn a_pending_task_is_found_by_its_id() {
    let mut store = TaskStore::new();
    let id = submit(&mut store, "https://example.com/a", 1);
    assert_eq!(store.get_pending_task(&id).map(|t| t.original_url), Some("https://example.com/a".to_string()));
    assert!(store.get_pending_task("other").is_none());
    assert!(store.claim_task(&id, "w", &at(10), &at(20)));
    assert!(store.get_pending_task(&id).is_none());
}

#[test]
fn a_text_is_cut_for_the_log_of_the_store() {
    assert_eq!(summarize_text_for_log("一\n二三", 4), "一\n二三");
    assert_eq!(summarize_text_for_log("一\n二三", 3), "一\n二...");
}

#[test]
fn the_type_of_a_stored_memory_is_read() {
    assert_eq!(MemoryType::from_stored("lesson"), MemoryType::Lesson);
    assert_eq!(MemoryType::from_stored("unheard_of"), MemoryType::Auto);
    let reason = PromoteReason::TypePromotesLower { from: MemoryType::Auto, to: MemoryType::Explicit };
    assert_eq!(reason.describe(), "auto_promotes_explicit");
    let mut feedback = MemoryFeedbackState::default();
    feedback.record("b", FeedbackKind::Retrieved);
    feedback.record("a", FeedbackKind::Useful);
    feedback.record("b", FeedbackKind::Injected);
    assert_eq!(feedback.memory_ids(), vec!["b".to_string(), "a".to_string()]);
    assert_eq!((feedback.retrieved_count("b"), feedback.injected_count("b")), (1, 1));
}

// ---------------------------------------------------------------------------
// Addresses
// ---------------------------------------------------------------------------

#[test]
fn urls_are_made_normal() {
    let normal = |s: &str| normalize_url(s, unresolved);
    assert_eq!(normal("HTTPS://Example.com:443/"), Ok("https://example.com".to_string()));
    assert_eq!(
        normal("https://example.com/a?utm_source=x&b=%20c#top"),
        Ok("https://example.com/a?b=+c".to_string())
    );
    assert_eq!(normal("https://example.com/?fbclid=1"), Ok("https://example.com".to_string()));
    assert!(matches!(normal("ftp://example.com"), Err(TaskStoreError::UnsupportedScheme(_))));
    assert!(matches!(normal("not a url"), Err(TaskStoreError::InvalidUrl(_))));
    assert!(matches!(normal("http://10.1.2.3/"), Err(TaskStoreError::PrivateNetworkUrl(_))));
    let again = normal("https://example.com/a?b=1").expect("应规范化");
    assert_eq!(normal(&again), Ok(again.clone()));
    assert_eq!(source_domain("https://sub.example.com/x"), Some("sub.example.com".to_string()));
}

#[test]
fn hosts_and_domains_are_told_apart() {
    assert_eq!(url_host("http://1.2.3.4/x"), Some("1.2.3.4".to_string()));
    assert_eq!(url_domain("http://1.2.3.4/x"), None);
    assert_eq!(url_domain("https://MP.weixin.qq.com/s"), Some("mp.weixin.qq.com".to_string()));
    assert_eq!(url_host("nonsense"), None);
}

#[test]
fn numbers_of_all_forms_are_addresses() {
    assert_eq!(parse_ipv4_address("127.0.0.1"), Some(0x7f00_0001));
    assert_eq!(parse_ipv4_address("0x7f.1"), Some(0x7f00_0001));
    assert_eq!(parse_ipv4_address("0177.0.0.1"), Some(0x7f00_0001));
    assert_eq!(parse_ipv4_address("2130706433"), Some(0x7f00_0001));
    assert_eq!(parse_ipv4_address("example.com"), None);
    assert_eq!(parse_ipv6_address("::1"), Some([0, 0, 0, 0, 0, 0, 0, 1]));
    assert_eq!(
        parse_ipv6_address("::ffff:10.0.0.1"),
        Some([0, 0, 0, 0, 0, 0xffff, 0x0a00, 0x0001])
    );
    assert_eq!(parse_ipv6_address("fe80::g"), None);
}

#[test]
fn a_name_that_leads_to_a_private_address_is_denied() {
    let inner = |_: &str| vec![IpAddress::V4(1, 1, 1, 1), IpAddress::V4(192, 168, 0, 1)];
    let denied = check_url(AgentMode::Restricted, "https://demo.test/", inner);
    assert!(!denied.allowed);
    let free = check_url(AgentMode::Unrestricted, "https://demo.test/", inner);
    assert!(free.allowed);
    assert_eq!(AgentMode::from_config("UnRestricted"), AgentMode::Unrestricted);
    assert_eq!(AgentMode::from_config("other"), AgentMode::Restricted);
}

// ---------------------------------------------------------------------------
// Fetching
// ---------------------------------------------------------------------------

#[test]
fn a_task_is_fetched_by_the_right_way() {
    let plan = |url: &str, browser: bool| plan_task(AgentMode::Restricted, url, browser, unresolved);
    assert!(matches!(plan("https://mp.weixin.qq.com/s/a", true), FetchPlan::Browser));
    assert!(matches!(plan("https://mp.weixin.qq.com/s/a", false), FetchPlan::Http));
    assert!(matches!(plan("https://example.com/a", true), FetchPlan::Http));
    match plan("http://localhost/a", true) {
        FetchPlan::Denied(err) => assert_eq!(err.kind, PipelineFailureKind::Failed),
        _ => panic!("应拒绝"),
    }
}

#[test]
fn answers_are_judged_by_their_status() {
    let judge = |status: u16, location: &str| {
        judge_status("https://example.com/a", status, location, unresolved)
    };
    assert!(judge(200, "").is_none());
    let server = judge(503, "").expect("应失败");
    assert!(server.retryable);
    assert_eq!(server.error_kind, "http_status_server_error");
    assert_eq!(server.error.message, "抓取页面失败: HTTP 503 https://example.com/a");
    let client = judge(404, "").expect("应失败");
    assert!(!client.retryable);
    assert_eq!(client.error_kind, "http_status_failed");
    let inner = judge(302, "http://127.0.0.1/x").expect("应失败");
    assert_eq!(inner.error_kind, "ssrf_redirect_private_target");
    assert_eq!(
        inner.error.message,
        "安全拦截: redirect 指向私有/本地地址 (status=302 target=http://127.0.0.1/x)"
    );
    let moved = judge(301, "https://example.org/").expect("应失败");
    assert_eq!(moved.error_kind, "http_redirect_rejected");
    let captcha =
        judge(302, "https://mp.weixin.qq.com/mp/wappoc_appmsgcaptcha?x=1").expect("应失败");
    assert_eq!(
        captcha.error.kind,
        PipelineFailureKind::AwaitingManualInput { page_kind: "wechat_captcha".to_string() }
    );
}

#[test]
fn a_request_that_fails_for_the_moment_is_tried_again() {
    assert!(request_failed("u", "timeout", true).retryable);
    assert_eq!(request_failed("u", "x", false).error.message, "抓取页面失败: u (x)");
    assert_eq!(body_failed("x", false).error.message, "读取页面正文失败: x");
    assert_eq!(next_backoff_ms(0, true), Some(200));
    assert_eq!(next_backoff_ms(1, true), Some(500));
    assert_eq!(next_backoff_ms(2, true), Some(1000));
    assert_eq!(next_backoff_ms(3, true), None);
    assert_eq!(next_backoff_ms(0, false), None);
    let transient = request_failed("u", "x", true);
    assert_eq!(fetch_step(1, Err(transient.clone())), FetchStep::Retry(500));
    assert_eq!(fetch_step(3, Err(transient.clone())), FetchStep::Failed(transient.error));
    let page = judge_body("https://a.test", "https://a.test/".to_string(), "<p>x</p>".to_string())
        .expect("应接受");
    assert_eq!(page.final_url, "https://a.test/");
    let error = judge_body(
        "https://a.test",
        "https://mp.weixin.qq.com/s/a".to_string(),
        "<title>未知错误</title>".to_string(),
    );
    assert_eq!(error.expect_err("应拒绝").error_kind, "html_validation_failed");
}

// ---------------------------------------------------------------------------
// The browser
// ---------------------------------------------------------------------------

fn request() -> BrowserCaptureRequest {
    BrowserCaptureRequest {
        url: "https://mp.weixin.qq.com/s/demo".to_string(),
        html_path: "/tmp/a/page.html".to_string(),
        screenshot_path: "/tmp/a/page.png".to_string(),
        timeout_ms: 30_000,
        headless: true,
        mobile_viewport: true,
    }
}

fn response(ok: bool) -> BrowserCaptureResponse {
    BrowserCaptureResponse {
        ok,
        page_kind: if ok { "article" } else { "wechat_captcha" }.to_string(),
        final_url: "https://mp.weixin.qq.com/s/demo".to_string(),
        title: Some("标题".to_string()),
        html_path: "/tmp/a//page.html".to_string(),
        screenshot_path: "/tmp/a/./page.png".to_string(),
        reason: None,
        logs: vec!["a".to_string(), "b".to_string()],
    }
}

#[test]
fn a_capture_is_taken_or_handed_to_the_user() {
    assert!(validate_browser_capture_paths(&request(), &response(true), None).is_ok());
    let taken = judge_capture(&request(), response(true), "", None, None).expect("应接受");
    assert_eq!(taken.page_kind, "article");
    let asked = Some("/asked.png".to_string());
    let named = Some("/s.png".to_string());
    let refused =
        judge_capture(&request(), response(false), " warn \n x ", asked.clone(), named.clone())
            .expect_err("应交给用户");
    assert_eq!(
        refused.kind,
        PipelineFailureKind::AwaitingManualInput { page_kind: "wechat_captcha".to_string() }
    );
    assert_eq!(refused.message, "浏览器抓取未成功; logs=a | b; stderr=warn x");
    assert_eq!(refused.snapshot_path, Some("/s.png".to_string()));
    assert_eq!(refused.content_source, Some("browser_capture".to_string()));
    let mut other = response(true);
    other.html_path = "/tmp/b/page.html".to_string();
    let elsewhere =
        judge_capture(&request(), other, "", asked.clone(), named).expect_err("应拒绝其他路径");
    assert_eq!(elsewhere.snapshot_path, asked);
    assert_eq!(
        elsewhere.kind,
        PipelineFailureKind::AwaitingManualInput {
            page_kind: "browser_worker_invalid_output".to_string()
        }
    );
}

#[test]
fn what_was_archived_says_where_it_came_from() {
    let own = |s: &str| s.to_string();
    assert_eq!(manual_file_names("t"), (own("t.manual.txt"), own("t.md")));
    assert_eq!(http_file_names("t"), (own("t.html"), own("t.md")));
    let manual = manual_result(own("/o"), own("/r"), Some(own("题")));
    assert_eq!((manual.page_kind, manual.content_source), (own("manual_input"), own("manual_input")));
    assert_eq!((manual.title, manual.snapshot_path, manual.summary), (Some(own("题")), None, None));
    let capture = judge_capture(&request(), response(true), "", None, None).expect("应接受");
    let browser = browser_result(own("/o"), &capture);
    assert_eq!(browser.content_source, "browser_capture");
    assert_eq!((browser.raw_path, browser.page_kind), (capture.html_path, own("article")));
    assert_eq!(browser.snapshot_path, Some(capture.screenshot_path));
    let archive = HttpArchive {
        content: own("c"),
        title: None,
        page_kind: own("article"),
        summary: Some(own("摘要")),
    };
    let http = http_result(own("/o"), own("/r"), archive);
    assert_eq!((http.content_source, http.summary), (own("http"), Some(own("摘要"))));
    assert_eq!((http.output_path, http.raw_path), (own("/o"), own("/r")));
}

#[test]
fn redirects_are_followed_up_to_a_bound() {
    assert!(follow_redirect("https://93.184.216.34/x", 9, unresolved));
    assert!(!follow_redirect("https://93.184.216.34/x", 10, unresolved));
    assert!(!follow_redirect("http://127.0.0.1/x", 0, unresolved));
}

#[test]
fn the_name_of_a_type_is_read() {
    assert_eq!("lesson".parse::<MemoryType>(), Ok(MemoryType::Lesson));
    assert_eq!("Lesson".parse::<MemoryType>(), Err("未知 memory_type: Lesson".to_string()));
}

#[test]
fn captured_paths_are_told_apart() {
    let verdict = |asked: &str, named: &str| {
        let mut wanted = request();
        let mut answer = response(true);
        wanted.html_path = asked.to_string();
        answer.html_path = named.to_string();
        validate_browser_capture_paths(&wanted, &answer, None).is_ok()
    };
    assert!(verdict("a/page.html", "a//page.html"));
    assert!(verdict("a/page.html", "a/./page.html/"));
    assert!(verdict("./a/page.html", "././a/page.html"));
    assert!(!verdict("a/page.html", "./a/page.html"));
    assert!(!verdict("a/page.html", "/a/page.html"));
    assert!(!verdict("/a/page.html", "a/page.html"));
    assert!(!verdict("a/page.html", "a/b/../page.html"));
    assert!(!verdict(".", ""));
}

#[test]
fn a_worker_is_waited_for_and_ended() {
    let secs = |n: u128| n * 1_000_000_000;
    assert_eq!(wait_step(WorkerState::Exited, 0, secs(45)), WaitStep::Collect);
    assert_eq!(wait_step(WorkerState::Running, secs(59), secs(45)), WaitStep::Wait);
    assert_eq!(wait_step(WorkerState::Running, secs(60), secs(45)), WaitStep::Kill);
    assert_eq!(wait_step(WorkerState::Running, secs(60), u128::MAX), WaitStep::Wait);
    assert_eq!(wait_step(WorkerState::Unknown, 0, secs(45)), WaitStep::GiveUp);
    assert_eq!(timeout_millis(1_999_999), 1);
    assert_eq!(timeout_millis(u128::MAX), u64::MAX);
    assert_eq!(
        capture_file_names("t1"),
        ("t1.browser.html".to_string(), "t1.png".to_string())
    );
}

#[test]
fn the_failures_of_a_worker_are_named() {
    assert_eq!(summarize_output("  "), "(empty)");
    assert_eq!(summarize_output(&"x".repeat(241)), format!("{}...", "x".repeat(240)));
    assert_eq!(fallback_reason(" ", "unknown"), "unknown");
    assert_eq!(format_browser_failure_message(" r ", &vec![], ""), "r");
    let failed = judge_worker_exit(false, " ", " boom ").expect("应失败");
    let err = worker_error(&failed, None);
    assert_eq!(
        err.kind,
        PipelineFailureKind::AwaitingManualInput { page_kind: "browser_worker_failed".to_string() }
    );
    assert!(judge_worker_exit(false, "{}", "").is_none());
    assert!(judge_worker_exit(true, "", "").is_none());
    let timed_out = worker_error(
        &WorkerFailure::TimedOut { stdout: "o".to_string(), stderr: "".to_string() },
        Some("/s.png".to_string()),
    );
    assert_eq!(
        timed_out.message,
        "浏览器 worker 超时未结束，已终止。stdout=o stderr=(empty)"
    );
    let spawn = worker_error(&WorkerFailure::Spawn("no node".to_string()), None);
    assert_eq!(spawn.message, "启动浏览器 worker 失败: no node");
    let dir = worker_error(&WorkerFailure::MakeRawDir("denied".to_string()), None);
    assert_eq!(dir.kind, PipelineFailureKind::Failed);
}

// ---------------------------------------------------------------------------
// Pages
// ---------------------------------------------------------------------------

#[test]
fn pages_become_plain_text() {
    assert_eq!(strip_html_tags("a<b>c"), "ac");
    assert_eq!(decode_entities_in_text("&#65;&#x42;&quot;&unknown;&amp"), "AB\"&unknown;&amp");
    assert_eq!(normalize_fragment_text("<p>a</p>\n\n<p> b </p>"), "a\n\nb");
    assert_eq!(
        html_fragment_to_markdown("<p>看 <a href=\"https://a.test\">这里</a></p>"),
        "看\n\n这里 (https://a.test)"
    );
    assert_eq!(
        extract_element_inner_html_by_id("<div id=\"x\">a<div>b</div>c</div>d", "x"),
        Some("a<div>b".to_string())
    );
    assert_eq!(truncate_line("abcdef", 3), "abc...");
    assert!(preview_text("<script>x</script><p>你好</p>").contains("你好"));
}

#[test]
fn a_title_is_found_for_a_text_given_by_hand() {
    assert_eq!(extract_manual_title("\n  标题 \n正文"), Some("标题".to_string()));
    assert_eq!(extract_manual_title(" \n "), None);
    let given = Some("已有".to_string());
    assert_eq!(choose_manual_title(&given, "标题"), given);
    assert_eq!(choose_manual_title(&None, "标题"), Some("标题".to_string()));
}

// ---------------------------------------------------------------------------
// Paths, order, texts
// ---------------------------------------------------------------------------

#[test]
fn paths_are_made_normal() {
    assert!(is_absolute("/a"));
    assert!(!is_absolute("a"));
    assert_eq!(join_path("/a", "b"), "/a/b");
    assert_eq!(join_path("/a/", "b"), "/a/b");
    assert_eq!(join_path("/a", "/b"), "/b");
    assert_eq!(normalize_absolute("/a/./b/../c//d"), Ok("/a/c/d".to_string()));
    assert_eq!(normalize_absolute("/a/c/d"), Ok("/a/c/d".to_string()));
    assert_eq!(normalize_absolute("a"), Err("只允许绝对路径: a".to_string()));
    assert_eq!(normalize_absolute("/.."), Err("非法路径: /..".to_string()));
}

#[test]
fn rows_are_ordered_by_their_keys() {
    let keys = vec![
        vec![KeyPart::NumDown(1), KeyPart::Text("b".to_string())],
        vec![KeyPart::NumDown(2), KeyPart::Text("z".to_string())],
        vec![KeyPart::NumDown(1), KeyPart::Text("a".to_string())],
        vec![KeyPart::NumDown(2), KeyPart::Text("z".to_string())],
    ];
    assert_eq!(sort_rows(&keys), vec![1, 3, 2, 0]);
}

#[test]
fn summaries_fit_their_budget() {
    let long = "字".repeat(500);
    let short = summarize_for_markdown(&long, 140);
    assert!(short.chars().count() <= 140, "{}", short.chars().count());
    assert_eq!(summarize_for_markdown("短", 140), "短");
    assert_eq!(SessionSummaryStrategy::from_config_text("truncate").as_str(), "truncate");
    assert_eq!(SessionSummaryStrategy::from_config_text("other").as_str(), "semantic");
}

#[test]
fn sections_that_must_stay_are_never_dropped() {
    let mut pack = ContextPack::new().with_max_total_chars(5000);
    pack.set_max_total_chars(1);
    pack.push(ContextSection::new(ContextSectionKind::Preamble, vec!["开场".to_string()]));
    pack.push(ContextSection::new(ContextSectionKind::UserMemories, vec!["记忆".to_string()]));
    pack.push(ContextSection::new(ContextSectionKind::RecentTasks, vec!["任务".to_string()]));
    pack.apply_total_budget();
    assert_eq!(pack.render(), "开场");
    assert_eq!(pack.drop_reasons().len(), 2);
    assert_eq!(pack.budget_summary().dropped_section_count, 2);
    let left_out = pack.snapshot().into_iter().filter(|section| !section.included);
    assert_eq!(left_out.filter(|section| section.drop_reason.is_some()).count(), 2);
}

#[test]
fn white_space_around_a_text_does_not_matter() {
    for words in ["状态 task-1", "hello!!", "https://example.com", "记住 x", ""] {
        let padded = format!(" \n{words}\t ");
        assert_eq!(route_text(words), route_text(&padded));
    }
    assert_eq!(route_text("重试"), RouteIntent::ChatPending { text: "重试".to_string() });
}
