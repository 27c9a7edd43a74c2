use amclaw::chat_adapter::bot::{ChatAction, ChatBot, Tick};
use amclaw::chat_adapter::delivery::{
    next_poll_timeout, remaining_chunks_after_failure, should_send_processing_ack,
    split_content_only, split_reply_into_chunks, ReplyDelivery, ReportPushKind,
};
use amclaw::chat_adapter::helpers::{
    assert_ok, first_non_empty, is_agent_command, is_llm_auth_error,
    sanitize_report_markdown_for_wechat, summarize_text_for_log, truncate_for_log,
};
use amclaw::chat_adapter::ilink::{
    bearer_header, build_url, check_http_status, default_base_url, kept_cursor, login_step,
    judge_answer, next_cursor, not_json_message, poll_body, read_answer, read_qrcode, send_body, wechat_uin, LoginStep,
};
use amclaw::chat_adapter::ingest::{
    collect_text, extract_message_id, read_message, FlexibleId, MessageItem, SeenIds, TextItem,
    WireMessage,
};
use amclaw::chat_adapter::links::{
    handle_link_submission, record_manual_archive, settle_manual_content,
};
use amclaw::chat_adapter::outbox::{
    finish_delivery, plan_reply, processing_note, push_finished, settle_resent, tasks_to_enqueue,
    DeliveryOutcome, ReplyPlan,
};
use amclaw::chat_adapter::replies::{
    build_daily_report_query_reply, build_link_submission_reply, build_manual_tasks_reply,
    build_memory_write_reply, build_weekly_report_query_reply, ReportText,
    build_recent_tasks_reply, build_report_reply, build_task_status_reply,
    build_user_memories_reply, chosen_period, extract_auto_memory_candidate, fallback_reply,
    fallback_with_time, help_text,
};
use amclaw::chat_adapter::session_flow::{
    admit_items, list_limits, list_merges, merge_runtime_session_state_into_persistent, persist_session_snapshot, refresh_session_state, restore_persisted_sessions, settle_answer, settle_flush, update_session_state_intent, AgentAnswer, ListMerge, MergedLists, RunOutcome, RuntimeSessionStateSnapshot, SessionList,
};
use amclaw::command_router::RouteIntent;
use amclaw::json::{get, get_i64, get_str, JsonValue};
use amclaw::session_router::{FlushReason, SessionRouter};
use amclaw::task_store::url_guard::IpAddress;
use amclaw::task_store::{
    LinkTaskRecord, MemoryType, PromoteReason, SkipReason, Stamp, TaskStore,
    UserSessionStateRecord, WriteDecision,
};

fn unresolved(_: &str) -> Vec<IpAddress> {
    vec![]
}

fn at(secs: i64) -> Stamp {
    Stamp { text: format!("second {secs}"), secs: Some(secs) }
}

fn text(s: &str) -> JsonValue {
    JsonValue::Text(s.to_string())
}

fn object(fields: Vec<(&str, JsonValue)>) -> JsonValue {
    JsonValue::Object(fields.into_iter().map(|(k, v)| (k.to_string(), v)).collect())
}

fn message(id: &str, user: &str, words: &str, token: &str) -> WireMessage {
    WireMessage {
        message: None,
        from_user_id: user.to_string(),
        client_id: String::new(),
        create_time_ms: None,
        message_type: None,
        context_token: token.to_string(),
        item_list: vec![],
        text: words.to_string(),
        message_id: Some(FlexibleId::Str(id.to_string())),
        msg_id: None,
    }
}

fn tick(n: i64) -> Tick {
    Tick {
        now: at(n),
        now_ms: n * 1000,
        mono: n as u128 * 1_000_000_000,
        memory_id: format!("memory-{n:04}"),
    }
}

fn submit(store: &mut TaskStore, url: &str, n: i64) -> LinkTaskRecord {
    store
        .record_link_submission(url, unresolved, &at(n), &format!("article-{n}"), &format!("task-{n}"))
        .expect("写入链接失败")
}

// ---------------------------------------------------------------------------
// Splitting and delivering
// ---------------------------------------------------------------------------

#[test]
fn a_short_reply_is_sent_as_it_is() {
    assert_eq!(split_reply_into_chunks("你好", 2), vec!["你好".to_string()]);
    assert_eq!(split_reply_into_chunks("", 0), vec!["".to_string()]);
}

#[test]
fn a_long_reply_is_numbered_and_loses_nothing() {
    let reply: String = ('a'..='z').collect();
    let chunks = split_reply_into_chunks(&reply, 15);
    assert_eq!(
        chunks,
        vec![
            "（1/3）abcdefghij".to_string(),
            "（2/3）klmnopqrst".to_string(),
            "（3/3）uvwxyz".to_string()
        ]
    );
    let long = "长文".repeat(4000);
    let chunks = split_reply_into_chunks(&long, 1500);
    let mut joined = String::new();
    for chunk in &chunks {
        assert!(chunk.chars().count() <= 1500);
        joined.push_str(chunk.split_once('）').expect("应有序号").1);
    }
    assert_eq!(joined, long);
}

#[test]
fn a_budget_too_small_for_numbers_leaves_them_out() {
    assert_eq!(split_reply_into_chunks("abcdef", 4), vec!["abcd".to_string(), "ef".to_string()]);
    assert_eq!(split_content_only("abc", 0), vec!["abc".to_string()]);
    assert!(split_content_only("", 3).is_empty());
}

#[test]
fn no_part_of_a_reply_exceeds_the_limit() {
    let reply = "a".repeat(20);
    assert_eq!(
        split_reply_into_chunks(&reply, 7),
        vec!["a".repeat(7), "a".repeat(7), "a".repeat(6)]
    );
    for length in [0usize, 1, 9, 20, 101, 500] {
        let reply = "字".repeat(length);
        for limit in 1usize..60 {
            let chunks = split_reply_into_chunks(&reply, limit);
            let mut joined = String::new();
            for chunk in &chunks {
                assert!(chunk.chars().count() <= limit, "{length} {limit}");
                joined.push_str(chunk.split_once('）').map_or(chunk.as_str(), |parts| parts.1));
            }
            assert_eq!(joined, reply, "{length} {limit}");
        }
    }
}

#[test]
fn what_was_not_sent_is_kept_with_its_place() {
    let chunks = vec!["a".to_string(), "b".to_string(), "c".to_string()];
    assert_eq!(
        remaining_chunks_after_failure(&chunks, 1),
        vec![(2, 3, "b".to_string()), (3, 3, "c".to_string())]
    );
    assert!(remaining_chunks_after_failure(&chunks, 3).is_empty());
}

#[test]
fn a_delivery_stops_at_the_first_failure_and_stores_the_rest() {
    let mut store = TaskStore::new();
    let long = "字".repeat(4000);
    let mut delivery = ReplyDelivery::start(&long);
    let total = delivery.chunks.len();
    assert!(total >= 3);
    assert!(delivery.next_chunk().is_some());
    delivery.report(true);
    assert!(delivery.next_chunk().is_some());
    delivery.report(false);
    assert_eq!(delivery.next_chunk(), None);
    assert!(!delivery.all_sent());
    let outcome = finish_delivery(&mut store, &delivery, "u", "token", 1, "now");
    assert_eq!(outcome, DeliveryOutcome::Stored);
    assert!(push_finished(Some(outcome)));
    let waiting = store.list_pending_chunks(20).expect("查询失败");
    assert_eq!(waiting.len(), total - 1);
    assert_eq!(waiting[0].chunk_index, 2);
    assert_eq!(waiting[0].chunk_text, delivery.chunks[1]);
    settle_resent(&mut store, waiting[0].id, false);
    assert_eq!(store.list_pending_chunks(20).expect("查询失败").len(), total - 1);
    settle_resent(&mut store, waiting[0].id, true);
    let left = store.list_pending_chunks(20).expect("查询失败");
    assert_eq!(left.len(), total - 2);
    assert_eq!(left[0].chunk_index, 3);
}

#[test]
fn a_delivery_that_succeeds_stores_nothing() {
    let mut store = TaskStore::new();
    let mut delivery = ReplyDelivery::start("好");
    delivery.report(true);
    assert!(delivery.all_sent());
    let outcome = finish_delivery(&mut store, &delivery, "u", "token", 1, "now");
    assert_eq!(outcome, DeliveryOutcome::Sent);
    assert!(store.pending_chunks.is_empty());
    assert!(push_finished(Some(DeliveryOutcome::Sent)));
    assert!(!push_finished(Some(DeliveryOutcome::Lost)));
    assert!(!push_finished(None));
}

#[test]
fn long_texts_are_acknowledged_first() {
    assert_eq!(plan_reply("   "), ReplyPlan::Skip);
    assert_eq!(plan_reply("短"), ReplyPlan::Answer);
    let long = "字".repeat(200);
    assert_eq!(should_send_processing_ack(&long), plan_reply(&long) == ReplyPlan::NoteThenAnswer);
    assert!(should_send_processing_ack(&"字".repeat(2000)));
    assert_eq!(processing_note(), "收到，处理中，稍后给你完整回复。");
}

#[test]
fn the_poll_waits_no_longer_than_a_session() {
    let longest = next_poll_timeout(None);
    assert_eq!(next_poll_timeout(Some(u128::MAX)), longest);
    let shortest = next_poll_timeout(Some(0));
    assert!(shortest < longest);
    let between = shortest + 1;
    assert_eq!(next_poll_timeout(Some(between)), between);
    assert_eq!(ReportPushKind::Daily.as_str(), "daily");
    assert_eq!(ReportPushKind::Weekly.as_str(), "weekly");
    assert_eq!(ReportPushKind::Daily.period_field(), "day");
    assert_eq!(ReportPushKind::Weekly.period_field(), "week");
}

// ---------------------------------------------------------------------------
// The service
// ---------------------------------------------------------------------------

#[test]
fn addresses_and_headers_are_built() {
    assert_eq!(build_url("https://a.test//", "x"), "https://a.test/x");
    assert_eq!(build_url("https://a.test", "/x"), "https://a.test/x");
    assert!(default_base_url().starts_with("https://"));
    assert_eq!(bearer_header(&Some("t".to_string())), Some("Bearer t".to_string()));
    assert_eq!(bearer_header(&Some("  ".to_string())), None);
    assert_eq!(bearer_header(&None), None);
    // 16909060 in Base64.
    assert_eq!(wechat_uin(1, 2, 3, 4), "MTY5MDkwNjA=");
    assert_eq!(wechat_uin(0, 0, 0, 0), "MA==");
}

#[test]
fn answers_that_report_an_error_are_refused() {
    assert_eq!(assert_ok(&object(vec![]), "sendmessage"), Ok(()));
    let bad = object(vec![
        ("ret", JsonValue::Int(-3)),
        ("errmsg", text("bad token")),
    ]);
    assert_eq!(
        assert_ok(&bad, "sendmessage"),
        Err("sendmessage 失败: ret=-3 errcode=0 errmsg=bad token".to_string())
    );
}

#[test]
fn a_login_goes_by_its_status() {
    let status = |s: &str| object(vec![("ret", JsonValue::Int(0)), ("status", text(s))]);
    assert_eq!(login_step(&status("wait")), LoginStep::Waiting);
    assert_eq!(login_step(&status("scanned")), LoginStep::Waiting);
    assert_eq!(login_step(&object(vec![("ret", JsonValue::Int(1))])), LoginStep::Waiting);
    assert_eq!(login_step(&status("expired")), LoginStep::Expired);
    assert_eq!(login_step(&status("odd")), LoginStep::Unknown);
    let confirmed = object(vec![
        ("status", text("confirmed")),
        ("bot_token", text("tok")),
        ("ilink_bot_id", text("bot")),
    ]);
    assert_eq!(
        login_step(&confirmed),
        LoginStep::Confirmed {
            bot_token: Some("tok".to_string()),
            bot_id: "bot".to_string(),
            user_id: String::new(),
            base_url: None,
        }
    );
}

#[test]
fn a_qrcode_needs_an_id() {
    let code = object(vec![("qrcode_id", text("q1")), ("url", text("https://q"))]);
    let found = read_qrcode(&code).expect("应有二维码");
    assert_eq!((found.id.as_str(), found.url.as_deref()), ("q1", Some("https://q")));
    assert_eq!(read_qrcode(&object(vec![])), Err("二维码ID为空: {}".to_string()));
}

#[test]
fn the_cursor_moves_only_to_another_place() {
    assert_eq!(next_cursor(&object(vec![("cursor", text("c2"))]), "c1"), "c2");
    assert_eq!(next_cursor(&object(vec![("cursor", text("  "))]), "c1"), "c1");
    let both = object(vec![("cursor", text("c2")), ("get_updates_buf", text("b"))]);
    assert_eq!(next_cursor(&both, "c1"), "b");
    assert_eq!(kept_cursor("c1", ""), "c1");
    assert_eq!(kept_cursor("c1", "c2"), "c2");
}

#[test]
fn requests_hold_what_the_service_asks_for() {
    let poll = poll_body("c", "1.0.0");
    assert_eq!(get_str(&poll, "get_updates_buf"), Some("c".to_string()));
    assert_eq!(
        get_str(get(&poll, "base_info").expect("应有 base_info"), "channel_version"),
        Some("1.0.0".to_string())
    );
    let send = send_body("u", "words", "tok", "amclaw:1", "1.0.0");
    let msg = get(&send, "msg").expect("应有 msg");
    assert_eq!(get_str(msg, "to_user_id"), Some("u".to_string()));
    assert_eq!(get_str(msg, "context_token"), Some("tok".to_string()));
    assert_eq!(get_str(msg, "client_id"), Some("amclaw:1".to_string()));
    assert_eq!(get(msg, "message_type"), Some(&JsonValue::Int(2)));
    match get(msg, "item_list") {
        Some(JsonValue::List(items)) => assert_eq!(
            get_str(get(&items[0], "text_item").expect("应有 text_item"), "text"),
            Some("words".to_string())
        ),
        other => panic!("应有 item_list: {other:?}"),
    }
}

#[test]
fn small_helpers_answer_as_they_should() {
    assert!(is_agent_command("  读文件 a.txt"));
    assert!(is_agent_command("请帮我运行：ls"));
    assert!(!is_agent_command("读一下"));
    assert!(is_llm_auth_error("... HTTP 401 ..."));
    assert!(!is_llm_auth_error("HTTP 500"));
    assert_eq!(truncate_for_log("abcd", 3), "abc...");
    assert_eq!(truncate_for_log("abc", 3), "abc");
    assert_eq!(summarize_text_for_log("a\nb", 10), "a\\nb");
    assert_eq!(
        first_non_empty(&vec![None, Some(" ".to_string()), Some("x".to_string())]),
        Some("x".to_string())
    );
    assert_eq!(
        sanitize_report_markdown_for_wechat("a\n  - output_path: /x\n- snapshot_path: y\nb"),
        "a\nb"
    );
}

// ---------------------------------------------------------------------------
// Messages
// ---------------------------------------------------------------------------

#[test]
fn the_text_of_a_message_is_gathered() {
    let mut msg = message("m", "u", " a ", "t");
    msg.item_list = vec![
        MessageItem { text_item: Some(TextItem { text: " b".to_string() }) },
        MessageItem { text_item: None },
        MessageItem { text_item: Some(TextItem { text: "  ".to_string() }) },
        MessageItem { text_item: Some(TextItem { text: "c ".to_string() }) },
    ];
    assert_eq!(collect_text(&msg), "abc");
}

#[test]
fn a_message_is_known_by_the_first_id_it_has() {
    let mut msg = message("m1", "u", "x", "t");
    assert_eq!(extract_message_id(&msg, 5), "m1");
    msg.message_id = Some(FlexibleId::Int(42));
    assert_eq!(extract_message_id(&msg, 5), "42");
    msg.message_id = Some(FlexibleId::Obj(object(vec![("id", JsonValue::Int(7))]), "{}".to_string()));
    assert_eq!(extract_message_id(&msg, 5), "7");
    msg.message_id = Some(FlexibleId::Obj(object(vec![]), "{}".to_string()));
    assert_eq!(extract_message_id(&msg, 5), "{}");
    msg.message_id = None;
    msg.msg_id = Some(FlexibleId::Float("1.5".to_string()));
    assert_eq!(extract_message_id(&msg, 5), "1.5");
    msg.msg_id = None;
    msg.client_id = "client".to_string();
    assert_eq!(extract_message_id(&msg, 5), "client");
    msg.client_id = " ".to_string();
    assert_eq!(extract_message_id(&msg, 5), "u:5");
    msg.create_time_ms = Some(9);
    msg.from_user_id = " ".to_string();
    assert_eq!(extract_message_id(&msg, 5), "unknown:9");
}

#[test]
fn a_wrapped_message_is_read() {
    let inner = message("m1", "u", "words", "tok");
    let mut outer = message("m0", "", "", "");
    outer.message_id = None;
    outer.message = Some(Box::new(inner));
    let read = read_message(&outer, 5).expect("应读取消息");
    assert_eq!(read.user_id, "u");
    assert_eq!(read.text, "words");
    assert_eq!(read.message_id, "m1");
    assert!(read_message(&message("m", " ", "x", ""), 5).is_none());
}

#[test]
fn ids_that_were_seen_are_remembered() {
    let mut seen = SeenIds::new();
    assert!(seen.insert("a"));
    assert!(!seen.insert("a"));
    assert!(seen.contains("a"));
    assert!(!seen.contains("b"));
}

#[test]
fn a_message_that_comes_twice_is_handled_once() {
    let mut bot = ChatBot::new(5_000_000_000);
    let mut store = TaskStore::new();
    let msg = message("m1", "u", "我喜欢短摘要", "tok");
    let action = bot.handle_message(&mut store, &msg, &tick(1));
    assert_eq!(action, ChatAction::Nothing);
    assert_eq!(store.memories.len(), 1);
    assert_eq!(store.memories[0].content, "偏好: 短摘要");
    assert_eq!(bot.reply_token(&store, "u"), Some("tok".to_string()));
    assert!(bot.has_token("u"));
    let before = bot.router.snapshot("u").expect("应有会话");
    let again = bot.handle_message(&mut store, &msg, &tick(2));
    assert_eq!(again, ChatAction::Nothing);
    assert_eq!(store.memories.len(), 1);
    assert_eq!(bot.router.snapshot("u"), Some(before));
    assert_eq!(store.messages.len(), 1);
}

#[test]
fn commands_are_answered_from_the_store() {
    let mut bot = ChatBot::new(5_000_000_000);
    let mut store = TaskStore::new();
    let record = submit(&mut store, "https://example.com/a", 1);
    let mut ask = |n: i64, words: &str, store: &mut TaskStore| {
        bot.handle_message(store, &message(&format!("m{n}"), "u", words, "tok"), &tick(n))
    };
    match ask(2, "状态 task-1", &mut store) {
        ChatAction::Reply(reply) => assert!(reply.contains("status: pending")),
        other => panic!("应回复: {other:?}"),
    }
    assert_eq!(
        ask(3, "状态 nope", &mut store),
        ChatAction::Reply("未找到对应任务: nope".to_string())
    );
    match ask(4, "最近任务", &mut store) {
        ChatAction::Reply(reply) => assert!(reply.contains(&record.task_id)),
        other => panic!("应回复: {other:?}"),
    }
    assert_eq!(
        ask(5, "待补录任务", &mut store),
        ChatAction::Reply("当前没有待补录任务".to_string())
    );
    assert_eq!(
        ask(6, "记住 我在北京工作", &mut store),
        ChatAction::Reply("已记住\n- 我在北京工作".to_string())
    );
    match ask(7, "我的记忆", &mut store) {
        ChatAction::Reply(reply) => assert!(reply.contains("我在北京工作")),
        other => panic!("应回复: {other:?}"),
    }
    assert_eq!(
        ask(8, "有用 memory-0006", &mut store),
        ChatAction::Reply("已标记记忆有用: memory-0006".to_string())
    );
    assert_eq!(
        ask(9, "忘记 memory-0006", &mut store),
        ChatAction::Reply("已屏蔽记忆: memory-0006".to_string())
    );
    assert_eq!(
        ask(10, "日报 2026-04-10", &mut store),
        ChatAction::DailyReport { day: Some("2026-04-10".to_string()) }
    );
    assert_eq!(
        ask(11, "https://example.com/b", &mut store),
        ChatAction::SubmitLinks { urls: vec!["https://example.com/b".to_string()] }
    );
    match ask(12, "补正文 task-1 :: 正文", &mut store) {
        ChatAction::ArchiveManual { task, content } => {
            assert_eq!(task.task_id, "task-1");
            assert_eq!(content, "正文");
        }
        other => panic!("应归档: {other:?}"),
    }
    store.tasks[0].status = "failed".to_string();
    match ask(13, "重试 task-1", &mut store) {
        ChatAction::ReplyAndEnqueue { reply, task_id } => {
            assert_eq!(reply, "任务已重置并加入执行队列: task-1");
            assert_eq!(task_id, "task-1");
        }
        other => panic!("应入队: {other:?}"),
    }
    match ask(14, "你好!!", &mut store) {
        ChatAction::Flush { user_id, merged_text, message_ids, reason } => {
            assert_eq!(user_id, "u");
            assert_eq!(merged_text, "你好");
            assert_eq!(message_ids, vec!["m14".to_string()]);
            assert_eq!(reason, FlushReason::Commit);
        }
        other => panic!("应提交会话: {other:?}"),
    }
}

// ---------------------------------------------------------------------------
// Replies
// ---------------------------------------------------------------------------

#[test]
fn links_are_recorded_one_by_one() {
    let mut store = TaskStore::new();
    let ids: Vec<(String, String)> =
        (0..3).map(|i| (format!("article-{i}"), format!("task-{i}"))).collect();
    let urls = vec![
        "https://example.com/a".to_string(),
        "http://127.0.0.1/x".to_string(),
        "https://example.com/a/../a".to_string(),
    ];
    let reply = handle_link_submission(&mut store, &urls, unresolved, &ids, &at(1));
    let lines: Vec<&str> = reply.lines().collect();
    assert_eq!(lines[0], "链接处理结果:");
    assert_eq!(lines[1], "- 新建 https://example.com/a task_id=task-0");
    assert_eq!(lines[2], "- 已存在 https://example.com/a task_id=task-0");
    assert!(lines[3].starts_with("- 失败 http://127.0.0.1/x => "));
    assert_eq!(store.tasks.len(), 1);
    let one = vec!["https://example.com/b".to_string()];
    let fresh = vec![("article-8".to_string(), "task-8".to_string())];
    assert_eq!(
        handle_link_submission(&mut store, &one, unresolved, &fresh, &at(2)),
        "已收录链接\nurl: https://example.com/b\ntask_id: task-8"
    );
    assert_eq!(build_link_submission_reply(&[], &[]), "没有可入库的链接");
}

#[test]
fn a_text_given_by_hand_archives_a_task() {
    let mut store = TaskStore::new();
    submit(&mut store, "https://example.com/a", 1);
    assert_eq!(
        record_manual_archive(&mut store, "task-1", "/tmp/a.md", Some("标题"), &at(2)),
        "已写入人工补正文\ntask_id: task-1\noutput_path: /tmp/a.md"
    );
    assert_eq!(
        record_manual_archive(&mut store, "task-1", "/tmp/a.md", None, &at(3)),
        "任务当前状态为 archived，不允许人工归档: task-1"
    );
    assert_eq!(
        record_manual_archive(&mut store, "nope", "/tmp/a.md", None, &at(3)),
        "未找到对应任务: nope"
    );
}

#[test]
fn a_status_tells_what_is_known() {
    let mut store = TaskStore::new();
    submit(&mut store, "https://example.com/a", 1);
    store.mark_task_awaiting_manual_input("task-1", "需要验证码", "wechat_captcha", Some("/s.png"), None, &at(2));
    let status = store.get_task_status("task-1").expect("应存在任务");
    assert_eq!(
        build_task_status_reply(&status),
        "任务状态\ntask_id: task-1\nurl: https://example.com/a\nsource: unknown\npage_kind: wechat_captcha\nstatus: awaiting_manual_input\nretry_count: 0\ncreated_at: second 1\nupdated_at: second 2\nsnapshot_path: /s.png\nlast_error: 需要验证码\naction_required: 请使用 补正文 task-1 :: <content>"
    );
    let tasks = store.list_manual_tasks(5).expect("查询失败");
    assert_eq!(
        build_manual_tasks_reply(&tasks),
        "待补录任务:\n- awaiting_manual_input https://example.com/a source=unknown page_kind=wechat_captcha task_id=task-1"
    );
    assert_eq!(build_recent_tasks_reply(&[]), "最近没有任务");
    assert_eq!(build_user_memories_reply(&[]), "当前还没有保存的记忆");
}

#[test]
fn a_memory_that_was_not_written_is_explained() {
    let skipped = WriteDecision::Skipped {
        content_preview: "x".to_string(),
        reason: SkipReason::Empty,
    };
    let reply = build_memory_write_reply(&skipped, "x");
    assert_eq!(reply, format!("未能记住: {}", SkipReason::Empty.as_str()));
    let promoted = WriteDecision::Promoted {
        id: "0123456789".to_string(),
        reason: PromoteReason::TypePromotesLower {
            from: MemoryType::Explicit,
            to: MemoryType::Auto,
        },
    };
    assert_eq!(
        build_memory_write_reply(&promoted, "x"),
        "已提升已有记忆为显式记忆 (id: 01234567)"
    );
}

#[test]
fn preferences_and_topics_are_picked_up() {
    let pick = |s: &str| extract_auto_memory_candidate(s);
    assert_eq!(pick(" 我更喜欢 短摘要 "), Some("偏好: 短摘要".to_string()));
    assert_eq!(pick("I like tea"), Some("偏好: tea".to_string()));
    assert_eq!(pick("我在研究 Rust"), Some("主题: Rust".to_string()));
    assert_eq!(pick("我喜欢"), None);
    assert_eq!(pick("你好"), None);
    assert_eq!(pick(""), None);
}

#[test]
fn a_report_is_cut_to_the_size_of_a_message() {
    assert_eq!(build_report_reply(&None, "摘要", 3), "摘要");
    assert_eq!(build_report_reply(&Some("a\n- output_path: x\nb".to_string()), "摘要", 3), "a\nb");
    let long = "字".repeat(4000);
    let reply = build_report_reply(&Some(long), "摘要", 3);
    assert_eq!(reply, format!("{}\n\n...(已截断，共 3 条)", "字".repeat(3800)));
    assert_eq!(chosen_period(Some(" 2026-04-10 "), "now"), "2026-04-10");
    assert_eq!(chosen_period(Some("  "), "now"), "now");
    assert_eq!(chosen_period(None, "now"), "now");
}

#[test]
fn without_the_agent_there_is_still_an_answer() {
    assert_eq!(fallback_with_time("读文件 a", "boom", "t"), "执行失败: boom");
    assert_eq!(
        fallback_with_time("x", "HTTP 401", "t"),
        "LLM 鉴权失败（401），请检查 MOONSHOT_* / DEEPSEEK_* / OPENAI_* 配置"
    );
    assert_eq!(
        fallback_with_time("你好", "boom", "t"),
        "你好！我是 iLink Bot Demo（Rust版），有什么可以帮你的？"
    );
    assert_eq!(fallback_with_time("help", "boom", "t"), help_text());
    assert_eq!(fallback_with_time("别的", "boom", "t"), "Echo: 别的");
    // 2024-01-15 00:00:00 in Shanghai.
    assert_eq!(fallback_reply("时间", "boom", 1_705_248_000), "现在是 2024-01-15 00:00:00");
}

// ---------------------------------------------------------------------------
// Sessions
// ---------------------------------------------------------------------------

#[test]
fn a_session_outlives_a_restart() {
    let mut store = TaskStore::new();
    let mut router = SessionRouter::new(5);
    router.on_intent_with_message(
        "u",
        RouteIntent::ChatPending { text: "你好".to_string() },
        Some("m1".to_string()),
        1,
    );
    persist_session_snapshot(&mut store, &router, "u", "now");
    let mut fresh = SessionRouter::new(5);
    restore_persisted_sessions(&store, &mut fresh, 7);
    assert_eq!(fresh.snapshot("u"), router.snapshot("u"));
    settle_flush(&mut store, "u", "你好", "later");
    assert!(store.list_session_states().is_empty());
    let state = store.load_user_session_state("u").expect("应有状态");
    assert_eq!(state.last_user_intent, Some("你好".to_string()));
    assert_eq!(state.goal, Some("响应当前用户请求：你好".to_string()));
    assert_eq!(state.current_subtask, Some("你好".to_string()));
}

#[test]
fn an_intent_keeps_the_subtask() {
    let mut store = TaskStore::new();
    let record = UserSessionStateRecord {
        user_id: "u".to_string(),
        current_subtask: Some("子任务".to_string()),
        next_step: Some("下一步".to_string()),
        updated_at: "t0".to_string(),
        ..Default::default()
    };
    store.upsert_user_session_state(&record).expect("写入失败");
    assert!(update_session_state_intent(&mut store, "u", &"长".repeat(121), "t1"));
    let state = store.load_user_session_state("u").expect("应有状态");
    assert_eq!(state.last_user_intent, Some(format!("{}...", "长".repeat(120))));
    assert_eq!(state.current_subtask, Some("子任务".to_string()));
    assert_eq!(state.next_step, Some("下一步".to_string()));
    assert_eq!(state.updated_at, "t1");
}

#[test]
fn a_run_of_the_agent_refreshes_the_state() {
    let mut store = TaskStore::new();
    let none = MergedLists {
        constraints: vec![],
        confirmed_facts: vec![],
        done_items: vec![],
        open_questions: vec![],
    };
    let run = RunOutcome {
        snapshot: RuntimeSessionStateSnapshot {
            goal: Some("新目标".to_string()),
            current_subtask: None,
            next_step: Some("走".to_string()),
            ..Default::default()
        },
        lists: MergedLists { constraints: vec!["约束".to_string()], ..none },
        low_signal: false,
    };
    let run = Some(run);
    assert!(!refresh_session_state(&mut store, "u", &run, "t1"));
    let record = UserSessionStateRecord {
        user_id: "u".to_string(),
        updated_at: "t0".to_string(),
        ..Default::default()
    };
    store.upsert_user_session_state(&record).expect("写入失败");
    assert!(refresh_session_state(&mut store, "u", &run, "t2"));
    let state = store.load_user_session_state("u").expect("应有状态");
    assert_eq!(state.next_step, Some("走".to_string()));
    assert_eq!(state.constraints(), vec!["约束".to_string()]);
    assert_eq!(state.updated_at, "t2");
    assert!(!refresh_session_state(&mut store, "u", &None, "t3"));
    assert_eq!(store.load_user_session_state("u").expect("应有状态").updated_at, "t3");
    let mut same = state.clone();
    let again = run.expect("应有运行结果");
    let lists = MergedLists {
        constraints: vec!["约束".to_string()],
        confirmed_facts: vec![],
        done_items: vec![],
        open_questions: vec![],
    };
    assert!(!merge_runtime_session_state_into_persistent(&mut same, &again.snapshot, &lists, false));
}

fn items(list: &[&str]) -> Vec<String> {
    list.iter().map(|item| item.to_string()).collect()
}

#[test]
fn the_lists_of_a_session_keep_to_their_limits() {
    assert_eq!(list_limits(SessionList::Constraints), (4, 1));
    assert_eq!(list_limits(SessionList::ConfirmedFacts), (5, 1));
    assert_eq!(list_limits(SessionList::DoneItems), (3, 0));
    assert_eq!(list_limits(SessionList::OpenQuestions), (3, 1));
    assert_eq!(
        admit_items(&items(&["a", "b", "a", "c", "d", "e"]), SessionList::Constraints),
        items(&["a", "b", "c", "d"])
    );
    assert_eq!(admit_items(&items(&["a", "b"]), SessionList::DoneItems), items(&["a", "b"]));
}

#[test]
fn merges_are_asked_for_with_the_stored_lists() {
    let mut store = TaskStore::new();
    let run = RuntimeSessionStateSnapshot {
        constraints: items(&["新约束"]),
        open_questions: items(&["问题"]),
        ..Default::default()
    };
    assert_eq!(list_merges(&store, "u", &run), None);
    let mut record = UserSessionStateRecord {
        user_id: "u".to_string(),
        updated_at: "t0".to_string(),
        ..Default::default()
    };
    record.set_constraints(items(&["旧约束"]));
    store.upsert_user_session_state(&record).expect("写入失败");
    let merges = list_merges(&store, "u", &run).expect("应有状态");
    assert_eq!(
        merges.constraints,
        ListMerge {
            stored: items(&["旧约束"]),
            run: items(&["新约束"]),
            max_items: 4,
            run_share: 1
        }
    );
    assert_eq!(
        merges.done_items,
        ListMerge { stored: vec![], run: vec![], max_items: 3, run_share: 0 }
    );
    assert_eq!(merges.open_questions.run, items(&["问题"]));
    let lists = MergedLists {
        constraints: items(&["1", "2", "3", "4", "5"]),
        confirmed_facts: items(&["a", "a"]),
        done_items: vec![],
        open_questions: items(&["问题"]),
    };
    assert!(merge_runtime_session_state_into_persistent(&mut record, &run, &lists, false));
    assert_eq!(record.constraints(), items(&["1", "2", "3", "4"]));
    assert_eq!(record.confirmed_facts(), items(&["a"]));
    assert_eq!(record.open_questions(), items(&["问题"]));
    assert!(!merge_runtime_session_state_into_persistent(&mut record, &run, &lists, false));
}

#[test]
fn tasks_that_can_be_claimed_are_enqueued() {
    let mut store = TaskStore::new();
    submit(&mut store, "https://example.com/a", 1);
    submit(&mut store, "https://example.com/b", 2);
    store.claim_task("task-1", "w", &at(3), &at(300));
    assert_eq!(tasks_to_enqueue(&store, &at(4)), vec!["task-2".to_string()]);
    assert_eq!(
        tasks_to_enqueue(&store, &at(400)),
        vec!["task-1".to_string(), "task-2".to_string()]
    );
}

#[test]
fn an_answer_is_taken_or_replaced() {
    let mut store = TaskStore::new();
    settle_flush(&mut store, "u", "问题", "t0");
    let before = store.session_states.clone();
    let failed: Result<AgentAnswer, String> = Err("boom".to_string());
    let (reply, updated) = settle_answer(&mut store, "u", "问题", failed, "t1", 1_705_248_000);
    assert_eq!(reply, "Echo: 问题");
    assert!(!updated);
    assert_eq!(store.session_states[0].updated_at, "t1");
    assert_eq!(store.session_states[0].goal, before[0].goal);
    let auth: Result<AgentAnswer, String> = Err("status 401 unauthorized".to_string());
    let (reply, _) = settle_answer(&mut store, "u", "问题", auth, "t2", 1_705_248_000);
    assert!(is_llm_auth_error("status 401 unauthorized") == reply.starts_with("LLM 鉴权失败"));
    let learned = RunOutcome {
        snapshot: RuntimeSessionStateSnapshot {
            goal: None,
            current_subtask: None,
            next_step: Some("下一步".to_string()),
            ..Default::default()
        },
        lists: MergedLists {
            constraints: vec![],
            confirmed_facts: vec![],
            done_items: vec![],
            open_questions: vec![],
        },
        low_signal: false,
    };
    let answer = Ok(AgentAnswer { output: "答案".to_string(), learned: Some(learned) });
    let (reply, updated) = settle_answer(&mut store, "u", "问题", answer, "t3", 1_705_248_000);
    assert_eq!(reply, "答案");
    assert!(updated);
    assert_eq!(store.session_states[0].next_step, Some("下一步".to_string()));
    let nobody: Result<AgentAnswer, String> = Err("boom".to_string());
    assert_eq!(settle_answer(&mut store, "v", "help", nobody, "t4", 0), (help_text().to_string(), false));
}

#[test]
fn failures_are_told_to_the_user() {
    let mut store = TaskStore::new();
    let failed: Result<(String, Option<String>), String> = Err("磁盘满".to_string());
    assert_eq!(
        settle_manual_content(&mut store, "task-1", &failed, &at(1)),
        "人工补录归档失败: 磁盘满"
    );
    let archived = Ok(("/tmp/a.md".to_string(), None));
    assert_eq!(
        settle_manual_content(&mut store, "task-1", &archived, &at(1)),
        record_manual_archive(&mut store, "task-1", "/tmp/a.md", None, &at(1))
    );
    let none: Result<ReportText, String> = Err("坏日期".to_string());
    assert_eq!(build_daily_report_query_reply(&none), "生成日报失败: 坏日期");
    assert_eq!(build_weekly_report_query_reply(&none), "生成周报失败: 坏日期");
    let report = Ok(ReportText { content: None, summary: "摘要".to_string(), item_count: 2 });
    assert_eq!(build_daily_report_query_reply(&report), "摘要");
    assert_eq!(build_weekly_report_query_reply(&report), "摘要");
    assert_eq!(check_http_status(204, "GET", "/x", "{}"), Ok(()));
    assert_eq!(
        check_http_status(500, "POST", "/x", "{}"),
        Err("[HTTP 500] POST /x 失败: {}".to_string())
    );
    assert_eq!(not_json_message(200, "GET", "/x", "<html>"), "[HTTP 200] GET /x 返回非JSON: <html>");
}

#[test]
fn an_answer_is_read_from_its_text() {
    let text = "{\"ret\": 0, \"a\": [true, null, 1.5, -3, \"x\"], \"big\": 18446744073709551615}";
    let value = read_answer(200, "GET", "/x", text).expect("应为 JSON");
    assert_eq!(get_i64(&value, "ret"), Some(0));
    assert_eq!(
        get(&value, "a"),
        Some(&JsonValue::List(vec![
            JsonValue::Bool(true),
            JsonValue::Null,
            JsonValue::OtherNumber("1.5".to_string()),
            JsonValue::Int(-3),
            JsonValue::Text("x".to_string()),
        ]))
    );
    assert_eq!(
        get(&value, "big"),
        Some(&JsonValue::OtherNumber("18446744073709551615".to_string()))
    );
    assert_eq!(
        read_answer(500, "POST", "/x", "{ \"a\" : 1 }"),
        Err("[HTTP 500] POST /x 失败: {\"a\":1}".to_string())
    );
    assert_eq!(
        read_answer(500, "GET", "/x", "<html>"),
        Err("[HTTP 500] GET /x 返回非JSON: <html>".to_string())
    );
    assert_eq!(judge_answer(299, "GET", "/x", "", Some(JsonValue::Null)), Ok(JsonValue::Null));
}
