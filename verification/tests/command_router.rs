use amclaw::command_router::{route_text, RouteIntent};

#[test]
fn url_becomes_link_submission() {
    assert_eq!(
        route_text("https://example.com"),
        RouteIntent::LinkSubmission {
            urls: vec!["https://example.com".to_string()]
        }
    );
}

#[test]
fn status_command_becomes_task_query() {
    assert_eq!(
        route_text("状态 task-123"),
        RouteIntent::TaskStatusQuery {
            task_id: "task-123".to_string()
        }
    );
}

#[test]
fn english_status_command_is_supported() {
    assert_eq!(
        route_text("status task-456"),
        RouteIntent::TaskStatusQuery {
            task_id: "task-456".to_string()
        }
    );
}

#[test]
fn retry_command_becomes_task_retry() {
    assert_eq!(
        route_text("重试 task-123"),
        RouteIntent::TaskRetryRequest {
            task_id: "task-123".to_string()
        }
    );
}

#[test]
fn recent_tasks_command_is_supported() {
    assert_eq!(route_text("最近任务"), RouteIntent::RecentTasksQuery);
}

#[test]
fn manual_content_submission_is_supported() {
    assert_eq!(
        route_text("补正文 task-123 :: 这是人工补录的正文"),
        RouteIntent::ManualContentSubmission {
            task_id: "task-123".to_string(),
            content: "这是人工补录的正文".to_string()
        }
    );
}

#[test]
fn daily_report_command_is_supported() {
    assert_eq!(
        route_text("日报"),
        RouteIntent::DailyReportQuery { day: None }
    );
    assert_eq!(
        route_text("今日整理"),
        RouteIntent::DailyReportQuery { day: None }
    );
    assert_eq!(
        route_text("日报 2026-04-10"),
        RouteIntent::DailyReportQuery {
            day: Some("2026-04-10".to_string())
        }
    );
}

#[test]
fn user_memory_commands_are_supported() {
    assert_eq!(route_text("我的记忆"), RouteIntent::UserMemoriesQuery);
    assert_eq!(
        route_text("/context"),
        RouteIntent::ContextDebugQuery { text: None }
    );
    assert_eq!(
        route_text("/context 帮我总结一下"),
        RouteIntent::ContextDebugQuery {
            text: Some("帮我总结一下".to_string())
        }
    );
    assert_eq!(
        route_text("记住 我更喜欢短摘要"),
        RouteIntent::UserMemoryWrite {
            content: "我更喜欢短摘要".to_string()
        }
    );
    assert_eq!(
        route_text("有用 abc-123"),
        RouteIntent::UserMemoryUseful {
            memory_id: "abc-123".to_string()
        }
    );
}

#[test]
fn user_memory_suppress_commands_are_supported() {
    assert_eq!(
        route_text("忘记 abc-123"),
        RouteIntent::UserMemorySuppress {
            memory_id: "abc-123".to_string()
        }
    );
    assert_eq!(
        route_text("屏蔽记忆 abc-123"),
        RouteIntent::UserMemorySuppress {
            memory_id: "abc-123".to_string()
        }
    );
    assert_eq!(
        route_text("forget abc-123"),
        RouteIntent::UserMemorySuppress {
            memory_id: "abc-123".to_string()
        }
    );
}

#[test]
fn manual_tasks_command_is_supported() {
    assert_eq!(route_text("待补录任务"), RouteIntent::ManualTasksQuery);
}

#[test]
fn mixed_text_with_url_becomes_link_submission() {
    assert_eq!(
        route_text("看看这个 https://example.com/path?q=1"),
        RouteIntent::LinkSubmission {
            urls: vec!["https://example.com/path?q=1".to_string()]
        }
    );
}

#[test]
fn trailing_punctuation_is_removed_from_url() {
    assert_eq!(
        route_text("收藏 https://example.com/abc!!"),
        RouteIntent::LinkSubmission {
            urls: vec!["https://example.com/abc".to_string()]
        }
    );
}

#[test]
fn duplicate_urls_are_deduplicated() {
    assert_eq!(
        route_text("https://example.com https://example.com"),
        RouteIntent::LinkSubmission {
            urls: vec!["https://example.com".to_string()]
        }
    );
}

#[test]
fn bare_domain_becomes_link_submission() {
    assert_eq!(
        route_text("mp.weixin.qq.com"),
        RouteIntent::LinkSubmission {
            urls: vec!["https://mp.weixin.qq.com".to_string()]
        }
    );
}

#[test]
fn bare_domain_with_path_becomes_link_submission() {
    assert_eq!(
        route_text("看看这个 mp.weixin.qq.com/s/abc?scene=1"),
        RouteIntent::LinkSubmission {
            urls: vec!["https://mp.weixin.qq.com/s/abc?scene=1".to_string()]
        }
    );
}

#[test]
fn email_like_text_is_not_treated_as_link() {
    assert_eq!(
        route_text("test@example.com"),
        RouteIntent::ChatPending {
            text: "test@example.com".to_string()
        }
    );
}

#[test]
fn plain_text_becomes_pending() {
    assert_eq!(
        route_text("hello"),
        RouteIntent::ChatPending {
            text: "hello".to_string()
        }
    );
}

#[test]
fn dot_dot_suffix_becomes_continue() {
    assert_eq!(
        route_text("hello.."),
        RouteIntent::ChatContinue {
            text: "hello".to_string()
        }
    );
}

#[test]
fn bang_bang_suffix_becomes_commit() {
    assert_eq!(
        route_text("hello!!"),
        RouteIntent::ChatCommit {
            text: "hello".to_string()
        }
    );
}

#[test]
fn surrounding_whitespace_is_trimmed() {
    assert_eq!(
        route_text("   hello!!   "),
        RouteIntent::ChatCommit {
            text: "hello".to_string()
        }
    );
}

#[test]
fn empty_text_is_ignored() {
    assert_eq!(route_text(""), RouteIntent::Ignore);
}

#[test]
fn bare_continue_marker_is_ignored() {
    assert_eq!(route_text(".."), RouteIntent::Ignore);
}

#[test]
fn bare_commit_marker_is_ignored() {
    assert_eq!(route_text("!!"), RouteIntent::Ignore);
}
