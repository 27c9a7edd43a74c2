use amclaw::session_summary::{
    build_session_text_section_lines, summarize_for_markdown, summarize_session_text_semantic,
    SessionSummaryStrategy,
};

#[test]
fn semantic_summary_keeps_keywords_and_last_segment() {
    let text = "先做一些普通描述。\n下一步: 修复关键问题并输出结论。\n最后收尾。";
    let summary = summarize_session_text_semantic(text, 80);
    assert!(summary.contains("下一步"));
    assert!(summary.contains("最后收尾"));
}

#[test]
fn truncate_summary_adds_notice() {
    let text = "a".repeat(300);
    let summary = summarize_for_markdown(&text, 140);
    assert!(summary.contains("...[truncated"));
}

#[test]
fn build_session_text_uses_full_for_short_input() {
    let lines = build_session_text_section_lines("hello", SessionSummaryStrategy::Semantic);
    assert!(lines.iter().any(|l| l.contains("mode: full")));
}

#[test]
fn build_session_text_uses_boundary_for_long_input() {
    let text = "x".repeat(500);
    let lines = build_session_text_section_lines(&text, SessionSummaryStrategy::Semantic);
    assert!(lines
        .iter()
        .any(|l| l.contains("mode: boundary_compaction")));
    assert!(lines
        .iter()
        .any(|l| l.contains("summary_strategy: semantic")));
}
