use amclaw::context_pack::{
    render_prompt_from_context_pack, ContextPack, ContextSection, ContextSectionKind,
};

#[test]
fn context_pack_builds_with_sections() {
    let mut pack = ContextPack::new();
    pack.push(ContextSection::new(
        ContextSectionKind::Preamble,
        vec!["preamble line".to_string()],
    ));
    pack.push(ContextSection::new(
        ContextSectionKind::CurrentIntent,
        vec!["user input".to_string()],
    ));

    assert_eq!(pack.section_count(), 2);
    let rendered = render_prompt_from_context_pack(&pack);
    assert!(rendered.contains("preamble line"));
    assert!(rendered.contains("user input"));
}

#[test]
fn context_pack_drop_reasons_on_budget_exceeded() {
    let mut pack = ContextPack::new();
    pack.push(ContextSection::new(
        ContextSectionKind::Preamble,
        vec!["required preamble".to_string()],
    ));
    pack.push(ContextSection::new(
        ContextSectionKind::RecentTasks,
        vec!["a very long recent tasks section that will be dropped".to_string()],
    ));
    pack.max_total_chars = 20;
    pack.apply_total_budget();

    let reasons = pack.drop_reasons();
    assert_eq!(reasons.len(), 1);
    assert_eq!(reasons[0], "total_budget_exceeded");
    assert_eq!(pack.budget_summary().dropped_section_count, 1);
}

#[test]
fn context_pack_no_state_degradation() {
    // Build a minimal pack with only required sections
    let mut pack = ContextPack::new();
    pack.push(ContextSection::new(
        ContextSectionKind::Preamble,
        vec!["preamble".to_string()],
    ));
    pack.push(ContextSection::new(
        ContextSectionKind::CurrentIntent,
        vec!["intent".to_string()],
    ));
    pack.push(ContextSection::new(
        ContextSectionKind::ResponseContract,
        vec!["contract".to_string()],
    ));

    let snapshot = pack.snapshot();
    assert_eq!(snapshot.len(), 3);
    assert!(snapshot.iter().all(|s| s.included));
    assert!(snapshot.iter().all(|s| !s.trimmed));
}

#[test]
fn context_pack_trim_records_reason() {
    let long_content = "x".repeat(600);
    let section = ContextSection::new(ContextSectionKind::SessionText, vec![long_content]);

    assert!(section.trimmed());
    assert!(section.char_count() <= section.policy.max_chars);
}

#[test]
fn section_access_by_kind() {
    let mut pack = ContextPack::new();
    pack.push(ContextSection::new(
        ContextSectionKind::RuntimeContext,
        vec!["runtime".to_string()],
    ));

    assert!(pack.section(ContextSectionKind::RuntimeContext).is_some());
    assert!(pack.section(ContextSectionKind::SessionState).is_none());
}
