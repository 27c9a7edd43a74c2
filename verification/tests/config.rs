use amclaw::config::AppConfig;
use amclaw::env_file::{clean_env_value, parse_env_file};
use amclaw::ids::{id_number, new_client_id, new_id};
use amclaw::json::{get, get_str, JsonValue};
use amclaw::logging::build_structured_log_payload;

#[test]
fn missing_config_is_created_with_defaults() {
    let mut config = AppConfig::default();
    config.base_dir = "/root/app".to_string();
    assert_eq!(config.wechat.channel_version, "1.0.0");
    assert_eq!(config.agent.session_summary_strategy, "semantic");
    assert_eq!(config.db_path(), "/root/app/./data/amclaw.db");
    assert_eq!(config.resolved_browser(), None);
}

#[test]
fn relative_storage_root_is_resolved_against_config_dir() {
    let mut config = AppConfig::default();
    config.base_dir = "/root/app".to_string();
    config.storage.root_dir = "custom-data".to_string();
    config.agent.session_summary_strategy = "truncate".to_string();
    config.browser.enabled = true;
    config.browser.worker_script = "tools/browser_worker/worker.mjs".to_string();
    config.session.merge_timeout_secs = 9;

    assert_eq!(config.db_path(), "/root/app/custom-data/amclaw.db");
    assert_eq!(config.session_merge_timeout(), 9_000_000_000);
    assert_eq!(
        config.resolved_browser().expect("应启用浏览器配置").worker_script,
        "/root/app/tools/browser_worker/worker.mjs"
    );
    config.storage.root_dir = "/var/amclaw".to_string();
    assert_eq!(config.resolved_root_dir(), "/var/amclaw");
}

#[test]
fn structured_log_payload_has_core_fields_and_drops_nulls() {
    let payload = build_structured_log_payload(
        "2026-04-10T08:00:00+08:00",
        "info",
        "test_event",
        vec![
            ("task_id".to_string(), JsonValue::Text("task-1".to_string())),
            ("detail".to_string(), JsonValue::Null),
        ],
    );

    assert_eq!(get_str(&payload, "level"), Some("info".to_string()));
    assert_eq!(get_str(&payload, "event"), Some("test_event".to_string()));
    assert_eq!(get_str(&payload, "task_id"), Some("task-1".to_string()));
    assert!(get(&payload, "ts").is_some());
    assert!(get(&payload, "detail").is_none());
}

#[test]
fn a_later_field_replaces_an_earlier_one() {
    let payload = build_structured_log_payload(
        "t",
        "info",
        "e",
        vec![
            ("n".to_string(), JsonValue::Int(1)),
            ("n".to_string(), JsonValue::Null),
            ("n".to_string(), JsonValue::Int(2)),
            ("level".to_string(), JsonValue::Text("warn".to_string())),
        ],
    );
    assert_eq!(get(&payload, "n"), Some(&JsonValue::Int(2)));
    assert_eq!(get_str(&payload, "level"), Some("warn".to_string()));
    match payload {
        JsonValue::Object(entries) => assert_eq!(entries.len(), 4),
        other => panic!("应为对象: {other:?}"),
    }
}

#[test]
fn settings_are_read_from_a_file() {
    let found = parse_env_file("# note\n\nA = 1\nB=\"x=y\" \n no equals\n C='`z`'\n");
    let expected: Vec<(String, String)> = vec![
        ("A".to_string(), "1".to_string()),
        ("B".to_string(), "x=y".to_string()),
        ("C".to_string(), "z".to_string()),
    ];
    assert_eq!(found, expected);
    assert_eq!(clean_env_value("  \"'` key `'\"  "), "key");
    assert_eq!(clean_env_value("``"), "");
}

#[test]
fn ids_are_written_as_random_ids_are() {
    let id = new_id();
    assert_eq!(id.len(), 36);
    assert_eq!(id.matches('-').count(), 4);
    assert_ne!(id, new_id());
    let client = new_client_id();
    assert_eq!(client.strip_prefix("amclaw:").expect("应有前缀").len(), 36);
    assert_eq!(id_number("00c0ffee-0000-4000-8000-000000000000"), 0x00c0_ffee);
    assert_eq!(id_number("ffffffff-0000-4000-8000-000000000000"), u32::MAX);
}
