use amclaw::json::{get, get_str, pretty_json, write_json, JsonValue};
use amclaw::task_store::url_guard::IpAddress;
use amclaw::task_store::{LinkTaskRecord, MarkTaskArchivedInput, Stamp, TaskStore};
use amclaw::tool_registry::{
    archive_payload, archive_result, read_result, task_list_payload, task_status_payload,
    value_result, write_result, ToolAction, ToolRegistry, ToolResult, ToolStep,
};
use serde_json::Value;

fn unresolved(_: &str) -> Vec<IpAddress> {
    vec![]
}

fn at(secs: i64) -> Stamp {
    Stamp { text: format!("second {secs}"), secs: Some(secs) }
}

fn submit(store: &mut TaskStore, url: &str) -> LinkTaskRecord {
    let n = store.tasks.len();
    store
        .record_link_submission(
            url,
            unresolved,
            &at(n as i64),
            &format!("article-{n}"),
            &format!("task-{n}"),
        )
        .expect("写入任务失败")
}

fn registry() -> ToolRegistry {
    ToolRegistry::with_task_store_db_path("/tmp/work", Some("/tmp/work/amclaw.db".to_string()))
        .expect("初始化 registry 失败")
}

fn value(step: ToolStep) -> (String, Value) {
    match step {
        ToolStep::Done(ToolResult { tool, output }) => {
            (tool, serde_json::from_str(&output).expect("工具输出应为合法 JSON"))
        }
        other => panic!("工具应直接给出结果: {other:?}"),
    }
}

#[test]
fn create_write_read_file_works() {
    let registry = ToolRegistry::new("/tmp/work").expect("初始化 registry 失败");
    let store = TaskStore::new();
    let path = "/tmp/work/notes/todo.txt".to_string();
    assert_eq!(
        registry.execute(
            ToolAction::Create { path: "notes/todo.txt".to_string(), content: "hello".to_string() },
            &store
        ),
        Ok(ToolStep::CreateFile { path: path.clone(), content: "hello".to_string() })
    );
    assert_eq!(
        registry.execute(
            ToolAction::Write {
                path: "notes/todo.txt".to_string(),
                content: "hello world".to_string()
            },
            &store
        ),
        Ok(ToolStep::WriteFile { path: path.clone(), content: "hello world".to_string() })
    );
    assert_eq!(
        registry.execute(ToolAction::Read { path: "notes/todo.txt".to_string() }, &store),
        Ok(ToolStep::ReadFile { path })
    );
    assert_eq!(
        read_result("hello world".to_string()).output,
        "hello world"
    );
    assert_eq!(write_result(true, "/tmp/work/a").tool, "create_file");
    assert_eq!(write_result(false, "/tmp/work/a").tool, "write_file");
}

#[test]
fn deny_outside_workspace_path() {
    let registry = ToolRegistry::new("/tmp/work").expect("初始化 registry 失败");
    let store = TaskStore::new();
    let err = registry
        .execute(ToolAction::Read { path: "../../etc/hosts".to_string() }, &store)
        .expect_err("应当禁止越界路径");
    assert!(err.contains("路径越界"));
    for path in ["/etc/hosts", "a/../../work2/x", "notes/../../b", "/tmp/workspace/x"] {
        assert!(registry.resolve_path(path).is_err(), "{path}");
    }
    assert_eq!(registry.resolve_path("  "), Err("文件路径不能为空".to_string()));
    assert_eq!(registry.resolve_path("a/./b/../c.txt"), Ok("/tmp/work/a/c.txt".to_string()));
    assert_eq!(registry.resolve_path("/tmp/work/x"), Ok("/tmp/work/x".to_string()));
}

#[test]
fn get_task_status_reads_from_task_store() {
    let mut store = TaskStore::new();
    let record = submit(&mut store, "https://example.com/tool-status");
    let step = registry()
        .execute(ToolAction::GetTaskStatus { task_id: record.task_id.clone() }, &store)
        .expect("查询任务状态失败");
    let (tool, payload) = value(step);
    assert_eq!(tool, "get_task_status");
    assert_eq!(payload["found"], true);
    assert_eq!(payload["task"]["task_id"], record.task_id);
    assert_eq!(payload["task"]["status"], "pending");
}

#[test]
fn list_recent_and_manual_tasks_read_from_task_store() {
    let mut store = TaskStore::new();
    let recent = submit(&mut store, "https://example.com/recent");
    let manual = submit(&mut store, "https://example.com/manual");
    assert!(store.mark_task_awaiting_manual_input(
        &manual.task_id,
        "need manual",
        "manual_required",
        None,
        Some("browser_capture"),
        &at(10),
    ));
    let registry = registry();

    let (tool, payload) = value(
        registry
            .execute(ToolAction::ListRecentTasks { limit: 5 }, &store)
            .expect("查询最近任务失败"),
    );
    assert_eq!(tool, "list_recent_tasks");
    assert_eq!(payload["count"], 2);

    let (tool, payload) = value(
        registry
            .execute(ToolAction::ListManualTasks { limit: 5 }, &store)
            .expect("查询待补录任务失败"),
    );
    assert_eq!(tool, "list_manual_tasks");
    assert_eq!(payload["count"], 1);
    assert_eq!(payload["tasks"][0]["task_id"], manual.task_id);
    assert_ne!(recent.task_id, manual.task_id);
}

#[test]
fn read_article_archive_reads_output_file_from_task_status() {
    let mut store = TaskStore::new();
    let record = submit(&mut store, "https://example.com/archive");
    let path = "/tmp/work/processed/task-0.md";
    assert!(store.mark_task_archived(
        &record.task_id,
        MarkTaskArchivedInput {
            output_path: path,
            title: Some("Archive Title"),
            page_kind: None,
            snapshot_path: None,
            content_source: Some("http"),
            summary: None,
        },
        &at(10),
    ));
    let step = registry()
        .execute(ToolAction::ReadArticleArchive { task_id: record.task_id.clone() }, &store)
        .expect("读取归档内容失败");
    assert_eq!(
        step,
        ToolStep::ReadArchive { task_id: record.task_id.clone(), path: path.to_string() }
    );
    let result = archive_result(&record.task_id, path, "# Archived\n\nhello archive")
        .expect("读取归档内容失败");
    assert_eq!(result.tool, "read_article_archive");
    let payload: Value = serde_json::from_str(&result.output).expect("工具输出应为合法 JSON");
    assert_eq!(payload["task_id"], record.task_id);
    assert!(payload["content"].as_str().unwrap_or("").contains("hello archive"));
    assert_eq!(payload["content_chars"], 25);
}

#[test]
fn a_value_is_given_as_indented_text() {
    let store = TaskStore::new();
    let step = registry()
        .execute(ToolAction::GetTaskStatus { task_id: " no \"such\" ".to_string() }, &store)
        .expect("查询任务状态失败");
    assert_eq!(
        step,
        ToolStep::Done(ToolResult {
            tool: "get_task_status".to_string(),
            output: "{\n  \"found\": false,\n  \"task_id\": \"no \\\"such\\\"\"\n}".to_string(),
        })
    );
    let list = registry()
        .execute(ToolAction::ListRecentTasks { limit: 3 }, &store)
        .expect("查询最近任务失败");
    let (_, payload) = value(list);
    assert_eq!(payload["tasks"], Value::Array(vec![]));
    assert_eq!(payload["limit"], 3);
    let broken = JsonValue::OtherNumber("1..2".to_string());
    assert_eq!(value_result("t", &broken, "序列化失败"), Err("序列化失败".to_string()));
}

#[test]
fn the_values_of_the_tools_are_as_stored() {
    let mut store = TaskStore::new();
    let record = submit(&mut store, "https://example.com/a");
    let found = task_status_payload(&store, &record.task_id);
    assert_eq!(get(&found, "found"), Some(&JsonValue::Bool(true)));
    let task = get(&found, "task").expect("应有 task");
    assert_eq!(get_str(task, "normalized_url"), Some("https://example.com/a".to_string()));
    assert_eq!(get(task, "title"), Some(&JsonValue::Null));
    assert_eq!(get(task, "retry_count"), Some(&JsonValue::Int(0)));
    let tasks = store.list_recent_tasks(5).expect("查询失败");
    let listed = task_list_payload(&tasks, 5);
    assert_eq!(get(&listed, "limit"), Some(&JsonValue::Int(5)));
    assert_eq!(get(&listed, "count"), Some(&JsonValue::Int(1)));
    let archived = archive_payload("t", "/p", "两字");
    assert_eq!(get(&archived, "content_chars"), Some(&JsonValue::Int(2)));
    assert_eq!(get_str(&archived, "output_path"), Some("/p".to_string()));
}

#[test]
fn a_value_is_written_as_json() {
    let v = JsonValue::Object(vec![
        ("a\n".to_string(), JsonValue::List(vec![JsonValue::Null, JsonValue::Bool(true)])),
        ("b".to_string(), JsonValue::Int(-7)),
        ("c".to_string(), JsonValue::OtherNumber("1.5".to_string())),
        ("d".to_string(), JsonValue::Object(vec![])),
        ("e".to_string(), JsonValue::Text("\"引\"".to_string())),
    ]);
    let text = write_json(&v);
    assert_eq!(text, "{\"a\\n\":[null,true],\"b\":-7,\"c\":1.5,\"d\":{},\"e\":\"\\\"引\\\"\"}");
    let parsed: Value = serde_json::from_str(&text).expect("应为合法 JSON");
    assert_eq!(pretty_json(&v), serde_json::to_string_pretty(&parsed).ok());
}

#[test]
fn tools_of_the_store_need_a_store() {
    let bare = ToolRegistry::new("/tmp/work").expect("初始化 registry 失败");
    let store = TaskStore::new();
    assert_eq!(bare.available_tool_descriptions().len(), 3);
    assert_eq!(registry().available_tool_descriptions().len(), 7);
    assert!(bare.execute(ToolAction::ListRecentTasks { limit: 5 }, &store).is_err());
    assert!(ToolRegistry::new("relative").is_err());
}
