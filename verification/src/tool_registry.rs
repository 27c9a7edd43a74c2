//! The tools that the agent may use.

use crate::json;
use crate::json::{Json, JsonValue, entry, optional_text, pretty_json, text_value};
use crate::paths;
use crate::paths::{is_within, join_path, normalize_absolute, path_parts};
use crate::task_store::store::{ArticleData, StoreData, TaskData, TaskStore};
use crate::task_store::tasks;
use crate::task_store::tasks::{FilterData, TaskOrder};
use crate::task_store::types::{RecentTaskRecord, TaskStatusRecord};
use crate::text;
use crate::text::{blank, cat2, char_count, owned, push_text, trimmed};
use vstd::prelude::*;

verus! {

#[derive(Debug, Clone, PartialEq, Eq)]
pub enum ToolAction {
    /// Read a file.
    Read { path: String },
    /// Write a file, whether it is there or not.
    Write { path: String, content: String },
    /// Write a file that is not there yet.
    Create { path: String, content: String },
    GetTaskStatus { task_id: String },
    ListRecentTasks { limit: usize },
    ListManualTasks { limit: usize },
    /// Read the archived text of a task.
    ReadArticleArchive { task_id: String },
}

/// What a tool gives back.
#[derive(Debug, PartialEq)]
pub struct ToolResult {
    pub tool: String,
    pub output: String,
}

/// What is left to do for an action.
#[derive(Debug, PartialEq)]
pub enum ToolStep {
    Done(ToolResult),
    ReadFile { path: String },
    WriteFile { path: String, content: String },
    CreateFile { path: String, content: String },
    ReadArchive { task_id: String, path: String },
}

/// The tools: the directory that files must lie in, and the database of tasks where there
/// is one.
#[derive(Debug, Clone)]
pub struct ToolRegistry {
    pub workspace_root: String,
    pub root_parts: Vec<String>,
    pub task_store_db_path: Option<String>,
}

/// A path that is handed out, or why it is refused.
pub open spec fn resolved_path(root: Seq<Seq<char>>, raw: Seq<char>) -> Result<Seq<char>, Seq<char>> {
    let path = text::trim(raw);
    if path.len() == 0 {
        Err("文件路径不能为空"@)
    } else {
        let full = paths::joined(paths::rooted(root), path);
        match paths::normal_error(full) {
            Some(e) => Err(e),
            None => {
                let parts = paths::normal_parts(text::split_char(full, '/'))->0;
                if paths::parts_within(parts, root) {
                    Ok(paths::rooted(parts))
                } else {
                    Err("路径越界，禁止访问工作区外路径: "@ + paths::rooted(parts))
                }
            },
        }
    }
}

/// No path leads out of the workspace: a path that is handed out is made of names, and the
/// first of them are those of the workspace.
pub proof fn lemma_resolved_path_stays_inside(root: Seq<Seq<char>>, raw: Seq<char>)
    requires
        resolved_path(root, raw) is Ok,
    ensures
        exists|parts: Seq<Seq<char>>|
            resolved_path(root, raw)->Ok_0 == #[trigger] paths::rooted(parts) && paths::parts_within(parts, root)
                && forall|i: int| 0 <= i < parts.len() ==> paths::name_part(#[trigger] parts[i]),
{
    let full = paths::joined(paths::rooted(root), text::trim(raw));
    let parts = paths::normal_parts(text::split_char(full, '/'))->0;
    paths::lemma_path_names(full);
    assert(resolved_path(root, raw)->Ok_0 == paths::rooted(parts));
}

/// The error where no database is set up.
pub open spec fn no_store_error() -> Seq<char> {
    "当前运行未配置 task_store 数据源，无法使用业务查询工具"@
}

pub open spec fn status_json(t: TaskData, a: ArticleData) -> Json {
    Json::Object(
        seq![
            ("task_id"@, Json::Text(t.id)),
            ("article_id"@, Json::Text(t.article_id)),
            ("normalized_url"@, Json::Text(a.normalized_url)),
            ("title"@, json::text_or_null(a.title)),
            ("content_source"@, json::text_or_null(t.content_source)),
            ("page_kind"@, json::text_or_null(t.page_kind)),
            ("status"@, Json::Text(t.status)),
            ("retry_count"@, Json::Int(t.retry_count)),
            ("last_error"@, json::text_or_null(t.last_error)),
            ("output_path"@, json::text_or_null(t.output_path)),
            ("snapshot_path"@, json::text_or_null(t.snapshot_path)),
            ("created_at"@, Json::Text(t.created_at.text)),
            ("updated_at"@, Json::Text(t.updated_at.text)),
        ],
    )
}

fn render_task_status_record(record: &TaskStatusRecord) -> (r: JsonValue)
    ensures
        forall|t: TaskData, a: ArticleData|
            tasks::status_record(*record, t, a) ==> json::whole(r) == #[trigger] status_json(t, a),
{
    let mut fields: Vec<(String, JsonValue)> = Vec::new();
    fields.push(entry("task_id", text_value(record.task_id.as_str())));
    fields.push(entry("article_id", text_value(record.article_id.as_str())));
    fields.push(entry("normalized_url", text_value(record.normalized_url.as_str())));
    fields.push(entry("title", optional_text(&record.title)));
    fields.push(entry("content_source", optional_text(&record.content_source)));
    fields.push(entry("page_kind", optional_text(&record.page_kind)));
    fields.push(entry("status", text_value(record.status.as_str())));
    fields.push(entry("retry_count", JsonValue::Int(record.retry_count)));
    fields.push(entry("last_error", optional_text(&record.last_error)));
    fields.push(entry("output_path", optional_text(&record.output_path)));
    fields.push(entry("snapshot_path", optional_text(&record.snapshot_path)));
    fields.push(entry("created_at", text_value(record.created_at.as_str())));
    fields.push(entry("updated_at", text_value(record.updated_at.as_str())));
    proof {
        assert forall|t: TaskData, a: ArticleData| tasks::status_record(*record, t, a) implies json::whole(
            JsonValue::Object(fields),
        ) == #[trigger] status_json(t, a) by {
            json::lemma_object(fields, status_json(t, a)->Object_0);
        }
    }
    JsonValue::Object(fields)
}

pub open spec fn recent_json(t: TaskData, a: ArticleData) -> Json {
    Json::Object(
        seq![
            ("task_id"@, Json::Text(t.id)),
            ("status"@, Json::Text(t.status)),
            ("content_source"@, json::text_or_null(t.content_source)),
            ("page_kind"@, json::text_or_null(t.page_kind)),
            ("normalized_url"@, Json::Text(a.normalized_url)),
            ("updated_at"@, Json::Text(t.updated_at.text)),
        ],
    )
}

fn render_recent_task_record(record: &RecentTaskRecord) -> (r: JsonValue)
    ensures
        forall|t: TaskData, a: ArticleData|
            tasks::recent_record(*record, t, a) ==> json::whole(r) == #[trigger] recent_json(t, a),
{
    let mut fields: Vec<(String, JsonValue)> = Vec::new();
    fields.push(entry("task_id", text_value(record.task_id.as_str())));
    fields.push(entry("status", text_value(record.status.as_str())));
    fields.push(entry("content_source", optional_text(&record.content_source)));
    fields.push(entry("page_kind", optional_text(&record.page_kind)));
    fields.push(entry("normalized_url", text_value(record.normalized_url.as_str())));
    fields.push(entry("updated_at", text_value(record.updated_at.as_str())));
    proof {
        assert forall|t: TaskData, a: ArticleData| tasks::recent_record(*record, t, a) implies json::whole(
            JsonValue::Object(fields),
        ) == #[trigger] recent_json(t, a) by {
            json::lemma_object(fields, recent_json(t, a)->Object_0);
        }
    }
    JsonValue::Object(fields)
}

pub open spec fn recent_items(rows: Seq<(TaskData, ArticleData)>) -> Seq<Json> {
    Seq::new(rows.len(), |i: int| recent_json(rows[i].0, rows[i].1))
}

/// A list of tasks with the limit that was asked for. A limit beyond 64 bits with sign is
/// an error before.
pub open spec fn list_json(rows: Seq<(TaskData, ArticleData)>, limit: int) -> Json {
    Json::Object(
        seq![
            ("limit"@, Json::Int(limit)),
            ("count"@, Json::Int(rows.len() as int)),
            ("tasks"@, Json::List(recent_items(rows))),
        ],
    )
}

/// The answer with a list of tasks.
pub fn task_list_payload(tasks: &Vec<RecentTaskRecord>, limit: usize) -> (r: JsonValue)
    requires
        limit <= i64::MAX,
        tasks@.len() <= i64::MAX,
    ensures
        forall|rows: Seq<(TaskData, ArticleData)>| #[trigger]
            tasks::recent_list(tasks@, rows) ==> json::whole(r) == list_json(rows, limit as int),
{
    let mut items: Vec<JsonValue> = Vec::new();
    let mut i: usize = 0;
    while i < tasks.len()
        invariant
            i <= tasks@.len(),
            items@.len() == i,
            forall|rows: Seq<(TaskData, ArticleData)>, k: int|
                #![trigger tasks::recent_list(tasks@, rows), items@[k]]
                tasks::recent_list(tasks@, rows) && 0 <= k < i ==> json::whole(items@[k]) == recent_json(
                    rows[k].0,
                    rows[k].1,
                ),
        decreases tasks.len() - i,
    {
        let ghost before = items@;
        items.push(render_recent_task_record(&tasks[i]));
        proof {
            assert forall|rows: Seq<(TaskData, ArticleData)>, k: int|
                #![trigger tasks::recent_list(tasks@, rows), items@[k]]
                tasks::recent_list(tasks@, rows) && 0 <= k < i + 1 implies json::whole(items@[k])
                == recent_json(rows[k].0, rows[k].1) by {
                if k < i {
                    assert(items@[k] == before[k]);
                } else {
                    assert(tasks::recent_record(tasks@[i as int], rows[i as int].0, rows[i as int].1));
                    assert(json::whole(items@[k]) == recent_json(rows[k].0, rows[k].1));
                }
            }
        }
        i = i + 1;
    }
    let count: usize = tasks.len();
    let ghost list = items@;
    let ghost whole_list = JsonValue::List(items);
    let mut fields: Vec<(String, JsonValue)> = Vec::new();
    fields.push(entry("limit", JsonValue::Int(limit as i64)));
    fields.push(entry("count", JsonValue::Int(count as i64)));
    fields.push(entry("tasks", JsonValue::List(items)));
    proof {
        assert forall|rows: Seq<(TaskData, ArticleData)>| #[trigger]
            tasks::recent_list(tasks@, rows) implies json::whole(JsonValue::Object(fields)) == list_json(
            rows,
            limit as int,
        ) by {
            assert forall|k: int| 0 <= k < recent_items(rows).len() implies json::whole(
                #[trigger] items@[k],
            ) == recent_items(rows)[k] by {}
            json::lemma_list(items, recent_items(rows));
            json::lemma_object(fields, list_json(rows, limit as int)->Object_0);
        }
    }
    JsonValue::Object(fields)
}

/// The answer on a task.
pub open spec fn status_answer(s: StoreData, task_id: Seq<char>) -> Json {
    match tasks::task_row(s, task_id) {
        Some((t, a)) => Json::Object(
            seq![("found"@, Json::Bool(true)), ("task"@, status_json(t, a))],
        ),
        None => Json::Object(
            seq![("found"@, Json::Bool(false)), ("task_id"@, Json::Text(task_id))],
        ),
    }
}

/// Makes the answer on a task.
pub fn task_status_payload(store: &TaskStore, task_id: &str) -> (r: JsonValue)
    ensures
        json::whole(r) == status_answer(store@, task_id@),
{
    let mut fields: Vec<(String, JsonValue)> = Vec::new();
    match store.get_task_status(task_id) {
        Some(status) => {
            let task = render_task_status_record(&status);
            fields.push(entry("found", JsonValue::Bool(true)));
            fields.push(entry("task", task));
            proof {
                let (t, a) = tasks::task_row(store@, task_id@)->0;
                assert(tasks::status_record(status, t, a));
                assert(json::whole(task) == status_json(t, a));
                json::lemma_object(fields, status_answer(store@, task_id@)->Object_0);
            }
        },
        None => {
            fields.push(entry("found", JsonValue::Bool(false)));
            fields.push(entry("task_id", text_value(task_id)));
            proof {
                json::lemma_object(fields, status_answer(store@, task_id@)->Object_0);
            }
        },
    }
    JsonValue::Object(fields)
}

/// The answer with an archived article.
pub open spec fn archive_answer(task_id: Seq<char>, path: Seq<char>, content: Seq<char>) -> Json {
    Json::Object(
        seq![
            ("task_id"@, Json::Text(task_id)),
            ("output_path"@, Json::Text(path)),
            ("content_chars"@, Json::Int(content.len() as int)),
            ("content"@, Json::Text(content)),
        ],
    )
}

/// Makes the answer with an archived article.
pub fn archive_payload(task_id: &str, path: &str, content: &str) -> (r: JsonValue)
    requires
        content@.len() <= i64::MAX,
    ensures
        json::whole(r) == archive_answer(task_id@, path@, content@),
{
    let n: usize = char_count(content);
    let mut fields: Vec<(String, JsonValue)> = Vec::new();
    fields.push(entry("task_id", text_value(task_id)));
    fields.push(entry("output_path", text_value(path)));
    fields.push(entry("content_chars", JsonValue::Int(n as i64)));
    fields.push(entry("content", text_value(content)));
    proof {
        json::lemma_object(fields, archive_answer(task_id@, path@, content@)->Object_0);
    }
    JsonValue::Object(fields)
}

/// A tool gives a value as an indented JSON text. Where there is no such text it fails.
pub open spec fn gives(
    r: Result<ToolResult, String>,
    tool: Seq<char>,
    value: Json,
    failure: Seq<char>,
) -> bool {
    match json::indented(json::written(value)) {
        Some(output) => r matches Ok(result) && result.tool@ == tool && result.output@ == output,
        None => r matches Err(e) && e@ == failure,
    }
}

/// The result of a tool that gives a value.
pub fn value_result(tool: &str, value: &JsonValue, failure: &str) -> (r: Result<ToolResult, String>)
    ensures
        gives(r, tool@, json::whole(*value), failure@),
{
    match pretty_json(value) {
        Some(output) => Ok(ToolResult { tool: owned(tool), output }),
        None => Err(owned(failure)),
    }
}

/// The text of an archived article as a tool gives it.
pub fn archive_result(task_id: &str, path: &str, content: &str) -> (r: Result<ToolResult, String>)
    requires
        content@.len() <= i64::MAX,
    ensures
        gives(
            r,
            "read_article_archive"@,
            archive_answer(task_id@, path@, content@),
            "序列化归档内容结果失败"@,
        ),
{
    let value = archive_payload(task_id, path, content);
    value_result("read_article_archive", &value, "序列化归档内容结果失败")
}

/// The text of a file as a tool gives it.
pub fn read_result(content: String) -> (r: ToolResult)
    ensures
        r.tool@ == "read_file"@,
        r.output@ == content@,
{
    ToolResult { tool: owned("read_file"), output: content }
}

/// The note that a file was written.
pub fn write_result(created: bool, path: &str) -> (r: ToolResult)
    ensures
        r.tool@ == (if created {
            "create_file"@
        } else {
            "write_file"@
        }),
        r.output@ == "ok: "@ + path@,
{
    ToolResult {
        tool: if created {
            owned("create_file")
        } else {
            owned("write_file")
        },
        output: cat2("ok: ", path),
    }
}

/// A tool is done and gives a value.
pub open spec fn answers(
    r: Result<ToolStep, String>,
    tool: Seq<char>,
    value: Json,
    failure: Seq<char>,
) -> bool {
    match r {
        Ok(ToolStep::Done(result)) => gives(Ok(result), tool, value, failure),
        Ok(_) => false,
        Err(e) => gives(Err(e), tool, value, failure),
    }
}

fn done(r: Result<ToolResult, String>) -> (step: Result<ToolStep, String>)
    ensures
        match r {
            Ok(result) => step == Ok::<ToolStep, String>(ToolStep::Done(result)),
            Err(e) => step == Err::<ToolStep, String>(e),
        },
{
    match r {
        Ok(result) => Ok(ToolStep::Done(result)),
        Err(e) => Err(e),
    }
}

pub open spec fn refuses(r: Result<ToolStep, String>, message: Seq<char>) -> bool {
    r matches Err(e) && e@ == message
}

impl ToolRegistry {
    /// The root is in its normal form.
    pub open spec fn wf(&self) -> bool {
        &&& self.workspace_root@ == paths::rooted(text::texts(self.root_parts@))
        &&& forall|i: int|
            0 <= i < self.root_parts@.len() ==> paths::name_part((#[trigger] self.root_parts@[i])@)
    }

    pub open spec fn root(&self) -> Seq<Seq<char>> {
        text::texts(self.root_parts@)
    }

    pub fn new(workspace_root: &str) -> (r: Result<Self, String>)
        ensures
            match r {
                Ok(t) => paths::normal_error(workspace_root@) is None && t.wf() && paths::normal_path(
                    workspace_root@,
                ) == Some(t.workspace_root@) && t.task_store_db_path is None,
                Err(e) => paths::normal_error(workspace_root@) == Some(e@),
            },
    {
        Self::with_task_store_db_path(workspace_root, None)
    }

    pub fn with_task_store_db_path(workspace_root: &str, task_store_db_path: Option<String>) -> (r:
        Result<Self, String>)
        ensures
            match r {
                Ok(t) => paths::normal_error(workspace_root@) is None && t.wf() && paths::normal_path(
                    workspace_root@,
                ) == Some(t.workspace_root@) && text::opt_text(t.task_store_db_path) == text::opt_text(
                    task_store_db_path,
                ),
                Err(e) => paths::normal_error(workspace_root@) == Some(e@),
            },
    {
        let root = match normalize_absolute(workspace_root) {
            Ok(p) => p,
            Err(e) => {
                return Err(e);
            },
        };
        match path_parts(workspace_root) {
            Some(parts) => {
                proof {
                    paths::lemma_path_names(workspace_root@);
                    let done = text::texts(parts@);
                    assert forall|i: int| 0 <= i < parts@.len() implies paths::name_part(
                        (#[trigger] parts@[i])@,
                    ) by {
                        assert(paths::name_part(done[i]));
                    }
                }
                Ok(ToolRegistry { workspace_root: root, root_parts: parts, task_store_db_path })
            },
            None => Err(cat2("非法路径: ", workspace_root)),
        }
    }

    /// Finds the file that a path stands for. A path that leads out of the workspace is
    /// refused.
    pub fn resolve_path(&self, raw_path: &str) -> (r: Result<String, String>)
        requires
            self.wf(),
        ensures
            match r {
                Ok(p) => resolved_path(self.root(), raw_path@) == Ok::<Seq<char>, Seq<char>>(p@),
                Err(e) => resolved_path(self.root(), raw_path@) == Err::<Seq<char>, Seq<char>>(e@),
            },
    {
        let path = trimmed(raw_path);
        if char_count(path.as_str()) == 0 {
            return Err(owned("文件路径不能为空"));
        }
        let full = join_path(self.workspace_root.as_str(), path.as_str());
        let normal = match normalize_absolute(full.as_str()) {
            Ok(p) => p,
            Err(e) => {
                return Err(e);
            },
        };
        match path_parts(full.as_str()) {
            Some(parts) => if is_within(&parts, &self.root_parts) {
                Ok(normal)
            } else {
                Err(cat2("路径越界，禁止访问工作区外路径: ", normal.as_str()))
            },
            None => Err(cat2("非法路径: ", full.as_str())),
        }
    }

    /// The names of the tools and what they take.
    pub open spec fn descriptions(&self) -> Seq<Seq<char>> {
        seq![
            "read: 读取工作区内文件，参数: path"@,
            "create: 创建工作区内新文件，参数: path, content"@,
            "write: 覆盖写入工作区内文件，参数: path, content"@,
        ] + (if self.task_store_db_path is Some {
            seq![
                "get_task_status: 查询单个任务状态，参数: task_id"@,
                "list_recent_tasks: 查询最近任务，参数: limit"@,
                "list_manual_tasks: 查询待人工补录任务，参数: limit"@,
                "read_article_archive: 读取已归档文章内容，参数: task_id"@,
            ]
        } else {
            Seq::empty()
        })
    }

    pub fn available_tool_descriptions(&self) -> (r: Vec<String>)
        ensures
            text::texts(r@) == self.descriptions(),
    {
        let mut tools: Vec<String> = Vec::new();
        push_text(&mut tools, "read: 读取工作区内文件，参数: path");
        push_text(&mut tools, "create: 创建工作区内新文件，参数: path, content");
        push_text(&mut tools, "write: 覆盖写入工作区内文件，参数: path, content");
        if self.task_store_db_path.is_some() {
            push_text(&mut tools, "get_task_status: 查询单个任务状态，参数: task_id");
            push_text(&mut tools, "list_recent_tasks: 查询最近任务，参数: limit");
            push_text(&mut tools, "list_manual_tasks: 查询待人工补录任务，参数: limit");
            push_text(&mut tools, "read_article_archive: 读取已归档文章内容，参数: task_id");
        }
        proof {
            assert(text::texts(tools@) =~= self.descriptions());
        }
        tools
    }

    fn get_task_status(&self, store: &TaskStore, task_id: &str) -> (r: Result<ToolStep, String>)
        ensures
            self.status_answered(store@, task_id@, r),
    {
        let id = trimmed(task_id);
        if char_count(id.as_str()) == 0 {
            return Err(owned("task_id 不能为空"));
        }
        if self.task_store_db_path.is_none() {
            return Err(owned("当前运行未配置 task_store 数据源，无法使用业务查询工具"));
        }
        let value = task_status_payload(store, id.as_str());
        done(value_result("get_task_status", &value, "序列化任务状态结果失败"))
    }

    pub open spec fn status_answered(&self, s: StoreData, task_id: Seq<char>, r: Result<ToolStep, String>) -> bool {
        let id = text::trim(task_id);
        if id.len() == 0 {
            refuses(r, "task_id 不能为空"@)
        } else if self.task_store_db_path is None {
            refuses(r, no_store_error())
        } else {
            answers(r, "get_task_status"@, status_answer(s, id), "序列化任务状态结果失败"@)
        }
    }

    pub open spec fn list_answered(
        &self,
        rows: Seq<(TaskData, ArticleData)>,
        limit: int,
        tool: Seq<char>,
        limit_error: Seq<char>,
        failure: Seq<char>,
        r: Result<ToolStep, String>,
    ) -> bool {
        if self.task_store_db_path is None {
            refuses(r, no_store_error())
        } else if limit > i64::MAX {
            refuses(r, limit_error)
        } else {
            answers(r, tool, list_json(rows, limit), failure)
        }
    }

    /// The file of an archived article.
    pub open spec fn archive_answered(&self, s: StoreData, task_id: Seq<char>, r: Result<ToolStep, String>) -> bool {
        let id = text::trim(task_id);
        if id.len() == 0 {
            refuses(r, "task_id 不能为空"@)
        } else if self.task_store_db_path is None {
            refuses(r, no_store_error())
        } else {
            match tasks::task_row(s, id) {
                None => refuses(r, "未找到对应任务: "@ + id),
                Some((t, a)) => match t.output_path {
                    Some(path) if !text::is_blank(path) => r matches Ok(ToolStep::ReadArchive {
                        task_id: i,
                        path: p,
                    }) && i@ == id && p@ == paths::joined(self.workspace_root@, path),
                    _ => refuses(r, "任务尚未生成归档 output_path"@),
                },
            }
        }
    }

    fn read_article_archive(&self, store: &TaskStore, task_id: &str) -> (r: Result<ToolStep, String>)
        ensures
            self.archive_answered(store@, task_id@, r),
    {
        let id = trimmed(task_id);
        if char_count(id.as_str()) == 0 {
            return Err(owned("task_id 不能为空"));
        }
        if self.task_store_db_path.is_none() {
            return Err(owned("当前运行未配置 task_store 数据源，无法使用业务查询工具"));
        }
        let status = match store.get_task_status(id.as_str()) {
            Some(s) => s,
            None => {
                return Err(cat2("未找到对应任务: ", id.as_str()));
            },
        };
        match &status.output_path {
            Some(path) => if blank(path.as_str()) {
                Err(owned("任务尚未生成归档 output_path"))
            } else {
                Ok(
                    ToolStep::ReadArchive {
                        task_id: id,
                        path: join_path(self.workspace_root.as_str(), path.as_str()),
                    },
                )
            },
            None => Err(owned("任务尚未生成归档 output_path")),
        }
    }

    /// The outcome of an action.
    pub open spec fn executed(&self, s: StoreData, action: ToolAction, r: Result<ToolStep, String>) -> bool {
        match action {
            ToolAction::Read { path } => match resolved_path(self.root(), path@) {
                Ok(p) => r matches Ok(ToolStep::ReadFile { path: q }) && q@ == p,
                Err(e) => refuses(r, e),
            },
            ToolAction::Write { path, content } => match resolved_path(self.root(), path@) {
                Ok(p) => r matches Ok(ToolStep::WriteFile { path: q, content: c }) && q@ == p && c@
                    == content@,
                Err(e) => refuses(r, e),
            },
            ToolAction::Create { path, content } => match resolved_path(self.root(), path@) {
                Ok(p) => r matches Ok(ToolStep::CreateFile { path: q, content: c }) && q@ == p && c@
                    == content@,
                Err(e) => refuses(r, e),
            },
            ToolAction::GetTaskStatus { task_id } => self.status_answered(s, task_id@, r),
            ToolAction::ListRecentTasks { limit } => self.list_answered(
                tasks::listing(s, FilterData::Any, TaskOrder::RecentFirst, limit as int),
                limit as int,
                "list_recent_tasks"@,
                "recent task limit 超出范围"@,
                "序列化最近任务结果失败"@,
                r,
            ),
            ToolAction::ListManualTasks { limit } => self.list_answered(
                tasks::listing(
                    s,
                    FilterData::Status("awaiting_manual_input"@),
                    TaskOrder::RecentFirst,
                    limit as int,
                ),
                limit as int,
                "list_manual_tasks"@,
                "manual task limit 超出范围"@,
                "序列化待补录任务结果失败"@,
                r,
            ),
            ToolAction::ReadArticleArchive { task_id } => self.archive_answered(s, task_id@, r),
        }
    }

    /// Carries out an action as far as no file is needed for it. `store` holds the tasks
    /// where a database is set up.
    pub fn execute(&self, action: ToolAction, store: &TaskStore) -> (r: Result<ToolStep, String>)
        requires
            self.wf(),
        ensures
            self.executed(store@, action, r),
    {
        match action {
            ToolAction::Read { path } => match self.resolve_path(path.as_str()) {
                Ok(p) => Ok(ToolStep::ReadFile { path: p }),
                Err(e) => Err(e),
            },
            ToolAction::Write { path, content } => match self.resolve_path(path.as_str()) {
                Ok(p) => Ok(ToolStep::WriteFile { path: p, content }),
                Err(e) => Err(e),
            },
            ToolAction::Create { path, content } => match self.resolve_path(path.as_str()) {
                Ok(p) => Ok(ToolStep::CreateFile { path: p, content }),
                Err(e) => Err(e),
            },
            ToolAction::GetTaskStatus { task_id } => self.get_task_status(store, task_id.as_str()),
            ToolAction::ListRecentTasks { limit } => {
                if self.task_store_db_path.is_none() {
                    return Err(owned("当前运行未配置 task_store 数据源，无法使用业务查询工具"));
                }
                match store.list_recent_tasks(limit) {
                    Ok(tasks) => {
                        proof {
                            assert(tasks@.len() <= limit);
                        }
                        let value = task_list_payload(&tasks, limit);
                        done(value_result("list_recent_tasks", &value, "序列化最近任务结果失败"))
                    },
                    Err(e) => Err(e.message()),
                }
            },
            ToolAction::ListManualTasks { limit } => {
                if self.task_store_db_path.is_none() {
                    return Err(owned("当前运行未配置 task_store 数据源，无法使用业务查询工具"));
                }
                match store.list_manual_tasks(limit) {
                    Ok(tasks) => {
                        proof {
                            assert(tasks@.len() <= limit);
                        }
                        let value = task_list_payload(&tasks, limit);
                        done(value_result("list_manual_tasks", &value, "序列化待补录任务结果失败"))
                    },
                    Err(e) => Err(e.message()),
                }
            },
            ToolAction::ReadArticleArchive { task_id } => self.read_article_archive(
                store,
                task_id.as_str(),
            ),
        }
    }
}

// ---------------------------------------------------------------------------
// Laws
// ---------------------------------------------------------------------------

/// An object holds a value under a key.
pub open spec fn has_entry(v: Json, key: Seq<char>, value: Json) -> bool {
    v is Object && exists|i: int|
        0 <= i < v->Object_0.len() && (#[trigger] v->Object_0[i]).0 == key && v->Object_0[i].1
            == value
}

proof fn lemma_entry(fields: Seq<(Seq<char>, Json)>, i: int)
    requires
        0 <= i < fields.len(),
    ensures
        has_entry(Json::Object(fields), fields[i].0, fields[i].1),
{
    let v = Json::Object(fields);
    assert(v->Object_0[i].0 == fields[i].0);
}

/// What a tool tells of a task: its identity, its link, its state and how often it was tried
/// again; what the task does not have is null.
pub proof fn lemma_task_is_told(t: TaskData, a: ArticleData)
    ensures
        ({
            let v = status_json(t, a);
            &&& has_entry(v, "task_id"@, Json::Text(t.id))
            &&& has_entry(v, "article_id"@, Json::Text(t.article_id))
            &&& has_entry(v, "normalized_url"@, Json::Text(a.normalized_url))
            &&& has_entry(v, "status"@, Json::Text(t.status))
            &&& has_entry(v, "retry_count"@, Json::Int(t.retry_count))
            &&& has_entry(v, "created_at"@, Json::Text(t.created_at.text))
            &&& has_entry(v, "updated_at"@, Json::Text(t.updated_at.text))
            &&& t.last_error is Some ==> has_entry(v, "last_error"@, Json::Text(t.last_error->0))
            &&& t.last_error is None ==> has_entry(v, "last_error"@, Json::Null)
            &&& t.output_path is Some ==> has_entry(v, "output_path"@, Json::Text(t.output_path->0))
            &&& t.snapshot_path is Some ==> has_entry(
                v,
                "snapshot_path"@,
                Json::Text(t.snapshot_path->0),
            )
            &&& a.title is Some ==> has_entry(v, "title"@, Json::Text(a.title->0))
            &&& t.page_kind is Some ==> has_entry(v, "page_kind"@, Json::Text(t.page_kind->0))
            &&& t.content_source is Some ==> has_entry(
                v,
                "content_source"@,
                Json::Text(t.content_source->0),
            )
        }),
{
    let fields = status_json(t, a)->Object_0;
    lemma_entry(fields, 0);
    lemma_entry(fields, 1);
    lemma_entry(fields, 2);
    lemma_entry(fields, 3);
    lemma_entry(fields, 4);
    lemma_entry(fields, 5);
    lemma_entry(fields, 6);
    lemma_entry(fields, 7);
    lemma_entry(fields, 8);
    lemma_entry(fields, 9);
    lemma_entry(fields, 10);
    lemma_entry(fields, 11);
    lemma_entry(fields, 12);
}

/// A list of tasks tells how many there are and shows each of them in its place.
pub proof fn lemma_list_is_told(rows: Seq<(TaskData, ArticleData)>, limit: int)
    ensures
        has_entry(list_json(rows, limit), "limit"@, Json::Int(limit)),
        has_entry(list_json(rows, limit), "count"@, Json::Int(rows.len() as int)),
        exists|items: Seq<Json>|
            {
                &&& #[trigger] has_entry(list_json(rows, limit), "tasks"@, Json::List(items))
                &&& items.len() == rows.len()
                &&& forall|i: int|
                    0 <= i < rows.len() ==> has_entry(
                        #[trigger] items[i],
                        "task_id"@,
                        Json::Text(rows[i].0.id),
                    ) && has_entry(items[i], "status"@, Json::Text(rows[i].0.status)) && has_entry(
                        items[i],
                        "normalized_url"@,
                        Json::Text(rows[i].1.normalized_url),
                    ) && has_entry(
                        items[i],
                        "updated_at"@,
                        Json::Text(rows[i].0.updated_at.text),
                    )
            },
{
    let fields = list_json(rows, limit)->Object_0;
    lemma_entry(fields, 0);
    lemma_entry(fields, 1);
    lemma_entry(fields, 2);
    let items = recent_items(rows);
    assert forall|i: int| 0 <= i < rows.len() implies has_entry(
        #[trigger] items[i],
        "task_id"@,
        Json::Text(rows[i].0.id),
    ) && has_entry(items[i], "status"@, Json::Text(rows[i].0.status)) && has_entry(
        items[i],
        "normalized_url"@,
        Json::Text(rows[i].1.normalized_url),
    ) && has_entry(items[i], "updated_at"@, Json::Text(rows[i].0.updated_at.text)) by {
        let f = recent_json(rows[i].0, rows[i].1)->Object_0;
        assert(items[i] == Json::Object(f));
        lemma_entry(f, 0);
        lemma_entry(f, 1);
        lemma_entry(f, 4);
        lemma_entry(f, 5);
    }
    assert(has_entry(list_json(rows, limit), "tasks"@, Json::List(items)));
}

/// The answer on a task says whether there is such a task, and if so tells of it.
pub proof fn lemma_status_answer(s: StoreData, task_id: Seq<char>)
    ensures
        has_entry(
            status_answer(s, task_id),
            "found"@,
            Json::Bool(tasks::task_row(s, task_id) is Some),
        ),
        tasks::task_row(s, task_id) matches Some((t, a)) ==> has_entry(
            status_answer(s, task_id),
            "task"@,
            status_json(t, a),
        ),
        tasks::task_row(s, task_id) is None ==> has_entry(
            status_answer(s, task_id),
            "task_id"@,
            Json::Text(task_id),
        ),
{
    let fields = status_answer(s, task_id)->Object_0;
    lemma_entry(fields, 0);
    lemma_entry(fields, 1);
}

/// The answer with an archived article holds its text and how long it is.
pub proof fn lemma_archive_answer(task_id: Seq<char>, path: Seq<char>, content: Seq<char>)
    ensures
        has_entry(archive_answer(task_id, path, content), "content"@, Json::Text(content)),
        has_entry(
            archive_answer(task_id, path, content),
            "content_chars"@,
            Json::Int(content.len() as int),
        ),
        has_entry(archive_answer(task_id, path, content), "task_id"@, Json::Text(task_id)),
        has_entry(archive_answer(task_id, path, content), "output_path"@, Json::Text(path)),
{
    let fields = archive_answer(task_id, path, content)->Object_0;
    lemma_entry(fields, 0);
    lemma_entry(fields, 1);
    lemma_entry(fields, 2);
    lemma_entry(fields, 3);
}

/// A file is read, created or written as it was asked for, and only inside the workspace;
/// nothing else touches a file.
pub proof fn lemma_steps_follow_actions(
    tools: ToolRegistry,
    s: StoreData,
    action: ToolAction,
    r: Result<ToolStep, String>,
)
    requires
        tools.executed(s, action, r),
    ensures
        r matches Ok(ToolStep::ReadFile { path }) ==> action is Read,
        r matches Ok(ToolStep::WriteFile { path, content }) ==> action is Write
            && action->Write_content@ == content@,
        r matches Ok(ToolStep::CreateFile { path, content }) ==> action is Create
            && action->Create_content@ == content@,
        r matches Ok(ToolStep::WriteFile { path, content }) ==> resolved_path(
            tools.root(),
            action->Write_path@,
        ) == Ok::<Seq<char>, Seq<char>>(path@),
        r matches Ok(ToolStep::CreateFile { path, content }) ==> resolved_path(
            tools.root(),
            action->Create_path@,
        ) == Ok::<Seq<char>, Seq<char>>(path@),
        r matches Ok(ToolStep::ReadArchive { task_id, path }) ==> action is ReadArticleArchive,
{
}

/// A blank path is refused.
pub proof fn lemma_blank_path_is_refused(root: Seq<Seq<char>>, raw: Seq<char>)
    requires
        text::is_blank(raw),
    ensures
        resolved_path(root, raw) is Err,
{
}

} // verus!
