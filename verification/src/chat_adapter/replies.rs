//! The texts that answer commands.

use crate::chat_adapter::helpers;
use crate::chat_adapter::helpers::{
    is_agent_command, is_llm_auth_error, sanitize_report_markdown_for_wechat,
};
use crate::clock;
use crate::clock::shanghai_clock;
use crate::task_store::store;
use crate::task_store::store::{ArticleData, StoreData, TaskData, TaskStore};
use crate::task_store::tasks;
use crate::task_store::types;
use crate::task_store::types::{
    Decision, LinkTaskRecord, MemoryData, RecentTaskRecord, TaskStatusRecord, UserMemoryRecord,
    WriteDecision,
};
use crate::text;
use crate::text::{
    blank, cat2, cat3, cat4, char_count, head_string, i64_text, join_strings, owned, push_text,
    same, string_or, strip_prefix, trimmed, usize_text,
};
use vstd::prelude::*;

verus! {

// ---------------------------------------------------------------------------
// Links
// ---------------------------------------------------------------------------

/// What a reply says of a link.
pub struct LinkData {
    pub url: Seq<char>,
    pub original_url: Seq<char>,
    pub article_id: Seq<char>,
    pub task_id: Seq<char>,
    pub created_new: bool,
}

pub open spec fn link_data(records: Seq<LinkTaskRecord>) -> Seq<LinkData> {
    Seq::new(
        records.len(),
        |i: int|
            LinkData {
                url: records[i].normalized_url@,
                original_url: records[i].original_url@,
                article_id: records[i].article_id@,
                task_id: records[i].task_id@,
                created_new: records[i].created_new,
            },
    )
}

pub open spec fn link_line(l: LinkData) -> Seq<char> {
    "- "@ + (if l.created_new {
        "新建"@
    } else {
        "已存在"@
    }) + " "@ + l.url + " task_id="@ + l.task_id
}

pub open spec fn link_lines(records: Seq<LinkData>) -> Seq<Seq<char>> {
    Seq::new(records.len(), |i: int| link_line(records[i]))
}

pub open spec fn failure_lines(failures: Seq<Seq<char>>) -> Seq<Seq<char>> {
    Seq::new(failures.len(), |i: int| "- 失败 "@ + failures[i])
}

pub open spec fn link_head(records: Seq<LinkData>, failures: Seq<Seq<char>>) -> Seq<Seq<char>> {
    if records.len() == 0 {
        Seq::empty()
    } else if records.len() == 1 && failures.len() == 0 {
        seq![
            if records[0].created_new {
                "已收录链接"@
            } else {
                "链接已存在"@
            },
            "url: "@ + records[0].url,
            "task_id: "@ + records[0].task_id,
        ]
    } else {
        seq!["链接处理结果:"@] + link_lines(records)
    }
}

/// The reply to links that were handed in.
pub open spec fn link_reply(records: Seq<LinkData>, failures: Seq<Seq<char>>) -> Seq<char> {
    let ls = link_head(records, failures) + failure_lines(failures);
    if ls.len() == 0 {
        "没有可入库的链接"@
    } else {
        text::join(ls, "\n"@)
    }
}

fn push_link_lines(ls: &mut Vec<String>, records: &[LinkTaskRecord])
    ensures
        text::texts(final(ls)@) == text::texts(old(ls)@) + link_lines(link_data(records@)),
{
    let ghost base = text::texts(ls@);
    let ghost want = link_lines(link_data(records@));
    let mut i: usize = 0;
    proof {
        assert(base + want.take(0) =~= base);
    }
    while i < records.len()
        invariant
            i <= records@.len(),
            want == link_lines(link_data(records@)),
            text::texts(ls@) == base + want.take(i as int),
        decreases records.len() - i,
    {
        let status = if records[i].created_new {
            "新建"
        } else {
            "已存在"
        };
        let mut line = cat3("- ", status, " ");
        line.append(records[i].normalized_url.as_str());
        line.append(" task_id=");
        line.append(records[i].task_id.as_str());
        push_text(ls, line.as_str());
        proof {
            assert(line@ == want[i as int]);
            assert((base + want.take(i as int)).push(want[i as int]) =~= base + want.take(i + 1));
        }
        i = i + 1;
    }
    proof {
        assert(want.take(i as int) =~= want);
    }
}

fn push_failure_lines(ls: &mut Vec<String>, failures: &[String])
    ensures
        text::texts(final(ls)@) == text::texts(old(ls)@) + failure_lines(text::texts(failures@)),
{
    let ghost base = text::texts(ls@);
    let ghost want = failure_lines(text::texts(failures@));
    let mut i: usize = 0;
    proof {
        assert(base + want.take(0) =~= base);
    }
    while i < failures.len()
        invariant
            i <= failures@.len(),
            want == failure_lines(text::texts(failures@)),
            text::texts(ls@) == base + want.take(i as int),
        decreases failures.len() - i,
    {
        let line = cat2("- 失败 ", failures[i].as_str());
        push_text(ls, line.as_str());
        proof {
            assert(line@ == want[i as int]);
            assert((base + want.take(i as int)).push(want[i as int]) =~= base + want.take(i + 1));
        }
        i = i + 1;
    }
    proof {
        assert(want.take(i as int) =~= want);
    }
}

pub fn build_link_submission_reply(records: &[LinkTaskRecord], failures: &[String]) -> (r: String)
    ensures
        r@ == link_reply(link_data(records@), text::texts(failures@)),
{
    let ghost data = link_data(records@);
    let mut ls: Vec<String> = Vec::new();
    if records.len() > 0 {
        if records.len() == 1 && failures.len() == 0 {
            let status = if records[0].created_new {
                "已收录链接"
            } else {
                "链接已存在"
            };
            push_text(&mut ls, status);
            let url = cat2("url: ", records[0].normalized_url.as_str());
            push_text(&mut ls, url.as_str());
            let id = cat2("task_id: ", records[0].task_id.as_str());
            push_text(&mut ls, id.as_str());
        } else {
            push_text(&mut ls, "链接处理结果:");
            proof {
                assert(text::texts(ls@) =~= seq!["链接处理结果:"@]);
            }
            push_link_lines(&mut ls, records);
        }
    }
    proof {
        assert(text::texts(ls@) =~= link_head(data, text::texts(failures@)));
    }
    push_failure_lines(&mut ls, failures);
    proof {
        assert(text::texts(ls@).len() == ls@.len());
    }
    if ls.len() == 0 {
        return owned("没有可入库的链接");
    }
    join_strings(ls.as_slice(), "\n")
}

// ---------------------------------------------------------------------------
// Tasks
// ---------------------------------------------------------------------------

/// A line for a value that is there and not blank.
pub open spec fn filled_line(label: Seq<char>, value: Option<Seq<char>>) -> Seq<Seq<char>> {
    match value {
        Some(s) if !text::is_blank(s) => seq![label + s],
        _ => Seq::empty(),
    }
}

pub open spec fn status_lines(t: TaskData, a: ArticleData) -> Seq<Seq<char>> {
    seq![
        "任务状态"@,
        "task_id: "@ + t.id,
        "url: "@ + a.normalized_url,
        "source: "@ + text::text_or(t.content_source, "unknown"@),
        "page_kind: "@ + text::text_or(t.page_kind, "unknown"@),
        "status: "@ + t.status,
        "retry_count: "@ + text::signed_decimal(t.retry_count),
        "created_at: "@ + t.created_at.text,
        "updated_at: "@ + t.updated_at.text,
    ] + filled_line("title: "@, a.title) + filled_line("output_path: "@, t.output_path)
        + filled_line("snapshot_path: "@, t.snapshot_path) + filled_line(
        "last_error: "@,
        t.last_error,
    ) + (if t.status == "awaiting_manual_input"@ {
        seq!["action_required: 请使用 补正文 "@ + t.id + " :: <content>"@]
    } else {
        Seq::empty()
    })
}

fn push_filled_line(ls: &mut Vec<String>, label: &str, value: &Option<String>)
    ensures
        text::texts(final(ls)@) == text::texts(old(ls)@) + filled_line(label@, text::opt_text(*value)),
{
    let ghost before = text::texts(ls@);
    if let Some(s) = value {
        if !blank(s.as_str()) {
            let line = cat2(label, s.as_str());
            push_text(ls, line.as_str());
            proof {
                assert(before.push(line@) =~= before + seq![line@]);
            }
            return;
        }
    }
    proof {
        assert(before + Seq::<Seq<char>>::empty() =~= before);
    }
}

pub fn build_task_status_reply(status: &TaskStatusRecord) -> (r: String)
    ensures
        forall|t: TaskData, a: ArticleData|
            tasks::status_record(*status, t, a) ==> r@ == text::join(#[trigger] status_lines(t, a), "\n"@),
{
    let mut ls: Vec<String> = Vec::new();
    push_text(&mut ls, "任务状态");
    let id = cat2("task_id: ", status.task_id.as_str());
    push_text(&mut ls, id.as_str());
    let url = cat2("url: ", status.normalized_url.as_str());
    push_text(&mut ls, url.as_str());
    let source = string_or(&status.content_source, "unknown");
    let source_line = cat2("source: ", source.as_str());
    push_text(&mut ls, source_line.as_str());
    let kind = string_or(&status.page_kind, "unknown");
    let kind_line = cat2("page_kind: ", kind.as_str());
    push_text(&mut ls, kind_line.as_str());
    let state = cat2("status: ", status.status.as_str());
    push_text(&mut ls, state.as_str());
    let count = i64_text(status.retry_count);
    let count_line = cat2("retry_count: ", count.as_str());
    push_text(&mut ls, count_line.as_str());
    let created = cat2("created_at: ", status.created_at.as_str());
    push_text(&mut ls, created.as_str());
    let updated = cat2("updated_at: ", status.updated_at.as_str());
    push_text(&mut ls, updated.as_str());
    push_filled_line(&mut ls, "title: ", &status.title);
    push_filled_line(&mut ls, "output_path: ", &status.output_path);
    push_filled_line(&mut ls, "snapshot_path: ", &status.snapshot_path);
    push_filled_line(&mut ls, "last_error: ", &status.last_error);
    if same(status.status.as_str(), "awaiting_manual_input") {
        let line = cat3("action_required: 请使用 补正文 ", status.task_id.as_str(), " :: <content>");
        push_text(&mut ls, line.as_str());
    }
    proof {
        assert forall|t: TaskData, a: ArticleData| tasks::status_record(*status, t, a) implies text::texts(ls@)
            == #[trigger] status_lines(t, a) by {
            assert(text::texts(ls@) =~= status_lines(t, a));
        }
    }
    join_strings(ls.as_slice(), "\n")
}

pub open spec fn task_line(t: TaskData, a: ArticleData) -> Seq<char> {
    "- "@ + t.status + " "@ + a.normalized_url + " source="@ + text::text_or(
        t.content_source,
        "unknown"@,
    ) + " page_kind="@ + text::text_or(t.page_kind, "unknown"@) + " task_id="@ + t.id
}

pub open spec fn task_lines(rows: Seq<(TaskData, ArticleData)>) -> Seq<Seq<char>> {
    Seq::new(rows.len(), |i: int| task_line(rows[i].0, rows[i].1))
}

/// A list of tasks under a title, or a text where there is none.
pub open spec fn task_list_reply(
    rows: Seq<(TaskData, ArticleData)>,
    title: Seq<char>,
    none: Seq<char>,
) -> Seq<char> {
    if rows.len() == 0 {
        none
    } else {
        text::join(seq![title] + task_lines(rows), "\n"@)
    }
}

fn task_list(tasks: &[RecentTaskRecord], title: &str, none: &str) -> (r: String)
    ensures
        forall|rows: Seq<(TaskData, ArticleData)>| #[trigger]
            tasks::recent_list(tasks@, rows) ==> r@ == task_list_reply(rows, title@, none@),
{
    if tasks.len() == 0 {
        return owned(none);
    }
    let mut ls: Vec<String> = Vec::new();
    ls.push(owned(title));
    let mut i: usize = 0;
    while i < tasks.len()
        invariant
            i <= tasks@.len(),
            ls@.len() == i + 1,
            ls@[0]@ == title@,
            forall|rows: Seq<(TaskData, ArticleData)>, k: int|
                #![trigger tasks::recent_list(tasks@, rows), ls@[k]]
                tasks::recent_list(tasks@, rows) && 1 <= k <= i ==> ls@[k]@ == task_line(
                    rows[k - 1].0,
                    rows[k - 1].1,
                ),
        decreases tasks.len() - i,
    {
        let source = string_or(&tasks[i].content_source, "unknown");
        let kind = string_or(&tasks[i].page_kind, "unknown");
        let mut line = cat4(
            "- ",
            tasks[i].status.as_str(),
            " ",
            tasks[i].normalized_url.as_str(),
        );
        line.append(" source=");
        line.append(source.as_str());
        line.append(" page_kind=");
        line.append(kind.as_str());
        line.append(" task_id=");
        line.append(tasks[i].task_id.as_str());
        let ghost before = ls@;
        ls.push(line);
        proof {
            assert forall|rows: Seq<(TaskData, ArticleData)>, k: int|
                #![trigger tasks::recent_list(tasks@, rows), ls@[k]]
                tasks::recent_list(tasks@, rows) && 1 <= k <= i + 1 implies ls@[k]@ == task_line(
                rows[k - 1].0,
                rows[k - 1].1,
            ) by {
                if k <= i {
                    assert(ls@[k] == before[k]);
                } else {
                    assert(tasks::recent_record(tasks@[i as int], rows[i as int].0, rows[i as int].1));
                }
            }
        }
        i = i + 1;
    }
    proof {
        assert forall|rows: Seq<(TaskData, ArticleData)>| #[trigger]
            tasks::recent_list(tasks@, rows) implies text::texts(ls@) == seq![title@] + task_lines(rows) by {
            let want = seq![title@] + task_lines(rows);
            assert(text::texts(ls@).len() == want.len());
            assert forall|k: int| 0 <= k < want.len() implies text::texts(ls@)[k] == want[k] by {
                if k > 0 {
                    assert(ls@[k]@ == task_line(rows[k - 1].0, rows[k - 1].1));
                }
            }
            assert(text::texts(ls@) =~= want);
        }
    }
    join_strings(ls.as_slice(), "\n")
}

pub fn build_recent_tasks_reply(tasks: &[RecentTaskRecord]) -> (r: String)
    ensures
        forall|rows: Seq<(TaskData, ArticleData)>| #[trigger]
            tasks::recent_list(tasks@, rows) ==> r@ == task_list_reply(rows, "最近任务:"@, "最近没有任务"@),
{
    task_list(tasks, "最近任务:", "最近没有任务")
}

pub fn build_manual_tasks_reply(tasks: &[RecentTaskRecord]) -> (r: String)
    ensures
        forall|rows: Seq<(TaskData, ArticleData)>| #[trigger]
            tasks::recent_list(tasks@, rows) ==> r@ == task_list_reply(
                rows,
                "待补录任务:"@,
                "当前没有待补录任务"@,
            ),
{
    task_list(tasks, "待补录任务:", "当前没有待补录任务")
}

/// Why a task could not be archived by hand.
pub open spec fn archive_rejection(s: StoreData, task_id: Seq<char>) -> Seq<char> {
    match tasks::task_row(s, task_id) {
        Some((t, a)) => "任务当前状态为 "@ + t.status + "，不允许人工归档: "@ + task_id,
        None => "未找到对应任务: "@ + task_id,
    }
}

pub fn build_manual_archive_rejected_reply(task_store: &TaskStore, task_id: &str) -> (r: String)
    ensures
        r@ == archive_rejection(task_store@, task_id@),
{
    match task_store.get_task_status(task_id) {
        Some(status) => cat4(
            "任务当前状态为 ",
            status.status.as_str(),
            "，不允许人工归档: ",
            task_id,
        ),
        None => cat2("未找到对应任务: ", task_id),
    }
}

// ---------------------------------------------------------------------------
// Memories
// ---------------------------------------------------------------------------

pub open spec fn memory_lines(memories: Seq<MemoryData>) -> Seq<Seq<char>> {
    Seq::new(
        memories.len(),
        |i: int| "- id: "@ + memories[i].id + " | "@ + memories[i].content,
    )
}

pub open spec fn memories_reply(memories: Seq<MemoryData>) -> Seq<char> {
    if memories.len() == 0 {
        "当前还没有保存的记忆"@
    } else {
        text::join(seq!["我的记忆:"@] + memory_lines(memories), "\n"@)
    }
}

pub fn build_user_memories_reply(memories: &[UserMemoryRecord]) -> (r: String)
    ensures
        r@ == memories_reply(store::memory_data(memories@)),
{
    if memories.len() == 0 {
        return owned("当前还没有保存的记忆");
    }
    let ghost want = memory_lines(store::memory_data(memories@));
    let mut ls: Vec<String> = Vec::new();
    push_text(&mut ls, "我的记忆:");
    let mut i: usize = 0;
    proof {
        assert(text::texts(ls@) =~= seq!["我的记忆:"@] + want.take(0));
    }
    while i < memories.len()
        invariant
            i <= memories@.len(),
            want == memory_lines(store::memory_data(memories@)),
            text::texts(ls@) == seq!["我的记忆:"@] + want.take(i as int),
        decreases memories.len() - i,
    {
        let line = cat4("- id: ", memories[i].id.as_str(), " | ", memories[i].content.as_str());
        push_text(&mut ls, line.as_str());
        proof {
            assert(line@ == want[i as int]);
            assert((seq!["我的记忆:"@] + want.take(i as int)).push(want[i as int]) =~= seq![
                "我的记忆:"@,
            ] + want.take(i + 1));
        }
        i = i + 1;
    }
    proof {
        assert(want.take(i as int) =~= want);
    }
    join_strings(ls.as_slice(), "\n")
}

/// The reply to a memory that the user asked to keep.
pub open spec fn memory_write_reply(d: Decision, content: Seq<char>) -> Seq<char> {
    match d {
        Decision::Written(_) => "已记住\n- "@ + text::trim(content),
        Decision::Skipped { content_preview, reason } => "未能记住: "@ + types::skip_name(reason),
        Decision::Promoted { id, reason } => "已提升已有记忆为显式记忆 (id: "@ + text::head(id, 8) + ")"@,
    }
}

pub fn build_memory_write_reply(decision: &WriteDecision, content: &str) -> (r: String)
    ensures
        r@ == memory_write_reply(decision@, content@),
{
    match decision {
        WriteDecision::Written(_) => {
            let core = trimmed(content);
            cat2("已记住\n- ", core.as_str())
        },
        WriteDecision::Skipped { content_preview: _, reason } => cat2("未能记住: ", reason.as_str()),
        WriteDecision::Promoted { id, reason: _ } => {
            let short = head_string(id.as_str(), 8);
            cat3("已提升已有记忆为显式记忆 (id: ", short.as_str(), ")")
        },
    }
}

/// The rest of the text behind a prefix, trimmed, where it is not blank.
pub open spec fn value_after(s: Seq<char>, prefix: Seq<char>) -> Option<Seq<char>> {
    match text::after_prefix(s, prefix) {
        Some(rest) if text::trim(rest).len() > 0 => Some(text::trim(rest)),
        _ => None,
    }
}

/// The value behind the first of these prefixes that the text has a value behind.
pub open spec fn value_after_any(s: Seq<char>, prefixes: Seq<Seq<char>>) -> Option<Seq<char>>
    decreases prefixes.len(),
{
    if prefixes.len() == 0 {
        None
    } else {
        match value_after(s, prefixes[0]) {
            Some(v) => Some(v),
            None => value_after_any(s, prefixes.drop_first()),
        }
    }
}

pub open spec fn preference_prefixes() -> Seq<Seq<char>> {
    seq!["我更喜欢"@, "我喜欢"@, "我偏好"@, "I prefer "@, "I like "@]
}

pub open spec fn topic_prefixes() -> Seq<Seq<char>> {
    seq![
        "我关注"@,
        "我在研究"@,
        "我最近在看"@,
        "我想了解"@,
        "我在做"@,
        "I am researching "@,
        "I'm researching "@,
        "I want to learn "@,
    ]
}

/// What a chat text says of the user's preferences or topics.
pub open spec fn auto_memory(input: Seq<char>) -> Option<Seq<char>> {
    let s = text::trim(input);
    match value_after_any(s, preference_prefixes()) {
        Some(v) => Some("偏好: "@ + v),
        None => match value_after_any(s, topic_prefixes()) {
            Some(v) => Some("主题: "@ + v),
            None => None,
        },
    }
}

fn find_value(s: &str, prefixes: &Vec<String>) -> (r: Option<String>)
    ensures
        text::opt_text(r) == value_after_any(s@, text::texts(prefixes@)),
{
    let ghost all = text::texts(prefixes@);
    let mut i: usize = 0;
    proof {
        assert(all.skip(0) =~= all);
    }
    while i < prefixes.len()
        invariant
            i <= prefixes@.len(),
            all == text::texts(prefixes@),
            value_after_any(s@, all) == value_after_any(s@, all.skip(i as int)),
        decreases prefixes.len() - i,
    {
        proof {
            assert(all.skip(i as int)[0] == prefixes@[i as int]@);
            assert(all.skip(i as int).drop_first() =~= all.skip(i + 1));
        }
        if let Some(rest) = strip_prefix(s, prefixes[i].as_str()) {
            let v = trimmed(rest.as_str());
            if char_count(v.as_str()) > 0 {
                return Some(v);
            }
        }
        i = i + 1;
    }
    None
}

pub fn extract_auto_memory_candidate(input: &str) -> (r: Option<String>)
    ensures
        text::opt_text(r) == auto_memory(input@),
{
    let core = trimmed(input);
    let mut preferences: Vec<String> = Vec::new();
    push_text(&mut preferences, "我更喜欢");
    push_text(&mut preferences, "我喜欢");
    push_text(&mut preferences, "我偏好");
    push_text(&mut preferences, "I prefer ");
    push_text(&mut preferences, "I like ");
    proof {
        assert(text::texts(preferences@) =~= preference_prefixes());
    }
    if let Some(v) = find_value(core.as_str(), &preferences) {
        return Some(cat2("偏好: ", v.as_str()));
    }
    let mut topics: Vec<String> = Vec::new();
    push_text(&mut topics, "我关注");
    push_text(&mut topics, "我在研究");
    push_text(&mut topics, "我最近在看");
    push_text(&mut topics, "我想了解");
    push_text(&mut topics, "我在做");
    push_text(&mut topics, "I am researching ");
    push_text(&mut topics, "I'm researching ");
    push_text(&mut topics, "I want to learn ");
    proof {
        assert(text::texts(topics@) =~= topic_prefixes());
    }
    if let Some(v) = find_value(core.as_str(), &topics) {
        return Some(cat2("主题: ", v.as_str()));
    }
    None
}

// ---------------------------------------------------------------------------
// Reports and fallbacks
// ---------------------------------------------------------------------------

/// So many characters of a report are answered at most.
pub const REPORT_REPLY_MAX_CHARS: usize = 3800;

/// The reply to a query for a report: the text of its file, without the lines that name
/// files, cut to a safe length; the summary where the file cannot be read.
pub open spec fn report_reply(content: Option<Seq<char>>, summary: Seq<char>, item_count: nat) -> Seq<
    char,
> {
    match content {
        Some(raw) => {
            let clean = helpers::sanitized_report(raw);
            if clean.len() > REPORT_REPLY_MAX_CHARS {
                text::head(clean, REPORT_REPLY_MAX_CHARS as int) + "\n\n...(已截断，共 "@ + text::decimal(
                    item_count,
                ) + " 条)"@
            } else {
                clean
            }
        },
        None => summary,
    }
}

pub fn build_report_reply(content: &Option<String>, summary: &str, item_count: usize) -> (r: String)
    ensures
        r@ == report_reply(text::opt_text(*content), summary@, item_count as nat),
{
    match content {
        Some(raw) => {
            let clean = sanitize_report_markdown_for_wechat(raw.as_str());
            if char_count(clean.as_str()) > REPORT_REPLY_MAX_CHARS {
                let start = head_string(clean.as_str(), REPORT_REPLY_MAX_CHARS);
                let count = usize_text(item_count);
                cat4(start.as_str(), "\n\n...(已截断，共 ", count.as_str(), " 条)")
            } else {
                clean
            }
        },
        None => owned(summary),
    }
}

/// A report as it was written: the file, where it could be read, and what it says in short.
#[derive(Debug, Clone)]
pub struct ReportText {
    pub content: Option<String>,
    pub summary: String,
    pub item_count: usize,
}

/// The reply to a query for a report.
pub open spec fn report_query_reply(outcome: Result<ReportText, String>, failure: Seq<char>) -> Seq<char> {
    match outcome {
        Ok(report) => report_reply(
            text::opt_text(report.content),
            report.summary@,
            report.item_count as nat,
        ),
        Err(e) => failure + e@,
    }
}

pub fn build_daily_report_query_reply(outcome: &Result<ReportText, String>) -> (r: String)
    ensures
        r@ == report_query_reply(*outcome, "生成日报失败: "@),
{
    match outcome {
        Ok(report) => build_report_reply(
            &report.content,
            report.summary.as_str(),
            report.item_count,
        ),
        Err(e) => cat2("生成日报失败: ", e.as_str()),
    }
}

pub fn build_weekly_report_query_reply(outcome: &Result<ReportText, String>) -> (r: String)
    ensures
        r@ == report_query_reply(*outcome, "生成周报失败: "@),
{
    match outcome {
        Ok(report) => build_report_reply(
            &report.content,
            report.summary.as_str(),
            report.item_count,
        ),
        Err(e) => cat2("生成周报失败: ", e.as_str()),
    }
}

/// The period that a query asks for, or the present one.
pub open spec fn asked_period(asked: Option<Seq<char>>, current: Seq<char>) -> Seq<char> {
    match asked {
        Some(s) if !text::is_blank(s) => text::trim(s),
        _ => current,
    }
}

pub fn chosen_period(asked: Option<&str>, current: &str) -> (r: String)
    ensures
        r@ == asked_period(text::opt_str(asked), current@),
{
    match asked {
        Some(s) => if blank(s) {
            owned(current)
        } else {
            trimmed(s)
        },
        None => owned(current),
    }
}

/// The list of commands.
pub fn help_text() -> (r: &'static str)
    ensures
        r@ == "可用命令:\n- hello / 你好\n- 时间\n- 帮助 / help\n- 发送链接或 收藏 <url>\n- 状态 <task_id>\n- 最近任务\n- 日报 [YYYY-MM-DD] / 今日整理\n- 周报 [YYYY-WW]\n- 记住 <content>\n- 我的记忆\n- 有用 <memory_id>\n- 重试 <task_id>\n- /context [text]\n- /context verbose [text]\n- 其他文字我会 echo 回复"@,
{
    "可用命令:\n- hello / 你好\n- 时间\n- 帮助 / help\n- 发送链接或 收藏 <url>\n- 状态 <task_id>\n- 最近任务\n- 日报 [YYYY-MM-DD] / 今日整理\n- 周报 [YYYY-WW]\n- 记住 <content>\n- 我的记忆\n- 有用 <memory_id>\n- 重试 <task_id>\n- /context [text]\n- /context verbose [text]\n- 其他文字我会 echo 回复"
}

/// The reply where the agent failed. A command reports the failure, and so does an error
/// of the credentials; other texts are answered by rule.
pub open spec fn fallback(user_text: Seq<char>, err: Seq<char>, time: Seq<char>) -> Seq<char> {
    if helpers::agent_command(user_text) {
        "执行失败: "@ + err
    } else if helpers::llm_auth_error(err) {
        "LLM 鉴权失败（401），请检查 MOONSHOT_* / DEEPSEEK_* / OPENAI_* 配置"@
    } else if user_text == "hello"@ || user_text == "你好"@ {
        "你好！我是 iLink Bot Demo（Rust版），有什么可以帮你的？"@
    } else if user_text == "时间"@ || user_text == "几点了"@ {
        "现在是 "@ + time
    } else if user_text == "帮助"@ || user_text == "help"@ {
        "可用命令:\n- hello / 你好\n- 时间\n- 帮助 / help\n- 发送链接或 收藏 <url>\n- 状态 <task_id>\n- 最近任务\n- 日报 [YYYY-MM-DD] / 今日整理\n- 周报 [YYYY-WW]\n- 记住 <content>\n- 我的记忆\n- 有用 <memory_id>\n- 重试 <task_id>\n- /context [text]\n- /context verbose [text]\n- 其他文字我会 echo 回复"@
    } else {
        "Echo: "@ + user_text
    }
}

/// The reply by rule, with the time of day as a text.
pub fn fallback_with_time(user_text: &str, err: &str, time: &str) -> (r: String)
    ensures
        r@ == fallback(user_text@, err@, time@),
{
    if is_agent_command(user_text) {
        return cat2("执行失败: ", err);
    }
    if is_llm_auth_error(err) {
        return owned("LLM 鉴权失败（401），请检查 MOONSHOT_* / DEEPSEEK_* / OPENAI_* 配置");
    }
    if same(user_text, "hello") || same(user_text, "你好") {
        return owned("你好！我是 iLink Bot Demo（Rust版），有什么可以帮你的？");
    }
    if same(user_text, "时间") || same(user_text, "几点了") {
        return cat2("现在是 ", time);
    }
    if same(user_text, "帮助") || same(user_text, "help") {
        return owned(help_text());
    }
    cat2("Echo: ", user_text)
}

/// The reply by rule at a second.
pub fn fallback_reply(user_text: &str, err: &str, now_secs: i64) -> (r: String)
    requires
        clock::civil_secs(now_secs as int),
    ensures
        r@ == fallback(user_text@, err@, clock::shanghai_text(now_secs as int)),
{
    let time = shanghai_clock(now_secs);
    fallback_with_time(user_text, err, time.as_str())
}

// ---------------------------------------------------------------------------
// Laws
// ---------------------------------------------------------------------------

/// The reply to links has a line for each link and for each failure, in their order: which
/// line tells of a link shows its address, its task and whether it is new.
pub proof fn lemma_every_link_is_answered(records: Seq<LinkData>, failures: Seq<Seq<char>>)
    requires
        records.len() + failures.len() > 1,
    ensures
        exists|ls: Seq<Seq<char>>|
            {
                let n = if records.len() > 0 {
                    1int
                } else {
                    0
                };
                &&& #[trigger] text::join(ls, "\n"@) == link_reply(records, failures)
                &&& ls.len() == n + records.len() + failures.len()
                &&& forall|i: int|
                    0 <= i < records.len() ==> text::contains(#[trigger] ls[n + i], records[i].url)
                        && text::contains(ls[n + i], records[i].task_id) && text::contains(
                        ls[n + i],
                        if records[i].created_new {
                            "新建"@
                        } else {
                            "已存在"@
                        },
                    )
                &&& forall|i: int|
                    0 <= i < failures.len() ==> text::contains(
                        #[trigger] ls[n + records.len() + i],
                        failures[i],
                    ) && text::contains(ls[n + records.len() + i], "失败"@)
            },
{
    let ls = link_head(records, failures) + failure_lines(failures);
    let n = if records.len() > 0 {
        1int
    } else {
        0
    };
    assert(text::join(ls, "\n"@) == link_reply(records, failures));
    assert forall|i: int| 0 <= i < records.len() implies text::contains(
        #[trigger] ls[n + i],
        records[i].url,
    ) && text::contains(ls[n + i], records[i].task_id) && text::contains(
        ls[n + i],
        if records[i].created_new {
            "新建"@
        } else {
            "已存在"@
        },
    ) by {
        let l = records[i];
        let word = if l.created_new {
            "新建"@
        } else {
            "已存在"@
        };
        assert(ls[n + i] == link_line(l));
        let line = link_line(l);
        text::lemma_holds("- "@, word, " "@ + l.url + " task_id="@ + l.task_id);
        assert("- "@ + word + (" "@ + l.url + " task_id="@ + l.task_id) =~= line);
        text::lemma_holds("- "@ + word + " "@, l.url, " task_id="@ + l.task_id);
        assert("- "@ + word + " "@ + l.url + (" task_id="@ + l.task_id) =~= line);
        text::lemma_holds("- "@ + word + " "@ + l.url + " task_id="@, l.task_id, Seq::empty());
        assert(line + Seq::<char>::empty() =~= line);
    }
    assert forall|i: int| 0 <= i < failures.len() implies text::contains(
        #[trigger] ls[n + records.len() + i],
        failures[i],
    ) && text::contains(ls[n + records.len() + i], "失败"@) by {
        let line = "- 失败 "@ + failures[i];
        assert(ls[n + records.len() + i] == line);
        text::lemma_holds("- 失败 "@, failures[i], Seq::empty());
        assert(line + Seq::<char>::empty() =~= line);
        reveal_strlit("- 失败 ");
        reveal_strlit("失败");
        assert(line.subrange(2, 4) =~= "失败"@);
        assert(text::occurs_at(line, "失败"@, 2));
    }
}

/// A single link that went well is answered with its address and its task.
pub proof fn lemma_single_link_is_answered(l: LinkData)
    ensures
        text::contains(link_reply(seq![l], Seq::empty()), l.url),
        text::contains(link_reply(seq![l], Seq::empty()), l.task_id),
        text::starts_with(
            link_reply(seq![l], Seq::empty()),
            if l.created_new {
                "已收录链接"@
            } else {
                "链接已存在"@
            },
        ),
{
    let none = Seq::<Seq<char>>::empty();
    let ls = link_head(seq![l], none) + failure_lines(none);
    assert(ls.len() == 3);
    text::lemma_join_places(ls, "\n"@, 0);
    text::lemma_join_holds(ls, "\n"@, 1);
    text::lemma_join_holds(ls, "\n"@, 2);
    let r = text::join(ls, "\n"@);
    text::lemma_holds("url: "@, l.url, Seq::empty());
    assert("url: "@ + l.url + Seq::<char>::empty() =~= ls[1]);
    text::lemma_holds_within(r, ls[1], l.url);
    text::lemma_holds("task_id: "@, l.task_id, Seq::empty());
    assert("task_id: "@ + l.task_id + Seq::<char>::empty() =~= ls[2]);
    text::lemma_holds_within(r, ls[2], l.task_id);
}

/// A list of tasks has a line for each task, in their order and behind the title. It shows
/// the task's status, address and identity.
pub proof fn lemma_every_task_is_listed(
    rows: Seq<(TaskData, ArticleData)>,
    title: Seq<char>,
    none: Seq<char>,
)
    ensures
        rows.len() == 0 ==> task_list_reply(rows, title, none) == none,
        rows.len() > 0 ==> exists|ls: Seq<Seq<char>>|
            {
                &&& #[trigger] text::join(ls, "\n"@) == task_list_reply(rows, title, none)
                &&& ls.len() == rows.len() + 1
                &&& ls[0] == title
                &&& forall|i: int|
                    0 <= i < rows.len() ==> text::contains(#[trigger] ls[i + 1], rows[i].0.status)
                        && text::contains(ls[i + 1], rows[i].1.normalized_url) && text::contains(
                        ls[i + 1],
                        rows[i].0.id,
                    )
            },
{
    if rows.len() > 0 {
        let ls = seq![title] + task_lines(rows);
        assert(text::join(ls, "\n"@) == task_list_reply(rows, title, none));
        assert forall|i: int| 0 <= i < rows.len() implies text::contains(
            #[trigger] ls[i + 1],
            rows[i].0.status,
        ) && text::contains(ls[i + 1], rows[i].1.normalized_url) && text::contains(
            ls[i + 1],
            rows[i].0.id,
        ) by {
            let t = rows[i].0;
            let a = rows[i].1;
            let line = task_line(t, a);
            assert(ls[i + 1] == line);
            let rest = " source="@ + text::text_or(t.content_source, "unknown"@) + " page_kind="@
                + text::text_or(t.page_kind, "unknown"@) + " task_id="@;
            text::lemma_holds("- "@, t.status, " "@ + a.normalized_url + rest + t.id);
            assert("- "@ + t.status + (" "@ + a.normalized_url + rest + t.id) =~= line);
            text::lemma_holds("- "@ + t.status + " "@, a.normalized_url, rest + t.id);
            assert("- "@ + t.status + " "@ + a.normalized_url + (rest + t.id) =~= line);
            text::lemma_holds(
                "- "@ + t.status + " "@ + a.normalized_url + rest,
                t.id,
                Seq::empty(),
            );
            assert("- "@ + t.status + " "@ + a.normalized_url + rest + t.id + Seq::<char>::empty()
                =~= line);
        }
    }
}

/// The list of memories has a line for each memory, in their order, with its identity and
/// its content.
pub proof fn lemma_every_memory_is_listed(memories: Seq<MemoryData>)
    requires
        memories.len() > 0,
    ensures
        exists|ls: Seq<Seq<char>>|
            {
                &&& #[trigger] text::join(ls, "\n"@) == memories_reply(memories)
                &&& ls.len() == memories.len() + 1
                &&& forall|i: int|
                    0 <= i < memories.len() ==> text::contains(#[trigger] ls[i + 1], memories[i].id)
                        && text::ends_with(ls[i + 1], memories[i].content)
            },
{
    let ls = seq!["我的记忆:"@] + memory_lines(memories);
    assert(text::join(ls, "\n"@) == memories_reply(memories));
    assert forall|i: int| 0 <= i < memories.len() implies text::contains(
        #[trigger] ls[i + 1],
        memories[i].id,
    ) && text::ends_with(ls[i + 1], memories[i].content) by {
        let m = memories[i];
        let line = "- id: "@ + m.id + " | "@ + m.content;
        assert(ls[i + 1] == line);
        text::lemma_holds("- id: "@, m.id, " | "@ + m.content);
        assert("- id: "@ + m.id + (" | "@ + m.content) =~= line);
        let at = line.len() - m.content.len();
        assert(line.subrange(at, at + m.content.len()) =~= m.content);
    }
}

/// The line of a task's state at a place stands in the reply.
proof fn lemma_status_line(t: TaskData, a: ArticleData, i: int, line: Seq<char>)
    requires
        0 <= i < status_lines(t, a).len(),
        status_lines(t, a)[i] == line,
    ensures
        text::contains(text::join(status_lines(t, a), "\n"@), line),
{
    text::lemma_join_holds(status_lines(t, a), "\n"@, i);
}

/// The state of a task is told with all that is known of it: its address, its state, how
/// often it was tried again and when it was last changed.
pub proof fn lemma_status_is_told(t: TaskData, a: ArticleData)
    ensures
        ({
            let r = text::join(status_lines(t, a), "\n"@);
            &&& text::contains(r, "task_id: "@ + t.id)
            &&& text::contains(r, "url: "@ + a.normalized_url)
            &&& text::contains(r, "status: "@ + t.status)
            &&& text::contains(r, "retry_count: "@ + text::signed_decimal(t.retry_count))
            &&& text::contains(r, "created_at: "@ + t.created_at.text)
            &&& text::contains(r, "updated_at: "@ + t.updated_at.text)
            &&& t.content_source is Some ==> text::contains(r, "source: "@ + t.content_source->0)
            &&& t.page_kind is Some ==> text::contains(r, "page_kind: "@ + t.page_kind->0)
        }),
{
    lemma_status_line(t, a, 1, "task_id: "@ + t.id);
    lemma_status_line(t, a, 2, "url: "@ + a.normalized_url);
    lemma_status_line(t, a, 3, "source: "@ + text::text_or(t.content_source, "unknown"@));
    lemma_status_line(t, a, 4, "page_kind: "@ + text::text_or(t.page_kind, "unknown"@));
    lemma_status_line(t, a, 5, "status: "@ + t.status);
    lemma_status_line(t, a, 6, "retry_count: "@ + text::signed_decimal(t.retry_count));
    lemma_status_line(t, a, 7, "created_at: "@ + t.created_at.text);
    lemma_status_line(t, a, 8, "updated_at: "@ + t.updated_at.text);
}

/// Where a task has a title, a file, a snapshot or a last error, its state tells of it.
pub proof fn lemma_status_tells_what_is_there(t: TaskData, a: ArticleData)
    ensures
        ({
            let r = text::join(status_lines(t, a), "\n"@);
            &&& a.title is Some && !text::is_blank(a.title->0) ==> text::contains(
                r,
                "title: "@ + a.title->0,
            )
            &&& t.output_path is Some && !text::is_blank(t.output_path->0) ==> text::contains(
                r,
                "output_path: "@ + t.output_path->0,
            )
            &&& t.snapshot_path is Some && !text::is_blank(t.snapshot_path->0) ==> text::contains(
                r,
                "snapshot_path: "@ + t.snapshot_path->0,
            )
            &&& t.last_error is Some && !text::is_blank(t.last_error->0) ==> text::contains(
                r,
                "last_error: "@ + t.last_error->0,
            )
        }),
{
    let f1 = filled_line("title: "@, a.title);
    let f2 = filled_line("output_path: "@, t.output_path);
    let f3 = filled_line("snapshot_path: "@, t.snapshot_path);
    let f4 = filled_line("last_error: "@, t.last_error);
    let n = 9int;
    if f1.len() > 0 {
        lemma_status_line(t, a, n, f1[0]);
    }
    if f2.len() > 0 {
        lemma_status_line(t, a, n + f1.len(), f2[0]);
    }
    if f3.len() > 0 {
        lemma_status_line(t, a, n + f1.len() + f2.len(), f3[0]);
    }
    if f4.len() > 0 {
        lemma_status_line(t, a, n + f1.len() + f2.len() + f3.len(), f4[0]);
    }
}

/// A task that waits for its text by hand tells how to hand it in.
pub proof fn lemma_status_asks_for_text(t: TaskData, a: ArticleData)
    requires
        t.status == "awaiting_manual_input"@,
    ensures
        text::ends_with(
            text::join(status_lines(t, a), "\n"@),
            "补正文 "@ + t.id + " :: <content>"@,
        ),
{
    let ls = status_lines(t, a);
    let line = "action_required: 请使用 补正文 "@ + t.id + " :: <content>"@;
    assert(ls.last() == line);
    let want = "补正文 "@ + t.id + " :: <content>"@;
    reveal_strlit("action_required: 请使用 补正文 ");
    reveal_strlit("补正文 ");
    let head = "action_required: 请使用 补正文 "@.take(21);
    assert("action_required: 请使用 补正文 "@ =~= head + "补正文 "@);
    assert(line =~= head + want);
    let r = text::join(ls, "\n"@);
    assert(r == text::join(ls.drop_last(), "\n"@) + "\n"@ + line);
    let at = r.len() - want.len();
    assert(r.subrange(at, at + want.len()) =~= want);
}

/// What a text says behind one of these openings is remembered as a preference.
pub open spec fn opens_preference(p: Seq<char>) -> bool {
    p == "我更喜欢"@ || p == "我喜欢"@ || p == "我偏好"@ || p == "I prefer "@ || p == "I like "@
}

/// What a text says behind one of these openings is remembered as a topic.
pub open spec fn opens_topic(p: Seq<char>) -> bool {
    p == "我关注"@ || p == "我在研究"@ || p == "我最近在看"@ || p == "我想了解"@ || p == "我在做"@ || p
        == "I am researching "@ || p == "I'm researching "@ || p == "I want to learn "@
}

proof fn lemma_value_is_found(s: Seq<char>, prefixes: Seq<Seq<char>>, i: int)
    requires
        0 <= i < prefixes.len(),
        value_after(s, prefixes[i]) is Some,
        forall|j: int| 0 <= j < i ==> value_after(s, #[trigger] prefixes[j]) is None,
    ensures
        value_after_any(s, prefixes) == value_after(s, prefixes[i]),
    decreases prefixes.len(),
{
    if i > 0 {
        let rest = prefixes.drop_first();
        assert(value_after(s, prefixes[0]) is None);
        assert forall|j: int| 0 <= j < i - 1 implies value_after(s, #[trigger] rest[j]) is None by {
            assert(rest[j] == prefixes[j + 1]);
        }
        lemma_value_is_found(s, rest, i - 1);
    }
}

proof fn lemma_no_value_is_found(s: Seq<char>, prefixes: Seq<Seq<char>>)
    requires
        forall|j: int| 0 <= j < prefixes.len() ==> value_after(s, #[trigger] prefixes[j]) is None,
    ensures
        value_after_any(s, prefixes) is None,
    decreases prefixes.len(),
{
    if prefixes.len() > 0 {
        let rest = prefixes.drop_first();
        assert(value_after(s, prefixes[0]) is None);
        assert forall|j: int| 0 <= j < rest.len() implies value_after(
            s,
            #[trigger] rest[j],
        ) is None by {
            assert(rest[j] == prefixes[j + 1]);
        }
        lemma_no_value_is_found(s, rest);
    }
}

proof fn lemma_openings()
    ensures
        ({
            let all = preference_prefixes() + topic_prefixes();
            &&& all.len() == 13
            &&& forall|i: int| 0 <= i < 13 ==> (#[trigger] all[i]).len() >= 3
            &&& forall|i: int, j: int|
                0 <= i < 13 && 0 <= j < 13 && i != j ==> (#[trigger] all[i])[0] != (
                #[trigger] all[j])[0] || all[i][1] != all[j][1] || all[i][2] != all[j][2]
        }),
{
    reveal_strlit("我更喜欢");
    reveal_strlit("我喜欢");
    reveal_strlit("我偏好");
    reveal_strlit("I prefer ");
    reveal_strlit("I like ");
    reveal_strlit("我关注");
    reveal_strlit("我在研究");
    reveal_strlit("我最近在看");
    reveal_strlit("我想了解");
    reveal_strlit("我在做");
    reveal_strlit("I am researching ");
    reveal_strlit("I'm researching ");
    reveal_strlit("I want to learn ");
}

proof fn lemma_one_opening(p: Seq<char>, rest: Seq<char>, i: int, j: int)
    requires
        0 <= i < 13,
        0 <= j < 13,
        i != j,
        p == (preference_prefixes() + topic_prefixes())[i],
    ensures
        value_after(p + rest, (preference_prefixes() + topic_prefixes())[j]) is None,
{
    lemma_openings();
    let all = preference_prefixes() + topic_prefixes();
    let q = all[j];
    let s = p + rest;
    assert(all[i].len() >= 3 && all[j].len() >= 3);
    if text::after_prefix(s, q) is Some {
        assert(s.subrange(0, q.len() as int) == q);
        assert(q[0] == s[0] && q[1] == s[1] && q[2] == s[2]);
        assert(p[0] == s[0] && p[1] == s[1] && p[2] == s[2]);
    }
}

/// What a chat text says behind the opening of a preference or of a topic is what is
/// remembered of it, without the white space around it.
pub proof fn lemma_opening_is_remembered(input: Seq<char>, p: Seq<char>, rest: Seq<char>)
    requires
        text::trim(input) == p + rest,
        !text::is_blank(rest),
    ensures
        opens_preference(p) ==> auto_memory(input) == Some("偏好: "@ + text::trim(rest)),
        opens_topic(p) ==> auto_memory(input) == Some("主题: "@ + text::trim(rest)),
{
    let s = p + rest;
    let a = preference_prefixes();
    let b = topic_prefixes();
    let all = a + b;
    text::lemma_after_prefix(p, rest);
    if opens_preference(p) {
        assert(a[0] == "我更喜欢"@ && a[1] == "我喜欢"@ && a[2] == "我偏好"@ && a[3] == "I prefer "@ && a[4]
            == "I like "@);
        let i = choose|i: int| 0 <= i < 5 && #[trigger] a[i] == p;
        assert(all[i] == a[i]);
        assert forall|j: int| 0 <= j < i implies value_after(s, #[trigger] a[j]) is None by {
            assert(all[j] == a[j]);
            lemma_one_opening(p, rest, i, j);
        }
        lemma_value_is_found(s, a, i);
    }
    if opens_topic(p) {
        assert(b[0] == "我关注"@ && b[1] == "我在研究"@ && b[2] == "我最近在看"@ && b[3] == "我想了解"@ && b[4]
            == "我在做"@ && b[5] == "I am researching "@ && b[6] == "I'm researching "@ && b[7]
            == "I want to learn "@);
        let i = choose|i: int| 0 <= i < 8 && #[trigger] b[i] == p;
        assert(all[i + 5] == b[i]);
        assert forall|j: int| 0 <= j < a.len() implies value_after(s, #[trigger] a[j]) is None by {
            assert(all[j] == a[j]);
            lemma_one_opening(p, rest, i + 5, j);
        }
        lemma_no_value_is_found(s, a);
        assert forall|j: int| 0 <= j < i implies value_after(s, #[trigger] b[j]) is None by {
            assert(all[j + 5] == b[j]);
            lemma_one_opening(p, rest, i + 5, j + 5);
        }
        lemma_value_is_found(s, b, i);
        assert(!opens_preference(p)) by {
            lemma_openings();
            assert(all[0] == "我更喜欢"@ && all[1] == "我喜欢"@ && all[2] == "我偏好"@ && all[3]
                == "I prefer "@ && all[4] == "I like "@);
            assert(all[i + 5] == p);
        }
    }
}

/// A chat text with none of these openings leaves nothing to remember.
pub proof fn lemma_nothing_is_remembered(input: Seq<char>)
    requires
        forall|p: Seq<char>|
            opens_preference(p) || opens_topic(p) ==> !#[trigger] text::starts_with(
                text::trim(input),
                p,
            ),
    ensures
        auto_memory(input) is None,
{
    let s = text::trim(input);
    let a = preference_prefixes();
    let b = topic_prefixes();
    assert forall|j: int| 0 <= j < a.len() implies value_after(s, #[trigger] a[j]) is None by {
        assert(opens_preference(a[j]));
        assert(!text::starts_with(s, a[j]));
    }
    assert forall|j: int| 0 <= j < b.len() implies value_after(s, #[trigger] b[j]) is None by {
        assert(opens_topic(b[j]));
        assert(!text::starts_with(s, b[j]));
    }
    lemma_no_value_is_found(s, a);
    lemma_no_value_is_found(s, b);
}

/// A report is shown whole where it is short enough. A longer one is cut at the end, and
/// what is left of it says so with the number of its entries.
pub proof fn lemma_long_report_is_cut(raw: Seq<char>, summary: Seq<char>, n: nat)
    ensures
        ({
            let clean = helpers::sanitized_report(raw);
            let r = report_reply(Some(raw), summary, n);
            &&& clean.len() <= 3800 ==> r == clean
            &&& clean.len() > 3800 ==> {
                &&& r.len() > 3800
                &&& r.take(3800) == clean.take(
                    3800,
                )
                &&& text::contains(r.skip(3800), text::decimal(n))
            }
            &&& report_reply(None, summary, n) == summary
        }),
{
    let clean = helpers::sanitized_report(raw);
    let r = report_reply(Some(raw), summary, n);
    let m = REPORT_REPLY_MAX_CHARS as int;
    if clean.len() > m {
        text::lemma_decimal_is_digits(n);
        let h = text::head(clean, m);
        assert(h =~= clean.take(m));
        let x = "\n\n...(已截断，共 "@;
        assert(r =~= h + (x + text::decimal(n) + " 条)"@));
        assert(r.take(m) =~= h);
        assert(r.skip(m) =~= x + text::decimal(n) + " 条)"@);
        text::lemma_holds(x, text::decimal(n), " 条)"@);
    }
}

/// Where the agent failed, a request for a tool is answered with the error; other texts get a
/// greeting, the time or the text itself back, and wrong credentials are told first.
pub proof fn lemma_answers_by_rule(user_text: Seq<char>, err: Seq<char>, time: Seq<char>)
    ensures
        helpers::agent_command(user_text) ==> text::ends_with(fallback(user_text, err, time), err),
        !helpers::agent_command(user_text) && (text::contains(err, "HTTP 401"@) || text::contains(
            err,
            "Authentication Fails"@,
        )) ==> fallback(user_text, err, time)
            == "LLM 鉴权失败（401），请检查 MOONSHOT_* / DEEPSEEK_* / OPENAI_* 配置"@,
        !helpers::agent_command(user_text) && !helpers::llm_auth_error(err) && (user_text
            == "时间"@ || user_text == "几点了"@) ==> text::ends_with(
            fallback(user_text, err, time),
            time,
        ),
        !helpers::agent_command(user_text) && !helpers::llm_auth_error(err) && user_text != "hello"@
            && user_text != "你好"@ && user_text != "时间"@ && user_text != "几点了"@ && user_text
            != "帮助"@ && user_text != "help"@ ==> text::ends_with(
            fallback(user_text, err, time),
            user_text,
        ),
{
    let a = "执行失败: "@ + err;
    assert(a.subrange(a.len() - err.len(), a.len() as int) =~= err);
    let b = "现在是 "@ + time;
    assert(b.subrange(b.len() - time.len(), b.len() as int) =~= time);
    let c = "Echo: "@ + user_text;
    assert(c.subrange(c.len() - user_text.len(), c.len() as int) =~= user_text);
    reveal_strlit("hello");
    reveal_strlit("你好");
    reveal_strlit("时间");
    reveal_strlit("几点了");
    assert("hello"@.len() == 5);
    assert("你好"@.len() == 2 && "你好"@[0] == '你');
    assert("时间"@.len() == 2 && "时间"@[0] == '时');
    assert("几点了"@.len() == 3);
}

/// The answer to a request to remember something: what is remembered, or why it is not.
pub proof fn lemma_memory_answers(d: Decision, content: Seq<char>)
    ensures
        d is Written ==> text::ends_with(memory_write_reply(d, content), text::trim(content)),
        d matches Decision::Skipped { content_preview, reason } ==> text::ends_with(
            memory_write_reply(d, content),
            types::skip_name(reason),
        ),
        d matches Decision::Promoted { id, reason } ==> text::contains(
            memory_write_reply(d, content),
            text::head(id, 8),
        ),
{
    match d {
        Decision::Written(_) => {
            let t = text::trim(content);
            let r = "已记住\n- "@ + t;
            assert(r.subrange(r.len() - t.len(), r.len() as int) =~= t);
        },
        Decision::Skipped { content_preview, reason } => {
            let n = types::skip_name(reason);
            let r = "未能记住: "@ + n;
            assert(r.subrange(r.len() - n.len(), r.len() as int) =~= n);
        },
        Decision::Promoted { id, reason } => {
            text::lemma_holds("已提升已有记忆为显式记忆 (id: "@, text::head(id, 8), ")"@);
        },
    }
}

/// A report is that of the day or the week that was asked for, and the present one where none
/// was.
pub proof fn lemma_asked_period(asked: Seq<char>, current: Seq<char>)
    ensures
        !text::is_blank(asked) ==> asked_period(Some(asked), current) == text::trim(asked),
        text::is_blank(asked) ==> asked_period(Some(asked), current) == current,
        asked_period(None, current) == current,
{
}

/// A report that could not be made is answered with the reason.
pub proof fn lemma_report_failures(e: String, failure: Seq<char>)
    ensures
        text::ends_with(report_query_reply(Err(e), failure), e@),
        text::starts_with(report_query_reply(Err(e), failure), failure),
{
    let r = failure + e@;
    assert(r.subrange(r.len() - e@.len(), r.len() as int) =~= e@);
    assert(r.subrange(0, failure.len() as int) =~= failure);
}

/// A text for a task that cannot take it is answered with the task, and with its state where
/// there is such a task.
pub proof fn lemma_rejection_names_the_task(s: StoreData, task_id: Seq<char>)
    ensures
        text::ends_with(archive_rejection(s, task_id), task_id),
        tasks::task_row(s, task_id) matches Some((t, a)) ==> text::contains(
            archive_rejection(s, task_id),
            t.status,
        ),
{
    let r = archive_rejection(s, task_id);
    assert(r.subrange(r.len() - task_id.len(), r.len() as int) =~= task_id);
    if let Some((t, a)) = tasks::task_row(s, task_id) {
        text::lemma_holds("任务当前状态为 "@, t.status, "，不允许人工归档: "@ + task_id);
        assert("任务当前状态为 "@ + t.status + ("，不允许人工归档: "@ + task_id) =~= r);
    }
}

} // verus!
