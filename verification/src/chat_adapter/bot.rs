//! What the bot does with an inbound message.

use crate::chat_adapter::ingest;
use crate::chat_adapter::ingest::{InboundData, SeenIds, WireMessage, read_message};
use crate::chat_adapter::replies;
use crate::chat_adapter::replies::{
    build_manual_tasks_reply, build_memory_write_reply, build_recent_tasks_reply,
    build_task_status_reply, build_user_memories_reply, extract_auto_memory_candidate,
};
use crate::chat_adapter::session_flow;
use crate::chat_adapter::session_flow::{persist_session_snapshot, settle_flush};
use crate::command_router;
use crate::command_router::{Route, RouteIntent, route_text};
use crate::rows;
use crate::session_router;
use crate::session_router::{Buffered, FlushReason, SessionEvent, SessionRouter};
use crate::task_store::memory;
use crate::task_store::memory::WriteInput;
use crate::task_store::sessions;
use crate::task_store::store::{MessageData, Stamp, StampData, StoreData, TaskStore, TokenData};
use crate::task_store::tasks;
use crate::task_store::tasks::{FilterData, TaskOrder};
use crate::task_store::types::{MemoryData, MemoryType, MemoryWriteState, TaskContentRecord};
use crate::text;
use crate::text::{blank, cat2, char_count, join_strings, owned, same, trimmed};
use vstd::prelude::*;

verus! {

/// The context token of a user that was seen last.
#[derive(Debug)]
pub struct TokenEntry {
    pub user_id: String,
    pub context_token: String,
}

/// What the bot keeps in memory.
#[derive(Debug)]
pub struct ChatBot {
    pub router: SessionRouter,
    pub seen: SeenIds,
    pub tokens: Vec<TokenEntry>,
}

/// The time of a step, by the wall clock and by the monotonic one, and the id of a memory
/// that may be written in it.
#[derive(Debug)]
pub struct Tick {
    pub now: Stamp,
    pub now_ms: i64,
    pub mono: u128,
    pub memory_id: String,
}

/// What is left to do after a message.
#[derive(Debug, PartialEq, Eq)]
pub enum ChatAction {
    Nothing,
    /// Send a text.
    Reply(String),
    /// Hand a task to the executor, then send a text.
    ReplyAndEnqueue { reply: String, task_id: String },
    /// Archive a text that the user gave for a task.
    ArchiveManual { task: TaskContentRecord, content: String },
    /// Record links.
    SubmitLinks { urls: Vec<String> },
    /// Answer with a daily report.
    DailyReport { day: Option<String> },
    /// Answer with a preview of the context.
    PreviewContext { merged_text: String, message_ids: Vec<String> },
    /// Let the agent answer a flushed session.
    Flush { user_id: String, merged_text: String, message_ids: Vec<String>, reason: FlushReason },
}

pub open spec fn token_entries(v: Seq<TokenEntry>) -> Seq<(Seq<char>, Seq<char>)> {
    Seq::new(v.len(), |i: int| (v[i].user_id@, v[i].context_token@))
}

pub open spec fn entry_for(user_id: Seq<char>) -> spec_fn((Seq<char>, Seq<char>)) -> bool {
    |e: (Seq<char>, Seq<char>)| e.0 == user_id
}

pub open spec fn replies(action: ChatAction, text: Seq<char>) -> bool {
    action matches ChatAction::Reply(s) && s@ == text
}

// ---------------------------------------------------------------------------
// Commands
// ---------------------------------------------------------------------------

/// The store with the memory that a chat text gives rise to.
pub open spec fn auto_stored(s: StoreData, user_id: Seq<char>, text: Seq<char>, id: Seq<char>, now: Seq<char>) -> StoreData {
    match replies::auto_memory(text) {
        Some(content) => StoreData {
            memories: memory::memories_after(
                s.memories,
                WriteInput {
                    user_id,
                    content,
                    memory_type: MemoryType::Auto,
                    priority: 60,
                    id,
                    now,
                },
            ),
            ..s
        },
        None => s,
    }
}

/// Keeps what a chat text says of the user's preferences or topics.
pub fn maybe_persist_auto_memory(store: &mut TaskStore, user_id: &str, text: &str, id: &str, now: &str)
    ensures
        final(store)@ == auto_stored(old(store)@, user_id@, text@, id@, now@),
{
    if let Some(memory) = extract_auto_memory_candidate(text) {
        let mut state = MemoryWriteState::default();
        let _ = store.govern_memory_write(
            user_id,
            memory.as_str(),
            MemoryType::Auto,
            60,
            &mut state,
            id,
            now,
        );
    }
}

/// The texts of a preview: the buffer of the user and what the command adds.
pub open spec fn preview_parts(b: Option<Buffered>, extra: Option<Seq<char>>) -> Seq<Seq<char>> {
    (match b {
        Some(x) if !text::is_blank(session_router::merged(x)) => seq![text::trim(session_router::merged(x))],
        _ => Seq::empty(),
    }) + (match extra {
        Some(s) if !text::is_blank(s) => seq![text::trim(s)],
        _ => Seq::empty(),
    })
}

pub open spec fn preview_answered(b: Option<Buffered>, extra: Option<Seq<char>>, action: ChatAction) -> bool {
    let parts = preview_parts(b, extra);
    if parts.len() == 0 {
        replies(action, "当前没有待提交会话。可直接发送 `/context 你的问题` 预览一次上下文装配。"@)
    } else {
        action matches ChatAction::PreviewContext { merged_text, message_ids } && merged_text@
            == text::join(parts, "\n"@) && text::texts(message_ids@) == (match b {
            Some(x) => x.message_ids,
            None => Seq::empty(),
        })
    }
}

fn handle_context_debug_query(router: &SessionRouter, user_id: &str, extra: &Option<String>) -> (r:
    ChatAction)
    ensures
        preview_answered(router.lookup(user_id@), text::opt_text(*extra), r),
{
    let ghost b = router.lookup(user_id@);
    let mut parts: Vec<String> = Vec::new();
    let mut message_ids: Vec<String> = Vec::new();
    proof {
        assert(text::texts(message_ids@) =~= Seq::<Seq<char>>::empty());
    }
    if let Some(snapshot) = router.snapshot(user_id) {
        if !blank(snapshot.merged_text.as_str()) {
            let part = trimmed(snapshot.merged_text.as_str());
            parts.push(part);
        }
        message_ids = snapshot.message_ids;
    }
    if let Some(s) = extra {
        if !blank(s.as_str()) {
            let part = trimmed(s.as_str());
            parts.push(part);
        }
    }
    proof {
        assert(text::texts(parts@) =~= preview_parts(b, text::opt_text(*extra)));
        assert(text::texts(parts@).len() == parts@.len());
    }
    if parts.len() == 0 {
        return ChatAction::Reply(
            owned("当前没有待提交会话。可直接发送 `/context 你的问题` 预览一次上下文装配。"),
        );
    }
    ChatAction::PreviewContext { merged_text: join_strings(parts.as_slice(), "\n"), message_ids }
}

/// The outcome of a retry.
pub open spec fn retry_answered(
    s0: StoreData,
    s1: StoreData,
    task_id: Seq<char>,
    now: StampData,
    action: ChatAction,
) -> bool {
    match rows::first_where(s0.tasks, tasks::task_with_id(task_id)) {
        None => s1 == s0 && replies(action, "未找到对应任务: "@ + task_id),
        Some(i) => {
            let t = s0.tasks[i];
            if !tasks::retryable(t) {
                s1 == s0 && replies(
                    action,
                    "重试任务失败: "@ + ("任务当前状态为 "@ + t.status + "，不允许重试"@),
                )
            } else if t.retry_count >= i64::MAX || tasks::article_of(s0.articles, t.article_id) is None {
                s1 == s0 && replies(action, "重试任务失败: "@ + "读取重试后的任务状态失败"@)
            } else {
                &&& s1 == (StoreData { tasks: s0.tasks.update(i, tasks::retried(t, now)), ..s0 })
                &&& action matches ChatAction::ReplyAndEnqueue { reply, task_id: id } && reply@
                    == "任务已重置并加入执行队列: "@ + task_id && id@ == task_id
            }
        },
    }
}

fn handle_task_retry(store: &mut TaskStore, task_id: &str, now: &Stamp) -> (r: ChatAction)
    ensures
        retry_answered(old(store)@, final(store)@, task_id@, now@, r),
{
    match store.retry_task(task_id, now) {
        Ok(Some(_)) => ChatAction::ReplyAndEnqueue {
            reply: cat2("任务已重置并加入执行队列: ", task_id),
            task_id: owned(task_id),
        },
        Ok(None) => ChatAction::Reply(cat2("未找到对应任务: ", task_id)),
        Err(e) => {
            let m = e.message();
            ChatAction::Reply(cat2("重试任务失败: ", m.as_str()))
        },
    }
}

/// The memories with one of them marked as useful.
pub open spec fn marked_useful(memories: Seq<MemoryData>, memory_id: Seq<char>, now: Seq<char>) -> Seq<MemoryData> {
    Seq::new(
        memories.len(),
        |i: int| memory::fed(memories[i], memory::useful_once(memories[i].id, memory_id), now),
    )
}

pub open spec fn owns_memory(memories: Seq<MemoryData>, user_id: Seq<char>, memory_id: Seq<char>) -> bool {
    exists|i: int|
        0 <= i < memories.len() && memory::owned_active(user_id, memory_id)(#[trigger] memories[i])
}

pub open spec fn useful_fits(memories: Seq<MemoryData>, memory_id: Seq<char>) -> bool {
    forall|i: int|
        0 <= i < memories.len() ==> memory::feedback_fits(
            #[trigger] memories[i],
            memory::useful_once(memories[i].id, memory_id),
        )
}

/// The outcome of a mark that a memory was useful.
pub open spec fn useful_answered(
    s0: StoreData,
    s1: StoreData,
    user_id: Seq<char>,
    memory_id: Seq<char>,
    now: Seq<char>,
    action: ChatAction,
) -> bool {
    if !owns_memory(s0.memories, user_id, memory_id) {
        s1 == s0 && replies(action, "标记记忆有用失败: "@ + ("未找到该记忆，或无权标记有用: "@ + memory_id))
    } else if !useful_fits(s0.memories, memory_id) {
        s1 == s0 && replies(action, "标记记忆有用失败: "@ + "更新 useful/use_count 失败"@)
    } else {
        s1 == (StoreData { memories: marked_useful(s0.memories, memory_id, now), ..s0 }) && replies(
            action,
            "已标记记忆有用: "@ + memory_id,
        )
    }
}

fn handle_user_memory_useful(store: &mut TaskStore, user_id: &str, memory_id: &str, now: &str) -> (r:
    ChatAction)
    ensures
        useful_answered(old(store)@, final(store)@, user_id@, memory_id@, now@, r),
{
    let ghost s = store@;
    match store.confirm_memory_useful(user_id, memory_id, now) {
        Ok(_) => {
            proof {
                assert(store@.memories =~= marked_useful(s.memories, memory_id@, now@));
            }
            ChatAction::Reply(cat2("已标记记忆有用: ", memory_id))
        },
        Err(e) => {
            let m = e.message();
            ChatAction::Reply(cat2("标记记忆有用失败: ", m.as_str()))
        },
    }
}

/// The outcome of a request to hide a memory.
pub open spec fn suppress_answered(
    s0: StoreData,
    s1: StoreData,
    user_id: Seq<char>,
    memory_id: Seq<char>,
    action: ChatAction,
) -> bool {
    if owns_memory(s0.memories, user_id, memory_id) {
        s1 == (StoreData { memories: memory::suppressed(s0.memories, user_id, memory_id), ..s0 }) && replies(
            action,
            "已屏蔽记忆: "@ + memory_id,
        )
    } else {
        s1 == s0 && replies(action, "屏蔽记忆失败: "@ + ("未找到该记忆，或无权屏蔽: "@ + memory_id))
    }
}

fn handle_user_memory_suppress(store: &mut TaskStore, user_id: &str, memory_id: &str) -> (r: ChatAction)
    ensures
        suppress_answered(old(store)@, final(store)@, user_id@, memory_id@, r),
{
    match store.suppress_memory(user_id, memory_id) {
        Ok(_) => ChatAction::Reply(cat2("已屏蔽记忆: ", memory_id)),
        Err(e) => {
            let m = e.message();
            ChatAction::Reply(cat2("屏蔽记忆失败: ", m.as_str()))
        },
    }
}

fn handle_user_memory_write(store: &mut TaskStore, user_id: &str, content: &str, id: &str, now: &str) -> (r:
    ChatAction)
    ensures
        ({
            let w = WriteInput {
                user_id: user_id@,
                content: content@,
                memory_type: MemoryType::Explicit,
                priority: 100,
                id: id@,
                now: now@,
            };
            &&& final(store)@ == (StoreData {
                memories: memory::memories_after(old(store)@.memories, w),
                ..old(store)@
            })
            &&& replies(r, replies::memory_write_reply(memory::governed(old(store)@.memories, w), content@))
        }),
{
    let mut state = MemoryWriteState::default();
    let decision = store.govern_memory_write(
        user_id,
        content,
        MemoryType::Explicit,
        100,
        &mut state,
        id,
        now,
    );
    ChatAction::Reply(build_memory_write_reply(&decision, content))
}

fn handle_task_status_query(store: &TaskStore, task_id: &str) -> (r: ChatAction)
    ensures
        match tasks::task_row(store@, task_id@) {
            Some((t, a)) => replies(r, text::join(replies::status_lines(t, a), "\n"@)),
            None => replies(r, "未找到对应任务: "@ + task_id@),
        },
{
    match store.get_task_status(task_id) {
        Some(status) => {
            let reply = build_task_status_reply(&status);
            proof {
                let (t, a) = tasks::task_row(store@, task_id@)->0;
                assert(tasks::status_record(status, t, a));
                assert(reply@ == text::join(replies::status_lines(t, a), "\n"@));
            }
            ChatAction::Reply(reply)
        },
        None => ChatAction::Reply(cat2("未找到对应任务: ", task_id)),
    }
}

fn handle_recent_tasks_query(store: &TaskStore) -> (r: ChatAction)
    ensures
        replies(
            r,
            replies::task_list_reply(
                tasks::listing(store@, FilterData::Any, TaskOrder::RecentFirst, 5),
                "最近任务:"@,
                "最近没有任务"@,
            ),
        ),
{
    match store.list_recent_tasks(5) {
        Ok(tasks) => ChatAction::Reply(build_recent_tasks_reply(tasks.as_slice())),
        Err(e) => {
            let m = e.message();
            ChatAction::Reply(cat2("查询最近任务失败: ", m.as_str()))
        },
    }
}

fn handle_manual_tasks_query(store: &TaskStore) -> (r: ChatAction)
    ensures
        replies(
            r,
            replies::task_list_reply(
                tasks::listing(
                    store@,
                    FilterData::Status("awaiting_manual_input"@),
                    TaskOrder::RecentFirst,
                    5,
                ),
                "待补录任务:"@,
                "当前没有待补录任务"@,
            ),
        ),
{
    match store.list_manual_tasks(5) {
        Ok(tasks) => ChatAction::Reply(build_manual_tasks_reply(tasks.as_slice())),
        Err(e) => {
            let m = e.message();
            ChatAction::Reply(cat2("查询待补录任务失败: ", m.as_str()))
        },
    }
}

fn handle_user_memories_query(store: &TaskStore, user_id: &str) -> (r: ChatAction)
    ensures
        replies(r, replies::memories_reply(memory::first_rows(memory::ranked_memories(store@.memories, user_id@), 10))),
{
    match store.list_user_memories(user_id, 10) {
        Ok(memories) => ChatAction::Reply(build_user_memories_reply(memories.as_slice())),
        Err(e) => {
            let m = e.message();
            ChatAction::Reply(cat2("查询记忆失败: ", m.as_str()))
        },
    }
}

fn handle_manual_content(store: &TaskStore, task_id: &str, content: String) -> (r: ChatAction)
    ensures
        match tasks::task_row(store@, task_id@) {
            Some((t, a)) => r matches ChatAction::ArchiveManual { task, content: c }
                && tasks::content_record(task, t, a) && c@ == content@,
            None => replies(r, "未找到对应任务: "@ + task_id@),
        },
{
    match store.get_task_content(task_id) {
        Some(task) => ChatAction::ArchiveManual { task, content },
        None => ChatAction::Reply(cat2("未找到对应任务: ", task_id)),
    }
}

// ---------------------------------------------------------------------------
// Dispatch
// ---------------------------------------------------------------------------

/// The outcome of a route: the router and the store before and after, and what is left
/// to do.
pub open spec fn dispatched(
    r0: SessionRouter,
    s0: StoreData,
    r1: SessionRouter,
    s1: StoreData,
    user_id: Seq<char>,
    route: Route,
    message_id: Option<Seq<char>>,
    tick: Tick,
    action: ChatAction,
) -> bool {
    let now = tick.now.text@;
    match session_router::chat_text(route) {
        Some((text, commit)) => {
            let b = session_router::with_message(r0.lookup(user_id), user_id, text, message_id, tick.mono as nat);
            let noted = auto_stored(s0, user_id, text, tick.memory_id@, now);
            &&& r1.wf()
            &&& r1.merge_timeout == r0.merge_timeout
            &&& forall|u: Seq<char>| u != user_id ==> #[trigger] r1.lookup(u) == r0.lookup(u)
            &&& if commit {
                &&& r1.lookup(user_id) is None
                &&& s1 == session_flow::flush_stored(noted, user_id, session_router::merged(b), now)
                &&& action matches ChatAction::Flush { user_id: u, merged_text, message_ids, reason }
                    && u@ == user_id && merged_text@ == session_router::merged(b) && text::texts(message_ids@)
                    == b.message_ids && reason == FlushReason::Commit
            } else {
                &&& r1.lookup(user_id) == Some(b)
                &&& s1 == session_flow::buffer_stored(noted, Some(b), user_id, now)
                &&& action is Nothing
            }
        },
        None => r1 == r0 && command_answered(r0, s0, s1, user_id, route, tick, action),
    }
}

/// The outcome of a command.
pub open spec fn command_answered(
    router: SessionRouter,
    s0: StoreData,
    s1: StoreData,
    user_id: Seq<char>,
    route: Route,
    tick: Tick,
    action: ChatAction,
) -> bool {
    let now = tick.now.text@;
    match route {
        Route::ManualContentSubmission { task_id, content } => s1 == s0 && match tasks::task_row(s0, task_id) {
            Some((t, a)) => action matches ChatAction::ArchiveManual { task, content: c }
                && tasks::content_record(task, t, a) && c@ == content,
            None => replies(action, "未找到对应任务: "@ + task_id),
        },
        Route::TaskRetryRequest { task_id } => retry_answered(s0, s1, task_id, tick.now@, action),
        Route::ManualTasksQuery => s1 == s0 && replies(
            action,
            replies::task_list_reply(
                tasks::listing(
                    s0,
                    FilterData::Status("awaiting_manual_input"@),
                    TaskOrder::RecentFirst,
                    5,
                ),
                "待补录任务:"@,
                "当前没有待补录任务"@,
            ),
        ),
        Route::RecentTasksQuery => s1 == s0 && replies(
            action,
            replies::task_list_reply(
                tasks::listing(s0, FilterData::Any, TaskOrder::RecentFirst, 5),
                "最近任务:"@,
                "最近没有任务"@,
            ),
        ),
        Route::UserMemoryWrite { content } => {
            let w = WriteInput {
                user_id,
                content,
                memory_type: MemoryType::Explicit,
                priority: 100,
                id: tick.memory_id@,
                now,
            };
            &&& s1 == (StoreData { memories: memory::memories_after(s0.memories, w), ..s0 })
            &&& replies(action, replies::memory_write_reply(memory::governed(s0.memories, w), content))
        },
        Route::UserMemoryUseful { memory_id } => useful_answered(
            s0,
            s1,
            user_id,
            memory_id,
            now,
            action,
        ),
        Route::UserMemorySuppress { memory_id } => suppress_answered(
            s0,
            s1,
            user_id,
            memory_id,
            action,
        ),
        Route::UserMemoriesQuery => s1 == s0 && replies(
            action,
            replies::memories_reply(memory::first_rows(memory::ranked_memories(s0.memories, user_id), 10)),
        ),
        Route::ContextDebugQuery { text } => s1 == s0 && preview_answered(
            router.lookup(user_id),
            text,
            action,
        ),
        Route::DailyReportQuery { day } => {
            &&& s1 == s0
            &&& action matches ChatAction::DailyReport { day: d } && text::opt_text(d) == day
        },
        Route::TaskStatusQuery { task_id } => s1 == s0 && match tasks::task_row(s0, task_id) {
            Some((t, a)) => replies(action, text::join(replies::status_lines(t, a), "\n"@)),
            None => replies(action, "未找到对应任务: "@ + task_id),
        },
        Route::LinkSubmission { urls } => {
            &&& s1 == s0
            &&& action matches ChatAction::SubmitLinks { urls: u } && text::texts(u@) == urls
        },
        _ => s1 == s0 && action is Nothing,
    }
}

fn handle_chat(
    router: &mut SessionRouter,
    store: &mut TaskStore,
    user_id: &str,
    intent: RouteIntent,
    message_id: Option<String>,
    tick: &Tick,
) -> (r: ChatAction)
    requires
        old(router).wf(),
        !text::is_blank(user_id@),
        session_router::chat_text(intent@) is Some || intent is Ignore,
    ensures
        dispatched(
            *old(router),
            old(store)@,
            *final(router),
            final(store)@,
            user_id@,
            intent@,
            text::opt_text(message_id),
            *tick,
            r,
        ),
{
    let mut keep = false;
    match &intent {
        RouteIntent::ChatContinue { text } => {
            keep = true;
            maybe_persist_auto_memory(
                store,
                user_id,
                text.as_str(),
                tick.memory_id.as_str(),
                tick.now.text.as_str(),
            );
        },
        RouteIntent::ChatPending { text } => {
            keep = true;
            maybe_persist_auto_memory(
                store,
                user_id,
                text.as_str(),
                tick.memory_id.as_str(),
                tick.now.text.as_str(),
            );
        },
        RouteIntent::ChatCommit { text } => {
            maybe_persist_auto_memory(
                store,
                user_id,
                text.as_str(),
                tick.memory_id.as_str(),
                tick.now.text.as_str(),
            );
        },
        _ => {},
    }
    let event = router.on_intent_with_message(user_id, intent, message_id, tick.mono);
    if keep {
        persist_session_snapshot(store, router, user_id, tick.now.text.as_str());
    }
    match event {
        SessionEvent::FlushNow { user_id: u, merged_text, message_ids, reason } => {
            settle_flush(store, u.as_str(), merged_text.as_str(), tick.now.text.as_str());
            ChatAction::Flush { user_id: u, merged_text, message_ids, reason }
        },
        SessionEvent::Noop => ChatAction::Nothing,
    }
}

/// Acts on a route.
pub fn dispatch(
    router: &mut SessionRouter,
    store: &mut TaskStore,
    user_id: &str,
    intent: RouteIntent,
    message_id: Option<String>,
    tick: &Tick,
) -> (r: ChatAction)
    requires
        old(router).wf(),
        !text::is_blank(user_id@),
    ensures
        final(router).wf(),
        dispatched(
            *old(router),
            old(store)@,
            *final(router),
            final(store)@,
            user_id@,
            intent@,
            text::opt_text(message_id),
            *tick,
            r,
        ),
{
    let now = tick.now.text.as_str();
    match intent {
        RouteIntent::ManualContentSubmission { task_id, content } => handle_manual_content(
            store,
            task_id.as_str(),
            content,
        ),
        RouteIntent::ManualTasksQuery => handle_manual_tasks_query(store),
        RouteIntent::TaskRetryRequest { task_id } => handle_task_retry(
            store,
            task_id.as_str(),
            &tick.now,
        ),
        RouteIntent::RecentTasksQuery => handle_recent_tasks_query(store),
        RouteIntent::UserMemoriesQuery => handle_user_memories_query(store, user_id),
        RouteIntent::ContextDebugQuery { text } => handle_context_debug_query(
            router,
            user_id,
            &text,
        ),
        RouteIntent::UserMemoryWrite { content } => handle_user_memory_write(
            store,
            user_id,
            content.as_str(),
            tick.memory_id.as_str(),
            now,
        ),
        RouteIntent::UserMemoryUseful { memory_id } => handle_user_memory_useful(
            store,
            user_id,
            memory_id.as_str(),
            now,
        ),
        RouteIntent::UserMemorySuppress { memory_id } => handle_user_memory_suppress(
            store,
            user_id,
            memory_id.as_str(),
        ),
        RouteIntent::DailyReportQuery { day } => ChatAction::DailyReport { day },
        RouteIntent::TaskStatusQuery { task_id } => handle_task_status_query(
            store,
            task_id.as_str(),
        ),
        RouteIntent::LinkSubmission { urls } => ChatAction::SubmitLinks { urls },
        other => handle_chat(router, store, user_id, other, message_id, tick),
    }
}

// ---------------------------------------------------------------------------
// Messages
// ---------------------------------------------------------------------------

/// The tokens and the store after the token of a message was noted.
pub open spec fn tokens_noted(tokens: Seq<(Seq<char>, Seq<char>)>, m: InboundData) -> Seq<(Seq<char>, Seq<char>)> {
    if m.context_token.len() == 0 {
        tokens
    } else {
        rows::put_row(tokens, entry_for(m.user_id), (m.user_id, m.context_token))
    }
}

pub open spec fn token_stored(s: StoreData, m: InboundData, now: Seq<char>) -> StoreData {
    if m.context_token.len() == 0 {
        s
    } else {
        StoreData {
            context_tokens: rows::put_row(
                s.context_tokens,
                sessions::token_of(m.user_id),
                TokenData { user_id: m.user_id, context_token: m.context_token, updated_at: now },
            ),
            ..s
        }
    }
}

pub open spec fn message_stored(s: StoreData, m: InboundData, now: Seq<char>) -> StoreData {
    StoreData {
        messages: s.messages.push(
            MessageData {
                message_id: m.message_id,
                from_user_id: m.user_id,
                text: m.text,
                received_at: now,
            },
        ),
        ..s
    }
}

pub open spec fn message_known(s: StoreData, m: InboundData) -> bool {
    rows::found(s.messages, sessions::message_with_id(m.message_id)) is Some
}

/// The outcome of an inbound message. Its token is noted in any case. A message without
/// text, and one that was seen before, has no other effect.
pub open spec fn message_handled(
    b0: ChatBot,
    s0: StoreData,
    b1: ChatBot,
    s1: StoreData,
    msg: WireMessage,
    tick: Tick,
    action: ChatAction,
) -> bool {
    let now = tick.now.text@;
    match ingest::inbound(msg, tick.now_ms as int) {
        None => b1 == b0 && s1 == s0 && action is Nothing,
        Some(m) => {
            let noted = token_stored(s0, m, now);
            &&& token_entries(b1.tokens@) == tokens_noted(token_entries(b0.tokens@), m)
            &&& if m.text.len() == 0 || message_known(noted, m) {
                b1.router == b0.router && b1.seen == b0.seen && s1 == noted && action is Nothing
            } else if b0.seen.ids().contains(m.message_id) {
                b1.router == b0.router && b1.seen.ids() == b0.seen.ids() && s1 == message_stored(
                    noted,
                    m,
                    now,
                ) && action is Nothing
            } else {
                &&& b1.seen.ids() == ingest::seen_after(b0.seen.ids(), m.message_id)
                &&& dispatched(
                    b0.router,
                    message_stored(noted, m, now),
                    b1.router,
                    s1,
                    m.user_id,
                    command_router::route(m.text),
                    if text::is_blank(m.message_id) {
                        None
                    } else {
                        Some(m.message_id)
                    },
                    tick,
                    action,
                )
            }
        },
    }
}

impl ChatBot {
    pub open spec fn wf(&self) -> bool {
        self.router.wf() && self.seen.wf()
    }

    pub fn new(merge_timeout: u128) -> (r: Self)
        ensures
            r.wf(),
            r.router.merge_timeout == merge_timeout,
            forall|u: Seq<char>| #[trigger] r.router.lookup(u) is None,
            r.seen.ids() == Seq::<Seq<char>>::empty(),
            token_entries(r.tokens@) == Seq::<(Seq<char>, Seq<char>)>::empty(),
    {
        let r = ChatBot {
            router: SessionRouter::new(merge_timeout),
            seen: SeenIds::new(),
            tokens: Vec::new(),
        };
        proof {
            assert(token_entries(r.tokens@) =~= Seq::<(Seq<char>, Seq<char>)>::empty());
        }
        r
    }

    fn token_position(&self, user_id: &str) -> (r: Option<usize>)
        ensures
            match r {
                Some(i) => rows::first_where(token_entries(self.tokens@), entry_for(user_id@)) == Some(
                    i as int,
                ) && i < self.tokens@.len(),
                None => rows::first_where(token_entries(self.tokens@), entry_for(user_id@)) is None,
            },
    {
        let ghost rows = token_entries(self.tokens@);
        let ghost p = entry_for(user_id@);
        let mut i: usize = 0;
        while i < self.tokens.len()
            invariant
                i <= self.tokens@.len(),
                rows == token_entries(self.tokens@),
                p == entry_for(user_id@),
                forall|k: int| 0 <= k < i ==> !p(#[trigger] rows[k]),
            decreases self.tokens.len() - i,
        {
            if same(self.tokens[i].user_id.as_str(), user_id) {
                proof {
                    assert(p(rows[i as int]));
                    rows::lemma_first_is(rows, p, i as int);
                }
                return Some(i);
            }
            i = i + 1;
        }
        proof {
            rows::lemma_first_none(rows, p);
        }
        None
    }

    /// Notes the token of a user.
    fn note_token(&mut self, user_id: &str, context_token: &str)
        ensures
            final(self).router == old(self).router,
            final(self).seen == old(self).seen,
            token_entries(final(self).tokens@) == rows::put_row(
                token_entries(old(self).tokens@),
                entry_for(user_id@),
                (user_id@, context_token@),
            ),
    {
        let ghost rows = token_entries(self.tokens@);
        let e = TokenEntry { user_id: owned(user_id), context_token: owned(context_token) };
        match self.token_position(user_id) {
            Some(i) => {
                self.tokens.set(i, e);
            },
            None => {
                self.tokens.push(e);
            },
        }
        proof {
            assert(token_entries(self.tokens@) =~= rows::put_row(
                rows,
                entry_for(user_id@),
                (user_id@, context_token@),
            ));
        }
    }

    /// The token for a reply to a user: the one seen last, else the stored one.
    pub fn reply_token(&self, store: &TaskStore, user_id: &str) -> (r: Option<String>)
        ensures
            text::opt_text(r) == (match rows::found(token_entries(self.tokens@), entry_for(user_id@)) {
                Some(e) => Some(e.1),
                None => match rows::found(store@.context_tokens, sessions::token_of(user_id@)) {
                    Some(row) => Some(row.context_token),
                    None => None,
                },
            }),
    {
        match self.token_position(user_id) {
            Some(i) => Some(owned(self.tokens[i].context_token.as_str())),
            None => store.get_context_token(user_id),
        }
    }

    /// Whether a token of the user was seen.
    pub fn has_token(&self, user_id: &str) -> (r: bool)
        ensures
            r == (rows::found(token_entries(self.tokens@), entry_for(user_id@)) is Some),
    {
        self.token_position(user_id).is_some()
    }

    /// Records a message in the store and in memory. Returns whether it is new to both.
    pub fn mark_seen(
        &mut self,
        store: &mut TaskStore,
        id: &str,
        from_user_id: &str,
        text: &str,
        now: &str,
    ) -> (r: bool)
        requires
            old(self).wf(),
        ensures
            ({
                let m = InboundData {
                    user_id: from_user_id@,
                    context_token: Seq::empty(),
                    text: text@,
                    message_id: id@,
                };
                &&& final(self).wf()
                &&& final(self).router == old(self).router
                &&& final(self).tokens == old(self).tokens
                &&& if message_known(old(store)@, m) {
                    !r && final(store)@ == old(store)@ && final(self).seen == old(self).seen
                } else {
                    &&& r == !old(self).seen.ids().contains(id@)
                    &&& final(store)@ == message_stored(old(store)@, m, now@)
                    &&& final(self).seen.ids() == ingest::seen_after(old(self).seen.ids(), id@)
                }
            }),
    {
        if !store.record_inbound_message(id, from_user_id, text, now) {
            return false;
        }
        self.seen.insert(id)
    }

    /// Takes an inbound message: notes its token, leaves out what was seen before, and
    /// acts on its text.
    pub fn handle_message(&mut self, store: &mut TaskStore, msg: &WireMessage, tick: &Tick) -> (r:
        ChatAction)
        requires
            old(self).wf(),
        ensures
            final(self).wf(),
            message_handled(
                *old(self),
                old(store)@,
                *final(self),
                final(store)@,
                *msg,
                *tick,
                r,
            ),
    {
        let ghost b0 = *self;
        let ghost s0 = store@;
        let now = tick.now.text.as_str();
        let m = match read_message(msg, tick.now_ms) {
            Some(m) => m,
            None => {
                return ChatAction::Nothing;
            },
        };
        proof {
            let wire = ingest::proper(*msg);
            text::lemma_trim_idempotent(wire.from_user_id@);
            text::lemma_trim_idempotent(wire.context_token@);
        }
        if char_count(m.context_token.as_str()) > 0 {
            self.note_token(m.user_id.as_str(), m.context_token.as_str());
            let _ = store.upsert_context_token(m.user_id.as_str(), m.context_token.as_str(), now);
        }
        proof {
            assert(store@ == token_stored(s0, m@, now@));
        }
        if char_count(m.text.as_str()) == 0 {
            return ChatAction::Nothing;
        }
        if !self.mark_seen(store, m.message_id.as_str(), m.user_id.as_str(), m.text.as_str(), now) {
            return ChatAction::Nothing;
        }
        let message_id = if blank(m.message_id.as_str()) {
            None
        } else {
            Some(owned(m.message_id.as_str()))
        };
        let intent = route_text(m.text.as_str());
        dispatch(&mut self.router, store, m.user_id.as_str(), intent, message_id, tick)
    }
}

// ---------------------------------------------------------------------------
// Laws of messages
// ---------------------------------------------------------------------------

/// What a message leads to keeps all messages that are recorded.
proof fn lemma_dispatch_keeps_messages(
    r0: SessionRouter,
    s0: StoreData,
    r1: SessionRouter,
    s1: StoreData,
    user_id: Seq<char>,
    route: Route,
    message_id: Option<Seq<char>>,
    tick: Tick,
    action: ChatAction,
)
    requires
        dispatched(r0, s0, r1, s1, user_id, route, message_id, tick, action),
    ensures
        s1.messages == s0.messages,
{
}

/// A message that is delivered again is not acted on again: after it was handled, another
/// delivery of it only notes its token.
pub proof fn lemma_redelivery_has_no_effect(
    b0: ChatBot,
    s0: StoreData,
    b1: ChatBot,
    s1: StoreData,
    b2: ChatBot,
    s2: StoreData,
    msg: WireMessage,
    tick: Tick,
    later: Tick,
    first: ChatAction,
    second: ChatAction,
)
    requires
        message_handled(b0, s0, b1, s1, msg, tick, first),
        message_handled(b1, s1, b2, s2, msg, later, second),
        ingest::inbound(msg, tick.now_ms as int) == ingest::inbound(msg, later.now_ms as int),
        ingest::inbound(msg, tick.now_ms as int) is Some,
    ensures
        second is Nothing,
        b2.router == b1.router,
        s2 == token_stored(s1, ingest::inbound(msg, tick.now_ms as int)->0, later.now.text@),
{
    let m = ingest::inbound(msg, tick.now_ms as int)->0;
    let now = tick.now.text@;
    let noted = token_stored(s0, m, now);
    if m.text.len() > 0 {
        let p = sessions::message_with_id(m.message_id);
        if message_known(noted, m) {
        } else if b0.seen.ids().contains(m.message_id) {
            lemma_recorded_is_known(noted, m, now);
        } else {
            lemma_recorded_is_known(noted, m, now);
            lemma_dispatch_keeps_messages(
                b0.router,
                message_stored(noted, m, now),
                b1.router,
                s1,
                m.user_id,
                command_router::route(m.text),
                if text::is_blank(m.message_id) {
                    None
                } else {
                    Some(m.message_id)
                },
                tick,
                first,
            );
        }
    }
}

proof fn lemma_recorded_is_known(s: StoreData, m: InboundData, now: Seq<char>)
    ensures
        message_known(message_stored(s, m, now), m),
{
    let rows = message_stored(s, m, now).messages;
    let p = sessions::message_with_id(m.message_id);
    rows::lemma_first_where(rows, p);
    assert(p(rows[rows.len() - 1]));
}

// ---------------------------------------------------------------------------
// Laws
// ---------------------------------------------------------------------------

/// The last token of a user is the one that is kept for replies, and a message of another
/// user, or one without a token, does not change it.
pub proof fn lemma_last_token_is_kept(
    tokens: Seq<(Seq<char>, Seq<char>)>,
    m: InboundData,
    user_id: Seq<char>,
)
    ensures
        m.user_id == user_id && m.context_token.len() > 0 ==> rows::found(
            tokens_noted(tokens, m),
            entry_for(user_id),
        ) == Some((user_id, m.context_token)),
        m.user_id != user_id || m.context_token.len() == 0 ==> rows::found(
            tokens_noted(tokens, m),
            entry_for(user_id),
        ) == rows::found(tokens, entry_for(user_id)),
{
    if m.context_token.len() > 0 {
        let row = (m.user_id, m.context_token);
        rows::lemma_put_found(tokens, entry_for(m.user_id), row);
        if m.user_id != user_id {
            rows::lemma_put_other(tokens, entry_for(m.user_id), row, entry_for(user_id));
        }
    }
}

/// A preview shows what the user has said so far, and then what the command adds; blank texts
/// are left out.
pub proof fn lemma_preview(b: Buffered, extra: Seq<char>)
    ensures
        ({
            let said = text::trim(session_router::merged(b));
            let both = text::join(preview_parts(Some(b), Some(extra)), "\n"@);
            &&& said.len() > 0 && !text::is_blank(extra) ==> both == said + "\n"@ + text::trim(
                extra,
            )
            &&& said.len() > 0 && text::is_blank(extra) ==> both == said
            &&& said.len() == 0 && !text::is_blank(extra) ==> both == text::trim(extra)
            &&& said.len() > 0 ==> text::join(preview_parts(Some(b), None), "\n"@) == said
            &&& !text::is_blank(extra) ==> text::join(preview_parts(None, Some(extra)), "\n"@)
                == text::trim(extra)
        }),
{
    let said = text::trim(session_router::merged(b));
    let none = Seq::<Seq<char>>::empty();
    let more = text::trim(extra);
    assert(seq![said] + seq![more] =~= seq![said, more]);
    assert(seq![said, more].drop_last() =~= seq![said]);
    assert(seq![said] + none =~= seq![said]);
    assert(none + seq![more] =~= seq![more]);
    assert(text::join(seq![said], "\n"@) == said);
    assert(text::join(seq![more], "\n"@) == more);
    assert(text::join(seq![said, more], "\n"@) == said + "\n"@ + more);
}

/// A memory that is marked as useful counts one more use, and the others stay as they are.
pub proof fn lemma_useful_is_counted(
    memories: Seq<MemoryData>,
    memory_id: Seq<char>,
    now: Seq<char>,
    i: int,
)
    requires
        0 <= i < memories.len(),
    ensures
        ({
            let after = marked_useful(memories, memory_id, now);
            &&& after.len() == memories.len()
            &&& memories[i].id == memory_id ==> after[i].use_count == memories[i].use_count + 1
                && after[i].useful && after[i].last_used_at == Some(now) && after[i].content
                == memories[i].content && after[i].priority == memories[i].priority
            &&& memories[i].id != memory_id ==> after[i] == memories[i]
        }),
{
}

/// The message is kept behind the others with its text, its sender and its id, and it is
/// known from then on.
pub proof fn lemma_message_is_known(s: StoreData, m: InboundData, now: Seq<char>)
    ensures
        message_known(message_stored(s, m, now), m),
        message_stored(s, m, now).messages.last().text == m.text,
        message_stored(s, m, now).messages.last().from_user_id == m.user_id,
        message_stored(s, m, now).messages.drop_last() == s.messages,
{
    let after = message_stored(s, m, now).messages;
    assert(after.drop_last() =~= s.messages);
    let p = sessions::message_with_id(m.message_id);
    rows::lemma_first_where(after, p);
    assert(p(after[after.len() - 1]));
}

/// A retry that is granted puts the task back to the start, counts the retry and hands the
/// task to the queue; the other tasks stay as they are. One that is not granted changes
/// nothing.
pub proof fn lemma_retry_outcome(
    s0: StoreData,
    s1: StoreData,
    task_id: Seq<char>,
    now: StampData,
    action: ChatAction,
    k: int,
)
    requires
        retry_answered(s0, s1, task_id, now, action),
        0 <= k < s0.tasks.len(),
    ensures
        !(action is ReplyAndEnqueue) ==> s1 == s0 && action is Reply,
        action matches ChatAction::ReplyAndEnqueue { reply, task_id: id } ==> {
            &&& id@ == task_id
            &&& text::ends_with(reply@, task_id)
            &&& s1.tasks.len() == s0.tasks.len()
            &&& s0.tasks[k].id != task_id ==> s1.tasks[k] == s0.tasks[k]
            &&& exists|i: int|
                {
                    &&& 0 <= i < s0.tasks.len() && (#[trigger] s0.tasks[i]).id == task_id
                    &&& s1.tasks[i].status == "pending"@
                    &&& s1.tasks[i].retry_count == s0.tasks[i].retry_count + 1
                    &&& s1.tasks[i].last_error is None && s1.tasks[i].worker_id is None
                    &&& s0.tasks[i].status == "failed"@ || s0.tasks[i].status
                        == "awaiting_manual_input"@ || s0.tasks[i].status == "archived"@
                }
            &&& s1.articles == s0.articles && s1.memories == s0.memories
        },
{
    rows::lemma_first_where(s0.tasks, tasks::task_with_id(task_id));
    match rows::first_where(s0.tasks, tasks::task_with_id(task_id)) {
        None => {},
        Some(i) => {
            if action is ReplyAndEnqueue {
                let r = "任务已重置并加入执行队列: "@ + task_id;
                assert(r.subrange(r.len() - task_id.len(), r.len() as int) =~= task_id);
                assert(s0.tasks[i].id == task_id);
                assert(s1.tasks[i] == tasks::retried(s0.tasks[i], now));
                if k != i {
                    assert(s1.tasks[k] == s0.tasks[k]);
                }
            }
        },
    }
}

/// Questions change nothing: of all commands only a retry and those on memories change the
/// store.
pub proof fn lemma_questions_change_nothing(
    router: SessionRouter,
    s0: StoreData,
    s1: StoreData,
    user_id: Seq<char>,
    route: Route,
    tick: Tick,
    action: ChatAction,
)
    requires
        command_answered(router, s0, s1, user_id, route, tick, action),
        !(route is TaskRetryRequest) && !(route is UserMemoryWrite) && !(route is UserMemoryUseful)
            && !(route is UserMemorySuppress),
    ensures
        s1 == s0,
        route is LinkSubmission ==> action is SubmitLinks,
        route is DailyReportQuery ==> action is DailyReport,
        route is TaskStatusQuery ==> action is Reply,
        route is RecentTasksQuery ==> action is Reply,
        route is ManualTasksQuery ==> action is Reply,
        route is UserMemoriesQuery ==> action is Reply,
{
}

/// What a user says is added to what the user said before: a message that ends the session
/// hands the whole text out and leaves nothing waiting, any other one waits. Other users are
/// not touched.
pub proof fn lemma_chat_is_gathered(
    r0: SessionRouter,
    s0: StoreData,
    r1: SessionRouter,
    s1: StoreData,
    user_id: Seq<char>,
    text: Seq<char>,
    id: Seq<char>,
    tick: Tick,
    action: ChatAction,
    commit: bool,
    other: Seq<char>,
)
    requires
        dispatched(
            r0,
            s0,
            r1,
            s1,
            user_id,
            if commit {
                Route::ChatCommit { text }
            } else {
                Route::ChatPending { text }
            },
            Some(id),
            tick,
            action,
        ),
        !text::is_blank(id),
        other != user_id,
    ensures
        r1.lookup(other) == r0.lookup(other),
        !commit ==> action is Nothing && r1.lookup(user_id) is Some && r1.lookup(
            user_id,
        )->0.buffer.last() == text && r1.lookup(user_id)->0.message_ids.last() == id,
        commit ==> r1.lookup(user_id) is None,
        commit ==> (action matches ChatAction::Flush { user_id: u, merged_text, message_ids, reason }
            && u@ == user_id && text::ends_with(merged_text@, text) && text::texts(
            message_ids@,
        ).last() == id && reason == FlushReason::Commit),
        commit && r0.lookup(user_id) is None ==> (action matches ChatAction::Flush {
            user_id: u,
            merged_text,
            message_ids,
            reason,
        } && merged_text@ == text),
{
    let b = session_router::with_message(
        r0.lookup(user_id),
        user_id,
        text,
        Some(id),
        tick.mono as nat,
    );
    assert(b.buffer.last() == text);
    assert(b.message_ids.last() == id);
    let m = session_router::merged(b);
    if b.buffer.len() == 1 {
        assert(m == text);
    } else {
        assert(m == text::join(b.buffer.drop_last(), "\n"@) + "\n"@ + text);
    }
    assert(m.subrange(m.len() - text.len(), m.len() as int) =~= text);
}

} // verus!
