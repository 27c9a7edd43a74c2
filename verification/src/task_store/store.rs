//! The tables of the task store.

use crate::task_store::types::{
    ChunkData, MemoryData, PendingChunkRecord, SessionStateData, UserMemoryRecord,
    UserSessionStateRecord,
};
use crate::text;
use crate::text::copy_opt;
use vstd::prelude::*;

verus! {

/// A point in time: its stored text, and its second where the text is a date.
#[derive(Debug, Clone, PartialEq, Eq)]
pub struct Stamp {
    pub text: String,
    pub secs: Option<i64>,
}

pub struct StampData {
    pub text: Seq<char>,
    pub secs: Option<i64>,
}

impl View for Stamp {
    type V = StampData;

    open spec fn view(&self) -> StampData {
        StampData { text: self.text@, secs: self.secs }
    }
}

impl Stamp {
    /// A time of which only the second is given.
    pub fn at(secs: i64) -> (r: Stamp)
        ensures
            r@ == moment(secs as int),
    {
        let text = String::new();
        proof {
            assert(text@ =~= Seq::<char>::empty());
        }
        Stamp { text, secs: Some(secs) }
    }

    pub fn copy(&self) -> (r: Stamp)
        ensures
            r@ == self@,
    {
        Stamp { text: self.text.clone(), secs: self.secs }
    }
}

/// A second, without a text of its own.
pub open spec fn moment(secs: int) -> StampData {
    StampData { text: Seq::empty(), secs: Some(secs as i64) }
}

pub open spec fn opt_stamp(o: Option<Stamp>) -> Option<StampData> {
    match o {
        Some(s) => Some(s@),
        None => None,
    }
}

pub fn copy_opt_stamp(o: &Option<Stamp>) -> (r: Option<Stamp>)
    ensures
        opt_stamp(r) == opt_stamp(*o),
{
    match o {
        Some(s) => Some(s.copy()),
        None => None,
    }
}

/// `a` lies at least one second before `b`. Nothing is known of a text that is no date.
pub open spec fn stamp_before(a: StampData, b: StampData) -> bool {
    match (a.secs, b.secs) {
        (Some(x), Some(y)) => x < y,
        _ => false,
    }
}

pub fn is_stamp_before(a: &Stamp, b: &Stamp) -> (r: bool)
    ensures
        r == stamp_before(a@, b@),
{
    match (a.secs, b.secs) {
        (Some(x), Some(y)) => x < y,
        _ => false,
    }
}

/// The second of a time, with those that are no date before all others.
pub open spec fn secs_key(s: StampData) -> int {
    match s.secs {
        Some(n) => n as int,
        None => i64::MIN as int,
    }
}

pub fn stamp_key(s: &Stamp) -> (r: i64)
    ensures
        r == secs_key(s@),
{
    match s.secs {
        Some(n) => n,
        None => i64::MIN,
    }
}

// ---------------------------------------------------------------------------
// Articles and tasks
// ---------------------------------------------------------------------------

/// A row of the article table.
#[derive(Debug, Clone, PartialEq, Eq)]
pub struct ArticleRow {
    pub id: String,
    pub normalized_url: String,
    pub original_url: String,
    pub title: Option<String>,
    pub source_domain: Option<String>,
    pub summary: Option<String>,
    pub created_at: Stamp,
    pub updated_at: Stamp,
}

pub struct ArticleData {
    pub id: Seq<char>,
    pub normalized_url: Seq<char>,
    pub original_url: Seq<char>,
    pub title: Option<Seq<char>>,
    pub source_domain: Option<Seq<char>>,
    pub summary: Option<Seq<char>>,
    pub created_at: StampData,
    pub updated_at: StampData,
}

impl View for ArticleRow {
    type V = ArticleData;

    open spec fn view(&self) -> ArticleData {
        ArticleData {
            id: self.id@,
            normalized_url: self.normalized_url@,
            original_url: self.original_url@,
            title: text::opt_text(self.title),
            source_domain: text::opt_text(self.source_domain),
            summary: text::opt_text(self.summary),
            created_at: self.created_at@,
            updated_at: self.updated_at@,
        }
    }
}

impl ArticleRow {
    pub fn copy(&self) -> (r: ArticleRow)
        ensures
            r@ == self@,
    {
        ArticleRow {
            id: self.id.clone(),
            normalized_url: self.normalized_url.clone(),
            original_url: self.original_url.clone(),
            title: copy_opt(&self.title),
            source_domain: copy_opt(&self.source_domain),
            summary: copy_opt(&self.summary),
            created_at: self.created_at.copy(),
            updated_at: self.updated_at.copy(),
        }
    }
}

pub open spec fn article_data(rows: Seq<ArticleRow>) -> Seq<ArticleData> {
    Seq::new(rows.len(), |i: int| rows[i]@)
}

/// A row of the task table.
#[derive(Debug, Clone, PartialEq, Eq)]
pub struct TaskRow {
    pub id: String,
    pub article_id: String,
    pub status: String,
    pub retry_count: i64,
    pub last_error: Option<String>,
    pub content_source: Option<String>,
    pub page_kind: Option<String>,
    pub output_path: Option<String>,
    pub snapshot_path: Option<String>,
    pub worker_id: Option<String>,
    pub processing_started_at: Option<Stamp>,
    pub lease_until: Option<Stamp>,
    pub created_at: Stamp,
    pub updated_at: Stamp,
}

pub struct TaskData {
    pub id: Seq<char>,
    pub article_id: Seq<char>,
    pub status: Seq<char>,
    pub retry_count: int,
    pub last_error: Option<Seq<char>>,
    pub content_source: Option<Seq<char>>,
    pub page_kind: Option<Seq<char>>,
    pub output_path: Option<Seq<char>>,
    pub snapshot_path: Option<Seq<char>>,
    pub worker_id: Option<Seq<char>>,
    pub processing_started_at: Option<StampData>,
    pub lease_until: Option<StampData>,
    pub created_at: StampData,
    pub updated_at: StampData,
}

impl View for TaskRow {
    type V = TaskData;

    open spec fn view(&self) -> TaskData {
        TaskData {
            id: self.id@,
            article_id: self.article_id@,
            status: self.status@,
            retry_count: self.retry_count as int,
            last_error: text::opt_text(self.last_error),
            content_source: text::opt_text(self.content_source),
            page_kind: text::opt_text(self.page_kind),
            output_path: text::opt_text(self.output_path),
            snapshot_path: text::opt_text(self.snapshot_path),
            worker_id: text::opt_text(self.worker_id),
            processing_started_at: opt_stamp(self.processing_started_at),
            lease_until: opt_stamp(self.lease_until),
            created_at: self.created_at@,
            updated_at: self.updated_at@,
        }
    }
}

impl TaskRow {
    pub fn copy(&self) -> (r: TaskRow)
        ensures
            r@ == self@,
    {
        TaskRow {
            id: self.id.clone(),
            article_id: self.article_id.clone(),
            status: self.status.clone(),
            retry_count: self.retry_count,
            last_error: copy_opt(&self.last_error),
            content_source: copy_opt(&self.content_source),
            page_kind: copy_opt(&self.page_kind),
            output_path: copy_opt(&self.output_path),
            snapshot_path: copy_opt(&self.snapshot_path),
            worker_id: copy_opt(&self.worker_id),
            processing_started_at: copy_opt_stamp(&self.processing_started_at),
            lease_until: copy_opt_stamp(&self.lease_until),
            created_at: self.created_at.copy(),
            updated_at: self.updated_at.copy(),
        }
    }
}

pub open spec fn task_data(rows: Seq<TaskRow>) -> Seq<TaskData> {
    Seq::new(rows.len(), |i: int| rows[i]@)
}

// ---------------------------------------------------------------------------
// Messages, tokens and sessions
// ---------------------------------------------------------------------------

/// A row of the inbound message table.
#[derive(Debug, Clone, PartialEq, Eq)]
pub struct InboundMessage {
    pub message_id: String,
    pub from_user_id: String,
    pub text: String,
    pub received_at: String,
}

pub struct MessageData {
    pub message_id: Seq<char>,
    pub from_user_id: Seq<char>,
    pub text: Seq<char>,
    pub received_at: Seq<char>,
}

impl View for InboundMessage {
    type V = MessageData;

    open spec fn view(&self) -> MessageData {
        MessageData {
            message_id: self.message_id@,
            from_user_id: self.from_user_id@,
            text: self.text@,
            received_at: self.received_at@,
        }
    }
}

pub open spec fn message_data(rows: Seq<InboundMessage>) -> Seq<MessageData> {
    Seq::new(rows.len(), |i: int| rows[i]@)
}

/// A row of the context token table.
#[derive(Debug, Clone, PartialEq, Eq)]
pub struct ContextTokenRow {
    pub user_id: String,
    pub context_token: String,
    pub updated_at: String,
}

pub struct TokenData {
    pub user_id: Seq<char>,
    pub context_token: Seq<char>,
    pub updated_at: Seq<char>,
}

impl View for ContextTokenRow {
    type V = TokenData;

    open spec fn view(&self) -> TokenData {
        TokenData {
            user_id: self.user_id@,
            context_token: self.context_token@,
            updated_at: self.updated_at@,
        }
    }
}

pub open spec fn token_data(rows: Seq<ContextTokenRow>) -> Seq<TokenData> {
    Seq::new(rows.len(), |i: int| rows[i]@)
}

/// A row of the session table.
#[derive(Debug, Clone, PartialEq, Eq)]
pub struct SessionRow {
    pub user_id: String,
    pub merged_text: String,
    pub message_ids_json: String,
    pub updated_at: String,
}

pub struct SessionData {
    pub user_id: Seq<char>,
    pub merged_text: Seq<char>,
    pub message_ids_json: Seq<char>,
    pub updated_at: Seq<char>,
}

impl View for SessionRow {
    type V = SessionData;

    open spec fn view(&self) -> SessionData {
        SessionData {
            user_id: self.user_id@,
            merged_text: self.merged_text@,
            message_ids_json: self.message_ids_json@,
            updated_at: self.updated_at@,
        }
    }
}

pub open spec fn session_data(rows: Seq<SessionRow>) -> Seq<SessionData> {
    Seq::new(rows.len(), |i: int| rows[i]@)
}

pub open spec fn state_data(rows: Seq<UserSessionStateRecord>) -> Seq<SessionStateData> {
    Seq::new(rows.len(), |i: int| rows[i]@)
}

pub open spec fn memory_data(rows: Seq<UserMemoryRecord>) -> Seq<MemoryData> {
    Seq::new(rows.len(), |i: int| rows[i]@)
}

// ---------------------------------------------------------------------------
// The store
// ---------------------------------------------------------------------------

/// The tables of the store.
#[derive(Debug, Clone)]
pub struct TaskStore {
    pub articles: Vec<ArticleRow>,
    pub tasks: Vec<TaskRow>,
    pub messages: Vec<InboundMessage>,
    pub context_tokens: Vec<ContextTokenRow>,
    pub sessions: Vec<SessionRow>,
    pub session_states: Vec<UserSessionStateRecord>,
    pub memories: Vec<UserMemoryRecord>,
    pub pending_chunks: Vec<PendingChunkRecord>,
}

/// The tables as mathematical values.
pub struct StoreData {
    pub articles: Seq<ArticleData>,
    pub tasks: Seq<TaskData>,
    pub messages: Seq<MessageData>,
    pub context_tokens: Seq<TokenData>,
    pub sessions: Seq<SessionData>,
    pub session_states: Seq<SessionStateData>,
    pub memories: Seq<MemoryData>,
    pub pending_chunks: Seq<ChunkData>,
}

impl View for TaskStore {
    type V = StoreData;

    open spec fn view(&self) -> StoreData {
        StoreData {
            articles: article_data(self.articles@),
            tasks: task_data(self.tasks@),
            messages: message_data(self.messages@),
            context_tokens: token_data(self.context_tokens@),
            sessions: session_data(self.sessions@),
            session_states: state_data(self.session_states@),
            memories: memory_data(self.memories@),
            pending_chunks: chunk_data(self.pending_chunks@),
        }
    }
}

pub open spec fn chunk_data(rows: Seq<PendingChunkRecord>) -> Seq<ChunkData> {
    Seq::new(rows.len(), |i: int| rows[i]@)
}

/// A store without rows.
pub open spec fn empty_store() -> StoreData {
    StoreData {
        articles: Seq::empty(),
        tasks: Seq::empty(),
        messages: Seq::empty(),
        context_tokens: Seq::empty(),
        sessions: Seq::empty(),
        session_states: Seq::empty(),
        memories: Seq::empty(),
        pending_chunks: Seq::empty(),
    }
}

impl TaskStore {
    pub fn new() -> (r: Self)
        ensures
            r@ == empty_store(),
    {
        let store = TaskStore {
            articles: Vec::new(),
            tasks: Vec::new(),
            messages: Vec::new(),
            context_tokens: Vec::new(),
            sessions: Vec::new(),
            session_states: Vec::new(),
            memories: Vec::new(),
            pending_chunks: Vec::new(),
        };
        proof {
            assert(store@.articles =~= Seq::empty());
            assert(store@.tasks =~= Seq::empty());
            assert(store@.messages =~= Seq::empty());
            assert(store@.context_tokens =~= Seq::empty());
            assert(store@.sessions =~= Seq::empty());
            assert(store@.session_states =~= Seq::empty());
            assert(store@.memories =~= Seq::empty());
            assert(store@.pending_chunks =~= Seq::empty());
        }
        store
    }
}

} // verus!
