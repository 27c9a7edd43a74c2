//! Records and states of the task store.

use crate::rows;
use crate::text;
use crate::text::{copy_opt, owned, push_text, same, trimmed};
use vstd::prelude::*;

verus! {

/// Errors of the task store.
#[derive(Debug, Clone, PartialEq, Eq)]
pub enum TaskStoreError {
    InvalidUrl(String),
    PrivateNetworkUrl(String),
    UnsupportedScheme(String),
    Validation(String),
}

/// The message that is shown for an error.
pub open spec fn error_message(e: TaskStoreError) -> Seq<char> {
    match e {
        TaskStoreError::InvalidUrl(url) => "无效 URL: "@ + url@,
        TaskStoreError::PrivateNetworkUrl(url) => "不支持内网/本地地址: "@ + url@,
        TaskStoreError::UnsupportedScheme(url) => "仅支持 http/https URL: "@ + url@,
        TaskStoreError::Validation(text) => text@,
    }
}

impl TaskStoreError {
    pub fn message(&self) -> (r: String)
        ensures
            r@ == error_message(*self),
    {
        match self {
            TaskStoreError::InvalidUrl(url) => {
                let mut m = "无效 URL: ".to_string();
                m.append(url.as_str());
                m
            },
            TaskStoreError::PrivateNetworkUrl(url) => {
                let mut m = "不支持内网/本地地址: ".to_string();
                m.append(url.as_str());
                m
            },
            TaskStoreError::UnsupportedScheme(url) => {
                let mut m = "仅支持 http/https URL: ".to_string();
                m.append(url.as_str());
                m
            },
            TaskStoreError::Validation(text) => text.clone(),
        }
    }
}

// ---------------------------------------------------------------------------
// Task records
// ---------------------------------------------------------------------------

#[derive(Debug, Clone, PartialEq, Eq)]
pub struct LinkTaskRecord {
    pub article_id: String,
    pub task_id: String,
    pub normalized_url: String,
    pub original_url: String,
    pub created_new: bool,
}

#[derive(Debug, Clone, PartialEq, Eq)]
pub struct TaskStatusRecord {
    pub task_id: String,
    pub article_id: String,
    pub normalized_url: String,
    pub title: Option<String>,
    pub content_source: Option<String>,
    pub page_kind: Option<String>,
    pub status: String,
    pub retry_count: i64,
    pub last_error: Option<String>,
    pub output_path: Option<String>,
    pub snapshot_path: Option<String>,
    pub created_at: String,
    pub updated_at: String,
}

#[derive(Debug, Clone, PartialEq, Eq)]
pub struct RecentTaskRecord {
    pub task_id: String,
    pub status: String,
    pub content_source: Option<String>,
    pub page_kind: Option<String>,
    pub normalized_url: String,
    pub updated_at: String,
}

#[derive(Debug, Clone, PartialEq, Eq)]
pub struct ArchivedTaskRecord {
    pub task_id: String,
    pub article_id: String,
    pub normalized_url: String,
    pub title: Option<String>,
    pub summary: Option<String>,
    pub content_source: Option<String>,
    pub page_kind: Option<String>,
    pub output_path: Option<String>,
    pub updated_at: String,
}

#[derive(Debug, Clone, PartialEq, Eq)]
pub struct PendingTaskRecord {
    pub task_id: String,
    pub article_id: String,
    pub normalized_url: String,
    pub original_url: String,
}

/// A task that a worker may claim: pending, or processing with an expired lease.
#[derive(Debug, Clone, PartialEq, Eq)]
pub struct ClaimableTaskRecord {
    pub task_id: String,
    pub article_id: String,
    pub normalized_url: String,
    pub original_url: String,
}

#[derive(Debug, Clone, Copy, PartialEq, Eq)]
pub struct MarkTaskArchivedInput<'a> {
    pub output_path: &'a str,
    pub title: Option<&'a str>,
    pub page_kind: Option<&'a str>,
    pub snapshot_path: Option<&'a str>,
    pub content_source: Option<&'a str>,
    pub summary: Option<&'a str>,
}

#[derive(Debug, Clone, PartialEq, Eq)]
pub struct TaskContentRecord {
    pub task_id: String,
    pub article_id: String,
    pub normalized_url: String,
    pub original_url: String,
    pub title: Option<String>,
}

#[derive(Debug, Clone, PartialEq, Eq)]
pub struct StoredSessionRecord {
    pub user_id: String,
    pub merged_text: String,
    pub message_ids: Vec<String>,
    pub updated_at: String,
}

/// A message part that is still to be sent.
#[derive(Debug, Clone, PartialEq, Eq)]
pub struct PendingChunkRecord {
    pub id: i64,
    pub user_id: String,
    pub context_token: String,
    pub chunk_text: String,
    pub chunk_index: usize,
    pub chunk_total: usize,
    pub created_at: String,
}

pub struct ChunkData {
    pub id: int,
    pub user_id: Seq<char>,
    pub context_token: Seq<char>,
    pub chunk_text: Seq<char>,
    pub chunk_index: int,
    pub chunk_total: int,
    pub created_at: Seq<char>,
}

impl View for PendingChunkRecord {
    type V = ChunkData;

    open spec fn view(&self) -> ChunkData {
        ChunkData {
            id: self.id as int,
            user_id: self.user_id@,
            context_token: self.context_token@,
            chunk_text: self.chunk_text@,
            chunk_index: self.chunk_index as int,
            chunk_total: self.chunk_total as int,
            created_at: self.created_at@,
        }
    }
}

impl PendingChunkRecord {
    pub fn copy(&self) -> (r: PendingChunkRecord)
        ensures
            r@ == self@,
    {
        PendingChunkRecord {
            id: self.id,
            user_id: self.user_id.clone(),
            context_token: self.context_token.clone(),
            chunk_text: self.chunk_text.clone(),
            chunk_index: self.chunk_index,
            chunk_total: self.chunk_total,
            created_at: self.created_at.clone(),
        }
    }
}

// ---------------------------------------------------------------------------
// Memory types
// ---------------------------------------------------------------------------

/// The kinds of memories, from the strongest to the weakest.
#[derive(Debug, Clone, Copy, PartialEq, Eq, Structural)]
pub enum MemoryType {
    /// The user asked to remember it.
    Explicit,
    /// A fact of the project (responsibilities, constraints, limits).
    ProjectFact,
    /// A preference of the user (style, form of output, way of working).
    UserPreference,
    /// A lesson (failure modes, what worked).
    Lesson,
    /// A topic or preference that was extracted automatically.
    Auto,
}

pub open spec fn type_priority(t: MemoryType) -> int {
    match t {
        MemoryType::Explicit => 100,
        MemoryType::ProjectFact => 85,
        MemoryType::UserPreference => 80,
        MemoryType::Lesson => 75,
        MemoryType::Auto => 60,
    }
}

pub open spec fn memory_type_name(t: MemoryType) -> Seq<char> {
    match t {
        MemoryType::Explicit => "explicit"@,
        MemoryType::ProjectFact => "project_fact"@,
        MemoryType::UserPreference => "user_preference"@,
        MemoryType::Lesson => "lesson"@,
        MemoryType::Auto => "auto"@,
    }
}

pub open spec fn type_label(t: MemoryType) -> Seq<char> {
    match t {
        MemoryType::Explicit => "[记忆]"@,
        MemoryType::Auto => "[记忆]"@,
        MemoryType::ProjectFact => "[项目]"@,
        MemoryType::UserPreference => "[偏好]"@,
        MemoryType::Lesson => "[经验]"@,
    }
}

/// A memory of type `a` may take over one of type `b`.
pub open spec fn promotes(a: MemoryType, b: MemoryType) -> bool {
    type_priority(a) > type_priority(b)
}

/// The type with this name.
pub open spec fn named_type(s: Seq<char>) -> Option<MemoryType> {
    if s == "explicit"@ {
        Some(MemoryType::Explicit)
    } else if s == "project_fact"@ {
        Some(MemoryType::ProjectFact)
    } else if s == "user_preference"@ {
        Some(MemoryType::UserPreference)
    } else if s == "lesson"@ {
        Some(MemoryType::Lesson)
    } else if s == "auto"@ {
        Some(MemoryType::Auto)
    } else {
        None
    }
}

impl MemoryType {
    /// The default priority.
    pub fn default_priority(&self) -> (r: i64)
        ensures
            r == type_priority(*self),
    {
        match self {
            MemoryType::Explicit => 100,
            MemoryType::ProjectFact => 85,
            MemoryType::UserPreference => 80,
            MemoryType::Lesson => 75,
            MemoryType::Auto => 60,
        }
    }

    /// The name under which the type is stored.
    pub fn as_str(&self) -> (r: &'static str)
        ensures
            r@ == memory_type_name(*self),
    {
        match self {
            MemoryType::Explicit => "explicit",
            MemoryType::ProjectFact => "project_fact",
            MemoryType::UserPreference => "user_preference",
            MemoryType::Lesson => "lesson",
            MemoryType::Auto => "auto",
        }
    }

    /// The label that the prompt shows.
    pub fn label_prefix(&self) -> (r: &'static str)
        ensures
            r@ == type_label(*self),
    {
        match self {
            MemoryType::Explicit => "[记忆]",
            MemoryType::Auto => "[记忆]",
            MemoryType::ProjectFact => "[项目]",
            MemoryType::UserPreference => "[偏好]",
            MemoryType::Lesson => "[经验]",
        }
    }

    /// Whether a memory of this type may take over one of the other type.
    pub fn can_promote(&self, other: &Self) -> (r: bool)
        ensures
            r == promotes(*self, *other),
    {
        self.default_priority() > other.default_priority()
    }

    /// The type with this name; else a message that quotes the name.
    pub fn parse_name(s: &str) -> (r: Result<Self, String>)
        ensures
            match r {
                Ok(t) => named_type(s@) == Some(t),
                Err(e) => named_type(s@) is None && e@ == "未知 memory_type: "@ + s@,
            },
    {
        if same(s, "explicit") {
            Ok(MemoryType::Explicit)
        } else if same(s, "project_fact") {
            Ok(MemoryType::ProjectFact)
        } else if same(s, "user_preference") {
            Ok(MemoryType::UserPreference)
        } else if same(s, "lesson") {
            Ok(MemoryType::Lesson)
        } else if same(s, "auto") {
            Ok(MemoryType::Auto)
        } else {
            let mut e = "未知 memory_type: ".to_string();
            e.append(s);
            Err(e)
        }
    }

    /// The type of a stored memory; one with a name that is not known counts as automatic.
    pub fn from_stored(s: &str) -> (r: Self)
        ensures
            r == match named_type(s@) {
                Some(t) => t,
                None => MemoryType::Auto,
            },
    {
        match MemoryType::parse_name(s) {
            Ok(t) => t,
            Err(_) => MemoryType::Auto,
        }
    }
}

impl std::str::FromStr for MemoryType {
    type Err = String;

    fn from_str(s: &str) -> (r: std::result::Result<Self, String>)
        ensures
            match r {
                Ok(t) => named_type(s@) == Some(t),
                Err(e) => named_type(s@) is None && e@ == "未知 memory_type: "@ + s@,
            },
    {
        MemoryType::parse_name(s)
    }
}

/// The name of a type reads back as the type.
pub proof fn lemma_type_name_round_trip(t: MemoryType)
    ensures
        named_type(memory_type_name(t)) == Some(t),
{
    reveal_strlit("explicit");
    reveal_strlit("project_fact");
    reveal_strlit("user_preference");
    reveal_strlit("lesson");
    reveal_strlit("auto");
    assert("explicit"@.len() == 8 && "project_fact"@.len() == 12 && "user_preference"@.len() == 15
        && "lesson"@.len() == 6 && "auto"@.len() == 4);
}

/// Promotion is a strict order: no type takes over itself, of two types at most one
/// takes over the other, and the relation is transitive. Distinct types are comparable.
pub proof fn lemma_promotion_order(a: MemoryType, b: MemoryType, c: MemoryType)
    ensures
        !promotes(a, a),
        !(promotes(a, b) && promotes(b, a)),
        promotes(a, b) && promotes(b, c) ==> promotes(a, c),
        a != b ==> promotes(a, b) || promotes(b, a),
{
}

#[derive(Debug, Clone, PartialEq, Eq)]
pub struct UserMemoryRecord {
    pub id: String,
    pub user_id: String,
    pub content: String,
    pub memory_type: MemoryType,
    pub status: String,
    pub priority: i64,
    pub last_used_at: Option<String>,
    pub use_count: i64,
    pub retrieved_count: i64,
    pub injected_count: i64,
    pub useful: bool,
    pub created_at: String,
    pub updated_at: String,
}

pub struct MemoryData {
    pub id: Seq<char>,
    pub user_id: Seq<char>,
    pub content: Seq<char>,
    pub memory_type: MemoryType,
    pub status: Seq<char>,
    pub priority: int,
    pub last_used_at: Option<Seq<char>>,
    pub use_count: int,
    pub retrieved_count: int,
    pub injected_count: int,
    pub useful: bool,
    pub created_at: Seq<char>,
    pub updated_at: Seq<char>,
}

impl View for UserMemoryRecord {
    type V = MemoryData;

    open spec fn view(&self) -> MemoryData {
        MemoryData {
            id: self.id@,
            user_id: self.user_id@,
            content: self.content@,
            memory_type: self.memory_type,
            status: self.status@,
            priority: self.priority as int,
            last_used_at: text::opt_text(self.last_used_at),
            use_count: self.use_count as int,
            retrieved_count: self.retrieved_count as int,
            injected_count: self.injected_count as int,
            useful: self.useful,
            created_at: self.created_at@,
            updated_at: self.updated_at@,
        }
    }
}

impl UserMemoryRecord {
    pub fn copy(&self) -> (r: UserMemoryRecord)
        ensures
            r@ == self@,
    {
        UserMemoryRecord {
            id: self.id.clone(),
            user_id: self.user_id.clone(),
            content: self.content.clone(),
            memory_type: self.memory_type,
            status: self.status.clone(),
            priority: self.priority,
            last_used_at: copy_opt(&self.last_used_at),
            use_count: self.use_count,
            retrieved_count: self.retrieved_count,
            injected_count: self.injected_count,
            useful: self.useful,
            created_at: self.created_at.clone(),
            updated_at: self.updated_at.clone(),
        }
    }
}

// ---------------------------------------------------------------------------
// Session state
// ---------------------------------------------------------------------------

/// The items of a JSON text that is an array of strings.
pub uninterp spec fn json_items(text: Seq<char>) -> Option<Seq<Seq<char>>>;

/// Calls `serde_json::from_str` for a list of strings; `None` where it reports an
/// error. Claimed: the result depends on the text alone.
#[verifier::external_body]
pub(crate) fn read_json_array(text: &str) -> (r: Option<Vec<String>>)
    ensures
        match r {
            Some(v) => json_items(text@) == Some(text::texts(v@)),
            None => json_items(text@) is None,
        },
{
    serde_json::from_str::<Vec<String>>(text).ok()
}

/// The JSON text of a list of strings.
pub uninterp spec fn json_array(items: Seq<Seq<char>>) -> Seq<char>;

/// Calls `serde_json::to_string` on a list of strings. Claimed: the result depends on the
/// items alone, is never blank and reads back as the same items. Serializing strings into
/// memory reports no error, and the empty text stands for one.
#[verifier::external_body]
pub(crate) fn write_json_array(items: &Vec<String>) -> (r: String)
    ensures
        r@ == json_array(text::texts(items@)),
        json_items(r@) == Some(text::texts(items@)),
        text::trim(r@).len() > 0,
{
    serde_json::to_string(items).unwrap_or_default()
}

/// Structured state of a user's session, kept across sessions.
///
/// Seven slots: goal, current subtask and next step, and four lists that are stored as
/// JSON arrays. The older fields (last intent, current task, blocked reason) stay.
#[derive(Debug, Clone, PartialEq, Eq)]
pub struct UserSessionStateRecord {
    pub user_id: String,
    pub last_user_intent: Option<String>,
    pub current_task: Option<String>,
    pub next_step: Option<String>,
    pub blocked_reason: Option<String>,
    pub goal: Option<String>,
    pub current_subtask: Option<String>,
    pub constraints_json: Option<String>,
    pub confirmed_facts_json: Option<String>,
    pub done_items_json: Option<String>,
    pub open_questions_json: Option<String>,
    pub updated_at: String,
}

pub struct SessionStateData {
    pub user_id: Seq<char>,
    pub last_user_intent: Option<Seq<char>>,
    pub current_task: Option<Seq<char>>,
    pub next_step: Option<Seq<char>>,
    pub blocked_reason: Option<Seq<char>>,
    pub goal: Option<Seq<char>>,
    pub current_subtask: Option<Seq<char>>,
    pub constraints_json: Option<Seq<char>>,
    pub confirmed_facts_json: Option<Seq<char>>,
    pub done_items_json: Option<Seq<char>>,
    pub open_questions_json: Option<Seq<char>>,
    pub updated_at: Seq<char>,
}

impl View for UserSessionStateRecord {
    type V = SessionStateData;

    open spec fn view(&self) -> SessionStateData {
        SessionStateData {
            user_id: self.user_id@,
            last_user_intent: text::opt_text(self.last_user_intent),
            current_task: text::opt_text(self.current_task),
            next_step: text::opt_text(self.next_step),
            blocked_reason: text::opt_text(self.blocked_reason),
            goal: text::opt_text(self.goal),
            current_subtask: text::opt_text(self.current_subtask),
            constraints_json: text::opt_text(self.constraints_json),
            confirmed_facts_json: text::opt_text(self.confirmed_facts_json),
            done_items_json: text::opt_text(self.done_items_json),
            open_questions_json: text::opt_text(self.open_questions_json),
            updated_at: self.updated_at@,
        }
    }
}

/// The items of a stored list: none where the slot is empty, blank or no JSON array.
pub open spec fn slot_items(json: Option<Seq<char>>) -> Seq<Seq<char>> {
    match json {
        Some(s) => if text::trim(s).len() == 0 {
            Seq::empty()
        } else {
            match json_items(s) {
                Some(items) => items,
                None => Seq::empty(),
            }
        },
        None => Seq::empty(),
    }
}

/// The stored form of a list: an empty slot for no items.
pub open spec fn items_slot(items: Seq<Seq<char>>) -> Option<Seq<char>> {
    if items.len() == 0 {
        None
    } else {
        Some(json_array(items))
    }
}

/// The items of a slot from what its JSON text holds.
pub fn items_or_empty(parsed: Option<Vec<String>>) -> (r: Vec<String>)
    ensures
        match parsed {
            Some(v) => r == v,
            None => r@.len() == 0,
        },
{
    match parsed {
        Some(v) => v,
        None => Vec::new(),
    }
}

/// How many of the seven slots are filled.
pub open spec fn filled_slots(s: SessionStateData) -> int {
    (if s.goal is Some { 1int } else { 0 }) + (if s.current_subtask is Some { 1int } else { 0 }) + (
    if s.constraints_json is Some { 1int } else { 0 }) + (if s.confirmed_facts_json is Some {
        1int
    } else {
        0
    }) + (if s.done_items_json is Some { 1int } else { 0 }) + (if s.next_step is Some {
        1int
    } else {
        0
    }) + (if s.open_questions_json is Some { 1int } else { 0 })
}

/// A state without a user and with every slot empty.
pub open spec fn blank_state() -> SessionStateData {
    SessionStateData {
        user_id: Seq::empty(),
        last_user_intent: None,
        current_task: None,
        next_step: None,
        blocked_reason: None,
        goal: None,
        current_subtask: None,
        constraints_json: None,
        confirmed_facts_json: None,
        done_items_json: None,
        open_questions_json: None,
        updated_at: Seq::empty(),
    }
}

impl Default for UserSessionStateRecord {
    fn default() -> (r: Self)
        ensures
            r@ == blank_state(),
    {
        UserSessionStateRecord {
            user_id: String::new(),
            last_user_intent: None,
            current_task: None,
            next_step: None,
            blocked_reason: None,
            goal: None,
            current_subtask: None,
            constraints_json: None,
            confirmed_facts_json: None,
            done_items_json: None,
            open_questions_json: None,
            updated_at: String::new(),
        }
    }
}

impl UserSessionStateRecord {
    pub fn copy(&self) -> (r: UserSessionStateRecord)
        ensures
            r@ == self@,
    {
        UserSessionStateRecord {
            user_id: self.user_id.clone(),
            last_user_intent: copy_opt(&self.last_user_intent),
            current_task: copy_opt(&self.current_task),
            next_step: copy_opt(&self.next_step),
            blocked_reason: copy_opt(&self.blocked_reason),
            goal: copy_opt(&self.goal),
            current_subtask: copy_opt(&self.current_subtask),
            constraints_json: copy_opt(&self.constraints_json),
            confirmed_facts_json: copy_opt(&self.confirmed_facts_json),
            done_items_json: copy_opt(&self.done_items_json),
            open_questions_json: copy_opt(&self.open_questions_json),
            updated_at: self.updated_at.clone(),
        }
    }

    /// Reads a stored list.
    pub fn parse_json_array(json: &Option<String>) -> (r: Vec<String>)
        ensures
            text::texts(r@) == slot_items(text::opt_text(*json)),
    {
        let none: Vec<String> = Vec::new();
        proof {
            assert(text::texts(none@) =~= Seq::empty());
        }
        match json {
            Some(s) => {
                let core = trimmed(s.as_str());
                if core.as_str().is_empty() {
                    none
                } else {
                    let items = items_or_empty(read_json_array(s.as_str()));
                    proof {
                        if json_items(s@) is None {
                            assert(text::texts(items@) =~= Seq::empty());
                        }
                    }
                    items
                }
            },
            None => none,
        }
    }

    /// The stored form of a list.
    pub fn serialize_json_array(items: &Vec<String>) -> (r: Option<String>)
        ensures
            text::opt_text(r) == items_slot(text::texts(items@)),
            slot_items(text::opt_text(r)) == text::texts(items@),
    {
        if items.is_empty() {
            proof {
                assert(text::texts(items@) =~= Seq::empty());
            }
            None
        } else {
            Some(write_json_array(items))
        }
    }

    pub fn constraints(&self) -> (r: Vec<String>)
        ensures
            text::texts(r@) == slot_items(self@.constraints_json),
    {
        Self::parse_json_array(&self.constraints_json)
    }

    pub fn set_constraints(&mut self, items: Vec<String>)
        ensures
            final(self)@ == (SessionStateData {
                constraints_json: items_slot(text::texts(items@)),
                ..old(self)@
            }),
            slot_items(final(self)@.constraints_json) == text::texts(items@),
    {
        self.constraints_json = Self::serialize_json_array(&items);
    }

    pub fn confirmed_facts(&self) -> (r: Vec<String>)
        ensures
            text::texts(r@) == slot_items(self@.confirmed_facts_json),
    {
        Self::parse_json_array(&self.confirmed_facts_json)
    }

    pub fn set_confirmed_facts(&mut self, items: Vec<String>)
        ensures
            final(self)@ == (SessionStateData {
                confirmed_facts_json: items_slot(text::texts(items@)),
                ..old(self)@
            }),
            slot_items(final(self)@.confirmed_facts_json) == text::texts(items@),
    {
        self.confirmed_facts_json = Self::serialize_json_array(&items);
    }

    pub fn done_items(&self) -> (r: Vec<String>)
        ensures
            text::texts(r@) == slot_items(self@.done_items_json),
    {
        Self::parse_json_array(&self.done_items_json)
    }

    pub fn set_done_items(&mut self, items: Vec<String>)
        ensures
            final(self)@ == (SessionStateData {
                done_items_json: items_slot(text::texts(items@)),
                ..old(self)@
            }),
            slot_items(final(self)@.done_items_json) == text::texts(items@),
    {
        self.done_items_json = Self::serialize_json_array(&items);
    }

    pub fn open_questions(&self) -> (r: Vec<String>)
        ensures
            text::texts(r@) == slot_items(self@.open_questions_json),
    {
        Self::parse_json_array(&self.open_questions_json)
    }

    pub fn set_open_questions(&mut self, items: Vec<String>)
        ensures
            final(self)@ == (SessionStateData {
                open_questions_json: items_slot(text::texts(items@)),
                ..old(self)@
            }),
            slot_items(final(self)@.open_questions_json) == text::texts(items@),
    {
        self.open_questions_json = Self::serialize_json_array(&items);
    }

    /// The number of filled slots among the seven.
    pub fn populated_slot_count(&self) -> (r: usize)
        ensures
            r == filled_slots(self@),
    {
        let mut count: usize = 0;
        if self.goal.is_some() {
            count = count + 1;
        }
        if self.current_subtask.is_some() {
            count = count + 1;
        }
        if self.constraints_json.is_some() {
            count = count + 1;
        }
        if self.confirmed_facts_json.is_some() {
            count = count + 1;
        }
        if self.done_items_json.is_some() {
            count = count + 1;
        }
        if self.next_step.is_some() {
            count = count + 1;
        }
        if self.open_questions_json.is_some() {
            count = count + 1;
        }
        count
    }

    /// Whether all seven slots are empty.
    pub fn is_v2_empty(&self) -> (r: bool)
        ensures
            r == (filled_slots(self@) == 0),
    {
        self.goal.is_none() && self.current_subtask.is_none() && self.constraints_json.is_none()
            && self.confirmed_facts_json.is_none() && self.done_items_json.is_none()
            && self.next_step.is_none() && self.open_questions_json.is_none()
    }
}

// ---------------------------------------------------------------------------
// Memory writes
// ---------------------------------------------------------------------------

#[derive(Debug, Clone, Copy, PartialEq, Eq, Structural)]
pub enum SkipReason {
    /// The content is blank.
    Empty,
    /// The content is longer than one memory may be.
    TooLong,
    /// An equal memory of the same type exists.
    Duplicate,
    /// A weaker type may not take over a stronger one.
    LowerPriorityWouldDowngradeHigher,
    /// The user id is not valid.
    Invalid,
    /// The content is noise: too short, or a stock phrase.
    Noise,
    /// The write failed.
    StorageError,
}

pub open spec fn skip_name(reason: SkipReason) -> Seq<char> {
    match reason {
        SkipReason::Empty => "empty_content"@,
        SkipReason::TooLong => "too_long"@,
        SkipReason::Duplicate => "duplicate"@,
        SkipReason::LowerPriorityWouldDowngradeHigher => "lower_priority_would_downgrade_higher"@,
        SkipReason::Invalid => "invalid"@,
        SkipReason::Noise => "noise"@,
        SkipReason::StorageError => "storage_error"@,
    }
}

impl SkipReason {
    /// The text that is shown for the reason.
    pub fn as_str(&self) -> (r: &'static str)
        ensures
            r@ == skip_name(*self),
    {
        match self {
            SkipReason::Empty => "empty_content",
            SkipReason::TooLong => "too_long",
            SkipReason::Duplicate => "duplicate",
            SkipReason::LowerPriorityWouldDowngradeHigher => {
                "lower_priority_would_downgrade_higher"
            },
            SkipReason::Invalid => "invalid",
            SkipReason::Noise => "noise",
            SkipReason::StorageError => "storage_error",
        }
    }
}

#[derive(Debug, Clone, Copy, PartialEq, Eq, Structural)]
pub enum PromoteReason {
    /// A stronger type took over a memory of a weaker type.
    TypePromotesLower { from: MemoryType, to: MemoryType },
}

impl PromoteReason {
    /// The text that is shown for the reason.
    pub fn describe(&self) -> (r: String)
        ensures
            self matches PromoteReason::TypePromotesLower { from, to } && r@ == memory_type_name(*from)
                + "_promotes_"@ + memory_type_name(*to),
    {
        match self {
            PromoteReason::TypePromotesLower { from, to } => {
                let mut s = owned(from.as_str());
                s.append("_promotes_");
                s.append(to.as_str());
                s
            },
        }
    }
}

/// The outcome of a governed write.
#[allow(inconsistent_fields)]
#[derive(Debug, Clone)]
pub enum WriteDecision {
    /// A new memory was written.
    Written(Box<UserMemoryRecord>),
    /// Nothing was written.
    Skipped { content_preview: String, reason: SkipReason },
    /// An existing memory was raised to the new type and priority.
    Promoted { id: String, reason: PromoteReason },
}

/// The outcome as a mathematical value.
#[allow(inconsistent_fields)]
pub enum Decision {
    Written(MemoryData),
    Skipped { content_preview: Seq<char>, reason: SkipReason },
    Promoted { id: Seq<char>, reason: PromoteReason },
}

impl View for WriteDecision {
    type V = Decision;

    open spec fn view(&self) -> Decision {
        match *self {
            WriteDecision::Written(m) => Decision::Written((*m)@),
            WriteDecision::Skipped { content_preview, reason } => Decision::Skipped {
                content_preview: content_preview@,
                reason,
            },
            WriteDecision::Promoted { id, reason } => Decision::Promoted { id: id@, reason },
        }
    }
}

/// The writes of one run.
#[derive(Debug, Clone)]
pub struct MemoryWriteState {
    /// How many writes were asked for.
    pub candidate_count: usize,
    pub written: Vec<UserMemoryRecord>,
    pub skipped: Vec<(String, SkipReason)>,
    pub promoted: Vec<(String, PromoteReason)>,
}

pub struct WriteStateData {
    pub candidate_count: int,
    pub written: Seq<MemoryData>,
    pub skipped: Seq<(Seq<char>, SkipReason)>,
    pub promoted: Seq<(Seq<char>, PromoteReason)>,
}

impl View for MemoryWriteState {
    type V = WriteStateData;

    open spec fn view(&self) -> WriteStateData {
        WriteStateData {
            candidate_count: self.candidate_count as int,
            written: Seq::new(self.written@.len(), |i: int| self.written@[i]@),
            skipped: Seq::new(
                self.skipped@.len(),
                |i: int| (self.skipped@[i].0@, self.skipped@[i].1),
            ),
            promoted: Seq::new(
                self.promoted@.len(),
                |i: int| (self.promoted@[i].0@, self.promoted@[i].1),
            ),
        }
    }
}

/// The state with one more decision on record.
pub open spec fn with_decision(s: WriteStateData, d: Decision) -> WriteStateData {
    match d {
        Decision::Written(m) => WriteStateData { written: s.written.push(m), ..s },
        Decision::Skipped { content_preview, reason } => WriteStateData {
            skipped: s.skipped.push((content_preview, reason)),
            ..s
        },
        Decision::Promoted { id, reason } => WriteStateData {
            promoted: s.promoted.push((id, reason)),
            ..s
        },
    }
}

/// Every candidate was written, skipped or promoted.
pub open spec fn balanced(s: WriteStateData) -> bool {
    s.candidate_count == s.written.len() + s.skipped.len() + s.promoted.len()
}

impl Default for MemoryWriteState {
    fn default() -> (r: Self)
        ensures
            balanced(r@),
            r.candidate_count == 0,
            r@.written == Seq::<MemoryData>::empty(),
            r@.skipped == Seq::<(Seq<char>, SkipReason)>::empty(),
            r@.promoted == Seq::<(Seq<char>, PromoteReason)>::empty(),
    {
        MemoryWriteState {
            candidate_count: 0,
            written: Vec::new(),
            skipped: Vec::new(),
            promoted: Vec::new(),
        }
    }
}

impl MemoryWriteState {
    pub fn written_count(&self) -> (r: usize)
        ensures
            r == self@.written.len(),
    {
        self.written.len()
    }

    pub fn skipped_count(&self) -> (r: usize)
        ensures
            r == self@.skipped.len(),
    {
        self.skipped.len()
    }

    /// Puts a decision on record.
    pub fn record(&mut self, decision: &WriteDecision)
        ensures
            final(self)@ == with_decision(old(self)@, decision@),
    {
        let ghost before = self@;
        match decision {
            WriteDecision::Written(m) => {
                let copy = m.copy();
                self.written.push(copy);
                proof {
                    assert(self@.written =~= before.written.push((*m)@));
                    assert(self@.skipped =~= before.skipped);
                    assert(self@.promoted =~= before.promoted);
                }
            },
            WriteDecision::Skipped { content_preview, reason } => {
                self.skipped.push((content_preview.clone(), *reason));
                proof {
                    assert(self@.written =~= before.written);
                    assert(self@.skipped =~= before.skipped.push((content_preview@, *reason)));
                    assert(self@.promoted =~= before.promoted);
                }
            },
            WriteDecision::Promoted { id, reason } => {
                self.promoted.push((id.clone(), *reason));
                proof {
                    assert(self@.written =~= before.written);
                    assert(self@.skipped =~= before.skipped);
                    assert(self@.promoted =~= before.promoted.push((id@, *reason)));
                }
            },
        }
    }
}

// ---------------------------------------------------------------------------
// Feedback
// ---------------------------------------------------------------------------

#[derive(Debug, Clone, Copy, PartialEq, Eq, Structural)]
pub enum FeedbackKind {
    /// The memory was read from the store.
    Retrieved,
    /// The memory was put into a prompt.
    Injected,
    /// The memory was confirmed as useful.
    Useful,
}

/// The feedback on one memory.
#[derive(Debug, Clone)]
pub struct FeedbackEntry {
    pub memory_id: String,
    pub retrieved: usize,
    pub injected: usize,
    pub useful: usize,
}

/// The feedback of one run. It is only recorded here; the store applies it.
#[derive(Debug, Clone)]
pub struct MemoryFeedbackState {
    pub feedback: Vec<FeedbackEntry>,
}

/// How often each kind of feedback was given on a memory.
pub struct Counts {
    pub retrieved: nat,
    pub injected: nat,
    pub useful: nat,
}

pub open spec fn no_counts() -> Counts {
    Counts { retrieved: 0, injected: 0, useful: 0 }
}

pub open spec fn entry_counts(e: FeedbackEntry) -> Counts {
    Counts { retrieved: e.retrieved as nat, injected: e.injected as nat, useful: e.useful as nat }
}

/// The entries of one memory.
pub open spec fn entry_of(id: Seq<char>) -> spec_fn(FeedbackEntry) -> bool {
    |e: FeedbackEntry| e.memory_id@ == id
}

/// The counts of a memory: those of its entry, or none.
pub open spec fn counts_for(entries: Seq<FeedbackEntry>, id: Seq<char>) -> Counts {
    match rows::first_where(entries, entry_of(id)) {
        Some(i) => entry_counts(entries[i]),
        None => no_counts(),
    }
}

pub open spec fn counted(c: Counts, kind: FeedbackKind) -> Counts {
    match kind {
        FeedbackKind::Retrieved => Counts { retrieved: c.retrieved + 1, ..c },
        FeedbackKind::Injected => Counts { injected: c.injected + 1, ..c },
        FeedbackKind::Useful => Counts { useful: c.useful + 1, ..c },
    }
}

/// How often one kind of feedback was given.
pub open spec fn count_of(c: Counts, kind: FeedbackKind) -> nat {
    match kind {
        FeedbackKind::Retrieved => c.retrieved,
        FeedbackKind::Injected => c.injected,
        FeedbackKind::Useful => c.useful,
    }
}

/// The memories with an entry, in the order in which they first got feedback.
pub open spec fn entry_ids(entries: Seq<FeedbackEntry>) -> Seq<Seq<char>> {
    Seq::new(entries.len(), |i: int| entries[i].memory_id@)
}

/// No memory has two entries.
pub open spec fn distinct_entries(entries: Seq<FeedbackEntry>) -> bool {
    forall|i: int, j: int|
        0 <= i < j < entries.len() ==> (#[trigger] entries[i]).memory_id@ != (
        #[trigger] entries[j]).memory_id@
}

impl MemoryFeedbackState {
    pub open spec fn wf(&self) -> bool {
        distinct_entries(self.feedback@)
    }

    pub open spec fn counts(&self, id: Seq<char>) -> Counts {
        counts_for(self.feedback@, id)
    }

    /// The memories that have feedback.
    pub open spec fn ids(&self) -> Seq<Seq<char>> {
        entry_ids(self.feedback@)
    }

    fn position(&self, memory_id: &str) -> (r: Option<usize>)
        ensures
            match r {
                Some(i) => i < self.feedback@.len() && rows::first_where(self.feedback@, entry_of(memory_id@)) == Some(i as int),
                None => rows::first_where(self.feedback@, entry_of(memory_id@)) is None,
            },
    {
        let ghost p = entry_of(memory_id@);
        let mut i: usize = 0;
        while i < self.feedback.len()
            invariant
                i <= self.feedback.len(),
                p == entry_of(memory_id@),
                forall|k: int| 0 <= k < i ==> !p(#[trigger] self.feedback@[k]),
            decreases self.feedback.len() - i,
        {
            if same(self.feedback[i].memory_id.as_str(), memory_id) {
                proof {
                    rows::lemma_first_is(self.feedback@, p, i as int);
                }
                return Some(i);
            }
            i = i + 1;
        }
        proof {
            rows::lemma_first_none(self.feedback@, p);
        }
        None
    }

    /// Records one more feedback. The count that grows is bounded by the machine word.
    pub fn record(&mut self, memory_id: &str, kind: FeedbackKind)
        requires
            old(self).wf(),
            count_of(old(self).counts(memory_id@), kind) < usize::MAX,
        ensures
            final(self).wf(),
            final(self).counts(memory_id@) == counted(old(self).counts(memory_id@), kind),
            forall|id: Seq<char>| id != memory_id@ ==> final(self).counts(id) == old(self).counts(id),
            final(self).ids() == (if old(self).ids().contains(memory_id@) {
                old(self).ids()
            } else {
                old(self).ids().push(memory_id@)
            }),
    {
        let ghost before = self.feedback@;
        let ghost p = entry_of(memory_id@);
        proof {
            rows::lemma_first_where(before, p);
            lemma_entry_ids(before, memory_id@);
        }
        let index: usize = match self.position(memory_id) {
            Some(i) => i,
            None => {
                proof {
                    rows::lemma_first_where(before, p);
                }
                let fresh = FeedbackEntry {
                    memory_id: owned(memory_id),
                    retrieved: 0,
                    injected: 0,
                    useful: 0,
                };
                self.feedback.push(fresh);
                proof {
                    assert forall|i: int, j: int|
                        0 <= i < j < self.feedback@.len() implies (
                    #[trigger] self.feedback@[i]).memory_id@ != (
                    #[trigger] self.feedback@[j]).memory_id@ by {
                        if j == before.len() {
                            assert(!p(before[i]));
                        }
                    }
                    lemma_counts_push(before, fresh);
                }
                self.feedback.len() - 1
            },
        };
        let ghost middle = self.feedback@;
        proof {
            rows::lemma_first_where(before, p);
            assert(middle[index as int].memory_id@ == memory_id@);
            lemma_counts_at(middle, index as int);
        }
        let e = &self.feedback[index];
        let updated = match kind {
            FeedbackKind::Retrieved => FeedbackEntry {
                memory_id: owned(memory_id),
                retrieved: e.retrieved + 1,
                injected: e.injected,
                useful: e.useful,
            },
            FeedbackKind::Injected => FeedbackEntry {
                memory_id: owned(memory_id),
                retrieved: e.retrieved,
                injected: e.injected + 1,
                useful: e.useful,
            },
            FeedbackKind::Useful => FeedbackEntry {
                memory_id: owned(memory_id),
                retrieved: e.retrieved,
                injected: e.injected,
                useful: e.useful + 1,
            },
        };
        self.feedback.set(index, updated);
        proof {
            assert forall|i: int, j: int| 0 <= i < j < self.feedback@.len() implies (
            #[trigger] self.feedback@[i]).memory_id@ != (
            #[trigger] self.feedback@[j]).memory_id@ by {
                assert(middle[i].memory_id@ != middle[j].memory_id@);
            }
            lemma_counts_at(self.feedback@, index as int);
            assert(entry_ids(self.feedback@) =~= entry_ids(middle));
            if rows::first_where(before, p) is Some {
                assert(middle == before);
            } else {
                assert(entry_ids(middle) =~= entry_ids(before).push(memory_id@));
            }
            assert forall|id: Seq<char>| id != memory_id@ implies self.counts(id) == counts_for(
                before,
                id,
            ) by {
                lemma_counts_set(middle, index as int, updated, id);
            }
        }
    }

    /// The memories that have feedback.
    pub fn memory_ids(&self) -> (r: Vec<String>)
        ensures
            text::texts(r@) == self.ids(),
    {
        let mut out: Vec<String> = Vec::new();
        let mut i: usize = 0;
        while i < self.feedback.len()
            invariant
                i <= self.feedback.len(),
                out@.len() == i,
                forall|k: int| 0 <= k < i ==> text::texts(out@)[k] == self.feedback@[k].memory_id@,
            decreases self.feedback.len() - i,
        {
            let ghost before = text::texts(out@);
            push_text(&mut out, self.feedback[i].memory_id.as_str());
            proof {
                assert(text::texts(out@).len() == out@.len());
                assert(before.len() == i);
            }
            i = i + 1;
        }
        proof {
            assert(text::texts(out@) =~= self.ids());
        }
        out
    }

    pub fn retrieved_count(&self, memory_id: &str) -> (r: usize)
        ensures
            r == self.counts(memory_id@).retrieved,
    {
        match self.position(memory_id) {
            Some(i) => self.feedback[i].retrieved,
            None => 0,
        }
    }

    pub fn injected_count(&self, memory_id: &str) -> (r: usize)
        ensures
            r == self.counts(memory_id@).injected,
    {
        match self.position(memory_id) {
            Some(i) => self.feedback[i].injected,
            None => 0,
        }
    }

    pub fn useful_count(&self, memory_id: &str) -> (r: usize)
        ensures
            r == self.counts(memory_id@).useful,
    {
        match self.position(memory_id) {
            Some(i) => self.feedback[i].useful,
            None => 0,
        }
    }

    pub fn has_feedback(&self) -> (r: bool)
        ensures
            r == (self.ids().len() > 0),
    {
        !self.feedback.is_empty()
    }
}

impl Default for MemoryFeedbackState {
    fn default() -> (r: Self)
        ensures
            r.wf(),
            r.feedback@.len() == 0,
            r.ids() == Seq::<Seq<char>>::empty(),
            forall|id: Seq<char>| #[trigger] r.counts(id) == no_counts(),
    {
        MemoryFeedbackState { feedback: Vec::new() }
    }
}

/// No memory is named twice among those with feedback, and those that are not named have no
/// counts.
pub proof fn lemma_feedback_ids(state: MemoryFeedbackState)
    requires
        state.wf(),
    ensures
        state.ids().no_duplicates(),
        forall|id: Seq<char>|
            !state.ids().contains(id) ==> #[trigger] state.counts(id) == no_counts(),
{
    let ids = state.ids();
    assert forall|i: int, j: int| 0 <= i < ids.len() && 0 <= j < ids.len() && i != j implies ids[i]
        != ids[j] by {
        let e = state.feedback@;
        if i < j {
            assert(e[i].memory_id@ != e[j].memory_id@);
        } else {
            assert(e[j].memory_id@ != e[i].memory_id@);
        }
    }
    assert forall|id: Seq<char>| !ids.contains(id) implies #[trigger] state.counts(id)
        == no_counts() by {
        lemma_entry_ids(state.feedback@, id);
    }
}

proof fn lemma_entry_ids(entries: Seq<FeedbackEntry>, id: Seq<char>)
    ensures
        entry_ids(entries).contains(id) == (rows::first_where(entries, entry_of(id)) is Some),
{
    let p = entry_of(id);
    let ids = entry_ids(entries);
    rows::lemma_first_where(entries, p);
    match rows::first_where(entries, p) {
        Some(i) => {
            assert(p(entries[i]));
            assert(ids[i] == id);
        },
        None => {
            if ids.contains(id) {
                let k = choose|k: int| 0 <= k < ids.len() && ids[k] == id;
                assert(!p(entries[k]));
            }
        },
    }
}

proof fn lemma_counts_at(entries: Seq<FeedbackEntry>, i: int)
    requires
        distinct_entries(entries),
        0 <= i < entries.len(),
    ensures
        counts_for(entries, entries[i].memory_id@) == entry_counts(entries[i]),
{
    let p = entry_of(entries[i].memory_id@);
    assert forall|k: int| 0 <= k < i implies !p(#[trigger] entries[k]) by {}
    rows::lemma_first_is(entries, p, i);
}

proof fn lemma_counts_push(entries: Seq<FeedbackEntry>, e: FeedbackEntry)
    ensures
        forall|id: Seq<char>| id != e.memory_id@ ==> counts_for(entries.push(e), id) == counts_for(entries, id),
{
    let out = entries.push(e);
    assert forall|id: Seq<char>| id != e.memory_id@ implies counts_for(out, id) == counts_for(
        entries,
        id,
    ) by {
        let p = entry_of(id);
        rows::lemma_first_where(entries, p);
        match rows::first_where(entries, p) {
            Some(i) => {
                assert forall|k: int| 0 <= k < i implies !p(#[trigger] out[k]) by {
                    assert(!p(entries[k]));
                }
                rows::lemma_first_is(out, p, i);
            },
            None => {
                assert forall|k: int| 0 <= k < out.len() implies !p(#[trigger] out[k]) by {
                    if k < entries.len() {
                        assert(!p(entries[k]));
                    }
                }
                rows::lemma_first_none(out, p);
            },
        }
    }
}

proof fn lemma_counts_set(entries: Seq<FeedbackEntry>, i: int, e: FeedbackEntry, id: Seq<char>)
    requires
        0 <= i < entries.len(),
        e.memory_id@ == entries[i].memory_id@,
        id != e.memory_id@,
    ensures
        counts_for(entries.update(i, e), id) == counts_for(entries, id),
{
    let p = entry_of(id);
    let out = entries.update(i, e);
    rows::lemma_first_where(entries, p);
    match rows::first_where(entries, p) {
        Some(j) => {
            assert(p(entries[j]) && !p(entries[i]));
            assert(out[j] == entries[j]);
            assert forall|k: int| 0 <= k < j implies !p(#[trigger] out[k]) by {
                assert(!p(entries[k]));
            }
            rows::lemma_first_is(out, p, j);
        },
        None => {
            assert forall|k: int| 0 <= k < out.len() implies !p(#[trigger] out[k]) by {
                assert(!p(entries[k]));
            }
            rows::lemma_first_none(out, p);
        },
    }
}

// ---------------------------------------------------------------------------
// Laws
// ---------------------------------------------------------------------------

/// Of two types of memory the first of these counts more: what the user said, facts of the
/// project, preferences, lessons, and what was gathered on the way.
pub proof fn lemma_types_in_order()
    ensures
        promotes(MemoryType::Explicit, MemoryType::ProjectFact),
        promotes(MemoryType::ProjectFact, MemoryType::UserPreference),
        promotes(MemoryType::UserPreference, MemoryType::Lesson),
        promotes(MemoryType::Lesson, MemoryType::Auto),
        forall|t: MemoryType| !#[trigger] promotes(t, t),
        forall|t: MemoryType| 60 <= #[trigger] type_priority(t) <= 100,
        forall|t: MemoryType| t != MemoryType::Explicit ==> #[trigger] promotes(MemoryType::Explicit, t),
{
}

/// Feedback of a kind counts for that kind alone.
pub proof fn lemma_feedback_is_counted(c: Counts, kind: FeedbackKind, other: FeedbackKind)
    ensures
        count_of(counted(c, kind), other) == count_of(c, other) + (if kind == other {
            1int
        } else {
            0
        }),
{
}

/// Each slot that is filled counts once, and an empty state counts none.
pub proof fn lemma_slots_are_counted(s: SessionStateData, v: Seq<char>)
    ensures
        filled_slots(blank_state()) == 0,
        0 <= filled_slots(s) <= 7,
        s.goal is None ==> filled_slots(SessionStateData { goal: Some(v), ..s }) == filled_slots(s)
            + 1,
        s.current_subtask is None ==> filled_slots(
            SessionStateData { current_subtask: Some(v), ..s },
        ) == filled_slots(s) + 1,
        s.constraints_json is None ==> filled_slots(
            SessionStateData { constraints_json: Some(v), ..s },
        ) == filled_slots(s) + 1,
        s.confirmed_facts_json is None ==> filled_slots(
            SessionStateData { confirmed_facts_json: Some(v), ..s },
        ) == filled_slots(s) + 1,
        s.done_items_json is None ==> filled_slots(
            SessionStateData { done_items_json: Some(v), ..s },
        ) == filled_slots(s) + 1,
        s.next_step is None ==> filled_slots(SessionStateData { next_step: Some(v), ..s })
            == filled_slots(s) + 1,
        s.open_questions_json is None ==> filled_slots(
            SessionStateData { open_questions_json: Some(v), ..s },
        ) == filled_slots(s) + 1,
{
}

/// The error on a link ends with the link.
pub proof fn lemma_error_names_its_link(url: String)
    ensures
        text::ends_with(error_message(TaskStoreError::InvalidUrl(url)), url@),
        text::ends_with(error_message(TaskStoreError::PrivateNetworkUrl(url)), url@),
        text::ends_with(error_message(TaskStoreError::UnsupportedScheme(url)), url@),
{
    let u = url@;
    let a = "无效 URL: "@ + u;
    let b = "不支持内网/本地地址: "@ + u;
    let c = "仅支持 http/https URL: "@ + u;
    assert(a.subrange(a.len() - u.len(), a.len() as int) =~= u);
    assert(b.subrange(b.len() - u.len(), b.len() as int) =~= u);
    assert(c.subrange(c.len() - u.len(), c.len() as int) =~= u);
}

/// Every decision is recorded behind the earlier ones of its kind, and the others stay.
pub proof fn lemma_decision_is_recorded(s: WriteStateData, d: Decision)
    ensures
        ({
            let r = with_decision(s, d);
            &&& r.written.len() + r.skipped.len() + r.promoted.len() == s.written.len()
                + s.skipped.len() + s.promoted.len() + 1
            &&& s.written.is_prefix_of(r.written)
            &&& s.skipped.is_prefix_of(r.skipped)
            &&& s.promoted.is_prefix_of(r.promoted)
            &&& d matches Decision::Written(m) ==> r.written.last() == m
            &&& r.candidate_count == s.candidate_count
        }),
{
}

} // verus!
