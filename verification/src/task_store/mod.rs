//! The task store: records, link rules, task life cycle, sessions and memories.

pub mod chunk_queue;
pub mod embedding_cache;
pub mod logging;
pub mod memory;
pub mod sessions;
pub mod store;
pub mod tasks;
pub mod types;
pub mod url_guard;

pub use self::logging::summarize_text_for_log;
pub use self::store::{Stamp, TaskStore};
pub use self::types::{
    ArchivedTaskRecord, ClaimableTaskRecord, FeedbackKind, LinkTaskRecord, MarkTaskArchivedInput,
    MemoryFeedbackState, MemoryType, MemoryWriteState, PendingChunkRecord, PendingTaskRecord,
    PromoteReason, RecentTaskRecord, SkipReason, StoredSessionRecord, TaskContentRecord,
    TaskStatusRecord, TaskStoreError, UserMemoryRecord, UserSessionStateRecord, WriteDecision,
};
pub use self::url_guard::{is_private_host_with, is_private_url, normalize_url, source_domain};
