//! Personal link-archiving assistant: command routing, sessions, archiving rules and memory governance.
pub mod chat_adapter;
pub mod clock;
pub mod command_router;
pub mod config;
pub mod context_pack;
pub mod env_file;
pub mod ids;
pub mod json;
pub mod logging;
pub mod mode_policy;
pub mod ordering;
pub mod paths;
pub mod pipeline;
pub mod reporter;
pub mod retriever;
pub mod rows;
pub mod scheduler;
pub mod session_router;
pub mod session_summary;
pub mod task_executor;
pub mod task_store;
pub mod text;
pub mod tool_registry;
pub mod url;
