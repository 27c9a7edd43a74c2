//! Finding the memories that matter for a question.

pub mod cached_embedding;
pub mod embedding;
pub mod guarded;
pub mod hybrid;
pub mod metadata;
pub mod retrieval;
pub mod rule;
pub mod semantic;
pub mod semantic_common;
pub mod shadow;
