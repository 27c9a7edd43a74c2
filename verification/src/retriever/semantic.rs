//! Reranking by closeness in meaning alone.

use crate::retriever::retrieval::RetrieveQuery;
use crate::retriever::rule::RuleRetriever;
use crate::retriever::semantic_common;
use crate::retriever::semantic_common::{RerankConfig, RerankStep, retrieve_with_fallback};
use crate::task_store::store::TaskStore;
use crate::text::owned;
use vstd::prelude::*;

verus! {

/// How many memories a semantic search looks through.
pub const SEMANTIC_COARSE_LIMIT: usize = 1000;

/// How a semantic search reranks.
pub fn semantic_config(name: &str) -> (r: RerankConfig)
    ensures
        r.display_name@ == "SemanticRetriever"@,
        r.name@ == name@,
        r.mode@ == "semantic"@,
        r.coarse_limit == SEMANTIC_COARSE_LIMIT,
        !r.include_blend_metadata,
{
    RerankConfig {
        display_name: owned("SemanticRetriever"),
        name: owned(name),
        mode: owned("semantic"),
        coarse_limit: SEMANTIC_COARSE_LIMIT,
        include_blend_metadata: false,
    }
}

/// A search that looks through all memories of a user and ranks by meaning.
#[derive(Debug, Clone)]
pub struct SemanticRetriever {
    pub rule_retriever: RuleRetriever,
    pub name: String,
}

impl SemanticRetriever {
    pub fn new(db_path: &str) -> (r: Self)
        ensures
            r.rule_retriever.db_path@ == db_path@,
            r.rule_retriever.name@ == "rule_v1"@,
            r.name@ == "semantic_v1"@,
    {
        SemanticRetriever { rule_retriever: RuleRetriever::new(db_path), name: owned("semantic_v1") }
    }

    pub fn with_name(self, name: &str) -> (r: Self)
        ensures
            r.rule_retriever == self.rule_retriever,
            r.name@ == name@,
    {
        SemanticRetriever { rule_retriever: self.rule_retriever, name: owned(name) }
    }

    /// Starts a search.
    pub fn retrieve(
        &self,
        store: &TaskStore,
        model_name: &str,
        query: &RetrieveQuery,
        elapsed_ms: u128,
    ) -> (r: Result<RerankStep, String>)
        ensures
            semantic_common::started(
                r,
                store@.memories,
                *query,
                model_name@,
                "SemanticRetriever"@,
                self.name@,
                "semantic"@,
                SEMANTIC_COARSE_LIMIT as int,
                false,
                elapsed_ms as int,
            ),
    {
        let config = semantic_config(self.name.as_str());
        retrieve_with_fallback(
            &self.rule_retriever,
            store,
            model_name,
            query,
            config,
            elapsed_ms,
        )
    }
}

} // verus!
