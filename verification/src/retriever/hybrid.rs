//! Reranking by a blend of the store's ranking and of closeness in meaning.

use crate::retriever::retrieval;
use crate::retriever::retrieval::{RetrieveQuery, effective_limit};
use crate::retriever::rule::RuleRetriever;
use crate::retriever::semantic_common;
use crate::retriever::semantic_common::{RerankConfig, RerankStep, retrieve_with_fallback};
use crate::task_store::store::TaskStore;
use crate::text::owned;
use vstd::prelude::*;

verus! {

/// Three times the number asked for, and no fewer than fifteen.
pub open spec fn hybrid_coarse(limit: int) -> int {
    if limit * 3 > usize::MAX {
        usize::MAX as int
    } else if limit * 3 < 15 {
        15
    } else {
        limit * 3
    }
}

pub fn hybrid_coarse_limit(limit: usize) -> (r: usize)
    ensures
        r == hybrid_coarse(limit as int),
{
    if limit > usize::MAX / 3 {
        usize::MAX
    } else if limit * 3 < 15 {
        15
    } else {
        limit * 3
    }
}

/// How a hybrid search reranks.
pub fn hybrid_config(name: &str, limit: usize) -> (r: RerankConfig)
    ensures
        r.display_name@ == "HybridRetriever"@,
        r.name@ == name@,
        r.mode@ == "hybrid"@,
        r.coarse_limit == hybrid_coarse(retrieval::asked_limit(limit) as int),
        r.include_blend_metadata,
{
    RerankConfig {
        display_name: owned("HybridRetriever"),
        name: owned(name),
        mode: owned("hybrid"),
        coarse_limit: hybrid_coarse_limit(effective_limit(limit)),
        include_blend_metadata: true,
    }
}

/// A search that finds widely by rule and ranks by a blend.
#[derive(Debug, Clone)]
pub struct HybridRetriever {
    pub rule_retriever: RuleRetriever,
    pub name: String,
}

impl HybridRetriever {
    pub fn new(db_path: &str) -> (r: Self)
        ensures
            r.rule_retriever.db_path@ == db_path@,
            r.rule_retriever.name@ == "rule_v1"@,
            r.name@ == "hybrid_v1"@,
    {
        HybridRetriever { rule_retriever: RuleRetriever::new(db_path), name: owned("hybrid_v1") }
    }

    pub fn with_name(self, name: &str) -> (r: Self)
        ensures
            r.rule_retriever == self.rule_retriever,
            r.name@ == name@,
    {
        HybridRetriever { rule_retriever: self.rule_retriever, name: owned(name) }
    }

    /// Starts a search.
    pub fn retrieve(
        &self,
        store: &TaskStore,
        model_name: &str,
        query: &RetrieveQuery,
        elapsed_ms: u128,
    ) -> (r: Result<RerankStep, String>)
        ensures
            semantic_common::started(
                r,
                store@.memories,
                *query,
                model_name@,
                "HybridRetriever"@,
                self.name@,
                "hybrid"@,
                hybrid_coarse(retrieval::asked_limit(query.limit) as int),
                true,
                elapsed_ms as int,
            ),
    {
        let config = hybrid_config(self.name.as_str(), query.limit);
        retrieve_with_fallback(
            &self.rule_retriever,
            store,
            model_name,
            query,
            config,
            elapsed_ms,
        )
    }
}

/// A hybrid search looks at more memories than it is asked for: three times as many, and
/// fifteen at least.
pub proof fn lemma_hybrid_looks_wider(limit: int)
    requires
        1 <= limit <= usize::MAX,
    ensures
        hybrid_coarse(limit) >= limit,
        hybrid_coarse(limit) >= 15,
        5 <= limit && 3 * limit <= usize::MAX ==> hybrid_coarse(limit) == limit + limit + limit,
        limit <= 5 ==> hybrid_coarse(limit) == 15,
{
}

} // verus!
