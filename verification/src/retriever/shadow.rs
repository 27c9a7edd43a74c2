//! A search that answers by rule, and looks aside at what another search would bring.

use crate::retriever::retrieval;
use crate::retriever::retrieval::{
    ItemData, RetrieveQuery, RetrieveResult, RetrievedItem, question_of, tag_all,
};
use crate::retriever::rule;
use crate::retriever::rule::RuleRetriever;
use crate::task_store::store::TaskStore;
use crate::task_store::types::MemoryData;
use crate::text;
use crate::text::{owned, same};
use vstd::prelude::*;

verus! {

/// Brings what a search by rule brings.
#[derive(Debug, Clone)]
pub struct ShadowRetriever {
    pub rule_retriever: RuleRetriever,
    pub name: String,
}

/// How the two searches differ.
#[derive(Debug, Clone, Copy, PartialEq, Eq)]
pub struct ShadowComparison {
    pub rule_count: usize,
    pub hybrid_count: usize,
    pub overlap: usize,
    pub order_same: bool,
}

/// How many of the first memories are among the second, by id.
pub open spec fn overlap(a: Seq<ItemData>, b: Seq<ItemData>) -> nat
    decreases a.len(),
{
    if a.len() == 0 {
        0
    } else {
        overlap(a.drop_last(), b) + if has_id(b, a.last().id) {
            1nat
        } else {
            0nat
        }
    }
}

pub open spec fn has_id(c: Seq<ItemData>, id: Seq<char>) -> bool {
    exists|i: int| 0 <= i < c.len() && (#[trigger] c[i]).id == id
}

/// The same ids in the same order.
pub open spec fn same_ids(a: Seq<ItemData>, b: Seq<ItemData>) -> bool {
    a.len() == b.len() && forall|i: int| 0 <= i < a.len() ==> (#[trigger] a[i]).id == b[i].id
}

fn holds_id(c: &Vec<RetrievedItem>, id: &str) -> (r: bool)
    ensures
        r == has_id(retrieval::items(c@), id@),
{
    let mut i: usize = 0;
    while i < c.len()
        invariant
            i <= c.len(),
            forall|k: int| 0 <= k < i ==> (#[trigger] retrieval::items(c@)[k]).id != id@,
        decreases c.len() - i,
    {
        if same(c[i].id.as_str(), id) {
            assert(retrieval::items(c@)[i as int].id == id@);
            return true;
        }
        i = i + 1;
    }
    false
}

proof fn lemma_overlap_bound(a: Seq<ItemData>, b: Seq<ItemData>)
    ensures
        overlap(a, b) <= a.len(),
    decreases a.len(),
{
    if a.len() > 0 {
        lemma_overlap_bound(a.drop_last(), b);
    }
}

/// Compares what two searches brought.
pub fn compare_results(rule: &RetrieveResult, hybrid: &RetrieveResult) -> (r: ShadowComparison)
    ensures
        r.rule_count == rule@.candidates.len(),
        r.hybrid_count == hybrid@.candidates.len(),
        r.overlap == overlap(rule@.candidates, hybrid@.candidates),
        r.order_same == same_ids(rule@.candidates, hybrid@.candidates),
{
    let a = &rule.candidates;
    let b = &hybrid.candidates;
    let ghost x = retrieval::items(a@);
    let ghost y = retrieval::items(b@);
    let mut shared: usize = 0;
    let mut order_same: bool = a.len() == b.len();
    let mut i: usize = 0;
    while i < a.len()
        invariant
            i <= a.len(),
            x == retrieval::items(a@),
            y == retrieval::items(b@),
            shared == overlap(x.take(i as int), y),
            shared <= i,
            order_same == (x.len() == y.len() && forall|k: int|
                0 <= k < i ==> (#[trigger] x[k]).id == y[k].id),
        decreases a.len() - i,
    {
        proof {
            assert(x.take(i + 1).drop_last() =~= x.take(i as int));
            lemma_overlap_bound(x.take(i + 1), y);
        }
        if holds_id(b, a[i].id.as_str()) {
            shared = shared + 1;
        }
        if order_same && !same(a[i].id.as_str(), b[i].id.as_str()) {
            order_same = false;
            assert(x[i as int].id != y[i as int].id);
        }
        i = i + 1;
    }
    proof {
        assert(x.take(i as int) =~= x);
    }
    ShadowComparison { rule_count: a.len(), hybrid_count: b.len(), overlap: shared, order_same }
}

impl ShadowRetriever {
    pub fn new(db_path: &str) -> (r: Self)
        ensures
            r.rule_retriever.db_path@ == db_path@,
            r.rule_retriever.name@ == "rule_v1"@,
            r.name@ == "shadow_v1"@,
    {
        ShadowRetriever { rule_retriever: RuleRetriever::new(db_path), name: owned("shadow_v1") }
    }

    pub fn with_name(self, name: &str) -> (r: Self)
        ensures
            r.rule_retriever == self.rule_retriever,
            r.name@ == name@,
    {
        ShadowRetriever { rule_retriever: self.rule_retriever, name: owned(name) }
    }

    /// The other search is looked at where there is one, and a question to put to it.
    pub fn should_compare(&self, query: &RetrieveQuery, has_hybrid: bool) -> (r: bool)
        ensures
            r == (has_hybrid && retrieval::question(text::opt_text(query.query_text)) is Some),
    {
        has_hybrid && question_of(query).is_some()
    }

    /// Brings what the search by rule brings, marked as a shadow.
    pub fn retrieve(&self, store: &TaskStore, query: &RetrieveQuery, elapsed_ms: u128) -> (r: Result<
        RetrieveResult,
        String,
    >)
        ensures
            match r {
                Ok(v) => retrieval::asked_limit(query.limit) <= i64::MAX && v@ == retrieval::brought(
                    retrieval::all_tagged(
                        rule::ranked_items(
                            store@.memories,
                            query.user_id@,
                            retrieval::asked_limit(query.limit) as int,
                        ),
                        "retrieval_mode"@,
                        "shadow"@,
                    ),
                    self.name@,
                    elapsed_ms as int,
                ),
                Err(e) => retrieval::asked_limit(query.limit) > i64::MAX && e@
                    == "RuleRetriever 检索 user_memories 失败"@,
            },
    {
        match self.rule_retriever.retrieve(store, query, elapsed_ms) {
            Ok(result) => Ok(
                RetrieveResult::of(
                    tag_all(result.candidates, "retrieval_mode", "shadow"),
                    self.name.as_str(),
                    elapsed_ms,
                ),
            ),
            Err(e) => Err(e),
        }
    }
}

/// A shadow brings the memories that the search by rule brings, in the same order.
pub proof fn lemma_shadow_is_rule(memories: Seq<MemoryData>, user_id: Seq<char>, limit: int)
    ensures
        retrieval::same_memories(
            retrieval::all_tagged(
                rule::ranked_items(memories, user_id, limit),
                "retrieval_mode"@,
                "shadow"@,
            ),
            rule::ranked_items(memories, user_id, limit),
        ),
{
}

/// Each of the first memories counts once where it is among the second, so no more are
/// counted than there are, and all of them where both searches found the same.
pub proof fn lemma_overlap(a: Seq<ItemData>, x: ItemData, b: Seq<ItemData>, c: Seq<ItemData>)
    ensures
        overlap(a + seq![x] + b, c) == overlap(a, c) + (if has_id(c, x.id) {
            1nat
        } else {
            0
        }) + overlap(b, c),
        overlap(a, c) <= a.len(),
    decreases b.len(), a.len(),
{
    let all = a + seq![x] + b;
    if b.len() > 0 {
        assert(all.drop_last() =~= a + seq![x] + b.drop_last());
        assert(all.last() == b.last());
        lemma_overlap(a, x, b.drop_last(), c);
    } else {
        assert(all.drop_last() =~= a);
        assert(all.last() == x);
        if a.len() > 0 {
            lemma_overlap(a.drop_last(), x, b, c);
        }
    }
}

} // verus!
