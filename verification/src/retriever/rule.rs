//! Searching by the ranking of the store alone.

use crate::retriever::metadata::Metadata;
use crate::retriever::retrieval;
use crate::retriever::retrieval::{
    ItemData, RetrieveQuery, RetrieveResult, RetrievedItem, Score, effective_limit,
};
use crate::task_store::memory;
use crate::task_store::store;
use crate::task_store::store::TaskStore;
use crate::task_store::types;
use crate::task_store::types::{MemoryData, UserMemoryRecord};
use crate::text;
use crate::text::{i64_text, owned};
use vstd::prelude::*;

verus! {

/// Brings the memories of a user as the store ranks them.
#[derive(Debug, Clone)]
pub struct RuleRetriever {
    pub db_path: String,
    pub name: String,
}

/// A priority as a score in ten-thousandths: one hundred and more is one, nothing and
/// less is zero.
pub open spec fn priority_score(priority: int) -> int {
    if priority < 0 {
        0
    } else if priority > 100 {
        10000
    } else {
        priority * 100
    }
}

pub fn normalize_priority(priority: i64) -> (r: u32)
    ensures
        r == priority_score(priority as int),
{
    if priority < 0 {
        0
    } else if priority > 100 {
        10000
    } else {
        (priority as u32) * 100
    }
}

pub open spec fn bool_text(b: bool) -> Seq<char> {
    if b {
        "true"@
    } else {
        "false"@
    }
}

pub fn bool_string(b: bool) -> (r: String)
    ensures
        r@ == bool_text(b),
{
    if b {
        owned("true")
    } else {
        owned("false")
    }
}

/// What is told of a memory besides its text.
pub open spec fn record_metadata(m: MemoryData) -> Map<Seq<char>, Seq<char>> {
    let counted = Map::<Seq<char>, Seq<char>>::empty()
        .insert("memory_type"@, types::memory_type_name(m.memory_type))
        .insert("priority"@, text::signed_decimal(m.priority))
        .insert("status"@, m.status)
        .insert("use_count"@, text::signed_decimal(m.use_count))
        .insert("retrieved_count"@, text::signed_decimal(m.retrieved_count))
        .insert("injected_count"@, text::signed_decimal(m.injected_count))
        .insert("useful"@, bool_text(m.useful));
    let used = match m.last_used_at {
        Some(t) => counted.insert("last_used_at"@, t),
        None => counted,
    };
    used.insert("created_at"@, m.created_at).insert("updated_at"@, m.updated_at)
}

pub open spec fn record_item(m: MemoryData) -> ItemData {
    ItemData {
        id: m.id,
        content: m.content,
        score: Some(Score::Units(priority_score(m.priority) as u32)),
        source_type: types::memory_type_name(m.memory_type),
        metadata: record_metadata(m),
    }
}

pub fn record_to_item(record: &UserMemoryRecord) -> (r: RetrievedItem)
    ensures
        r@ == record_item(record@),
        r.metadata.wf(),
{
    let mut metadata = Metadata::new();
    metadata.insert("memory_type", record.memory_type.as_str());
    metadata.insert("priority", i64_text(record.priority).as_str());
    metadata.insert("status", record.status.as_str());
    metadata.insert("use_count", i64_text(record.use_count).as_str());
    metadata.insert("retrieved_count", i64_text(record.retrieved_count).as_str());
    metadata.insert("injected_count", i64_text(record.injected_count).as_str());
    metadata.insert("useful", bool_string(record.useful).as_str());
    match &record.last_used_at {
        Some(t) => {
            metadata.insert("last_used_at", t.as_str());
        },
        None => {},
    }
    metadata.insert("created_at", record.created_at.as_str());
    metadata.insert("updated_at", record.updated_at.as_str());
    RetrievedItem {
        id: record.id.clone(),
        content: record.content.clone(),
        score: Some(Score::Units(normalize_priority(record.priority))),
        source_type: owned(record.memory_type.as_str()),
        metadata,
    }
}

/// The best memories of a user, at most `limit` of them.
pub open spec fn ranked_items(memories: Seq<MemoryData>, user_id: Seq<char>, limit: int) -> Seq<
    ItemData,
> {
    let best = memory::first_rows(memory::ranked_memories(memories, user_id), limit);
    Seq::new(best.len(), |i: int| record_item(best[i]))
}

impl RuleRetriever {
    pub fn new(db_path: &str) -> (r: Self)
        ensures
            r.db_path@ == db_path@,
            r.name@ == "rule_v1"@,
    {
        RuleRetriever { db_path: owned(db_path), name: owned("rule_v1") }
    }

    pub fn with_name(self, name: &str) -> (r: Self)
        ensures
            r.db_path == self.db_path,
            r.name@ == name@,
    {
        RuleRetriever { db_path: self.db_path, name: owned(name) }
    }

    /// Brings the memories of the user of a query, in the order of the store.
    pub fn retrieve(&self, store: &TaskStore, query: &RetrieveQuery, elapsed_ms: u128) -> (r: Result<
        RetrieveResult,
        String,
    >)
        ensures
            match r {
                Ok(v) => retrieval::asked_limit(query.limit) <= i64::MAX && v@ == retrieval::brought(
                    ranked_items(
                        store@.memories,
                        query.user_id@,
                        retrieval::asked_limit(query.limit) as int,
                    ),
                    self.name@,
                    elapsed_ms as int,
                ),
                Err(e) => retrieval::asked_limit(query.limit) > i64::MAX && e@
                    == "RuleRetriever 检索 user_memories 失败"@,
            },
    {
        let limit: usize = effective_limit(query.limit);
        match store.search_user_memories(query.user_id.as_str(), limit) {
            Ok(records) => {
                let ghost best = memory::first_rows(
                    memory::ranked_memories(store@.memories, query.user_id@),
                    limit as int,
                );
                let mut candidates: Vec<RetrievedItem> = Vec::new();
                let mut i: usize = 0;
                while i < records.len()
                    invariant
                        i <= records.len(),
                        candidates@.len() == i,
                        forall|k: int|
                            0 <= k < i ==> (#[trigger] candidates@[k])@ == record_item(
                                records@[k]@,
                            ),
                    decreases records.len() - i,
                {
                    candidates.push(record_to_item(&records[i]));
                    i = i + 1;
                }
                proof {
                    assert(store::memory_data(records@) == best);
                    assert(best.len() == records@.len());
                    assert forall|k: int| 0 <= k < records@.len() implies (
                    #[trigger] candidates@[k])@ == record_item(best[k]) by {
                        assert(best[k] == records@[k]@);
                    }
                    assert(retrieval::items(candidates@) =~= ranked_items(
                        store@.memories,
                        query.user_id@,
                        limit as int,
                    ));
                }
                Ok(RetrieveResult::of(candidates, self.name.as_str(), elapsed_ms))
            },
            Err(_) => Err(owned("RuleRetriever 检索 user_memories 失败")),
        }
    }
}

/// Every memory that is brought belongs to the user who asked, and no more are brought
/// than were asked for.
pub proof fn lemma_only_own_memories(memories: Seq<MemoryData>, user_id: Seq<char>, limit: int)
    requires
        0 <= limit,
    ensures
        ranked_items(memories, user_id, limit).len() <= limit,
        forall|i: int|
            0 <= i < ranked_items(memories, user_id, limit).len() ==> exists|m: MemoryData|
                memories.contains(m) && m.user_id == user_id && record_item(m) == (
                #[trigger] ranked_items(memories, user_id, limit)[i]),
{
    let ranked = memory::ranked_memories(memories, user_id);
    let best = memory::first_rows(ranked, limit);
    assert forall|i: int| 0 <= i < ranked_items(memories, user_id, limit).len() implies exists|
        m: MemoryData,
    |
        memories.contains(m) && m.user_id == user_id && record_item(m) == (#[trigger] ranked_items(
            memories,
            user_id,
            limit,
        )[i]) by {
        assert(best[i] == ranked[i]);
        memory::lemma_ranked_members(memories, user_id);
        assert(ranked.contains(ranked[i]));
        assert(record_item(ranked[i]) == ranked_items(memories, user_id, limit)[i]);
    }
}

/// Scores grow with the priority, from nothing at zero to one at a hundred, and not beyond.
pub proof fn lemma_scores_grow(p: int, q: int)
    requires
        p <= q,
    ensures
        priority_score(p) <= priority_score(q),
        0 <= priority_score(p) <= 10000,
        0 <= p && q <= 100 ==> priority_score(q) - priority_score(p) == 100 * (q - p),
        priority_score(0) == 0,
        priority_score(100) == 10000,
{
}

/// The memories come in the order of the ranking, each with its own text and identity.
pub proof fn lemma_items_are_ranked(
    memories: Seq<MemoryData>,
    user_id: Seq<char>,
    limit: int,
    i: int,
)
    requires
        0 <= limit,
        0 <= i < ranked_items(memories, user_id, limit).len(),
    ensures
        ({
            let item = ranked_items(memories, user_id, limit)[i];
            let m = memory::ranked_memories(memories, user_id)[i];
            &&& ranked_items(memories, user_id, limit).len() <= limit
            &&& item.id == m.id && item.content == m.content
            &&& item.source_type == types::memory_type_name(m.memory_type)
            &&& item.score == Some(Score::Units(priority_score(m.priority) as u32))
        }),
{
}

proof fn lemma_metadata_names()
    ensures
        "memory_type"@.len() == 11,
        "priority"@.len() == 8,
        "status"@.len() == 6 && "status"@[0] == 's',
        "useful"@.len() == 6 && "useful"@[0] == 'u',
        "use_count"@.len() == 9,
        "retrieved_count"@.len() == 15,
        "injected_count"@.len() == 14,
        "last_used_at"@.len() == 12,
        "created_at"@.len() == 10 && "created_at"@[0] == 'c',
        "updated_at"@.len() == 10 && "updated_at"@[0] == 'u',
{
    reveal_strlit("memory_type");
    reveal_strlit("priority");
    reveal_strlit("status");
    reveal_strlit("useful");
    reveal_strlit("use_count");
    reveal_strlit("retrieved_count");
    reveal_strlit("injected_count");
    reveal_strlit("last_used_at");
    reveal_strlit("created_at");
    reveal_strlit("updated_at");
}

/// What is told of a memory is told under its name: its counts, its state and its times.
pub proof fn lemma_metadata(m: MemoryData)
    ensures
        ({
            let d = record_metadata(m);
            &&& d["priority"@] == text::signed_decimal(m.priority)
            &&& d["use_count"@] == text::signed_decimal(m.use_count)
            &&& d["retrieved_count"@] == text::signed_decimal(m.retrieved_count)
            &&& d["injected_count"@] == text::signed_decimal(m.injected_count)
            &&& d["status"@] == m.status
            &&& d["memory_type"@] == types::memory_type_name(m.memory_type)
            &&& d["useful"@] == (if m.useful {
                "true"@
            } else {
                "false"@
            })
            &&& d["created_at"@] == m.created_at
            &&& d["updated_at"@] == m.updated_at
            &&& d.dom().contains("last_used_at"@) == (m.last_used_at is Some)
            &&& m.last_used_at is Some ==> Some(d["last_used_at"@]) == m.last_used_at
        }),
{
    lemma_metadata_names();
}

} // verus!
