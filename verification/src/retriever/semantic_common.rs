//! Reranking found memories by how close their meaning is to a question. Whatever fails
//! on the way, the memories come back as the store ranks them.
//!
//! Vectors and similarities are computed by the caller, one step at a time.

use crate::ordering;
use crate::ordering::{KeyPart, Part, sort_rows};
use crate::retriever::retrieval;
use crate::retriever::retrieval::{
    ItemData, ResultData, RetrieveQuery, RetrieveResult, RetrievedItem, Score, effective_limit,
    question_of, score_string,
};
use crate::retriever::rule;
use crate::retriever::rule::RuleRetriever;
use crate::task_store::store::TaskStore;
use crate::task_store::types::MemoryData;
use crate::text;
use crate::text::{cat2, copy_opt, owned};
use vstd::prelude::*;

verus! {

/// What a way of reranking is called, how widely it searches first, and what it tells.
#[derive(Debug, Clone)]
pub struct RerankConfig {
    pub display_name: String,
    pub name: String,
    pub mode: String,
    pub coarse_limit: usize,
    pub include_blend_metadata: bool,
}

/// The scores of a memory: the semantic one and the blend in the ten-thousandths that they
/// are shown with, and the bit pattern of the blend, a double-precision number.
#[derive(Debug, Clone, Copy, PartialEq, Eq)]
pub struct CandidateScore {
    pub semantic: u32,
    pub blended: u32,
    pub bits: u64,
}

/// The place of a double-precision number among all others, from its bit pattern: the sign
/// comes first, and below it a larger pattern is a larger magnitude.
pub open spec fn bit_rank(bits: u64) -> int {
    if bits < 0x8000_0000_0000_0000 {
        bits as int
    } else {
        0x8000_0000_0000_0000 - bits
    }
}

fn rank_of_bits(bits: u64) -> (r: i64)
    ensures
        r == bit_rank(bits),
{
    if bits < 0x8000_0000_0000_0000 {
        bits as i64
    } else {
        let magnitude: u64 = bits - 0x8000_0000_0000_0000;
        0 - magnitude as i64
    }
}

/// A rerank on its way.
#[derive(Debug, Clone)]
pub struct Rerank {
    pub config: RerankConfig,
    pub model_name: String,
    pub coarse: RetrieveResult,
    pub limit: usize,
}

/// The next thing to do in a rerank.
#[derive(Debug, Clone)]
pub enum RerankStep {
    Done(RetrieveResult),
    EmbedQuery(String, Rerank),
    EmbedDocuments(Vec<String>, Rerank),
    Score(Rerank),
}

// ---------------------------------------------------------------------------
// Giving up
// ---------------------------------------------------------------------------

/// The first memories of a list.
pub open spec fn first_items(c: Seq<ItemData>, limit: int) -> Seq<ItemData> {
    if limit < c.len() {
        c.take(limit)
    } else {
        c
    }
}

/// A memory that was not reranked, and why.
pub open spec fn fallback_item(
    item: ItemData,
    reason: Seq<char>,
    mode: Seq<char>,
    model_name: Seq<char>,
) -> ItemData {
    let told = retrieval::with_tag(
        retrieval::with_tag(item, "retrieval_mode"@, mode + "_fallback"@),
        "fallback_reason"@,
        reason,
    );
    let scored = match item.score {
        Some(s) => retrieval::with_tag(told, "rule_score"@, retrieval::score_text(retrieval::shown_units(s))),
        None => told,
    };
    if scored.metadata.dom().contains("embedding_model"@) {
        scored
    } else {
        retrieval::with_tag(scored, "embedding_model"@, model_name)
    }
}

fn to_fallback_item(item: RetrievedItem, reason: &str, mode: &str, model_name: &str) -> (r:
    RetrievedItem)
    ensures
        r@ == fallback_item(item@, reason@, mode@, model_name@),
{
    let score: Option<Score> = item.score;
    let told = item.tagged("retrieval_mode", cat2(mode, "_fallback").as_str()).tagged(
        "fallback_reason",
        reason,
    );
    let scored = match score {
        Some(s) => told.tagged("rule_score", score_string(s.units()).as_str()),
        None => told,
    };
    if scored.metadata.contains_key("embedding_model") {
        scored
    } else {
        scored.tagged("embedding_model", model_name)
    }
}

pub open spec fn fallback_items(
    c: Seq<ItemData>,
    reason: Seq<char>,
    limit: int,
    mode: Seq<char>,
    model_name: Seq<char>,
) -> Seq<ItemData> {
    let kept = first_items(c, limit);
    Seq::new(kept.len(), |i: int| fallback_item(kept[i], reason, mode, model_name))
}

/// The result of a search that could not be reranked.
pub open spec fn fallback_result(
    c: Seq<ItemData>,
    reason: Seq<char>,
    elapsed_ms: int,
    limit: int,
    mode: Seq<char>,
    name: Seq<char>,
    model_name: Seq<char>,
) -> ResultData {
    retrieval::brought(fallback_items(c, reason, limit, mode, model_name), name + "_fallback"@, elapsed_ms)
}

/// The first memories as the store ranks them, marked as not reranked.
pub fn fallback_to_rule(
    coarse: RetrieveResult,
    reason: &str,
    elapsed_ms: u128,
    limit: usize,
    mode: &str,
    name: &str,
    model_name: &str,
) -> (r: RetrieveResult)
    ensures
        r@ == fallback_result(
            coarse@.candidates,
            reason@,
            elapsed_ms as int,
            limit as int,
            mode@,
            name@,
            model_name@,
        ),
{
    let candidates = coarse.candidates;
    let n: usize = if limit < candidates.len() {
        limit
    } else {
        candidates.len()
    };
    let mut out: Vec<RetrievedItem> = Vec::new();
    let mut i: usize = 0;
    while i < n
        invariant
            i <= n <= candidates.len(),
            out@.len() == i,
            forall|k: int|
                0 <= k < i ==> (#[trigger] out@[k])@ == fallback_item(
                    candidates@[k]@,
                    reason@,
                    mode@,
                    model_name@,
                ),
        decreases n - i,
    {
        out.push(to_fallback_item(candidates[i].copy(), reason, mode, model_name));
        i = i + 1;
    }
    proof {
        assert(retrieval::items(out@) =~= fallback_items(
            retrieval::items(candidates@),
            reason@,
            limit as int,
            mode@,
            model_name@,
        ));
    }
    RetrieveResult::of(out, cat2(name, "_fallback").as_str(), elapsed_ms)
}

/// A rerank that fails brings the first memories of the store's ranking, unchanged but
/// for their metadata.
pub proof fn lemma_fallback_keeps_memories(
    c: Seq<ItemData>,
    reason: Seq<char>,
    limit: int,
    mode: Seq<char>,
    model_name: Seq<char>,
)
    requires
        0 <= limit,
    ensures
        retrieval::same_memories(fallback_items(c, reason, limit, mode, model_name), first_items(c, limit)),
{
}

// ---------------------------------------------------------------------------
// The steps
// ---------------------------------------------------------------------------

/// The result of giving up a rerank.
pub open spec fn given_up(r: Rerank, reason: Seq<char>, elapsed_ms: int) -> ResultData {
    fallback_result(
        r.coarse@.candidates,
        reason,
        elapsed_ms,
        r.limit as int,
        r.config.mode@,
        r.config.name@,
        r.model_name@,
    )
}

/// The texts of the memories.
pub open spec fn item_contents(c: Seq<ItemData>) -> Seq<Seq<char>> {
    Seq::new(c.len(), |i: int| c[i].content)
}

/// How a rerank starts. Without a question there is nothing to rerank by; with one, its
/// vector is asked for, and the memories that a wide search found are kept for later.
pub open spec fn started(
    r: Result<RerankStep, String>,
    memories: Seq<MemoryData>,
    query: RetrieveQuery,
    model_name: Seq<char>,
    display_name: Seq<char>,
    name: Seq<char>,
    mode: Seq<char>,
    coarse_limit: int,
    include_blend: bool,
    elapsed_ms: int,
) -> bool {
    let wide = retrieval::asked_limit(coarse_limit as usize);
    let coarse = rule::ranked_items(memories, query.user_id@, wide as int);
    let asked = retrieval::question(text::opt_text(query.query_text));
    match r {
        Err(e) => wide > i64::MAX && e@ == display_name + " coarse 召回失败"@,
        Ok(RerankStep::Done(v)) => {
            &&& wide <= i64::MAX
            &&& asked is None
            &&& v@ == fallback_result(
                coarse,
                "query_text_empty"@,
                elapsed_ms,
                retrieval::asked_limit(query.limit) as int,
                mode,
                name,
                model_name,
            )
        },
        Ok(RerankStep::EmbedQuery(text, rerank)) => {
            &&& wide <= i64::MAX
            &&& asked == Some(text@)
            &&& rerank.config.display_name@ == display_name
            &&& rerank.config.name@ == name
            &&& rerank.config.mode@ == mode
            &&& rerank.config.coarse_limit == coarse_limit
            &&& rerank.config.include_blend_metadata == include_blend
            &&& rerank.model_name@ == model_name
            &&& rerank.limit == retrieval::asked_limit(query.limit)
            &&& rerank.coarse@.candidates == coarse
        },
        Ok(_) => false,
    }
}

/// Starts a rerank: searches the store widely, and asks for the vector of the question.
/// Without a question there is nothing to rerank by.
pub fn retrieve_with_fallback(
    rule_retriever: &RuleRetriever,
    store: &TaskStore,
    model_name: &str,
    query: &RetrieveQuery,
    config: RerankConfig,
    elapsed_ms: u128,
) -> (r: Result<RerankStep, String>)
    ensures
        started(
            r,
            store@.memories,
            *query,
            model_name@,
            config.display_name@,
            config.name@,
            config.mode@,
            config.coarse_limit as int,
            config.include_blend_metadata,
            elapsed_ms as int,
        ),
{
    let coarse_query = RetrieveQuery {
        user_id: query.user_id.clone(),
        query_text: copy_opt(&query.query_text),
        limit: config.coarse_limit,
        context_hints: query.context_hints.copy(),
    };
    let limit: usize = effective_limit(query.limit);
    match rule_retriever.retrieve(store, &coarse_query, elapsed_ms) {
        Err(_) => Err(cat2(config.display_name.as_str(), " coarse 召回失败")),
        Ok(coarse) => {
            match question_of(query) {
                None => Ok(
                    RerankStep::Done(
                        fallback_to_rule(
                            coarse,
                            "query_text_empty",
                            elapsed_ms,
                            limit,
                            config.mode.as_str(),
                            config.name.as_str(),
                            model_name,
                        ),
                    ),
                ),
                Some(text) => Ok(
                    RerankStep::EmbedQuery(
                        text,
                        Rerank { config, model_name: owned(model_name), coarse, limit },
                    ),
                ),
            }
        },
    }
}

/// The best memories by the blend, equal ones as they came.
pub open spec fn rank_keys(scores: Seq<CandidateScore>) -> Seq<Seq<Part>> {
    Seq::new(scores.len(), |i: int| seq![Part::NumDown(bit_rank(scores[i].bits))])
}

pub open spec fn rerank_order(scores: Seq<CandidateScore>, limit: int) -> Seq<int> {
    let order = ordering::sort_order(rank_keys(scores));
    if limit < order.len() {
        order.take(limit)
    } else {
        order
    }
}

/// A memory with its scores.
pub open spec fn reranked_item(r: Rerank, item: ItemData, s: CandidateScore) -> ItemData {
    let first = retrieval::with_tag(
        ItemData { score: Some(Score::Measured { bits: s.bits, units: s.blended }), ..item },
        "semantic_score"@,
        retrieval::score_text(s.semantic as int),
    );
    let blended = if r.config.include_blend_metadata {
        retrieval::with_tag(
            retrieval::with_tag(first, "rule_score"@, retrieval::score_text(rule_units(item))),
            "final_score"@,
            retrieval::score_text(s.blended as int),
        )
    } else {
        first
    };
    retrieval::with_tag(
        retrieval::with_tag(blended, "retrieval_mode"@, r.config.mode@),
        "embedding_model"@,
        r.model_name@,
    )
}

/// The score that the store's ranking gives, one half where there is none.
pub open spec fn rule_units(item: ItemData) -> int {
    match item.score {
        Some(s) => retrieval::shown_units(s),
        None => 5000,
    }
}

pub open spec fn reranked_items(r: Rerank, scores: Seq<CandidateScore>) -> Seq<ItemData> {
    let order = rerank_order(scores, r.limit as int);
    Seq::new(
        order.len(),
        |i: int| reranked_item(r, r.coarse@.candidates[order[i]], scores[order[i]]),
    )
}

impl Rerank {
    fn give_up(self, reason: &str, elapsed_ms: u128) -> (r: RetrieveResult)
        ensures
            r@ == given_up(self, reason@, elapsed_ms as int),
    {
        fallback_to_rule(
            self.coarse,
            reason,
            elapsed_ms,
            self.limit,
            self.config.mode.as_str(),
            self.config.name.as_str(),
            self.model_name.as_str(),
        )
    }

    /// Goes on once the vector of the question is there, or could not be had.
    pub fn query_embedded(self, outcome: Result<(), String>, elapsed_ms: u128) -> (r: RerankStep)
        ensures
            match (outcome, r) {
                (Err(e), RerankStep::Done(v)) => v@ == given_up(
                    self,
                    "embedding_error: "@ + e@,
                    elapsed_ms as int,
                ),
                (Ok(_), RerankStep::Done(v)) => self.coarse@.candidates.len() == 0 && v@ == retrieval::brought(
                    Seq::empty(),
                    self.config.name@,
                    elapsed_ms as int,
                ),
                (Ok(_), RerankStep::EmbedDocuments(contents, rerank)) => rerank == self
                    && self.coarse@.candidates.len() > 0 && text::texts(contents@) == item_contents(
                    self.coarse@.candidates,
                ),
                _ => false,
            },
    {
        match outcome {
            Err(e) => RerankStep::Done(
                self.give_up(cat2("embedding_error: ", e.as_str()).as_str(), elapsed_ms),
            ),
            Ok(_) => {
                if self.coarse.candidates.len() == 0 {
                    let none: Vec<RetrievedItem> = Vec::new();
                    proof {
                        assert(retrieval::items(none@) =~= Seq::<ItemData>::empty());
                    }
                    return RerankStep::Done(
                        RetrieveResult::of(none, self.config.name.as_str(), elapsed_ms),
                    );
                }
                let mut contents: Vec<String> = Vec::new();
                let mut i: usize = 0;
                while i < self.coarse.candidates.len()
                    invariant
                        i <= self.coarse.candidates.len(),
                        contents@.len() == i,
                        forall|k: int|
                            0 <= k < i ==> (#[trigger] contents@[k])@
                                == self.coarse.candidates@[k].content@,
                    decreases self.coarse.candidates.len() - i,
                {
                    contents.push(self.coarse.candidates[i].content.clone());
                    i = i + 1;
                }
                proof {
                    assert(text::texts(contents@) =~= item_contents(self.coarse@.candidates));
                }
                RerankStep::EmbedDocuments(contents, self)
            },
        }
    }

    /// Goes on once the vectors of the memories are there, or could not be had. There has
    /// to be one for each memory.
    pub fn documents_embedded(self, outcome: Result<usize, String>, elapsed_ms: u128) -> (r:
        RerankStep)
        ensures
            match (outcome, r) {
                (Err(e), RerankStep::Done(v)) => v@ == given_up(
                    self,
                    "embedding_documents_error: "@ + e@,
                    elapsed_ms as int,
                ),
                (Ok(n), RerankStep::Done(v)) => n != self.coarse@.candidates.len() && v@
                    == given_up(self, "embedding_documents_count_mismatch"@, elapsed_ms as int),
                (Ok(n), RerankStep::Score(rerank)) => n == self.coarse@.candidates.len() && rerank
                    == self,
                _ => false,
            },
    {
        match outcome {
            Err(e) => RerankStep::Done(
                self.give_up(cat2("embedding_documents_error: ", e.as_str()).as_str(), elapsed_ms),
            ),
            Ok(n) => {
                if n != self.coarse.candidates.len() {
                    RerankStep::Done(self.give_up("embedding_documents_count_mismatch", elapsed_ms))
                } else {
                    RerankStep::Score(self)
                }
            },
        }
    }

    fn reranked(&self, item: &RetrievedItem, s: CandidateScore) -> (r: RetrievedItem)
        ensures
            r@ == reranked_item(*self, item@, s),
    {
        let rule: u32 = match item.score {
            Some(s) => s.units(),
            None => 5000,
        };
        let mut scored = item.copy();
        scored.score = Some(Score::Measured { bits: s.bits, units: s.blended });
        let first = scored.tagged("semantic_score", score_string(s.semantic).as_str());
        let blended = if self.config.include_blend_metadata {
            first.tagged("rule_score", score_string(rule).as_str()).tagged(
                "final_score",
                score_string(s.blended).as_str(),
            )
        } else {
            first
        };
        blended.tagged("retrieval_mode", self.config.mode.as_str()).tagged(
            "embedding_model",
            self.model_name.as_str(),
        )
    }

    /// Ends a rerank: the best memories by rank, at most as many as were asked for.
    pub fn finish(&self, scores: &Vec<CandidateScore>, elapsed_ms: u128) -> (r: RetrieveResult)
        requires
            scores@.len() == self.coarse@.candidates.len(),
        ensures
            r@ == retrieval::brought(
                reranked_items(*self, scores@),
                self.config.name@,
                elapsed_ms as int,
            ),
    {
        let mut keys: Vec<Vec<KeyPart>> = Vec::new();
        let mut i: usize = 0;
        while i < scores.len()
            invariant
                i <= scores.len(),
                keys@.len() == i,
                forall|k: int|
                    0 <= k < i ==> ordering::key_view((#[trigger] keys@[k])@) == seq![
                        Part::NumDown(bit_rank(scores@[k].bits)),
                    ],
            decreases scores.len() - i,
        {
            let mut key: Vec<KeyPart> = Vec::new();
            key.push(KeyPart::NumDown(rank_of_bits(scores[i].bits)));
            proof {
                assert(ordering::key_view(key@) =~= seq![Part::NumDown(bit_rank(scores@[i as int].bits))]);
            }
            keys.push(key);
            i = i + 1;
        }
        proof {
            assert(ordering::keys_view(keys@) =~= rank_keys(scores@));
        }
        let order = sort_rows(&keys);
        let n: usize = if self.limit < order.len() {
            self.limit
        } else {
            order.len()
        };
        let ghost wanted = rerank_order(scores@, self.limit as int);
        proof {
            assert(wanted.len() == n);
            assert forall|k: int| 0 <= k < n implies wanted[k] == (#[trigger] order@[k]) by {
                assert(ordering::indices(order@)[k] == order@[k]);
            }
        }
        let mut out: Vec<RetrievedItem> = Vec::new();
        let mut j: usize = 0;
        while j < n
            invariant
                j <= n <= order.len(),
                scores@.len() == self.coarse.candidates@.len(),
                forall|k: int| 0 <= k < order@.len() ==> (#[trigger] order@[k]) < scores@.len(),
                out@.len() == j,
                forall|k: int|
                    0 <= k < j ==> (#[trigger] out@[k])@ == reranked_item(
                        *self,
                        self.coarse.candidates@[order@[k] as int]@,
                        scores@[order@[k] as int],
                    ),
            decreases n - j,
        {
            let at: usize = order[j];
            out.push(self.reranked(&self.coarse.candidates[at], scores[at]));
            j = j + 1;
        }
        proof {
            assert forall|k: int| 0 <= k < n implies (#[trigger] out@[k])@ == reranked_items(
                *self,
                scores@,
            )[k] by {
                assert(wanted[k] == order@[k]);
            }
            assert(retrieval::items(out@) =~= reranked_items(*self, scores@));
        }
        RetrieveResult::of(out, self.config.name.as_str(), elapsed_ms)
    }
}

/// A rerank brings memories that the store found, none of them twice, the best ranks
/// first, and no more than were asked for.
pub proof fn lemma_rerank_order(scores: Seq<CandidateScore>, limit: int)
    requires
        0 <= limit,
    ensures
        ({
            let order = rerank_order(scores, limit);
            &&& order.len() <= limit
            &&& forall|i: int|
                0 <= i < order.len() ==> 0 <= (#[trigger] order[i]) < scores.len()
            &&& forall|i: int, j: int|
                0 <= i < j < order.len() ==> (#[trigger] order[i]) != (#[trigger] order[j])
            &&& forall|i: int, j: int|
                0 <= i < j < order.len() ==> bit_rank(scores[#[trigger] order[i]].bits)
                    >= bit_rank(scores[#[trigger] order[j]].bits)
        }),
{
    let keys = rank_keys(scores);
    assert(ordering::uniform(keys));
    ordering::lemma_sort_order(keys);
    let all = ordering::sort_order(keys);
    let order = rerank_order(scores, limit);
    assert forall|i: int, j: int| 0 <= i < j < order.len() implies bit_rank(
        scores[#[trigger] order[i]].bits,
    ) >= bit_rank(scores[#[trigger] order[j]].bits) by {
        assert(order[i] == all[i] && order[j] == all[j]);
        let a = keys[all[i]];
        let b = keys[all[j]];
        if bit_rank(scores[all[i]].bits) < bit_rank(scores[all[j]].bits) {
            assert(ordering::part_before(b[0], a[0]));
            assert(ordering::key_before(b, a));
        }
    }
}

/// The place of a number among all others is that of its sign and its magnitude: positive
/// patterns count up, and negative ones below them count down.
pub proof fn lemma_bit_rank(a: u64, b: u64)
    requires
        a < b,
    ensures
        b < 0x8000_0000_0000_0000 ==> bit_rank(a) < bit_rank(b),
        a >= 0x8000_0000_0000_0000 ==> bit_rank(a) > bit_rank(b),
        a < 0x8000_0000_0000_0000 && b > 0x8000_0000_0000_0000 ==> bit_rank(a) > bit_rank(b),
        bit_rank(0x8000_0000_0000_0000) == bit_rank(0),
{
}

/// Memories with the same score stay in the order in which they came.
pub proof fn lemma_equal_scores_keep_order(
    scores: Seq<CandidateScore>,
    limit: int,
    i: int,
    j: int,
)
    requires
        0 <= limit,
        0 <= i < j < rerank_order(scores, limit).len(),
        bit_rank(scores[rerank_order(scores, limit)[i]].bits) == bit_rank(
            scores[rerank_order(scores, limit)[j]].bits,
        ),
    ensures
        rerank_order(scores, limit)[i] < rerank_order(scores, limit)[j],
{
    let keys = rank_keys(scores);
    assert forall|a: int, b: int| 0 <= a < keys.len() && 0 <= b < keys.len() implies ordering::same_shape(
        #[trigger] keys[a],
        #[trigger] keys[b],
    ) by {}
    ordering::lemma_sort_order(keys);
    let order = ordering::sort_order(keys);
    assert(ordering::in_order(keys, order[i], order[j]));
    assert(keys[order[i]] =~= keys[order[j]]);
    ordering::lemma_key_order(keys[order[i]], keys[order[j]], keys[order[i]]);
}

/// Every memory that was found is in the new order where the limit leaves room for all.
pub proof fn lemma_rerank_loses_nothing(scores: Seq<CandidateScore>, limit: int, k: int)
    requires
        scores.len() <= limit,
        0 <= k < scores.len(),
    ensures
        rerank_order(scores, limit).contains(k),
        rerank_order(scores, limit).len() == scores.len(),
{
    let keys = rank_keys(scores);
    assert forall|a: int, b: int| 0 <= a < keys.len() && 0 <= b < keys.len() implies ordering::same_shape(
        #[trigger] keys[a],
        #[trigger] keys[b],
    ) by {}
    ordering::lemma_sort_order(keys);
    assert(ordering::sort_order(keys).contains(k));
}

/// Each memory of the new order has the score of its own place among those that were found,
/// and its own text.
pub proof fn lemma_scores_stay_with_memories(r: Rerank, scores: Seq<CandidateScore>, i: int)
    requires
        scores.len() == r.coarse@.candidates.len(),
        0 <= i < reranked_items(r, scores).len(),
    ensures
        exists|k: int|
            {
                &&& 0 <= k < scores.len()
                &&& #[trigger] r.coarse@.candidates[k].id == reranked_items(r, scores)[i].id
                &&& r.coarse@.candidates[k].content == reranked_items(r, scores)[i].content
                &&& reranked_items(r, scores)[i].score == Some(
                    Score::Measured { bits: scores[k].bits, units: scores[k].blended },
                )
            },
{
    lemma_rerank_order(scores, r.limit as int);
    let k = rerank_order(scores, r.limit as int)[i];
    assert(r.coarse@.candidates[k].id == reranked_items(r, scores)[i].id);
}

/// A memory that could not be reranked keeps its text and its score, and tells why.
pub proof fn lemma_fallback_tells_why(
    item: ItemData,
    reason: Seq<char>,
    mode: Seq<char>,
    model_name: Seq<char>,
)
    ensures
        ({
            let r = fallback_item(item, reason, mode, model_name);
            &&& r.id == item.id && r.content == item.content && r.score == item.score
            &&& r.metadata["fallback_reason"@] == reason
            &&& r.metadata["retrieval_mode"@] == mode + "_fallback"@
            &&& r.metadata.dom().contains("embedding_model"@)
            &&& !item.metadata.dom().contains("embedding_model"@) ==> r.metadata["embedding_model"@]
                == model_name
        }),
{
    reveal_strlit("fallback_reason");
    reveal_strlit("retrieval_mode");
    reveal_strlit("embedding_model");
    reveal_strlit("rule_score");
    assert("fallback_reason"@.len() == 15 && "fallback_reason"@[0] == 'f');
    assert("embedding_model"@.len() == 15 && "embedding_model"@[0] == 'e');
    assert("retrieval_mode"@.len() == 14);
    assert("rule_score"@.len() == 10);
}

/// A memory that was reranked tells its score and by which model it was found.
pub proof fn lemma_rerank_tells_scores(r: Rerank, item: ItemData, s: CandidateScore)
    ensures
        ({
            let x = reranked_item(r, item, s);
            &&& x.id == item.id && x.content == item.content
            &&& x.metadata["semantic_score"@] == retrieval::score_text(s.semantic as int)
            &&& x.metadata["embedding_model"@] == r.model_name@
            &&& x.metadata["retrieval_mode"@] == r.config.mode@
            &&& r.config.include_blend_metadata ==> x.metadata["final_score"@]
                == retrieval::score_text(s.blended as int)
            &&& item.score is None ==> rule_units(item) == 5000
        }),
{
    reveal_strlit("semantic_score");
    reveal_strlit("retrieval_mode");
    reveal_strlit("embedding_model");
    reveal_strlit("rule_score");
    reveal_strlit("final_score");
    assert("semantic_score"@.len() == 14 && "semantic_score"@[0] == 's');
    assert("retrieval_mode"@.len() == 14 && "retrieval_mode"@[0] == 'r');
    assert("embedding_model"@.len() == 15);
    assert("rule_score"@.len() == 10);
    assert("final_score"@.len() == 11);
}

} // verus!
