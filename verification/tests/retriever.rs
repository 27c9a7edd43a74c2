use amclaw::retriever::cached_embedding::{missing_texts, plan_batch, CachedEmbeddingProvider};
use amclaw::retriever::embedding::{
    check_service_status, check_vector_count, choose_provider, create_embedding_provider, embeddings_url, read_settings,
    NoOpEmbeddingProvider, ProviderChoice,
};
use amclaw::retriever::guarded::{GuardedRetriever, Rollout};
use amclaw::retriever::hybrid::HybridRetriever;
use amclaw::retriever::metadata::Metadata;
use amclaw::retriever::retrieval::{
    score_string, RetrieveQuery, RetrieveResult, RetrievedItem, Score,
};
use amclaw::retriever::rule::{normalize_priority, RuleRetriever};
use amclaw::retriever::semantic::SemanticRetriever;
use amclaw::retriever::semantic_common::{fallback_to_rule, CandidateScore, Rerank, RerankStep};
use amclaw::retriever::shadow::{compare_results, ShadowRetriever};
use amclaw::task_store::embedding_cache::{hash_text, text_hash, EmbeddingCache};
use amclaw::task_store::{MemoryType, TaskStore};

fn text(s: &str) -> Option<String> {
    Some(s.to_string())
}

/// A store with the given memories.
fn store_with(rows: &[(&str, &str, MemoryType, i64)]) -> TaskStore {
    let mut store = TaskStore::new();
    for (i, (user, content, memory_type, priority)) in rows.iter().enumerate() {
        store
            .add_user_memory_typed(
                user,
                content,
                *memory_type,
                *priority,
                &format!("memory-{i:02}"),
                "2026-04-17T10:00:00Z",
            )
            .expect("写入失败");
    }
    store
}

/// A vector that depends on the text alone.
fn fake_vector(text: &str) -> Vec<f32> {
    let hash = text.bytes().fold(0u64, |acc, b| acc.wrapping_mul(31).wrapping_add(b as u64));
    (0..4u64).map(|i| (hash.wrapping_add(i) % 1000) as f32 / 1000.0).collect()
}

fn similarity(a: &[f32], b: &[f32]) -> f64 {
    let dot: f64 = a.iter().zip(b).map(|(x, y)| *x as f64 * *y as f64).sum();
    let na: f64 = a.iter().map(|x| *x as f64 * *x as f64).sum();
    let nb: f64 = b.iter().map(|x| *x as f64 * *x as f64).sum();
    if na == 0.0 || nb == 0.0 {
        0.0
    } else {
        (dot / (na.sqrt() * nb.sqrt())).clamp(0.0, 1.0)
    }
}

/// Drives a rerank with the fake vectors, or with a service that always fails.
fn drive(step: Result<RerankStep, String>, failing: bool, alpha: f64) -> RetrieveResult {
    let mut question: Vec<f32> = Vec::new();
    let mut documents: Vec<Vec<f32>> = Vec::new();
    let mut step = step.expect("检索失败");
    loop {
        step = match step {
            RerankStep::Done(result) => return result,
            RerankStep::EmbedQuery(text, rerank) => {
                if failing {
                    rerank.query_embedded(Err("simulated embedding failure".to_string()), 0)
                } else {
                    question = fake_vector(&text);
                    rerank.query_embedded(Ok(()), 0)
                }
            }
            RerankStep::EmbedDocuments(texts, rerank) => {
                documents = texts.iter().map(|t| fake_vector(t)).collect();
                rerank.documents_embedded(Ok(documents.len()), 0)
            }
            RerankStep::Score(rerank) => {
                let scores: Vec<CandidateScore> = rerank
                    .coarse
                    .candidates
                    .iter()
                    .zip(&documents)
                    .map(|(item, d)| {
                        let semantic = similarity(&question, d);
                        let rule = match item.score {
                            Some(Score::Measured { bits, .. }) => f64::from_bits(bits),
                            Some(Score::Units(units)) => units as f64 / 10000.0,
                            None => 0.5,
                        };
                        let blended = alpha * semantic + (1.0 - alpha) * rule;
                        CandidateScore {
                            semantic: (semantic * 10000.0).round() as u32,
                            blended: (blended * 10000.0).round() as u32,
                            bits: blended.to_bits(),
                        }
                    })
                    .collect();
                return rerank.finish(&scores, 0);
            }
        };
    }
}

fn run_hybrid(store: &TaskStore, retriever: &HybridRetriever, query: &RetrieveQuery, failing: bool) -> RetrieveResult {
    let model = if failing { "failing_model" } else { "fake_test_model" };
    drive(retriever.retrieve(store, model, query, 0), failing, 0.5)
}

fn run_semantic(store: &TaskStore, retriever: &SemanticRetriever, query: &RetrieveQuery, failing: bool) -> RetrieveResult {
    let model = if failing { "failing_model" } else { "fake_test_model" };
    drive(retriever.retrieve(store, model, query, 0), failing, 1.0)
}

// ---------------------------------------------------------------------------
// By rule
// ---------------------------------------------------------------------------

#[test]
fn rule_retriever_returns_same_order_as_task_store_search() {
    let store = store_with(&[
        ("user-a", "低优先级", MemoryType::Auto, 60),
        ("user-a", "高优先级", MemoryType::Explicit, 100),
        ("user-a", "中优先级", MemoryType::UserPreference, 80),
    ]);
    let direct = store.search_user_memories("user-a", 15).expect("查询失败");
    let retriever = RuleRetriever::new("amclaw.db");
    let result = retriever
        .retrieve(&store, &RetrieveQuery::new("user-a", 15), 0)
        .expect("检索失败");

    assert_eq!(result.candidates.len(), 3);
    assert_eq!(result.retriever_name, "rule_v1");
    for (direct_rec, item) in direct.iter().zip(result.candidates.iter()) {
        assert_eq!(direct_rec.id, item.id);
        assert_eq!(direct_rec.content, item.content);
    }
    assert_eq!(result.candidates[0].content, "高优先级");
    assert_eq!(result.candidates[1].content, "中优先级");
    assert_eq!(result.candidates[2].content, "低优先级");
}

#[test]
fn retrieve_result_contains_retriever_name_and_counts() {
    let store = store_with(&[("user-b", "测试内容", MemoryType::ProjectFact, 85)]);
    let result = RuleRetriever::new("amclaw.db")
        .retrieve(&store, &RetrieveQuery::new("user-b", 10), 7)
        .expect("检索失败");

    assert_eq!(result.candidates.len(), 1);
    assert_eq!(result.retriever_name, "rule_v1");
    assert_eq!(result.hit_count, 0);
    assert_eq!(result.dropped_count, 0);
    assert_eq!(result.latency_ms, 7);
}

#[test]
fn rule_retriever_custom_name() {
    let store = store_with(&[("user-c", "内容", MemoryType::Lesson, 75)]);
    let result = RuleRetriever::new("amclaw.db")
        .with_name("rule_v2_test")
        .retrieve(&store, &RetrieveQuery::new("user-c", 10), 0)
        .expect("检索失败");
    assert_eq!(result.retriever_name, "rule_v2_test");
    assert_eq!(result.latency_ms, 1);
}

#[test]
fn rule_retriever_user_isolation() {
    let store = store_with(&[
        ("user-x", "X 的记忆", MemoryType::UserPreference, 80),
        ("user-y", "Y 的记忆", MemoryType::Lesson, 75),
    ]);
    let retriever = RuleRetriever::new("amclaw.db");
    let result_x = retriever
        .retrieve(&store, &RetrieveQuery::new("user-x", 10), 0)
        .expect("检索失败");
    let result_y = retriever
        .retrieve(&store, &RetrieveQuery::new("user-y", 10), 0)
        .expect("检索失败");

    assert_eq!(result_x.candidates.len(), 1);
    assert_eq!(result_x.candidates[0].content, "X 的记忆");
    assert_eq!(result_y.candidates.len(), 1);
    assert_eq!(result_y.candidates[0].content, "Y 的记忆");
}

#[test]
fn rule_retriever_returns_metadata_with_memory_type_and_priority() {
    let store = store_with(&[("user-d", "元数据测试", MemoryType::ProjectFact, 85)]);
    let result = RuleRetriever::new("amclaw.db")
        .retrieve(&store, &RetrieveQuery::new("user-d", 10), 0)
        .expect("检索失败");

    let item = &result.candidates[0];
    assert_eq!(item.metadata.get("memory_type"), text("project_fact"));
    assert_eq!(item.metadata.get("priority"), text("85"));
    assert_eq!(item.metadata.get("useful"), text("false"));
    assert_eq!(item.metadata.get("use_count"), text("0"));
    assert_eq!(item.metadata.get("last_used_at"), None);
    assert_eq!(item.source_type, "project_fact");
    assert_eq!(item.score, Some(Score::Units(8500)));
    assert!(item.metadata.contains_key("created_at"));
    assert!(item.metadata.contains_key("updated_at"));
}

#[test]
fn rule_retriever_empty_result_for_unknown_user() {
    let store = store_with(&[]);
    let result = RuleRetriever::new("amclaw.db")
        .retrieve(&store, &RetrieveQuery::new("unknown-user", 10), 0)
        .expect("检索应成功，即使无结果");
    assert!(result.candidates.is_empty());
    assert_eq!(result.retriever_name, "rule_v1");
}

#[test]
fn rule_search_without_a_number_brings_fifteen() {
    let rows: Vec<(String, i64)> = (0..20).map(|i| (format!("记忆 {i}"), i)).collect();
    let rows: Vec<(&str, &str, MemoryType, i64)> =
        rows.iter().map(|(c, p)| ("u", c.as_str(), MemoryType::Auto, *p)).collect();
    let store = store_with(&rows);
    let result = RuleRetriever::new("amclaw.db")
        .retrieve(&store, &RetrieveQuery::new("u", 0), 0)
        .expect("检索失败");
    assert_eq!(result.candidates.len(), 15);
    assert_eq!(result.candidates[0].content, "记忆 19");
}

#[test]
fn rule_search_refuses_a_number_that_is_too_large() {
    let store = store_with(&[]);
    let err = RuleRetriever::new("amclaw.db")
        .retrieve(&store, &RetrieveQuery::new("u", usize::MAX), 0)
        .expect_err("应失败");
    assert_eq!(err, "RuleRetriever 检索 user_memories 失败");
    let err = HybridRetriever::new("amclaw.db")
        .retrieve(&store, "m", &RetrieveQuery::new("u", usize::MAX), 0)
        .expect_err("应失败");
    assert_eq!(err, "HybridRetriever coarse 召回失败");
}

#[test]
fn priorities_become_scores() {
    assert_eq!(normalize_priority(-5), 0);
    assert_eq!(normalize_priority(70), 7000);
    assert_eq!(normalize_priority(100), 10000);
    assert_eq!(normalize_priority(250), 10000);
    assert_eq!(score_string(7000), "0.7000");
    assert_eq!(score_string(10000), "1.0000");
    assert_eq!(score_string(42), "0.0042");
    assert_eq!(score_string(123456), "12.3456");
}

#[test]
fn a_query_is_built_up() {
    let query = RetrieveQuery::new("u", 3)
        .with_query_text("问题")
        .with_hint("task", "a")
        .with_hint("task", "b")
        .with_hint("step", "1");
    assert_eq!(query.user_id, "u");
    assert_eq!(query.query_text, text("问题"));
    assert_eq!(query.limit, 3);
    assert_eq!(query.context_hints.get("task"), text("b"));
    assert_eq!(query.context_hints.get("step"), text("1"));
    assert_eq!(query.context_hints.get("none"), None);
}

// ---------------------------------------------------------------------------
// Giving up
// ---------------------------------------------------------------------------

fn coarse_item(id: &str, score: Option<Score>) -> RetrievedItem {
    RetrievedItem {
        id: id.to_string(),
        content: format!("内容 {id}"),
        score,
        source_type: "auto".to_string(),
        metadata: Metadata::new(),
    }
}

fn coarse_result(items: Vec<RetrievedItem>) -> RetrieveResult {
    RetrieveResult {
        candidates: items,
        hit_count: 0,
        dropped_count: 0,
        latency_ms: 1,
        retriever_name: "rule_v1".to_string(),
    }
}

#[test]
fn fallback_to_rule_fills_unified_metadata() {
    let result = fallback_to_rule(
        coarse_result(vec![coarse_item("a", Some(Score::Units(7000))), coarse_item("b", None)]),
        "embedding_error: boom",
        0,
        10,
        "semantic",
        "semantic_v1",
        "fake_test_model",
    );

    assert_eq!(result.retriever_name, "semantic_v1_fallback");
    let with_score = &result.candidates[0];
    assert_eq!(with_score.metadata.get("retrieval_mode"), text("semantic_fallback"));
    assert_eq!(with_score.metadata.get("fallback_reason"), text("embedding_error: boom"));
    assert_eq!(with_score.metadata.get("rule_score"), text("0.7000"));
    assert_eq!(with_score.metadata.get("embedding_model"), text("fake_test_model"));

    let no_score = &result.candidates[1];
    assert!(!no_score.metadata.contains_key("rule_score"));
    assert!(no_score.metadata.contains_key("embedding_model"));
}

#[test]
fn fallback_to_rule_respects_limit() {
    let items: Vec<RetrievedItem> =
        (0..5).map(|i| coarse_item(&format!("id-{i}"), Some(Score::Units(5000)))).collect();
    let result = fallback_to_rule(
        coarse_result(items),
        "query_text_empty",
        0,
        2,
        "hybrid",
        "hybrid_v1",
        "fake_test_model",
    );
    assert_eq!(result.candidates.len(), 2);
    assert_eq!(result.retriever_name, "hybrid_v1_fallback");
    assert_eq!(result.candidates[0].id, "id-0");
    assert_eq!(result.candidates[1].id, "id-1");
}

#[test]
fn fallback_to_rule_keeps_existing_embedding_model() {
    let mut item = coarse_item("a", Some(Score::Units(5000)));
    item.metadata.insert("embedding_model", "original_model");
    let result = fallback_to_rule(
        coarse_result(vec![item]),
        "query_text_empty",
        0,
        10,
        "hybrid",
        "hybrid_v1",
        "other_model",
    );
    assert_eq!(
        result.candidates[0].metadata.get("embedding_model"),
        text("original_model"),
        "已有 embedding_model 不应被覆盖"
    );
}

// ---------------------------------------------------------------------------
// Hybrid
// ---------------------------------------------------------------------------

#[test]
fn hybrid_retriever_basic_flow() {
    let store = store_with(&[
        ("user-h1", " Rust 编程", MemoryType::Auto, 60),
        ("user-h1", "深度学习", MemoryType::Explicit, 100),
        ("user-h1", "Web 开发", MemoryType::UserPreference, 80),
    ]);
    let query = RetrieveQuery::new("user-h1", 2).with_query_text("机器学习");
    let result = run_hybrid(&store, &HybridRetriever::new("amclaw.db"), &query, false);

    assert_eq!(result.candidates.len(), 2);
    assert_eq!(result.retriever_name, "hybrid_v1");
    assert!(result.latency_ms > 0);
    for item in &result.candidates {
        assert!(item.metadata.contains_key("rule_score"), "应有 rule_score");
        assert!(item.metadata.contains_key("semantic_score"), "应有 semantic_score");
        assert!(item.metadata.contains_key("final_score"), "应有 final_score");
        assert_eq!(item.metadata.get("retrieval_mode"), text("hybrid"));
        assert_eq!(item.metadata.get("embedding_model"), text("fake_test_model"));
    }
}

#[test]
fn hybrid_retriever_fallback_on_embedding_error() {
    let store = store_with(&[("user-h2", "测试内容", MemoryType::Auto, 70)]);
    let query = RetrieveQuery::new("user-h2", 5).with_query_text("测试");
    let result = run_hybrid(&store, &HybridRetriever::new("amclaw.db"), &query, true);

    assert!(result.retriever_name.contains("fallback"));
    assert_eq!(result.candidates.len(), 1);
    let item = &result.candidates[0];
    assert_eq!(item.metadata.get("retrieval_mode"), text("hybrid_fallback"));
    let reason = item.metadata.get("fallback_reason").expect("应有 fallback_reason");
    assert!(reason.contains("embedding_error"), "fallback reason 应说明 embedding 错误");
}

#[test]
fn hybrid_retriever_fallback_on_empty_query_text() {
    let store = store_with(&[("user-h3", "测试内容", MemoryType::Auto, 70)]);
    let query = RetrieveQuery::new("user-h3", 5);
    let result = run_hybrid(&store, &HybridRetriever::new("amclaw.db"), &query, false);

    assert!(result.retriever_name.contains("fallback"));
    assert_eq!(result.candidates.len(), 1);
    assert_eq!(result.candidates[0].metadata.get("fallback_reason"), text("query_text_empty"));
}

#[test]
fn hybrid_retriever_empty_result_for_unknown_user() {
    let store = store_with(&[]);
    let query = RetrieveQuery::new("unknown-user", 5).with_query_text(" anything");
    let result = run_hybrid(&store, &HybridRetriever::new("amclaw.db"), &query, false);
    assert!(result.candidates.is_empty());
    assert_eq!(result.retriever_name, "hybrid_v1");
}

#[test]
fn hybrid_retriever_respects_limit() {
    let names: Vec<(String, i64)> = (0..10).map(|i| (format!("内容 {}", i), 50 + i * 5)).collect();
    let rows: Vec<(&str, &str, MemoryType, i64)> =
        names.iter().map(|(c, p)| ("user-h4", c.as_str(), MemoryType::Auto, *p)).collect();
    let store = store_with(&rows);
    let query = RetrieveQuery::new("user-h4", 3).with_query_text("内容");
    let result = run_hybrid(&store, &HybridRetriever::new("amclaw.db"), &query, false);
    assert_eq!(result.candidates.len(), 3);
}

#[test]
fn hybrid_retriever_custom_alpha() {
    let store = store_with(&[
        ("user-h5", "A", MemoryType::Auto, 50),
        ("user-h5", "B", MemoryType::Auto, 100),
    ]);
    let query = RetrieveQuery::new("user-h5", 5).with_query_text("A");
    let retriever = HybridRetriever::new("amclaw.db");
    let result = drive(retriever.retrieve(&store, "fake_test_model", &query, 0), false, 0.8);
    assert_eq!(result.retriever_name, "hybrid_v1");
    assert!(!result.candidates.is_empty());
}

#[test]
fn hybrid_retriever_custom_name() {
    let store = store_with(&[]);
    let retriever = HybridRetriever::new("amclaw.db").with_name("hybrid_v2_test");
    let query = RetrieveQuery::new("user-h6", 5).with_query_text("test");
    let result = run_hybrid(&store, &retriever, &query, false);
    assert_eq!(result.retriever_name, "hybrid_v2_test");
}

fn rerank_of(store: &TaskStore, limit: usize) -> Rerank {
    let query = RetrieveQuery::new("u", limit).with_query_text("  问题 ");
    match HybridRetriever::new("amclaw.db").retrieve(store, "m1", &query, 0).expect("检索失败") {
        RerankStep::EmbedQuery(asked, rerank) => {
            assert_eq!(asked, "问题");
            rerank
        }
        other => panic!("应要求问题向量: {other:?}"),
    }
}

#[test]
fn the_best_ranks_come_first_and_ties_keep_their_order() {
    let store = store_with(&[
        ("u", "一", MemoryType::Auto, 90),
        ("u", "二", MemoryType::Auto, 80),
        ("u", "三", MemoryType::Auto, 70),
        ("u", "四", MemoryType::Auto, 60),
    ]);
    let rerank = rerank_of(&store, 3);
    let score = |semantic: u32, blended: u32, bits: u64| CandidateScore { semantic, blended, bits };
    let result = rerank.finish(
        &vec![score(100, 500, 5), score(200, 900, 9), score(300, 500, 5), score(400, 9000, 90)],
        12,
    );
    let order: Vec<&str> = result.candidates.iter().map(|c| c.content.as_str()).collect();
    assert_eq!(order, vec!["四", "二", "一"]);
    assert_eq!(result.candidates[0].score, Some(Score::Measured { bits: 90, units: 9000 }));
    assert_eq!(result.candidates[0].metadata.get("semantic_score"), text("0.0400"));
    assert_eq!(result.candidates[0].metadata.get("rule_score"), text("0.6000"));
    assert_eq!(result.candidates[0].metadata.get("final_score"), text("0.9000"));
    assert_eq!(result.latency_ms, 12);
}

#[test]
fn a_score_is_kept_to_the_last_bit() {
    let store = store_with(&[
        ("u", "一", MemoryType::Auto, 90),
        ("u", "二", MemoryType::Auto, 80),
        ("u", "三", MemoryType::Auto, 70),
    ]);
    let rerank = rerank_of(&store, 5);
    let blends = [0.3f64, 0.1 + 0.2, -0.25];
    let scores: Vec<CandidateScore> = blends
        .iter()
        .map(|x| CandidateScore { semantic: 0, blended: 3000, bits: x.to_bits() })
        .collect();
    let result = rerank.finish(&scores, 0);
    let order: Vec<&str> = result.candidates.iter().map(|c| c.content.as_str()).collect();
    assert_eq!(order, vec!["二", "一", "三"]);
    assert_eq!(
        result.candidates[0].score,
        Some(Score::Measured { bits: (0.1f64 + 0.2).to_bits(), units: 3000 })
    );
    assert_eq!(result.candidates[0].score.map(|s| s.units()), Some(3000));
}

#[test]
fn a_missing_vector_ends_a_rerank() {
    let store = store_with(&[
        ("u", "一", MemoryType::Auto, 90),
        ("u", "二", MemoryType::Auto, 80),
    ]);
    let asked = match rerank_of(&store, 5).query_embedded(Ok(()), 0) {
        RerankStep::EmbedDocuments(texts, rerank) => {
            assert_eq!(texts, vec!["一".to_string(), "二".to_string()]);
            rerank
        }
        other => panic!("应要求文档向量: {other:?}"),
    };
    match asked.clone().documents_embedded(Ok(1), 0) {
        RerankStep::Done(result) => assert_eq!(
            result.candidates[0].metadata.get("fallback_reason"),
            text("embedding_documents_count_mismatch")
        ),
        other => panic!("应回退: {other:?}"),
    }
    match asked.documents_embedded(Err("boom".to_string()), 0) {
        RerankStep::Done(result) => {
            assert_eq!(result.retriever_name, "hybrid_v1_fallback");
            assert_eq!(
                result.candidates[0].metadata.get("fallback_reason"),
                text("embedding_documents_error: boom")
            );
        }
        other => panic!("应回退: {other:?}"),
    }
}

// ---------------------------------------------------------------------------
// Semantic
// ---------------------------------------------------------------------------

#[test]
fn semantic_retriever_basic_flow() {
    let store = store_with(&[
        ("user-sem1", "Rust 编程语言", MemoryType::Auto, 60),
        ("user-sem1", "Python 深度学习", MemoryType::Explicit, 100),
        ("user-sem1", "Go 并发编程", MemoryType::UserPreference, 80),
    ]);
    let query = RetrieveQuery::new("user-sem1", 2).with_query_text("Rust 语言");
    let result = run_semantic(&store, &SemanticRetriever::new("amclaw.db"), &query, false);

    assert_eq!(result.candidates.len(), 2);
    assert_eq!(result.retriever_name, "semantic_v1");
    for item in &result.candidates {
        assert!(
            item.metadata.contains_key("semantic_score"),
            "semantic 结果应包含 semantic_score"
        );
        assert!(!item.metadata.contains_key("final_score"));
        assert_eq!(item.metadata.get("retrieval_mode"), text("semantic"));
        assert_eq!(item.metadata.get("embedding_model"), text("fake_test_model"));
    }
}

#[test]
fn semantic_retriever_fallback_on_embedding_error() {
    let store = store_with(&[("user-sem2", "测试内容", MemoryType::Auto, 70)]);
    let query = RetrieveQuery::new("user-sem2", 5).with_query_text("测试");
    let result = run_semantic(&store, &SemanticRetriever::new("amclaw.db"), &query, true);

    assert_eq!(result.candidates.len(), 1);
    assert!(
        result.retriever_name.contains("fallback"),
        "embedding 失败时应 fallback, 实际: {}",
        result.retriever_name
    );
    assert_eq!(result.candidates[0].metadata.get("retrieval_mode"), text("semantic_fallback"));
}

#[test]
fn semantic_fallback_metadata_matches_hybrid_fallback() {
    let store = store_with(&[("user-sem-fb", "测试内容", MemoryType::Auto, 70)]);
    let query = RetrieveQuery::new("user-sem-fb", 5).with_query_text("测试");
    let sem_result = run_semantic(&store, &SemanticRetriever::new("amclaw.db"), &query, true);
    let hyb_result = run_hybrid(&store, &HybridRetriever::new("amclaw.db"), &query, true);

    for (mode, item) in [
        ("semantic_fallback", &sem_result.candidates[0]),
        ("hybrid_fallback", &hyb_result.candidates[0]),
    ] {
        assert_eq!(item.metadata.get("retrieval_mode"), Some(mode.to_string()));
        assert!(item.metadata.contains_key("fallback_reason"), "{mode} 应有 fallback_reason");
        assert!(item.metadata.contains_key("rule_score"), "{mode} 应补 rule_score");
        assert_eq!(
            item.metadata.get("embedding_model"),
            text("failing_model"),
            "{mode} 应补 embedding_model"
        );
    }
}

#[test]
fn semantic_retriever_fallback_on_empty_query_text() {
    let store = store_with(&[("user-sem3", "内容", MemoryType::Auto, 60)]);
    let query = RetrieveQuery::new("user-sem3", 5);
    let result = run_semantic(&store, &SemanticRetriever::new("amclaw.db"), &query, false);
    assert_eq!(result.candidates.len(), 1);
    assert!(result.retriever_name.contains("fallback"), "无 query_text 时应 fallback");
}

#[test]
fn semantic_retriever_respects_limit() {
    let names: Vec<(String, i64)> = (0..10).map(|i| (format!("记忆 {}", i), 50 + i)).collect();
    let rows: Vec<(&str, &str, MemoryType, i64)> =
        names.iter().map(|(c, p)| ("user-sem4", c.as_str(), MemoryType::Auto, *p)).collect();
    let store = store_with(&rows);
    let query = RetrieveQuery::new("user-sem4", 3).with_query_text("记忆");
    let result = run_semantic(&store, &SemanticRetriever::new("amclaw.db"), &query, false);
    assert_eq!(result.candidates.len(), 3, "应严格返回 limit=3 条");
}

#[test]
fn semantic_retriever_custom_name() {
    let store = store_with(&[("user-sem5", "x", MemoryType::Auto, 50)]);
    let semantic = SemanticRetriever::new("amclaw.db").with_name("semantic_v2_test");
    let query = RetrieveQuery::new("user-sem5", 5).with_query_text("x");
    let result = run_semantic(&store, &semantic, &query, false);
    assert_eq!(result.retriever_name, "semantic_v2_test");
}

#[test]
fn semantic_retriever_empty_result_for_unknown_user() {
    let store = store_with(&[]);
    let query = RetrieveQuery::new("unknown", 5).with_query_text("测试");
    let result = run_semantic(&store, &SemanticRetriever::new("amclaw.db"), &query, false);
    assert!(result.candidates.is_empty());
    assert_eq!(result.retriever_name, "semantic_v1");
}

// ---------------------------------------------------------------------------
// Shadow
// ---------------------------------------------------------------------------

#[test]
fn shadow_returns_rule_result_even_with_hybrid() {
    let store = store_with(&[("user-s1", "测试内容", MemoryType::Auto, 70)]);
    let shadow = ShadowRetriever::new("amclaw.db");
    let query = RetrieveQuery::new("user-s1", 5).with_query_text("测试");
    assert!(shadow.should_compare(&query, true));
    let result = shadow.retrieve(&store, &query, 0).expect("检索失败");

    assert_eq!(result.candidates.len(), 1);
    assert_eq!(result.candidates[0].content, "测试内容");
    assert_eq!(result.retriever_name, "shadow_v1");
    assert_eq!(result.candidates[0].metadata.get("retrieval_mode"), text("shadow"));
}

#[test]
fn shadow_without_hybrid_works_like_rule() {
    let store = store_with(&[("user-s2", "纯规则", MemoryType::Auto, 80)]);
    let shadow = ShadowRetriever::new("amclaw.db");
    let query = RetrieveQuery::new("user-s2", 5);
    assert!(!shadow.should_compare(&query, false));
    let result = shadow.retrieve(&store, &query, 0).expect("检索失败");
    assert_eq!(result.candidates.len(), 1);
    assert_eq!(result.candidates[0].content, "纯规则");
    assert_eq!(result.retriever_name, "shadow_v1");
}

#[test]
fn shadow_skips_hybrid_when_query_text_empty() {
    let store = store_with(&[("user-s3", "内容", MemoryType::Auto, 60)]);
    let shadow = ShadowRetriever::new("amclaw.db");
    let query = RetrieveQuery::new("user-s3", 5);
    assert!(!shadow.should_compare(&query, true));
    assert!(!shadow.should_compare(&RetrieveQuery::new("user-s3", 5).with_query_text("  "), true));
    let result = shadow.retrieve(&store, &query, 0).expect("检索失败");
    assert_eq!(result.candidates.len(), 1);
    assert_eq!(result.candidates[0].content, "内容");
}

#[test]
fn shadow_custom_name() {
    let store = store_with(&[("user-s4", "x", MemoryType::Auto, 50)]);
    let shadow = ShadowRetriever::new("amclaw.db").with_name("shadow_v2_test");
    let result = shadow
        .retrieve(&store, &RetrieveQuery::new("user-s4", 5), 0)
        .expect("检索失败");
    assert_eq!(result.retriever_name, "shadow_v2_test");
}

#[test]
fn shadow_empty_result_for_unknown_user() {
    let store = store_with(&[]);
    let result = ShadowRetriever::new("amclaw.db")
        .retrieve(&store, &RetrieveQuery::new("unknown", 5), 0)
        .expect("检索应成功");
    assert!(result.candidates.is_empty());
}

#[test]
fn shadow_matches_rule_output() {
    let store = store_with(&[
        ("user-s6", "第一条", MemoryType::Explicit, 90),
        ("user-s6", "第二条", MemoryType::Auto, 70),
        ("user-s6", "第三条", MemoryType::UserPreference, 80),
    ]);
    let query = RetrieveQuery::new("user-s6", 5);
    let rule_result =
        RuleRetriever::new("amclaw.db").retrieve(&store, &query, 0).expect("rule 检索失败");
    let shadow_result =
        ShadowRetriever::new("amclaw.db").retrieve(&store, &query, 0).expect("shadow 检索失败");

    assert_eq!(rule_result.candidates.len(), shadow_result.candidates.len());
    for (rule_item, shadow_item) in
        rule_result.candidates.iter().zip(shadow_result.candidates.iter())
    {
        assert_eq!(rule_item.id, shadow_item.id);
        assert_eq!(rule_item.content, shadow_item.content);
        assert_eq!(rule_item.score, shadow_item.score);
        assert_eq!(rule_item.source_type, shadow_item.source_type);
    }
    assert_eq!(shadow_result.candidates[0].metadata.get("retrieval_mode"), text("shadow"));
    let compared = compare_results(&rule_result, &shadow_result);
    assert_eq!((compared.rule_count, compared.hybrid_count, compared.overlap), (3, 3, 3));
    assert!(compared.order_same);
}

#[test]
fn two_searches_are_compared_by_id() {
    let a = coarse_result(vec![coarse_item("a", None), coarse_item("b", None)]);
    let b = coarse_result(vec![
        coarse_item("b", None),
        coarse_item("c", None),
        coarse_item("a", None),
    ]);
    let compared = compare_results(&a, &b);
    assert_eq!((compared.rule_count, compared.hybrid_count, compared.overlap), (2, 3, 2));
    assert!(!compared.order_same);
    let none = coarse_result(vec![]);
    assert_eq!(compare_results(&a, &none).overlap, 0);
    assert!(compare_results(&none, &none).order_same);
}

// ---------------------------------------------------------------------------
// Rollout
// ---------------------------------------------------------------------------

fn named(name: &str) -> RetrieveResult {
    let mut result = RetrieveResult::empty(name);
    result.candidates.push(RetrievedItem {
        id: "1".to_string(),
        content: "test".to_string(),
        score: None,
        source_type: "test".to_string(),
        metadata: Metadata::new(),
    });
    result
}

fn guarded_retrieve(guarded: &GuardedRetriever, user: &str) -> RetrieveResult {
    let result = match guarded.choose_search(user) {
        Rollout::Primary => named("primary"),
        _ => named("fallback"),
    };
    guarded.mark(user, result)
}

#[test]
fn guarded_disabled_uses_fallback() {
    let guarded = GuardedRetriever::new(false, vec![]);
    let result = guarded_retrieve(&guarded, "user-a");
    assert_eq!(result.retriever_name, "fallback");
    assert_eq!(result.candidates[0].metadata.get("retrieval_mode"), text("rollout_fallback_rule"));
    assert_eq!(result.candidates[0].metadata.get("rollout_reason"), text("rollout_disabled"));
}

#[test]
fn guarded_enabled_with_allowlist_miss_uses_fallback() {
    let guarded = GuardedRetriever::new(true, vec!["user-allowed".to_string()]);
    let result = guarded_retrieve(&guarded, "user-blocked");
    assert_eq!(result.retriever_name, "fallback");
    assert_eq!(result.candidates[0].metadata.get("rollout_reason"), text("user_not_in_allowlist"));
}

#[test]
fn guarded_enabled_with_allowlist_hit_uses_primary() {
    let guarded = GuardedRetriever::new(true, vec!["user-allowed".to_string()]);
    let result = guarded_retrieve(&guarded, "user-allowed");
    assert_eq!(result.retriever_name, "primary");
    assert_eq!(result.candidates[0].metadata.get("rollout_allowed"), text("true"));
}

#[test]
fn guarded_enabled_empty_allowlist_allows_all() {
    let guarded = GuardedRetriever::new(true, vec![]);
    let result = guarded_retrieve(&guarded, "any-user");
    assert_eq!(result.retriever_name, "primary");
    assert_eq!(result.candidates[0].metadata.get("rollout_allowed"), text("true"));
}

// ---------------------------------------------------------------------------
// Services for vectors
// ---------------------------------------------------------------------------

#[test]
fn noop_provider_has_stable_model_name() {
    let provider = NoOpEmbeddingProvider::new();
    assert_eq!(provider.model_name(), "noop");
}

#[test]
fn noop_embed_query_returns_explicit_error() {
    let provider = NoOpEmbeddingProvider::new();
    let msg = provider.embed_query("hello").expect_err("应返回错误");
    assert!(msg.contains("not configured"), "错误应提示未配置, 实际: {msg}");
    assert!(msg.contains("NoOp"), "错误应包含 NoOp 标识, 实际: {msg}");
}

#[test]
fn noop_embed_documents_returns_explicit_error() {
    let provider = NoOpEmbeddingProvider::default();
    let texts = vec!["hello".to_string(), "world".to_string()];
    let msg = provider.embed_documents(&texts).expect_err("应返回错误");
    assert!(msg.contains("not configured"), "错误应提示未配置, 实际: {msg}");
    assert!(msg.contains("NoOp"), "错误应包含 NoOp 标识, 实际: {msg}");
}

#[test]
fn create_provider_noop_works() {
    assert_eq!(create_embedding_provider("noop"), Ok(ProviderChoice::NoOp));
    assert_eq!(create_embedding_provider("  NoOp "), Ok(ProviderChoice::NoOp));
}

#[test]
fn create_provider_unknown_fails() {
    match create_embedding_provider("unknown") {
        Err(msg) => {
            assert!(msg.contains("不支持"), "错误应提示不支持, 实际: {msg}");
            assert!(msg.contains("moonshot"), "错误应列出 moonshot, 实际: {msg}");
        }
        Ok(_) => panic!("应返回错误"),
    }
}

#[test]
fn create_provider_deepseek_without_env_fails() {
    match create_embedding_provider("deepseek") {
        Ok(ProviderChoice::Env(prefix)) => {
            let err = read_settings(&prefix, None, None, None).expect_err("应返回错误");
            assert!(err.contains("DEEPSEEK_API_KEY"));
        }
        other => panic!("应选择环境配置: {other:?}"),
    }
}

#[test]
fn create_provider_moonshot_without_env_fails() {
    match create_embedding_provider("moonshot") {
        Ok(ProviderChoice::Env(prefix)) => {
            let err = read_settings(&prefix, None, None, None).expect_err("应返回错误");
            assert!(err.contains("MOONSHOT_API_KEY"));
        }
        other => panic!("应选择环境配置: {other:?}"),
    }
}

#[test]
fn settings_of_a_service_are_read() {
    let found = read_settings("MOONSHOT", text("key"), text("https://api.test/v1//"), None)
        .expect("应读取设置");
    assert_eq!(found.api_key, "key");
    assert_eq!(found.base_url, "https://api.test/v1");
    assert_eq!(found.model, "text-embedding-v2");
    assert_eq!(found.name, "openai_compat_moonshot");
    let found = read_settings("OPENAI", text("key"), text("https://api.test"), text("m"))
        .expect("应读取设置");
    assert_eq!(found.model, "m");
    let err = read_settings("OPENAI", text("key"), text(""), None).expect_err("应返回错误");
    assert_eq!(err, "OPENAI_BASE_URL 环境变量未设置");
    assert_eq!(choose_provider("openai"), Ok(ProviderChoice::Env("OPENAI".to_string())));
    assert_eq!(check_vector_count(2, 2), Ok(()));
    assert_eq!(
        check_vector_count(2, 1),
        Err("embedding 返回向量数不匹配: requested=2, returned=1".to_string())
    );
}

// ---------------------------------------------------------------------------
// Kept vectors
// ---------------------------------------------------------------------------

fn bits(v: &[f32]) -> Vec<u32> {
    v.iter().map(|x| x.to_bits()).collect()
}

fn embed_query(provider: &mut CachedEmbeddingProvider, cache: &mut EmbeddingCache, asked: &str) -> Vec<u32> {
    if let Some(found) = provider.query_cached(cache, asked) {
        return found;
    }
    let vector = bits(&fake_vector(asked));
    provider.query_embedded(cache, asked, &vector, "2026-04-17T10:00:00Z");
    vector
}

fn embed_documents(provider: &mut CachedEmbeddingProvider, cache: &mut EmbeddingCache, texts: &Vec<String>) -> Vec<Vec<u32>> {
    let kept = cache.get_embeddings_batch(texts, &provider.model_name());
    let asked = missing_texts(texts, &kept);
    let fresh: Vec<Vec<u32>> = asked.iter().map(|t| bits(&fake_vector(t))).collect();
    cache.put_embeddings_batch(&asked, &provider.model_name(), &fresh, "2026-04-17T10:00:00Z");
    provider.batch_embedded(&kept, &fresh).expect("应合并")
}

#[test]
fn cached_provider_miss_then_hit() {
    let mut cache = EmbeddingCache::new();
    let mut cached = CachedEmbeddingProvider::new("fake_cached_model");
    let v1 = embed_query(&mut cached, &mut cache, "hello");
    assert_eq!(v1.len(), 4);
    assert_eq!(cached.miss_count(), 1);
    assert_eq!(cached.hit_count(), 0);

    let v2 = embed_query(&mut cached, &mut cache, "hello");
    assert_eq!(v1, v2);
    assert_eq!(cached.miss_count(), 1);
    assert_eq!(cached.hit_count(), 1);
}

#[test]
fn cached_provider_batch_partial_hit() {
    let mut cache = EmbeddingCache::new();
    let mut cached = CachedEmbeddingProvider::new("fake_cached_model");
    let first = embed_query(&mut cached, &mut cache, "a");
    assert_eq!(cached.miss_count(), 1);

    let texts = vec!["a".to_string(), "b".to_string()];
    let results = embed_documents(&mut cached, &mut cache, &texts);
    assert_eq!(results.len(), 2);
    assert_eq!(results[0], first);
    assert_eq!(results[1], bits(&fake_vector("b")));
    assert_eq!(cached.hit_count(), 1);
    assert_eq!(cached.miss_count(), 2);
}

#[test]
fn cached_provider_empty_batch() {
    let mut cache = EmbeddingCache::new();
    let mut cached = CachedEmbeddingProvider::new("fake_cached_model");
    let results = embed_documents(&mut cached, &mut cache, &vec![]);
    assert!(results.is_empty());
    assert_eq!((cached.hit_count(), cached.miss_count()), (0, 0));
}

#[test]
fn cached_provider_model_name_returns_inner() {
    let cached = CachedEmbeddingProvider::new("fake_cached_model");
    assert_eq!(cached.model_name(), "fake_cached_model");
}

#[test]
fn a_batch_is_put_together_in_order() {
    let kept = vec![None, Some(vec![1]), None, Some(vec![2])];
    assert_eq!(plan_batch(&kept), vec![0, 2]);
    let mut cached = CachedEmbeddingProvider::new("m");
    assert_eq!(
        cached.batch_embedded(&kept, &vec![vec![7], vec![8]]),
        Ok(vec![vec![7], vec![1], vec![8], vec![2]])
    );
    assert_eq!((cached.hit_count(), cached.miss_count()), (2, 2));
    assert_eq!(
        cached.batch_embedded(&kept, &vec![vec![7]]),
        Err("embed_documents batch size mismatch: requested=2, returned=1".to_string())
    );
    assert_eq!((cached.hit_count(), cached.miss_count()), (2, 2));
}

#[test]
fn task_store_embedding_cache_roundtrip() {
    let mut cache = EmbeddingCache::new();
    cache.put_embedding("hello world", "test-model", &bits(&[0.1, 0.2, 0.3]), "now");

    let found = cache.get_embedding("hello world", "test-model");
    assert_eq!(found, Some(bits(&[0.1, 0.2, 0.3])));
    assert!(cache.get_embedding("different text", "test-model").is_none());
    assert!(cache.get_embedding("hello world", "other-model").is_none());
}

#[test]
fn cached_provider_survives_db_missing() {
    let mut unread = EmbeddingCache::new();
    let mut cached = CachedEmbeddingProvider::new("fake_cached_model");
    let result = embed_query(&mut cached, &mut unread, "test");
    assert_eq!(result.len(), 4);
    assert_eq!(cached.miss_count(), 1);
}

#[test]
fn a_vector_that_is_not_finite_is_a_miss() {
    let mut cache = EmbeddingCache::new();
    for (name, x) in [("nan", f32::NAN), ("up", f32::INFINITY), ("down", f32::NEG_INFINITY)] {
        cache.put_embedding(name, "m", &bits(&[1.0, x]), "now");
        assert_eq!(cache.get_embedding(name, "m"), None);
    }
    let edge = bits(&[f32::MAX, f32::MIN, f32::MIN_POSITIVE, 0.0, -0.0]);
    cache.put_embedding("edge", "m", &edge, "now");
    assert_eq!(cache.get_embedding("edge", "m"), Some(edge));
    assert_eq!(cache.embedding_cache_stats(), (4, 1));
}

#[test]
fn a_name_of_the_metadata_has_one_text() {
    let mut metadata = Metadata::new();
    metadata.insert("a", "1");
    metadata.insert("b", "2");
    metadata.insert("a", "3");
    assert_eq!(metadata.entries.len(), 2);
    assert_eq!(metadata.copy().get("a"), text("3"));
}

#[test]
fn task_store_embedding_cache_batch_roundtrip() {
    let mut cache = EmbeddingCache::new();
    let texts = vec!["a".to_string(), "b".to_string()];
    cache.put_embeddings_batch(
        &texts,
        "batch-model",
        &vec![bits(&[1.0, 2.0]), bits(&[3.0, 4.0])],
        "now",
    );

    let results = cache.get_embeddings_batch(&texts, "batch-model");
    assert_eq!(results.len(), 2);
    assert_eq!(results[0], Some(bits(&[1.0, 2.0])));
    assert_eq!(results[1], Some(bits(&[3.0, 4.0])));
    cache.put_embeddings_batch(&texts, "other", &vec![bits(&[1.0])], "now");
    assert_eq!(cache.get_embedding("a", "other"), None);
    assert_eq!(cache.embedding_cache_stats(), (2, 1));
}

#[test]
fn task_store_embedding_cache_stats() {
    let mut cache = EmbeddingCache::new();
    assert_eq!(cache.embedding_cache_stats(), (0, 0));
    cache.put_embedding("x", "model-a", &bits(&[1.0]), "now");
    cache.put_embedding("y", "model-a", &bits(&[2.0]), "now");
    cache.put_embedding("z", "model-b", &bits(&[3.0]), "now");
    assert_eq!(cache.embedding_cache_stats(), (3, 2));
}

#[test]
fn task_store_embedding_cache_clear() {
    let mut cache = EmbeddingCache::new();
    cache.put_embedding("x", "model-a", &bits(&[1.0]), "now");
    cache.put_embedding("y", "model-b", &bits(&[2.0]), "now");
    assert_eq!(cache.clear_embedding_cache("model-a"), 1);
    assert!(cache.get_embedding("x", "model-a").is_none());
    assert!(cache.get_embedding("y", "model-b").is_some());
}

#[test]
fn a_vector_of_another_length_is_not_given_back() {
    let mut cache = EmbeddingCache::new();
    cache.put_hashed("h", "m", &vec![1, 2, 3], "now");
    cache.rows[0].dimension = 4;
    assert_eq!(cache.get_hashed("h", "m"), None);
}

#[test]
fn a_service_is_asked_and_its_status_is_judged() {
    let settings = read_settings(
        "OPENAI",
        Some("key".to_string()),
        Some("https://api.test/v1//".to_string()),
        None,
    )
    .expect("应读出配置");
    assert_eq!(embeddings_url(&settings), "https://api.test/v1/embeddings");
    assert_eq!(check_service_status(200, &settings, ""), Ok(()));
    assert_eq!(
        check_service_status(429, &settings, "slow down"),
        Err("embedding API 错误 (status=429 model=text-embedding-3-small base_url=https://api.test/v1): slow down".to_string())
    );
}

#[test]
fn hashes_are_sixteen_digits() {
    assert_eq!(hash_text(0), "0000000000000000");
    assert_eq!(hash_text(0xdead_beef_0123_4567), "deadbeef01234567");
    let hash = text_hash("hello");
    assert_eq!(hash.len(), 16);
    assert_ne!(hash, text_hash("world"));
    assert_eq!(hash, text_hash("hello"));
}
