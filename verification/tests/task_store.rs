use amclaw::clock::{can_count_back, text_days_before};
use amclaw::json::{get, get_str, JsonValue};
use amclaw::logging::build_structured_log_payload;
use amclaw::task_store::url_guard::IpAddress;
use amclaw::task_store::{
    is_private_host_with, is_private_url, ArchivedTaskRecord, FeedbackKind, LinkTaskRecord,
    MarkTaskArchivedInput, MemoryFeedbackState, MemoryType, MemoryWriteState, PendingTaskRecord,
    PromoteReason, RecentTaskRecord, SkipReason, Stamp, StoredSessionRecord, TaskStatusRecord,
    TaskStore, TaskStoreError, UserMemoryRecord, UserSessionStateRecord, WriteDecision,
};

fn unresolved(_: &str) -> Vec<IpAddress> {
    vec![]
}

/// A store with a clock that moves on by a second with every use, and ids in turn.
struct Store {
    inner: TaskStore,
    tick: i64,
}

impl Store {
    fn open() -> Store {
        Store { inner: TaskStore::new(), tick: 0 }
    }

    fn now(&mut self) -> Stamp {
        self.tick += 1;
        Stamp {
            text: format!("2026-04-17T10:{:02}:{:02}Z", self.tick / 60, self.tick % 60),
            secs: Some(1_776_420_000 + self.tick),
        }
    }

    fn id(&mut self, kind: &str) -> String {
        self.tick += 1;
        format!("{}-{:04}", kind, self.tick)
    }

    fn record_link_submission(&mut self, url: &str) -> Result<LinkTaskRecord, TaskStoreError> {
        let article = self.id("article");
        let task = self.id("task");
        let now = self.now();
        self.inner.record_link_submission(url, unresolved, &now, &article, &task)
    }

    fn claim_task(&mut self, id: &str, worker: &str, lease_secs: i64) -> Result<bool, TaskStoreError> {
        let now = self.now();
        let lease = Stamp {
            text: format!("lease {}", self.tick),
            secs: now.secs.map(|s| s + lease_secs),
        };
        Ok(self.inner.claim_task(id, worker, &now, &lease))
    }

    fn retry_task(&mut self, id: &str) -> Result<Option<TaskStatusRecord>, TaskStoreError> {
        let now = self.now();
        self.inner.retry_task(id, &now)
    }

    fn mark_task_archived(
        &mut self,
        id: &str,
        input: MarkTaskArchivedInput,
    ) -> Result<bool, TaskStoreError> {
        let now = self.now();
        Ok(self.inner.mark_task_archived(id, input, &now))
    }

    fn mark_task_awaiting_manual_input(
        &mut self,
        id: &str,
        error: &str,
        page_kind: &str,
        snapshot: Option<&str>,
        source: Option<&str>,
    ) -> Result<bool, TaskStoreError> {
        let now = self.now();
        Ok(self
            .inner
            .mark_task_awaiting_manual_input(id, error, page_kind, snapshot, source, &now))
    }

    fn mark_task_failed(&mut self, id: &str, error: &str) -> Result<bool, TaskStoreError> {
        let now = self.now();
        Ok(self.inner.mark_task_failed(id, error, &now))
    }

    fn get_task_status(&self, id: &str) -> Result<Option<TaskStatusRecord>, TaskStoreError> {
        Ok(self.inner.get_task_status(id))
    }

    fn list_recent_tasks(&self, limit: usize) -> Result<Vec<RecentTaskRecord>, TaskStoreError> {
        self.inner.list_recent_tasks(limit)
    }

    fn list_manual_tasks(&self, limit: usize) -> Result<Vec<RecentTaskRecord>, TaskStoreError> {
        self.inner.list_manual_tasks(limit)
    }

    fn list_archived_tasks(&self, limit: usize) -> Result<Vec<ArchivedTaskRecord>, TaskStoreError> {
        self.inner.list_archived_tasks(limit)
    }

    fn list_pending_tasks(&self, limit: usize) -> Result<Vec<PendingTaskRecord>, TaskStoreError> {
        self.inner.list_pending_tasks(limit)
    }

    fn add_user_memory(&mut self, user: &str, content: &str) -> Result<UserMemoryRecord, TaskStoreError> {
        let id = self.id("memory");
        let now = self.now().text;
        self.inner.add_user_memory(user, content, &id, &now)
    }

    fn add_user_memory_typed(
        &mut self,
        user: &str,
        content: &str,
        memory_type: MemoryType,
        priority: i64,
    ) -> Result<UserMemoryRecord, TaskStoreError> {
        let id = self.id("memory");
        let now = self.now().text;
        self.inner.add_user_memory_typed(user, content, memory_type, priority, &id, &now)
    }

    fn govern_memory_write(
        &mut self,
        user: &str,
        content: &str,
        memory_type: MemoryType,
        priority: i64,
        state: &mut MemoryWriteState,
    ) -> WriteDecision {
        let id = self.id("memory");
        let now = self.now().text;
        self.inner.govern_memory_write(user, content, memory_type, priority, state, &id, &now)
    }

    fn apply_memory_feedback(&mut self, feedback: &MemoryFeedbackState) -> Result<(), TaskStoreError> {
        let now = self.now().text;
        self.inner.apply_memory_feedback(feedback, &now)
    }

    fn confirm_memory_useful(&mut self, user: &str, id: &str) -> Result<(), TaskStoreError> {
        let now = self.now().text;
        self.inner.confirm_memory_useful(user, id, &now)
    }

    fn suppress_memory(&mut self, user: &str, id: &str) -> Result<(), TaskStoreError> {
        self.inner.suppress_memory(user, id)
    }

    fn search_user_memories(&self, user: &str, limit: usize) -> Result<Vec<UserMemoryRecord>, TaskStoreError> {
        self.inner.search_user_memories(user, limit)
    }

    fn list_user_memories(&self, user: &str, limit: usize) -> Result<Vec<UserMemoryRecord>, TaskStoreError> {
        self.inner.list_user_memories(user, limit)
    }

    fn has_user_memory(&self, user: &str, content: &str) -> Result<bool, TaskStoreError> {
        Ok(self.inner.has_user_memory(user, content))
    }

    fn record_inbound_message(&mut self, id: &str, user: &str, text: &str) -> Result<bool, TaskStoreError> {
        let now = self.now().text;
        Ok(self.inner.record_inbound_message(id, user, text, &now))
    }

    fn upsert_context_token(&mut self, user: &str, token: &str) -> Result<(), TaskStoreError> {
        let now = self.now().text;
        self.inner.upsert_context_token(user, token, &now)
    }

    fn get_context_token(&self, user: &str) -> Result<Option<String>, TaskStoreError> {
        Ok(self.inner.get_context_token(user))
    }

    fn upsert_session_state(&mut self, user: &str, text: &str, ids: &[String]) -> Result<(), TaskStoreError> {
        let now = self.now().text;
        self.inner.upsert_session_state(user, text, &ids.to_vec(), &now)
    }

    fn list_session_states(&self) -> Result<Vec<StoredSessionRecord>, TaskStoreError> {
        Ok(self.inner.list_session_states())
    }

    fn delete_session_state(&mut self, user: &str) -> Result<(), TaskStoreError> {
        self.inner.delete_session_state(user);
        Ok(())
    }

    fn upsert_user_session_state(&mut self, record: &UserSessionStateRecord) -> Result<(), TaskStoreError> {
        self.inner.upsert_user_session_state(record)
    }

    fn load_user_session_state(&self, user: &str) -> Result<Option<UserSessionStateRecord>, TaskStoreError> {
        Ok(self.inner.load_user_session_state(user))
    }

    fn clear_user_session_state(&mut self, user: &str) -> Result<(), TaskStoreError> {
        self.inner.clear_user_session_state(user);
        Ok(())
    }

    fn cleanup_expired_user_session_states(&mut self, ttl_days: u64) -> Result<usize, TaskStoreError> {
        let secs = self.now().secs.expect("应有秒数");
        Ok(self.inner.cleanup_expired_user_session_states(ttl_days, secs, 0))
    }
}

#[test]
fn context_token_can_be_persisted_and_loaded() {
    let mut store = Store::open();

    store
        .upsert_context_token("user-a", "ctx-1")
        .expect("写入 token 失败");
    assert_eq!(
        store.get_context_token("user-a").expect("读取 token 失败"),
        Some("ctx-1".to_string())
    );

    store
        .upsert_context_token("user-a", "ctx-2")
        .expect("更新 token 失败");
    assert_eq!(
        store.get_context_token("user-a").expect("读取 token 失败"),
        Some("ctx-2".to_string())
    );
}

#[test]
fn session_state_can_be_persisted_listed_and_deleted() {
    let mut store = Store::open();

    store
        .upsert_session_state(
            "user-a",
            "hello\nworld",
            &["msg-1".to_string(), "msg-2".to_string()],
        )
        .expect("写入 session_state 失败");

    let sessions = store
        .list_session_states()
        .expect("查询 session_state 失败");
    assert_eq!(
        sessions.len(),
        1,
        "应只有一条 session_state，实际: {:?}",
        sessions
    );
    assert_eq!(
        sessions[0],
        StoredSessionRecord {
            user_id: "user-a".to_string(),
            merged_text: "hello\nworld".to_string(),
            message_ids: vec!["msg-1".to_string(), "msg-2".to_string()],
            updated_at: sessions[0].updated_at.clone(),
        }
    );

    store
        .delete_session_state("user-a")
        .expect("删除 session_state 失败");
    assert!(store
        .list_session_states()
        .expect("查询 session_state 失败")
        .is_empty());
}

#[test]
fn cleanup_expired_user_session_states_cleans_both_tables() {
    let mut store = Store::open();

    // 插入一条正常 session_state
    store
        .upsert_session_state("user-old", "旧会话", &["msg-old-1".to_string()])
        .expect("写入失败");
    // 插入一条旧 user_session_state（直接写旧 updated_at）
    store
        .upsert_user_session_state(&UserSessionStateRecord {
            user_id: "user-old".to_string(),
            last_user_intent: Some("旧意图".to_string()),
            current_task: None,
            next_step: None,
            blocked_reason: None,
            goal: None,
            current_subtask: None,
            constraints_json: None,
            confirmed_facts_json: None,
            done_items_json: None,
            open_questions_json: None,
            updated_at: "2000-01-01T00:00:00Z".to_string(),
        })
        .expect("写入 v2 state 失败");

    // ttl=0 时， cutoff = now，旧记录应被清理
    let cleaned = store
        .cleanup_expired_user_session_states(0)
        .expect("清理失败");
    assert!(cleaned > 0, "应清理至少一条过期记录");

    // 两条表都应为空
    assert!(store.list_session_states().expect("查询失败").is_empty());
    assert!(store
        .load_user_session_state("user-old")
        .expect("加载失败")
        .is_none());
}

#[test]
fn rows_expire_after_their_days() {
    let mut store = TaskStore::new();
    store.upsert_context_token("old", "t1", "2026-03-18T09:59:59+00:00").expect("写入失败");
    store.upsert_context_token("new", "t2", "2026-03-18T10:00:01+00:00").expect("写入失败");
    // 2026-04-17T10:00:00Z
    assert_eq!(store.cleanup_expired_context_tokens(30, 1_776_420_000, 0), 1);
    assert_eq!(store.get_context_token("old"), None);
    assert_eq!(store.get_context_token("new"), Some("t2".to_string()));
    assert_eq!(text_days_before(1_776_420_000, 0, 30), "2026-03-18T10:00:00+00:00");
    assert_eq!(text_days_before(1_776_420_000, 5_000_000, 0), "2026-04-17T10:00:00.005+00:00");
    assert!(can_count_back(1_776_420_000, 36_500));
    assert!(!can_count_back(1_776_420_000, u64::MAX));
    assert!(can_count_back(-8_334_601_228_800, 0));
    assert_eq!(text_days_before(-8_334_601_228_800, 0, 0), "-262143-01-01T00:00:00+00:00");
    assert_eq!(text_days_before(8_210_266_876_799, 0, 0), "+262142-12-31T23:59:59+00:00");
    assert!(!can_count_back(-8_334_601_228_801, 0));
    assert_eq!(store.remove_context_tokens_before("2027"), 1);
    assert_eq!(store.remove_sessions_before("2027"), 0);
}

#[test]
fn summary_is_overwritten_on_rerun() {
    let mut store = Store::open();
    let created = store
        .record_link_submission("https://example.com/summary-rerun")
        .expect("写入链接失败");

    store
        .claim_task(&created.task_id, "test-worker", 300)
        .expect("claim 失败");
    store
        .mark_task_archived(
            &created.task_id,
            MarkTaskArchivedInput {
                output_path: "/tmp/summary-rerun.md",
                title: Some("Summary Rerun"),
                page_kind: Some("article"),
                snapshot_path: None,
                content_source: Some("http"),
                summary: Some("初始摘要"),
            },
        )
        .expect("首次 archived 失败");

    // The task goes back to the start, as a retry would take it.
    let row = store.inner.tasks.iter_mut().find(|t| t.id == created.task_id).unwrap();
    row.status = "pending".to_string();
    row.output_path = None;
    row.worker_id = None;
    row.processing_started_at = None;
    row.lease_until = None;

    store
        .claim_task(&created.task_id, "test-worker", 300)
        .expect("claim 失败");
    store
        .mark_task_archived(
            &created.task_id,
            MarkTaskArchivedInput {
                output_path: "/tmp/summary-rerun-v2.md",
                title: Some("Summary Rerun"),
                page_kind: Some("article"),
                snapshot_path: None,
                content_source: Some("http"),
                summary: Some("更精确的LLM摘要"),
            },
        )
        .expect("二次 archived 失败");

    let archived = store.list_archived_tasks(10).expect("查询失败");
    assert_eq!(archived[0].summary, Some("更精确的LLM摘要".to_string()));
}

#[test]
fn user_memory_can_be_added_and_listed() {
    let mut store = Store::open();

    let created = store
        .add_user_memory("user-a", "我更喜欢短摘要")
        .expect("写入 user_memory 失败");
    let memories = store
        .list_user_memories("user-a", 10)
        .expect("查询 user_memory 失败");

    assert_eq!(
        memories,
        vec![UserMemoryRecord {
            id: created.id,
            user_id: "user-a".to_string(),
            content: "我更喜欢短摘要".to_string(),
            memory_type: MemoryType::Explicit,
            status: "active".to_string(),
            priority: 100,
            last_used_at: None,
            use_count: 0,
            retrieved_count: 0,
            injected_count: 0,
            useful: false,
            created_at: created.created_at,
            updated_at: created.updated_at,
        }]
    );
}

#[test]
fn user_memory_dedup_check_works() {
    let mut store = Store::open();
    store
        .add_user_memory("user-a", "偏好: 短摘要")
        .expect("写入 user_memory 失败");

    assert!(store
        .has_user_memory("user-a", "偏好: 短摘要")
        .expect("查询 user_memory 去重失败"));
    assert!(!store
        .has_user_memory("user-a", "主题: Rust")
        .expect("查询 user_memory 去重失败"));
}

#[test]
fn user_memory_schema_has_new_fields() {
    let mut store = Store::open();

    let created = store
        .add_user_memory("user-a", "显式记忆")
        .expect("写入 user_memory 失败");
    assert_eq!(created.memory_type, MemoryType::Explicit);
    assert_eq!(created.status, "active");
    assert_eq!(created.priority, 100);
    assert!(created.last_used_at.is_none());
    assert_eq!(created.use_count, 0);
}

#[test]
fn user_memory_typed_auto() {
    let mut store = Store::open();

    let created = store
        .add_user_memory_typed("user-a", "自动提炼主题", MemoryType::Auto, 60)
        .expect("写入 auto memory 失败");
    assert_eq!(created.memory_type, MemoryType::Auto);
    assert_eq!(created.priority, 60);
}

#[test]
fn search_memories_sorts_by_priority_and_dedupes() {
    let mut store = Store::open();

    // auto 记忆优先级低
    store
        .add_user_memory_typed("user-a", "自动偏好", MemoryType::Auto, 60)
        .expect("写入 auto 失败");
    // explicit 记忆优先级高
    store
        .add_user_memory("user-a", "显式偏好")
        .expect("写入 explicit 失败");
    // 重复内容（多空格版本，split_whitespace 后与"显式偏好"不同，但与"显式 偏好"相同）
    store
        .add_user_memory("user-a", "显式  偏好")
        .expect("写入重复失败");
    // 真正的重复内容（只有空格差异）
    store
        .add_user_memory("user-a", "显式 偏好")
        .expect("写入真重复失败");

    let results = store.search_user_memories("user-a", 15).expect("检索失败");
    // 去重由 SessionState 负责，task_store 只返回排序后的结果
    // 4 条：显式  偏好(explicit), 显式偏好(explicit), 自动偏好(auto), 显式 偏好(explicit)
    assert_eq!(results.len(), 4);
    assert_eq!(results[0].memory_type, MemoryType::Explicit);
}

#[test]
fn search_memories_respects_limit() {
    let mut store = Store::open();

    store
        .add_user_memory("user-a", "短记忆一")
        .expect("写入失败");
    store
        .add_user_memory("user-a", "短记忆二")
        .expect("写入失败");
    store
        .add_user_memory("user-a", "短记忆三")
        .expect("写入失败");

    // limit=2，只返回 2 条
    let results = store.search_user_memories("user-a", 2).expect("检索失败");
    assert_eq!(results.len(), 2);
}

#[test]
fn explicit_memory_sorts_before_auto() {
    let mut store = Store::open();

    // 先写 auto，再写 explicit
    store
        .add_user_memory_typed("user-a", "自动偏好", MemoryType::Auto, 60)
        .expect("写入 auto 失败");
    store
        .add_user_memory("user-a", "显式偏好")
        .expect("写入 explicit 失败");

    let results = store.search_user_memories("user-a", 15).expect("检索失败");
    assert_eq!(results.len(), 2);
    // explicit (priority=100) 应排在 auto (priority=60) 前面
    assert_eq!(results[0].memory_type, MemoryType::Explicit);
    assert_eq!(results[0].priority, 100);
    assert_eq!(results[1].memory_type, MemoryType::Auto);
    assert_eq!(results[1].priority, 60);
}

#[test]
fn search_memories_returns_all_sorted() {
    let mut store = Store::open();

    let long_content: String = "很".repeat(200);
    store
        .add_user_memory("user-a", &long_content)
        .expect("写入失败");
    store.add_user_memory("user-a", "短记忆").expect("写入失败");

    // task_store 只负责检索排序，不做预算裁剪
    let results = store.search_user_memories("user-a", 15).expect("检索失败");
    assert_eq!(results.len(), 2);
    // 两条都返回，trim 由 SessionState 负责
}

#[test]
fn suppress_memory_excludes_from_results() {
    let mut store = Store::open();

    let created = store
        .add_user_memory("user-a", "将被抑制")
        .expect("写入失败");
    store
        .suppress_memory("user-a", &created.id)
        .expect("抑制失败");

    // list 只返回 active
    let listed = store.list_user_memories("user-a", 10).expect("查询失败");
    assert!(listed.is_empty());

    // search 也排除 suppressed
    let searched = store.search_user_memories("user-a", 15).expect("检索失败");
    assert!(searched.is_empty());

    // has_user_memory 也排除 suppressed
    assert!(!store
        .has_user_memory("user-a", "将被抑制")
        .expect("查询失败"));
}

#[test]
fn user_memory_isolation() {
    let mut store = Store::open();

    store
        .add_user_memory("user-a", "A 的记忆")
        .expect("写入失败");
    store
        .add_user_memory("user-b", "B 的记忆")
        .expect("写入失败");

    let a_memories = store.list_user_memories("user-a", 10).expect("查询失败");
    assert_eq!(a_memories.len(), 1);
    assert_eq!(a_memories[0].content, "A 的记忆");

    let b_memories = store.list_user_memories("user-b", 10).expect("查询失败");
    assert_eq!(b_memories.len(), 1);
    assert_eq!(b_memories[0].content, "B 的记忆");
}

#[test]
fn suppress_memory_rejects_other_users_memory() {
    let mut store = Store::open();

    let created = store
        .add_user_memory("user-a", "A 的私有记忆")
        .expect("写入失败");

    let err = store
        .suppress_memory("user-b", &created.id)
        .expect_err("跨用户屏蔽应失败");
    assert!(err.message().contains("未找到该记忆"));

    let listed = store.list_user_memories("user-a", 10).expect("查询失败");
    assert_eq!(listed.len(), 1);
    assert_eq!(listed[0].id, created.id);
}

#[test]
fn suppress_memory_rejects_unknown_id() {
    let mut store = Store::open();

    let err = store
        .suppress_memory("user-a", "missing-memory-id")
        .expect_err("不存在的 memory id 应失败");
    assert!(err.message().contains("未找到该记忆"));
}

// Memory Feedback

#[test]
fn feedback_retrieved_updates_retrieved_count() {
    let mut store = Store::open();
    let mut ws = MemoryWriteState::default();
    let decision =
        store.govern_memory_write("user-a", "测试记忆", MemoryType::Explicit, 100, &mut ws);
    let memory_id = match decision {
        WriteDecision::Written(r) => r.id,
        _ => panic!("应写入"),
    };
    let mut fb = MemoryFeedbackState::default();
    fb.record(&memory_id, FeedbackKind::Retrieved);
    store.apply_memory_feedback(&fb).expect("feedback 写回失败");
    let memories = store.list_user_memories("user-a", 10).expect("查询失败");
    assert_eq!(memories[0].retrieved_count, 1);
}

#[test]
fn feedback_injected_updates_injected_count() {
    let mut store = Store::open();
    let mut ws = MemoryWriteState::default();
    let decision =
        store.govern_memory_write("user-a", "测试记忆", MemoryType::Explicit, 100, &mut ws);
    let memory_id = match decision {
        WriteDecision::Written(r) => r.id,
        _ => panic!("应写入"),
    };
    let mut fb = MemoryFeedbackState::default();
    fb.record(&memory_id, FeedbackKind::Injected);
    store.apply_memory_feedback(&fb).expect("feedback 写回失败");
    let memories = store.list_user_memories("user-a", 10).expect("查询失败");
    assert_eq!(memories[0].injected_count, 1);
}

#[test]
fn feedback_useful_updates_use_count_and_useful_and_last_used_at() {
    let mut store = Store::open();
    let mut ws = MemoryWriteState::default();
    let decision =
        store.govern_memory_write("user-a", "测试记忆", MemoryType::Explicit, 100, &mut ws);
    let memory_id = match decision {
        WriteDecision::Written(r) => r.id,
        _ => panic!("应写入"),
    };
    assert!(store.list_user_memories("user-a", 10).expect("查询失败")[0]
        .last_used_at
        .is_none());
    let mut fb = MemoryFeedbackState::default();
    fb.record(&memory_id, FeedbackKind::Useful);
    store.apply_memory_feedback(&fb).expect("feedback 写回失败");
    let mem = &store.list_user_memories("user-a", 10).expect("查询失败")[0];
    assert_eq!(mem.use_count, 1);
    assert!(mem.useful);
    assert!(mem.last_used_at.is_some());
}

#[test]
fn confirm_memory_useful_enforces_user_ownership() {
    let mut store = Store::open();
    let mut ws = MemoryWriteState::default();
    let decision =
        store.govern_memory_write("user-a", "测试记忆", MemoryType::Explicit, 100, &mut ws);
    let memory_id = match decision {
        WriteDecision::Written(r) => r.id,
        _ => panic!("应写入"),
    };

    let err = store
        .confirm_memory_useful("user-b", &memory_id)
        .expect_err("应拒绝其他用户标记有用");
    assert!(err.message().contains("无权标记有用"));

    store
        .confirm_memory_useful("user-a", &memory_id)
        .expect("同用户应可标记有用");
    let mem = &store.list_user_memories("user-a", 10).expect("查询失败")[0];
    assert!(mem.useful);
    assert_eq!(mem.use_count, 1);
}

#[test]
fn feedback_state_is_single_source() {
    // 验证 feedback 统计来自 MemoryFeedbackState，不各自重复计算
    let mut fb = MemoryFeedbackState::default();
    fb.record("m1", FeedbackKind::Retrieved);
    fb.record("m1", FeedbackKind::Injected);
    fb.record("m1", FeedbackKind::Useful);
    fb.record("m2", FeedbackKind::Retrieved);
    assert_eq!(fb.retrieved_count("m1"), 1);
    assert_eq!(fb.injected_count("m1"), 1);
    assert_eq!(fb.useful_count("m1"), 1);
    assert_eq!(fb.retrieved_count("m2"), 1);
    assert_eq!(fb.injected_count("m2"), 0);
    assert!(fb.has_feedback());
}

#[test]
fn explicit_still_sorts_before_auto() {
    let mut store = Store::open();
    // auto with high use_count
    let mut ws = MemoryWriteState::default();
    let auto_id =
        match store.govern_memory_write("user-a", "主题: Rust", MemoryType::Auto, 60, &mut ws) {
            WriteDecision::Written(r) => r.id,
            _ => panic!("应写入"),
        };
    // 给 auto 大量 feedback
    let mut fb = MemoryFeedbackState::default();
    for _ in 0..10 {
        fb.record(&auto_id, FeedbackKind::Useful);
    }
    store.apply_memory_feedback(&fb).expect("feedback 失败");
    // 写入 explicit
    let mut ws2 = MemoryWriteState::default();
    let _ = store.govern_memory_write("user-a", "显式偏好", MemoryType::Explicit, 100, &mut ws2);
    let results = store.search_user_memories("user-a", 15).expect("检索失败");
    // explicit 仍然排第一
    assert_eq!(results[0].memory_type, MemoryType::Explicit);
    assert_eq!(results[0].priority, 100);
    assert_eq!(results[1].memory_type, MemoryType::Auto);
}

#[test]
fn useful_auto_sorts_before_non_useful_auto() {
    let mut store = Store::open();
    let mut ws = MemoryWriteState::default();
    let useful_id =
        match store.govern_memory_write("user-a", "主题: Rust", MemoryType::Auto, 60, &mut ws) {
            WriteDecision::Written(r) => r.id,
            _ => panic!("应写入"),
        };
    let mut ws2 = MemoryWriteState::default();
    let _ = store.govern_memory_write("user-a", "主题: Python", MemoryType::Auto, 60, &mut ws2);
    // 给第一个 useful feedback
    let mut fb = MemoryFeedbackState::default();
    fb.record(&useful_id, FeedbackKind::Useful);
    store.apply_memory_feedback(&fb).expect("feedback 失败");
    let results = store.search_user_memories("user-a", 15).expect("检索失败");
    assert!(results[0].useful);
    assert!(!results[1].useful);
    assert_eq!(results[0].content, "主题: Rust");
}

#[test]
fn higher_use_count_sorts_first() {
    let mut store = Store::open();
    let mut ws1 = MemoryWriteState::default();
    let id_high =
        match store.govern_memory_write("user-a", "主题: Rust", MemoryType::Auto, 60, &mut ws1) {
            WriteDecision::Written(r) => r.id,
            _ => panic!("应写入"),
        };
    let mut ws2 = MemoryWriteState::default();
    let _ = store.govern_memory_write("user-a", "主题: Go", MemoryType::Auto, 60, &mut ws2);
    // 给 Rust 5 次 useful
    let mut fb = MemoryFeedbackState::default();
    for _ in 0..5 {
        fb.record(&id_high, FeedbackKind::Useful);
    }
    store.apply_memory_feedback(&fb).expect("feedback 失败");
    let results = store.search_user_memories("user-a", 15).expect("检索失败");
    assert_eq!(results[0].content, "主题: Rust");
    assert!(results[0].use_count > results[1].use_count);
}

#[test]
fn last_used_at_affects_sorting() {
    let mut store = Store::open();
    let mut ws1 = MemoryWriteState::default();
    let id_old = match store.govern_memory_write("user-a", "旧记忆", MemoryType::Auto, 60, &mut ws1)
    {
        WriteDecision::Written(r) => r.id,
        _ => panic!("应写入"),
    };
    let mut ws2 = MemoryWriteState::default();
    let id_new = match store.govern_memory_write("user-a", "新记忆", MemoryType::Auto, 60, &mut ws2)
    {
        WriteDecision::Written(r) => r.id,
        _ => panic!("应写入"),
    };
    // 只给"新记忆" useful feedback → 更新 last_used_at
    let mut fb = MemoryFeedbackState::default();
    fb.record(&id_new, FeedbackKind::Useful);
    store.apply_memory_feedback(&fb).expect("feedback 失败");
    let results = store.search_user_memories("user-a", 15).expect("检索失败");
    // 新记忆（useful=true, use_count=1）排在旧记忆（useful=false）前面
    assert_eq!(results[0].content, "新记忆");
    // 旧记忆没有 last_used_at
    assert!(store
        .list_user_memories("user-a", 10)
        .expect("查询失败")
        .iter()
        .find(|m| m.id == id_old)
        .unwrap()
        .last_used_at
        .is_none());
}

#[test]
fn sorting_is_deterministic() {
    let mut store = Store::open();
    // 写 5 条相同 type/priority 的 auto 记忆
    for i in 0..5 {
        let mut ws = MemoryWriteState::default();
        let _ = store.govern_memory_write(
            "user-a",
            &format!("记忆 {}", i),
            MemoryType::Auto,
            60,
            &mut ws,
        );
    }
    // 多次检索，结果必须一致
    let r1 = store.search_user_memories("user-a", 15).expect("检索失败");
    let r2 = store.search_user_memories("user-a", 15).expect("检索失败");
    assert_eq!(r1.len(), r2.len());
    for (a, b) in r1.iter().zip(r2.iter()) {
        assert_eq!(a.id, b.id);
    }
}

// 新 Memory 类型测试

#[test]
fn user_preference_can_be_written_and_retrieved() {
    let mut store = Store::open();

    let created = store
        .add_user_memory_typed("user-a", "我喜欢短摘要", MemoryType::UserPreference, 80)
        .expect("写入 user_preference 失败");

    assert_eq!(created.memory_type, MemoryType::UserPreference);
    assert_eq!(created.priority, 80);

    let memories = store.list_user_memories("user-a", 10).expect("查询失败");
    assert_eq!(memories.len(), 1);
    assert_eq!(memories[0].memory_type, MemoryType::UserPreference);
}

#[test]
fn project_fact_can_be_written_and_retrieved() {
    let mut store = Store::open();

    let created = store
        .add_user_memory_typed(
            "user-a",
            "AMClaw 使用 Rust 开发",
            MemoryType::ProjectFact,
            85,
        )
        .expect("写入 project_fact 失败");

    assert_eq!(created.memory_type, MemoryType::ProjectFact);
    assert_eq!(created.priority, 85);

    let memories = store.list_user_memories("user-a", 10).expect("查询失败");
    assert_eq!(memories.len(), 1);
    assert_eq!(memories[0].memory_type, MemoryType::ProjectFact);
}

#[test]
fn lesson_can_be_written_and_retrieved() {
    let mut store = Store::open();

    let created = store
        .add_user_memory_typed(
            "user-a",
            "链接抓取失败时应提示用户手动补录",
            MemoryType::Lesson,
            75,
        )
        .expect("写入 lesson 失败");

    assert_eq!(created.memory_type, MemoryType::Lesson);
    assert_eq!(created.priority, 75);

    let memories = store.list_user_memories("user-a", 10).expect("查询失败");
    assert_eq!(memories.len(), 1);
    assert_eq!(memories[0].memory_type, MemoryType::Lesson);
}

#[test]
fn new_memory_types_sort_by_priority() {
    let mut store = Store::open();

    store
        .add_user_memory_typed("user-a", "lesson", MemoryType::Lesson, 75)
        .expect("写入失败");
    store
        .add_user_memory_typed("user-a", "auto", MemoryType::Auto, 60)
        .expect("写入失败");
    store
        .add_user_memory_typed("user-a", "explicit", MemoryType::Explicit, 100)
        .expect("写入失败");
    store
        .add_user_memory_typed("user-a", "project_fact", MemoryType::ProjectFact, 85)
        .expect("写入失败");
    store
        .add_user_memory_typed("user-a", "user_preference", MemoryType::UserPreference, 80)
        .expect("写入失败");

    let results = store.search_user_memories("user-a", 15).expect("检索失败");
    assert_eq!(results.len(), 5);
    // explicit(100) > project_fact(85) > user_preference(80) > lesson(75) > auto(60)
    assert_eq!(results[0].memory_type, MemoryType::Explicit);
    assert_eq!(results[1].memory_type, MemoryType::ProjectFact);
    assert_eq!(results[2].memory_type, MemoryType::UserPreference);
    assert_eq!(results[3].memory_type, MemoryType::Lesson);
    assert_eq!(results[4].memory_type, MemoryType::Auto);
}

#[test]
fn govern_user_preference_promotes_auto() {
    let mut store = Store::open();

    let mut ws1 = MemoryWriteState::default();
    let _ = store.govern_memory_write("user-a", "偏好: 短摘要", MemoryType::Auto, 60, &mut ws1);

    let mut ws2 = MemoryWriteState::default();
    let decision = store.govern_memory_write(
        "user-a",
        "偏好: 短摘要",
        MemoryType::UserPreference,
        80,
        &mut ws2,
    );

    match decision {
        WriteDecision::Promoted {
            reason:
                PromoteReason::TypePromotesLower {
                    from: MemoryType::UserPreference,
                    to: MemoryType::Auto,
                },
            ..
        } => {}
        _ => panic!("user_preference 应提升 auto: {:?}", decision),
    }

    let memories = store.list_user_memories("user-a", 10).expect("查询失败");
    assert_eq!(memories.len(), 1);
    assert_eq!(memories[0].memory_type, MemoryType::UserPreference);
    assert_eq!(memories[0].priority, 80);
}

#[test]
fn govern_project_fact_cannot_downgrade_explicit() {
    let mut store = Store::open();

    let mut ws1 = MemoryWriteState::default();
    let _ = store.govern_memory_write(
        "user-a",
        "约束: 不用 unsafe",
        MemoryType::Explicit,
        100,
        &mut ws1,
    );

    let mut ws2 = MemoryWriteState::default();
    let decision = store.govern_memory_write(
        "user-a",
        "约束: 不用 unsafe",
        MemoryType::ProjectFact,
        85,
        &mut ws2,
    );

    match decision {
        WriteDecision::Skipped {
            reason: SkipReason::LowerPriorityWouldDowngradeHigher,
            ..
        } => {}
        _ => panic!("project_fact 不应覆盖 explicit: {:?}", decision),
    }
}

#[test]
fn govern_lesson_skips_duplicate_project_fact() {
    let mut store = Store::open();

    let mut ws1 = MemoryWriteState::default();
    let _ = store.govern_memory_write(
        "user-a",
        "经验: 先 cargo check",
        MemoryType::ProjectFact,
        85,
        &mut ws1,
    );

    let mut ws2 = MemoryWriteState::default();
    let decision = store.govern_memory_write(
        "user-a",
        "经验: 先 cargo check",
        MemoryType::Lesson,
        75,
        &mut ws2,
    );

    // project_fact(85) > lesson(75)，所以 lesson 不能覆盖 project_fact
    match decision {
        WriteDecision::Skipped {
            reason: SkipReason::LowerPriorityWouldDowngradeHigher,
            ..
        } => {}
        _ => panic!("lesson 不应覆盖 project_fact: {:?}", decision),
    }
}

#[test]
fn govern_explicit_promotes_lesson() {
    let mut store = Store::open();

    let mut ws1 = MemoryWriteState::default();
    let _ = store.govern_memory_write("user-a", "重要信息", MemoryType::Lesson, 75, &mut ws1);

    let mut ws2 = MemoryWriteState::default();
    let decision =
        store.govern_memory_write("user-a", "重要信息", MemoryType::Explicit, 100, &mut ws2);

    match decision {
        WriteDecision::Promoted {
            reason:
                PromoteReason::TypePromotesLower {
                    from: MemoryType::Explicit,
                    to: MemoryType::Lesson,
                },
            ..
        } => {}
        _ => panic!("explicit 应提升 lesson: {:?}", decision),
    }
}

#[test]
fn memory_type_label_prefixes_are_correct() {
    assert_eq!(MemoryType::Explicit.label_prefix(), "[记忆]");
    assert_eq!(MemoryType::Auto.label_prefix(), "[记忆]");
    assert_eq!(MemoryType::UserPreference.label_prefix(), "[偏好]");
    assert_eq!(MemoryType::ProjectFact.label_prefix(), "[项目]");
    assert_eq!(MemoryType::Lesson.label_prefix(), "[经验]");
}

#[test]
fn memory_type_user_isolation() {
    let mut store = Store::open();

    store
        .add_user_memory_typed("user-a", "A 的偏好", MemoryType::UserPreference, 80)
        .expect("写入失败");
    store
        .add_user_memory_typed("user-a", "A 的项目事实", MemoryType::ProjectFact, 85)
        .expect("写入失败");
    store
        .add_user_memory_typed("user-b", "B 的经验", MemoryType::Lesson, 75)
        .expect("写入失败");

    let a_memories = store.list_user_memories("user-a", 10).expect("查询失败");
    assert_eq!(a_memories.len(), 2);
    assert!(a_memories.iter().all(|m| m.user_id == "user-a"));

    let b_memories = store.list_user_memories("user-b", 10).expect("查询失败");
    assert_eq!(b_memories.len(), 1);
    assert_eq!(b_memories[0].memory_type, MemoryType::Lesson);
    assert_eq!(b_memories[0].content, "B 的经验");
}

#[test]
fn govern_dedup_checks_all_active_memories_not_top_50() {
    let mut store = Store::open();

    // 写入 50 条高优先级 explicit 记忆，把后续 auto 记忆挤出 top 50
    for i in 0..50 {
        store
            .add_user_memory("user-dedup-all", &format!("高优先级记忆 {i}"))
            .expect("写入失败");
    }
    // 写入 1 条低优先级 auto 记忆（priority=60 < 100）
    let mut ws1 = MemoryWriteState::default();
    let decision = store.govern_memory_write(
        "user-dedup-all",
        "将被提升的偏好",
        MemoryType::Auto,
        60,
        &mut ws1,
    );
    let auto_id = match decision {
        WriteDecision::Written(r) => r.id,
        _ => panic!("应写入 auto memory"),
    };

    // 再写入 50 条高优先级 explicit 记忆，确保 auto 记忆在检索时远在 50 名之后
    for i in 0..50 {
        store
            .add_user_memory("user-dedup-all", &format!("高优先级记忆 {i}"))
            .expect("写入失败");
    }

    // 现在用 explicit 写入同一内容；若 dedup 仅查 top 50 会误判为新写入，
    // 全量查应正确识别为重复并 promote。
    let mut ws2 = MemoryWriteState::default();
    let decision = store.govern_memory_write(
        "user-dedup-all",
        "将被提升的偏好",
        MemoryType::Explicit,
        100,
        &mut ws2,
    );
    match decision {
        WriteDecision::Promoted { id, .. } => assert_eq!(id, auto_id),
        other => panic!("应 Promote 原有 auto memory: {:?}", other),
    }

    // 验证只存在一条该内容的记忆
    let memories = store
        .list_user_memories("user-dedup-all", 200)
        .expect("查询失败");
    assert_eq!(
        memories
            .iter()
            .filter(|m| m.content == "将被提升的偏好")
            .count(),
        1
    );
}

// Memory Write Governance

#[test]
fn govern_writes_new_explicit_memory() {
    let mut store = Store::open();
    let mut ws = MemoryWriteState::default();
    let decision =
        store.govern_memory_write("user-a", "我喜欢短摘要", MemoryType::Explicit, 100, &mut ws);
    match decision {
        WriteDecision::Written(r) => {
            assert_eq!(r.memory_type, MemoryType::Explicit);
            assert_eq!(r.priority, 100);
        }
        _ => panic!("应写入: {:?}", decision),
    }
    assert_eq!(ws.written_count(), 1);
    assert_eq!(ws.skipped_count(), 0);
    assert_eq!(ws.candidate_count, 1);
}

#[test]
fn govern_writes_new_auto_memory() {
    let mut store = Store::open();
    let mut ws = MemoryWriteState::default();
    let decision =
        store.govern_memory_write("user-a", "偏好: 短摘要", MemoryType::Auto, 60, &mut ws);
    match decision {
        WriteDecision::Written(r) => {
            assert_eq!(r.memory_type, MemoryType::Auto);
            assert_eq!(r.priority, 60);
        }
        _ => panic!("应写入: {:?}", decision),
    }
}

#[test]
fn govern_skips_empty_content() {
    let mut store = Store::open();
    let mut ws = MemoryWriteState::default();
    let decision = store.govern_memory_write("user-a", "   ", MemoryType::Explicit, 100, &mut ws);
    match decision {
        WriteDecision::Skipped {
            reason: SkipReason::Empty,
            ..
        } => {}
        _ => panic!("应跳过空内容: {:?}", decision),
    }
    assert_eq!(ws.skipped_count(), 1);
}

#[test]
fn govern_skips_too_long_content() {
    let mut store = Store::open();
    let long: String = "很".repeat(501);
    let mut ws = MemoryWriteState::default();
    let decision = store.govern_memory_write("user-a", &long, MemoryType::Explicit, 100, &mut ws);
    match decision {
        WriteDecision::Skipped {
            reason: SkipReason::TooLong,
            ..
        } => {}
        _ => panic!("应跳过超长: {:?}", decision),
    }
}

#[test]
fn govern_skips_duplicate_same_type() {
    let mut store = Store::open();
    let mut ws1 = MemoryWriteState::default();
    let _ = store.govern_memory_write("user-a", "偏好: 短摘要", MemoryType::Auto, 60, &mut ws1);
    let mut ws2 = MemoryWriteState::default();
    let decision =
        store.govern_memory_write("user-a", "偏好: 短摘要", MemoryType::Auto, 60, &mut ws2);
    match decision {
        WriteDecision::Skipped {
            reason: SkipReason::Duplicate,
            ..
        } => {}
        _ => panic!("应跳过重复: {:?}", decision),
    }
}

#[test]
fn govern_auto_does_not_downgrade_explicit() {
    let mut store = Store::open();
    // 先写 explicit
    let mut ws1 = MemoryWriteState::default();
    let _ = store.govern_memory_write(
        "user-a",
        "偏好: 短摘要",
        MemoryType::Explicit,
        100,
        &mut ws1,
    );
    // 再尝试 auto 同内容
    let mut ws2 = MemoryWriteState::default();
    let decision =
        store.govern_memory_write("user-a", "偏好: 短摘要", MemoryType::Auto, 60, &mut ws2);
    match decision {
        WriteDecision::Skipped {
            reason: SkipReason::LowerPriorityWouldDowngradeHigher,
            ..
        } => {}
        _ => panic!("auto 不应降级 explicit: {:?}", decision),
    }
    // 验证原有 explicit 未被改变
    let memories = store.list_user_memories("user-a", 10).expect("查询失败");
    assert_eq!(memories.len(), 1);
    assert_eq!(memories[0].memory_type, MemoryType::Explicit);
}

#[test]
fn govern_explicit_promotes_auto() {
    let mut store = Store::open();
    // 先写 auto
    let mut ws1 = MemoryWriteState::default();
    let _ = store.govern_memory_write("user-a", "偏好: 短摘要", MemoryType::Auto, 60, &mut ws1);
    // 再写 explicit 同内容
    let mut ws2 = MemoryWriteState::default();
    let decision = store.govern_memory_write(
        "user-a",
        "偏好: 短摘要",
        MemoryType::Explicit,
        100,
        &mut ws2,
    );
    match decision {
        WriteDecision::Promoted {
            reason:
                PromoteReason::TypePromotesLower {
                    from: MemoryType::Explicit,
                    to: MemoryType::Auto,
                },
            ..
        } => {}
        _ => panic!("explicit 应提升 auto: {:?}", decision),
    }
    // 验证已提升
    let memories = store.list_user_memories("user-a", 10).expect("查询失败");
    assert_eq!(memories.len(), 1);
    assert_eq!(memories[0].memory_type, MemoryType::Explicit);
    assert_eq!(memories[0].priority, 100);
}

#[test]
fn govern_write_state_counters_accurate() {
    let mut store = Store::open();
    let mut ws = MemoryWriteState::default();

    // 3 个候选
    let _ = store.govern_memory_write("user-a", "记忆一", MemoryType::Explicit, 100, &mut ws);
    let _ = store.govern_memory_write("user-a", "", MemoryType::Explicit, 100, &mut ws); // empty → skip
    let _ = store.govern_memory_write("user-a", "记忆一", MemoryType::Auto, 60, &mut ws); // dup → skip

    assert_eq!(ws.candidate_count, 3);
    assert_eq!(ws.written_count(), 1);
    assert_eq!(ws.skipped_count(), 2);
}

#[test]
fn govern_write_state_no_cross_user_leak() {
    let mut store = Store::open();
    let mut ws_a = MemoryWriteState::default();
    let _ = store.govern_memory_write("user-a", "偏好: 红", MemoryType::Auto, 60, &mut ws_a);
    // user-b 的相同内容不应受 user-a 影响
    let mut ws_b = MemoryWriteState::default();
    let decision = store.govern_memory_write("user-b", "偏好: 红", MemoryType::Auto, 60, &mut ws_b);
    match decision {
        WriteDecision::Written(_) => {}
        _ => panic!("user-b 应能写入: {:?}", decision),
    }
    // 各自独立
    assert_eq!(ws_a.written_count(), 1);
    assert_eq!(ws_b.written_count(), 1);
}

#[test]
fn memory_write_threshold_skips_noise() {
    let mut store = Store::open();
    let mut ws = MemoryWriteState::default();

    // 过短内容被跳过
    let d1 = store.govern_memory_write("user-a", "好的", MemoryType::UserPreference, 80, &mut ws);
    assert!(
        matches!(
            d1,
            WriteDecision::Skipped {
                reason: SkipReason::Noise,
                ..
            }
        ),
        "黑名单短句应被跳过: {:?}",
        d1
    );

    // 另一个黑名单
    let d2 = store.govern_memory_write("user-a", "OK", MemoryType::UserPreference, 80, &mut ws);
    assert!(
        matches!(
            d2,
            WriteDecision::Skipped {
                reason: SkipReason::Noise,
                ..
            }
        ),
        "ok 应被跳过: {:?}",
        d2
    );

    // 少于 6 字符被跳过
    let d3 = store.govern_memory_write("user-a", "短", MemoryType::UserPreference, 80, &mut ws);
    assert!(
        matches!(
            d3,
            WriteDecision::Skipped {
                reason: SkipReason::Noise,
                ..
            }
        ),
        "过短内容应被跳过: {:?}",
        d3
    );

    // 正常内容可通过
    let d4 = store.govern_memory_write(
        "user-a",
        "我喜欢在晚上看技术文章",
        MemoryType::UserPreference,
        80,
        &mut ws,
    );
    assert!(
        matches!(d4, WriteDecision::Written(_)),
        "正常内容应写入: {:?}",
        d4
    );

    // 查询确认只写入了正常内容
    let memories = store.list_user_memories("user-a", 10).expect("查询失败");
    assert_eq!(memories.len(), 1);
    assert_eq!(memories[0].content, "我喜欢在晚上看技术文章");
}

#[test]
fn duplicate_message_is_ignored_even_after_reopen() {
    let mut store = Store::open();
    assert!(store
        .record_inbound_message("msg-1", "user-a", "hello")
        .expect("首次写入失败"));
    assert!(!store
        .record_inbound_message("msg-1", "user-a", "hello")
        .expect("重复写入失败"));

    let mut reopened = Store { inner: store.inner, tick: 0 };
    assert!(!reopened
        .record_inbound_message("msg-1", "user-a", "hello")
        .expect("重启后重复写入失败"));
}

#[test]
fn inbound_message_text_is_persisted() {
    let mut store = Store::open();
    store
        .record_inbound_message("msg-2", "user-b", "https://example.com hello")
        .expect("写入入站消息失败");

    let found = store.inner.messages.iter().find(|m| m.message_id == "msg-2").unwrap();
    let row = (found.message_id.clone(), found.from_user_id.clone(), found.text.clone());

    assert_eq!(
        row,
        (
            "msg-2".to_string(),
            "user-b".to_string(),
            "https://example.com hello".to_string(),
        )
    );
}

#[test]
fn duplicate_message_does_not_create_second_inbound_row() {
    let mut store = Store::open();
    assert!(store
        .record_inbound_message("msg-3", "user-c", "first")
        .expect("首次写入失败"));
    assert!(!store
        .record_inbound_message("msg-3", "user-c", "second")
        .expect("重复写入失败"));

    let rows: Vec<_> = store.inner.messages.iter().filter(|m| m.message_id == "msg-3").collect();
    let count = rows.len();
    let text = rows[0].text.clone();

    assert_eq!(count, 1);
    assert_eq!(text, "first");
}

#[test]
fn user_session_state_empty_load_returns_none() {
    let store = Store::open();
    let result = store.load_user_session_state("user-a").expect("加载失败");
    assert!(result.is_none());
}

#[test]
fn user_session_state_first_write_and_read_back() {
    let mut store = Store::open();

    let record = UserSessionStateRecord {
        user_id: "user-a".to_string(),
        last_user_intent: Some("查询任务状态".to_string()),
        current_task: Some("task-123".to_string()),
        next_step: Some("等待用户确认".to_string()),
        blocked_reason: None,
        updated_at: "2026-04-17T10:00:00Z".to_string(),
        ..Default::default()
    };
    store.upsert_user_session_state(&record).expect("写入失败");

    let loaded = store
        .load_user_session_state("user-a")
        .expect("加载失败")
        .expect("应存在记录");
    assert_eq!(loaded.user_id, "user-a");
    assert_eq!(loaded.last_user_intent, Some("查询任务状态".to_string()));
    assert_eq!(loaded.current_task, Some("task-123".to_string()));
    assert_eq!(loaded.next_step, Some("等待用户确认".to_string()));
    assert_eq!(loaded.blocked_reason, None);
}

#[test]
fn user_session_state_overwrite_updates_fields() {
    let mut store = Store::open();

    let first = UserSessionStateRecord {
        user_id: "user-a".to_string(),
        last_user_intent: Some("旧意图".to_string()),
        current_task: Some("task-1".to_string()),
        next_step: Some("步骤1".to_string()),
        blocked_reason: None,
        updated_at: "2026-04-17T10:00:00Z".to_string(),
        ..Default::default()
    };
    store.upsert_user_session_state(&first).expect("写入失败");

    let second = UserSessionStateRecord {
        user_id: "user-a".to_string(),
        last_user_intent: Some("新意图".to_string()),
        current_task: Some("task-2".to_string()),
        next_step: Some("步骤2".to_string()),
        blocked_reason: Some("等待人工输入".to_string()),
        updated_at: "2026-04-17T11:00:00Z".to_string(),
        ..Default::default()
    };
    store.upsert_user_session_state(&second).expect("更新失败");

    let loaded = store
        .load_user_session_state("user-a")
        .expect("加载失败")
        .expect("应存在记录");
    assert_eq!(loaded.last_user_intent, Some("新意图".to_string()));
    assert_eq!(loaded.current_task, Some("task-2".to_string()));
    assert_eq!(loaded.next_step, Some("步骤2".to_string()));
    assert_eq!(loaded.blocked_reason, Some("等待人工输入".to_string()));
    assert_eq!(loaded.updated_at, "2026-04-17T11:00:00Z".to_string());
}

#[test]
fn user_session_state_user_isolation() {
    let mut store = Store::open();

    let record_a = UserSessionStateRecord {
        user_id: "user-a".to_string(),
        last_user_intent: Some("A的意图".to_string()),
        current_task: None,
        next_step: None,
        blocked_reason: None,
        updated_at: "2026-04-17T10:00:00Z".to_string(),
        ..Default::default()
    };
    let record_b = UserSessionStateRecord {
        user_id: "user-b".to_string(),
        last_user_intent: Some("B的意图".to_string()),
        current_task: None,
        next_step: None,
        blocked_reason: None,
        updated_at: "2026-04-17T10:00:00Z".to_string(),
        ..Default::default()
    };
    store
        .upsert_user_session_state(&record_a)
        .expect("写入A失败");
    store
        .upsert_user_session_state(&record_b)
        .expect("写入B失败");

    let loaded_a = store
        .load_user_session_state("user-a")
        .expect("加载失败")
        .expect("应存在");
    let loaded_b = store
        .load_user_session_state("user-b")
        .expect("加载失败")
        .expect("应存在");
    assert_eq!(loaded_a.last_user_intent, Some("A的意图".to_string()));
    assert_eq!(loaded_b.last_user_intent, Some("B的意图".to_string()));
}

#[test]
fn user_session_state_clear_removes_record() {
    let mut store = Store::open();

    let record = UserSessionStateRecord {
        user_id: "user-a".to_string(),
        last_user_intent: Some("意图".to_string()),
        current_task: None,
        next_step: None,
        blocked_reason: None,
        updated_at: "2026-04-17T10:00:00Z".to_string(),
        ..Default::default()
    };
    store.upsert_user_session_state(&record).expect("写入失败");
    assert!(store.load_user_session_state("user-a").unwrap().is_some());

    store.clear_user_session_state("user-a").expect("清空失败");
    assert!(store.load_user_session_state("user-a").unwrap().is_none());
}

#[test]
fn user_session_state_upsert_empty_user_id_fails() {
    let mut store = Store::open();

    let record = UserSessionStateRecord {
        user_id: "   ".to_string(),
        last_user_intent: None,
        current_task: None,
        next_step: None,
        blocked_reason: None,
        updated_at: "2026-04-17T10:00:00Z".to_string(),
        ..Default::default()
    };
    let err = store
        .upsert_user_session_state(&record)
        .expect_err("应失败");
    assert!(err.message().contains("user_id"));
}

#[test]
fn user_session_state_all_optional_fields_can_be_none() {
    let mut store = Store::open();

    let record = UserSessionStateRecord {
        user_id: "user-a".to_string(),
        last_user_intent: None,
        current_task: None,
        next_step: None,
        blocked_reason: None,
        updated_at: "2026-04-17T10:00:00Z".to_string(),
        ..Default::default()
    };
    store.upsert_user_session_state(&record).expect("写入失败");

    let loaded = store
        .load_user_session_state("user-a")
        .expect("加载失败")
        .expect("应存在");
    assert!(loaded.last_user_intent.is_none());
    assert!(loaded.current_task.is_none());
    assert!(loaded.next_step.is_none());
    assert!(loaded.blocked_reason.is_none());
}

#[test]
fn user_session_state_survives_reopen() {
    let rows = {
        let mut store = Store::open();
        let record = UserSessionStateRecord {
            user_id: "user-a".to_string(),
            last_user_intent: Some("持久化测试".to_string()),
            current_task: Some("task-xyz".to_string()),
            next_step: None,
            blocked_reason: Some("blocked".to_string()),
            updated_at: "2026-04-17T12:00:00Z".to_string(),
            ..Default::default()
        };
        store.upsert_user_session_state(&record).expect("写入失败");
        store.inner
    };

    let store = Store { inner: rows, tick: 0 };
    let loaded = store
        .load_user_session_state("user-a")
        .expect("加载失败")
        .expect("应存在");
    assert_eq!(loaded.last_user_intent, Some("持久化测试".to_string()));
    assert_eq!(loaded.current_task, Some("task-xyz".to_string()));
    assert_eq!(loaded.blocked_reason, Some("blocked".to_string()));
}

#[test]
fn user_session_state_v2_fields_round_trip() {
    let mut store = Store::open();

    let mut record = UserSessionStateRecord {
        user_id: "user-a".to_string(),
        last_user_intent: Some("测试意图".to_string()),
        current_task: Some("task-v2".to_string()),
        next_step: Some("下一步".to_string()),
        blocked_reason: None,
        goal: Some("完成目标".to_string()),
        current_subtask: Some("当前子任务".to_string()),
        constraints_json: Some(r#"["约束1","约束2"]"#.to_string()),
        confirmed_facts_json: Some(r#"["事实A","事实B"]"#.to_string()),
        done_items_json: Some(r#"["完成1"]"#.to_string()),
        open_questions_json: Some(r#"["问题1","问题2"]"#.to_string()),
        updated_at: "2026-04-17T10:00:00Z".to_string(),
    };
    store.upsert_user_session_state(&record).expect("写入失败");

    let loaded = store
        .load_user_session_state("user-a")
        .expect("加载失败")
        .expect("应存在");
    assert_eq!(loaded.goal, Some("完成目标".to_string()));
    assert_eq!(loaded.current_subtask, Some("当前子任务".to_string()));
    assert_eq!(loaded.constraints(), vec!["约束1", "约束2"]);
    assert_eq!(loaded.confirmed_facts(), vec!["事实A", "事实B"]);
    assert_eq!(loaded.done_items(), vec!["完成1"]);
    assert_eq!(loaded.open_questions(), vec!["问题1", "问题2"]);
    assert_eq!(loaded.populated_slot_count(), 7);
    assert!(!loaded.is_v2_empty());

    // 测试 set_ 方法
    record.set_constraints(vec!["新约束".to_string()]);
    record.set_confirmed_facts(vec![]);
    record.set_done_items(vec!["完成A".to_string(), "完成B".to_string()]);
    record.set_open_questions(vec![]);
    store.upsert_user_session_state(&record).expect("更新失败");

    let loaded2 = store
        .load_user_session_state("user-a")
        .expect("加载失败")
        .expect("应存在");
    assert_eq!(loaded2.constraints(), vec!["新约束"]);
    assert!(loaded2.confirmed_facts_json.is_none());
    assert_eq!(loaded2.done_items(), vec!["完成A", "完成B"]);
    assert!(loaded2.open_questions_json.is_none());
}

#[test]
fn tracking_query_params_are_removed_during_normalization() {
    let mut store = Store::open();

    let first = store
        .record_link_submission("https://example.com/page?utm_source=x&gclid=1&id=42")
        .expect("首次写入链接失败");
    let second = store
        .record_link_submission("https://example.com/page?id=42&utm_medium=email")
        .expect("重复写入链接失败");

    assert_eq!(first.normalized_url, "https://example.com/page?id=42");
    assert_eq!(second.normalized_url, "https://example.com/page?id=42");
    assert!(!second.created_new);
}

#[test]
fn private_network_urls_are_rejected() {
    let mut store = Store::open();
    let private_urls = vec![
        // 经典私有段
        "http://127.0.0.1/secret",
        "http://localhost/admin",
        "http://192.168.1.1/router",
        "http://10.0.0.1/internal",
        "http://172.16.0.1/corp",
        "http://172.31.255.255/corp",
        // 云元数据 / link-local
        "http://169.254.169.254/metadata",
        "http://169.254.0.1/whatever",
        // IPv6
        "http://[::1]/secret",
        "http://[fc00::1]/internal",
        "http://[fe80::1]/link",
        // 非十进制表示
        "http://0x7f000001/secret",
        "http://0177.0.0.1/secret",
        "http://2130706433/secret",
        // 特殊域名
        "http://myapp.localhost/",
        "http://myapp.local/",
    ];
    for url in private_urls {
        let err = store
            .record_link_submission(url)
            .expect_err(&format!("应拒绝内网 URL: {url}"));
        assert!(
            err.message().contains("内网"),
            "错误信息应包含'内网': {} => {}",
            url,
            err.message()
        );
    }
    // 公网 URL 应正常通过
    store
        .record_link_submission("https://example.com/public")
        .expect("公网 URL 应正常通过");
}

#[test]
fn is_private_url_detects_all_known_patterns() {
    assert!(is_private_url("http://169.254.169.254/latest/meta-data/", unresolved));
    assert!(is_private_url("http://100.64.0.1/cgn", unresolved));
    assert!(is_private_url("http://0x7f000001/ping", unresolved));
    assert!(is_private_url("http://0177.0.0.1/ping", unresolved));
    assert!(is_private_url("http://[::1]/ping", unresolved));
    assert!(is_private_url("http://[fc00::1]/ping", unresolved));
    // 公网不应命中
    assert!(!is_private_url("https://example.com/page", unresolved));
    assert!(!is_private_url("https://1.1.1.1/dns", unresolved));
    assert!(!is_private_url("https://8.8.8.8/dns", unresolved));
}

#[test]
fn fc_fd_prefix_domain_names_are_not_falsely_blocked() {
    assert!(!is_private_url("https://fc-news.example.com/page", unresolved));
    assert!(!is_private_url("https://fdomain.example.com/page", unresolved));
}

#[test]
fn domain_resolving_to_private_ip_is_blocked() {
    assert!(is_private_host_with("demo.test", |host: &str| {
        if host == "demo.test" {
            vec![IpAddress::V4(10, 0, 0, 7)]
        } else {
            vec![]
        }
    }));
    assert!(is_private_host_with("demo6.test", |host: &str| {
        if host == "demo6.test" {
            vec![IpAddress::V6([0, 0, 0, 0, 0, 0, 0, 1])]
        } else {
            vec![]
        }
    }));
}

#[test]
fn domain_resolving_to_public_ip_is_allowed() {
    assert!(!is_private_host_with("public.test", |host: &str| {
        if host == "public.test" {
            vec![IpAddress::V4(1, 1, 1, 1)]
        } else {
            vec![]
        }
    }));
}

#[test]
fn non_http_scheme_is_rejected_during_link_submission() {
    let mut store = Store::open();

    let err = store
        .record_link_submission("file:///tmp/demo.html")
        .expect_err("应拒绝非 http/https 协议");

    assert!(err.message().contains("仅支持 http/https URL"));
}

#[test]
fn javascript_scheme_is_rejected_during_link_submission() {
    let mut store = Store::open();

    let err = store
        .record_link_submission("javascript:alert(1)")
        .expect_err("应拒绝 javascript 协议");

    assert!(err.message().contains("仅支持 http/https URL"));
}

#[test]
fn link_submission_creates_article_and_task() {
    let mut store = Store::open();

    let record = store
        .record_link_submission("https://example.com/path?q=1")
        .expect("写入链接失败");

    let article = store.inner.articles.iter().find(|a| a.id == record.article_id).unwrap();
    let article_row = (article.id.clone(), article.normalized_url.clone());
    let task = store.inner.tasks.iter().find(|t| t.id == record.task_id).unwrap();
    let task_row = (task.id.clone(), task.article_id.clone());

    assert_eq!(article_row.0, record.article_id);
    assert_eq!(article_row.1, "https://example.com/path?q=1");
    assert_eq!(task_row.0, record.task_id);
    assert_eq!(task_row.1, record.article_id);
    assert!(record.created_new);
}

#[test]
fn duplicate_link_returns_existing_article_and_task() {
    let mut store = Store::open();

    let first = store
        .record_link_submission("https://example.com")
        .expect("首次写入链接失败");
    let second = store
        .record_link_submission("https://example.com/")
        .expect("重复写入链接失败");

    let article_count = store.inner.articles.len();
    let task_count = store.inner.tasks.len();

    assert_eq!(
        second,
        LinkTaskRecord {
            article_id: first.article_id.clone(),
            task_id: first.task_id.clone(),
            normalized_url: "https://example.com".to_string(),
            original_url: "https://example.com/".to_string(),
            created_new: false,
        }
    );
    assert_eq!(article_count, 1);
    assert_eq!(task_count, 1);
}

#[test]
fn task_status_can_be_queried() {
    let mut store = Store::open();

    let created = store
        .record_link_submission("https://example.com/status")
        .expect("写入链接失败");
    let status = store
        .get_task_status(&created.task_id)
        .expect("查询任务状态失败")
        .expect("应存在任务状态");

    assert_eq!(
        status,
        TaskStatusRecord {
            task_id: created.task_id.clone(),
            article_id: created.article_id.clone(),
            normalized_url: "https://example.com/status".to_string(),
            title: None,
            content_source: None,
            page_kind: None,
            status: "pending".to_string(),
            retry_count: 0,
            last_error: None,
            output_path: None,
            snapshot_path: None,
            created_at: status.created_at.clone(),
            updated_at: status.updated_at.clone(),
        }
    );
}

#[test]
fn querying_missing_task_returns_none() {
    let store = Store::open();

    let status = store
        .get_task_status("missing-task")
        .expect("查询不存在任务失败");

    assert_eq!(status, None);
}

#[test]
fn recent_tasks_returns_latest_first() {
    let mut store = Store::open();

    let first = store
        .record_link_submission("https://example.com/one")
        .expect("写入第一条链接失败");
    let second = store
        .record_link_submission("https://example.com/two")
        .expect("写入第二条链接失败");

    let tasks = store.list_recent_tasks(10).expect("查询最近任务失败");

    assert_eq!(
        tasks,
        vec![
            RecentTaskRecord {
                task_id: second.task_id,
                status: "pending".to_string(),
                content_source: None,
                page_kind: None,
                normalized_url: "https://example.com/two".to_string(),
                updated_at: tasks[0].updated_at.clone(),
            },
            RecentTaskRecord {
                task_id: first.task_id,
                status: "pending".to_string(),
                content_source: None,
                page_kind: None,
                normalized_url: "https://example.com/one".to_string(),
                updated_at: tasks[1].updated_at.clone(),
            },
        ]
    );
}

#[test]
fn retry_task_resets_status_and_clears_error() {
    let mut store = Store::open();
    let created = store
        .record_link_submission("https://example.com/retry")
        .expect("写入链接失败");

    let row = store.inner.tasks.iter_mut().find(|t| t.id == created.task_id).unwrap();
    row.status = "failed".to_string();
    row.retry_count = 2;
    row.last_error = Some("boom".to_string());

    let retried = store
        .retry_task(&created.task_id)
        .expect("重试任务失败")
        .expect("应存在任务");

    assert_eq!(retried.status, "pending");
    assert_eq!(retried.normalized_url, "https://example.com/retry");
    assert_eq!(retried.content_source, None);
    assert_eq!(retried.page_kind, None);
    assert_eq!(retried.retry_count, 3);
    assert_eq!(retried.last_error, None);
    assert_eq!(retried.output_path, None);
    assert_eq!(retried.snapshot_path, None);
}

#[test]
fn retry_missing_task_returns_none() {
    let mut store = Store::open();

    let retried = store
        .retry_task("missing-task")
        .expect("重试不存在任务失败");

    assert_eq!(retried, None);
}

#[test]
fn retry_processing_task_returns_validation_error() {
    let mut store = Store::open();
    let created = store
        .record_link_submission("https://example.com/retry-processing")
        .expect("写入链接失败");

    // 先领取，进入 processing 状态
    assert!(
        store
            .claim_task(&created.task_id, "worker-a", 300)
            .expect("claim 失败"),
        "pending 任务应可被领取"
    );

    let err = store
        .retry_task(&created.task_id)
        .expect_err("processing 状态下重试应失败");
    let message = err.message();
    assert!(
        message.contains("不允许重试"),
        "错误信息应提示不允许重试，实际: {message}"
    );
    assert!(
        message.contains("processing"),
        "错误信息应包含当前状态 processing，实际: {message}"
    );
}

#[test]
fn expired_lease_task_can_be_reclaimed() {
    let mut store = Store::open();
    let created = store
        .record_link_submission("https://example.com/reclaim")
        .expect("写入链接失败");

    // 首次领取成功，第二次应失败（lease 尚未过期）
    assert!(store
        .claim_task(&created.task_id, "worker-a", 300)
        .expect("首次 claim 失败"));
    assert!(
        !store
            .claim_task(&created.task_id, "worker-b", 300)
            .expect("二次 claim 查询失败"),
        "lease 未过期时不应被再次领取"
    );

    // 人工制造过期 lease，再次领取应成功
    let row = store.inner.tasks.iter_mut().find(|t| t.id == created.task_id).unwrap();
    row.lease_until = Some(Stamp {
        text: "2000-01-01T00:00:00+00:00".to_string(),
        secs: Some(946_684_800),
    });

    assert!(
        store
            .claim_task(&created.task_id, "worker-b", 300)
            .expect("过期后 claim 失败"),
        "lease 过期后应可被重新领取"
    );

    let worker_id = store
        .inner
        .tasks
        .iter()
        .find(|t| t.id == created.task_id)
        .and_then(|t| t.worker_id.clone());
    assert_eq!(worker_id, Some("worker-b".to_string()));
}

#[test]
fn pending_tasks_can_be_listed_and_archived() {
    let mut store = Store::open();
    let created = store
        .record_link_submission("https://example.com/pending")
        .expect("写入链接失败");

    let pending = store.list_pending_tasks(10).expect("查询 pending 失败");
    assert_eq!(
        pending,
        vec![PendingTaskRecord {
            task_id: created.task_id.clone(),
            article_id: created.article_id.clone(),
            normalized_url: "https://example.com/pending".to_string(),
            original_url: "https://example.com/pending".to_string(),
        }]
    );

    store
        .claim_task(&created.task_id, "test-worker", 300)
        .expect("claim 失败");

    assert!(store
        .mark_task_archived(
            &created.task_id,
            MarkTaskArchivedInput {
                output_path: "/tmp/example.md",
                title: Some("Example Title"),
                page_kind: Some("article"),
                snapshot_path: Some("/tmp/example.png"),
                content_source: Some("browser_capture"),
                summary: None,
            },
        )
        .expect("更新 archived 状态失败"));

    let pending_after = store.list_pending_tasks(10).expect("查询 pending 失败");
    let status = store
        .get_task_status(&created.task_id)
        .expect("查询状态失败")
        .expect("应存在任务");

    assert!(pending_after.is_empty());
    assert_eq!(status.status, "archived");
    assert_eq!(status.content_source, Some("browser_capture".to_string()));
    assert_eq!(status.page_kind, Some("article".to_string()));
    assert_eq!(status.output_path, Some("/tmp/example.md".to_string()));
    assert_eq!(status.snapshot_path, Some("/tmp/example.png".to_string()));
    assert_eq!(status.title, Some("Example Title".to_string()));
}

#[test]
fn task_can_be_marked_failed() {
    let mut store = Store::open();
    let created = store
        .record_link_submission("https://example.com/fail")
        .expect("写入链接失败");

    store
        .claim_task(&created.task_id, "test-worker", 300)
        .expect("claim 失败");

    assert!(store
        .mark_task_failed(&created.task_id, "network fail")
        .expect("更新 failed 状态失败"));

    let status = store
        .get_task_status(&created.task_id)
        .expect("查询状态失败")
        .expect("应存在任务");

    assert_eq!(status.status, "failed");
    assert_eq!(status.content_source, None);
    assert_eq!(status.last_error, Some("network fail".to_string()));
}

#[test]
fn task_can_be_marked_awaiting_manual_input() {
    let mut store = Store::open();
    let created = store
        .record_link_submission("https://mp.weixin.qq.com/s/manual")
        .expect("写入链接失败");

    store
        .claim_task(&created.task_id, "test-worker", 300)
        .expect("claim 失败");

    assert!(store
        .mark_task_awaiting_manual_input(
            &created.task_id,
            "微信公众号页面需要验证码验证",
            "wechat_captcha",
            None,
            Some("browser_capture"),
        )
        .expect("更新 awaiting_manual_input 状态失败"));

    let status = store
        .get_task_status(&created.task_id)
        .expect("查询状态失败")
        .expect("应存在任务");

    assert_eq!(status.status, "awaiting_manual_input");
    assert_eq!(status.content_source, Some("browser_capture".to_string()));
    assert_eq!(status.page_kind, Some("wechat_captcha".to_string()));
    assert_eq!(
        status.last_error,
        Some("微信公众号页面需要验证码验证".to_string())
    );
}

#[test]
fn manual_tasks_can_be_listed() {
    let mut store = Store::open();
    let created = store
        .record_link_submission("https://mp.weixin.qq.com/s/manual-list")
        .expect("写入链接失败");

    store
        .claim_task(&created.task_id, "test-worker", 300)
        .expect("claim 失败");
    store
        .mark_task_awaiting_manual_input(
            &created.task_id,
            "微信公众号页面需要验证码验证",
            "wechat_captcha",
            None,
            Some("browser_capture"),
        )
        .expect("更新 awaiting_manual_input 状态失败");

    let tasks = store.list_manual_tasks(10).expect("查询待补录任务失败");

    assert_eq!(
        tasks,
        vec![RecentTaskRecord {
            task_id: created.task_id,
            status: "awaiting_manual_input".to_string(),
            content_source: Some("browser_capture".to_string()),
            page_kind: Some("wechat_captcha".to_string()),
            normalized_url: "https://mp.weixin.qq.com/s/manual-list".to_string(),
            updated_at: tasks[0].updated_at.clone(),
        }]
    );
}

#[test]
fn archived_tasks_can_be_listed() {
    let mut store = Store::open();
    let created = store
        .record_link_submission("https://example.com/archived-list")
        .expect("写入链接失败");

    store
        .claim_task(&created.task_id, "test-worker", 300)
        .expect("claim 失败");

    assert!(store
        .mark_task_archived(
            &created.task_id,
            MarkTaskArchivedInput {
                output_path: "/tmp/archived-list.md",
                title: Some("Archived List Title"),
                page_kind: Some("article"),
                snapshot_path: None,
                content_source: Some("http"),
                summary: None,
            },
        )
        .expect("更新 archived 状态失败"));

    let tasks = store.list_archived_tasks(10).expect("查询 archived 失败");
    assert_eq!(
        tasks,
        vec![ArchivedTaskRecord {
            task_id: created.task_id,
            article_id: created.article_id,
            normalized_url: "https://example.com/archived-list".to_string(),
            title: Some("Archived List Title".to_string()),
            summary: None,
            content_source: Some("http".to_string()),
            page_kind: Some("article".to_string()),
            output_path: Some("/tmp/archived-list.md".to_string()),
            updated_at: tasks[0].updated_at.clone(),
        }]
    );
}

#[test]
fn mark_task_awaiting_manual_input_preserves_snapshot_when_none() {
    let mut store = Store::open();
    let created = store
        .record_link_submission("https://example.com/snapshot-test")
        .expect("写入链接失败");
    store
        .claim_task(&created.task_id, "test-worker", 300)
        .expect("claim 失败");

    // 先手动设置 snapshot_path
    let row = store.inner.tasks.iter_mut().find(|t| t.id == created.task_id).unwrap();
    row.snapshot_path = Some("original_snapshot".to_string());

    // 传入 None，应保留原有 snapshot_path
    assert!(store
        .mark_task_awaiting_manual_input(
            &created.task_id,
            "需要人工确认",
            "article",
            None,
            Some("browser_capture"),
        )
        .expect("更新 awaiting_manual_input 状态失败"));

    let status = store
        .get_task_status(&created.task_id)
        .expect("查询状态失败")
        .expect("应存在任务");
    assert_eq!(status.snapshot_path, Some("original_snapshot".to_string()));
    assert_eq!(status.content_source, Some("browser_capture".to_string()));
}

#[test]
fn mark_task_failed_preserves_diagnostic_fields() {
    let mut store = Store::open();
    let created = store
        .record_link_submission("https://example.com/fail-diag")
        .expect("写入链接失败");
    store
        .claim_task(&created.task_id, "test-worker", 300)
        .expect("claim 失败");

    // 先设置诊断字段
    let row = store.inner.tasks.iter_mut().find(|t| t.id == created.task_id).unwrap();
    row.page_kind = Some("wechat_article".to_string());
    row.snapshot_path = Some("snap.html".to_string());
    row.content_source = Some("browser_capture".to_string());

    assert!(store
        .mark_task_failed(&created.task_id, "network timeout")
        .expect("更新 failed 状态失败"));

    let status = store
        .get_task_status(&created.task_id)
        .expect("查询状态失败")
        .expect("应存在任务");
    assert_eq!(status.status, "failed");
    assert_eq!(status.last_error, Some("network timeout".to_string()));
    assert_eq!(status.page_kind, Some("wechat_article".to_string()));
    assert_eq!(status.snapshot_path, Some("snap.html".to_string()));
    assert_eq!(status.content_source, Some("browser_capture".to_string()));
    assert_eq!(status.output_path, None);
}

#[test]
fn task_store_log_payload_keeps_contract_fields() {
    let payload = build_structured_log_payload(
        "2026-04-10T08:00:00+08:00",
        "error",
        "task_status_changed",
        vec![
            ("task_id".to_string(), JsonValue::Text("task-1".to_string())),
            ("status".to_string(), JsonValue::Text("failed".to_string())),
            ("detail".to_string(), JsonValue::Null),
        ],
    );

    assert_eq!(get_str(&payload, "level"), Some("error".to_string()));
    assert_eq!(get_str(&payload, "event"), Some("task_status_changed".to_string()));
    assert_eq!(get_str(&payload, "task_id"), Some("task-1".to_string()));
    assert_eq!(get_str(&payload, "status"), Some("failed".to_string()));
    assert!(get(&payload, "ts").is_some());
    assert!(get(&payload, "detail").is_none());
}
