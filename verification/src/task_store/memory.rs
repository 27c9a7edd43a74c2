//! Governed writes, retrieval and feedback of user memories.

use crate::ordering;
use crate::ordering::{KeyPart, Part, sort_rows};
use crate::rows;
use crate::task_store::store;
use crate::task_store::store::{StoreData, TaskStore};
use crate::task_store::types;
use crate::task_store::types::{
    Counts, Decision, FeedbackKind, MemoryData, MemoryFeedbackState, MemoryType,
    MemoryWriteState, PromoteReason, SkipReason, TaskStoreError, UserMemoryRecord,
    WriteDecision, WriteStateData,
};
use crate::text;
use crate::text::{char_count, clip, join_strings, owned, same, split_words, to_lowercase, trimmed};
use vstd::prelude::*;

verus! {

/// The longest content of one memory.
pub const MAX_MEMORY_WRITE_CHARS: usize = 500;

/// Shorter content is noise.
pub const MIN_MEMORY_WRITE_CHARS: usize = 3;

// ---------------------------------------------------------------------------
// Noise
// ---------------------------------------------------------------------------

/// Stock phrases without content.
pub open spec fn stock_phrase(s: Seq<char>) -> bool {
    ||| s == "好的"@
    ||| s == "收到"@
    ||| s == "嗯嗯"@
    ||| s == "嗯"@
    ||| s == "哦"@
    ||| s == "啊"@
    ||| s == "行"@
    ||| s == "可以"@
    ||| s == "没问题"@
    ||| s == "知道了"@
    ||| s == "明白"@
    ||| s == "了解"@
    ||| s == "清楚"@
    ||| s == "ok"@
    ||| s == "yes"@
    ||| s == "no"@
    ||| s == "okay"@
    ||| s == "sure"@
    ||| s == "got it"@
    ||| s == "roger"@
    ||| s == "copy"@
    ||| s == "thx"@
    ||| s == "thanks"@
    ||| s == "thank you"@
    ||| s == "1"@
    ||| s == "111"@
    ||| s == "6"@
    ||| s == "666"@
    ||| s == "多谢"@
    ||| s == "谢谢"@
    ||| s == "不客气"@
    ||| s == "客气"@
    ||| s == "再见"@
    ||| s == "拜拜"@
    ||| s == "hello"@
    ||| s == "hi"@
    ||| s == "hey"@
}

pub fn is_stock_phrase(s: &str) -> (r: bool)
    ensures
        r == stock_phrase(s@),
{
    same(s, "好的") || same(s, "收到") || same(s, "嗯嗯") || same(s, "嗯") || same(s, "哦") || same(
        s,
        "啊",
    ) || same(s, "行") || same(s, "可以") || same(s, "没问题") || same(s, "知道了") || same(s, "明白")
        || same(s, "了解") || same(s, "清楚") || same(s, "ok") || same(s, "yes") || same(s, "no")
        || same(s, "okay") || same(s, "sure") || same(s, "got it") || same(s, "roger") || same(
        s,
        "copy",
    ) || same(s, "thx") || same(s, "thanks") || same(s, "thank you") || same(s, "1") || same(
        s,
        "111",
    ) || same(s, "6") || same(s, "666") || same(s, "多谢") || same(s, "谢谢") || same(s, "不客气")
        || same(s, "客气") || same(s, "再见") || same(s, "拜拜") || same(s, "hello") || same(s, "hi")
        || same(s, "hey")
}

/// Noise, given the lower-case form of the trimmed content.
pub open spec fn noise_text(content: Seq<char>, lowered: Seq<char>) -> bool {
    text::trim(content).len() < MIN_MEMORY_WRITE_CHARS || stock_phrase(lowered)
}

pub open spec fn memory_noise(content: Seq<char>) -> bool {
    noise_text(content, text::lowercase(text::trim(content)))
}

/// Decides on noise from the content and the lower-case form of its trimmed text.
pub fn is_noise_text(content: &str, lowered: &str) -> (r: bool)
    ensures
        r == noise_text(content@, lowered@),
{
    let core = trimmed(content);
    char_count(core.as_str()) < MIN_MEMORY_WRITE_CHARS || is_stock_phrase(lowered)
}

/// Whether content is noise: too short, or a stock phrase.
pub fn is_memory_noise(content: &str) -> (r: bool)
    ensures
        r == memory_noise(content@),
{
    let core = trimmed(content);
    let lowered = to_lowercase(core.as_str());
    is_noise_text(content, lowered.as_str())
}

// ---------------------------------------------------------------------------
// Retrieval
// ---------------------------------------------------------------------------

/// The active memories of a user.
pub open spec fn active_of(user_id: Seq<char>) -> spec_fn(MemoryData) -> bool {
    |m: MemoryData| m.user_id == user_id && m.status == "active"@
}

/// Priority, usefulness, use and recency, each descending; then the id.
pub open spec fn memory_key(m: MemoryData) -> Seq<Part> {
    seq![
        Part::NumDown(m.priority),
        Part::NumDown(if m.useful { 1 } else { 0 }),
        Part::NumDown(m.use_count),
        Part::TextDown(match m.last_used_at {
            Some(t) => t,
            None => m.updated_at,
        }),
        Part::Text(m.id),
    ]
}

pub open spec fn memory_keys(rows: Seq<MemoryData>) -> Seq<Seq<Part>> {
    Seq::new(rows.len(), |i: int| memory_key(rows[i]))
}

/// The active memories of a user, in order.
pub open spec fn ranked_memories(memories: Seq<MemoryData>, user_id: Seq<char>) -> Seq<MemoryData> {
    let rows = memories.filter(active_of(user_id));
    let order = ordering::sort_order(memory_keys(rows));
    Seq::new(rows.len(), |i: int| rows[order[i]])
}

pub open spec fn first_rows(rows: Seq<MemoryData>, limit: int) -> Seq<MemoryData> {
    if limit < rows.len() {
        rows.take(limit)
    } else {
        rows
    }
}

proof fn lemma_memory_keys_uniform(rows: Seq<MemoryData>)
    ensures
        ordering::uniform(memory_keys(rows)),
{
    let keys = memory_keys(rows);
    assert forall|i: int, j: int| 0 <= i < keys.len() && 0 <= j < keys.len() implies ordering::same_shape(
        #[trigger] keys[i],
        #[trigger] keys[j],
    ) by {
        assert(keys[i] == memory_key(rows[i]));
        assert(keys[j] == memory_key(rows[j]));
    }
}

/// The ranking shows exactly the active memories of the user.
pub proof fn lemma_ranked_members(memories: Seq<MemoryData>, user_id: Seq<char>)
    ensures
        forall|m: MemoryData|
            #[trigger] ranked_memories(memories, user_id).contains(m) <==> memories.contains(m)
                && active_of(user_id)(m),
{
    let p = active_of(user_id);
    let rows = memories.filter(p);
    let keys = memory_keys(rows);
    let order = ordering::sort_order(keys);
    let ranked = ranked_memories(memories, user_id);
    lemma_memory_keys_uniform(rows);
    ordering::lemma_sort_order(keys);
    rows::lemma_filter_members(memories, p);
    assert forall|m: MemoryData| #[trigger] ranked.contains(m) <==> memories.contains(m) && p(m) by {
        if ranked.contains(m) {
            let i = choose|i: int| 0 <= i < ranked.len() && ranked[i] == m;
            assert(rows[order[i]] == m);
            assert(rows.contains(m));
        }
        if memories.contains(m) && p(m) {
            assert(rows.contains(m));
            let k = choose|k: int| 0 <= k < rows.len() && rows[k] == m;
            assert(order.contains(k));
            let i = choose|i: int| 0 <= i < order.len() && order[i] == k;
            assert(ranked[i] == m);
        }
    }
}

/// The ranking is in order: of two memories that it shows, the later one does not come
/// first by priority, usefulness, use, recency and id. So a higher priority comes first.
pub proof fn lemma_ranked_order(memories: Seq<MemoryData>, user_id: Seq<char>, i: int, j: int)
    requires
        0 <= i < j < ranked_memories(memories, user_id).len(),
    ensures
        ({
            let ranked = ranked_memories(memories, user_id);
            &&& !ordering::key_before(memory_key(ranked[j]), memory_key(ranked[i]))
            &&& ranked[i].priority >= ranked[j].priority
        }),
{
    let rows = memories.filter(active_of(user_id));
    let keys = memory_keys(rows);
    lemma_memory_keys_uniform(rows);
    ordering::lemma_sort_order(keys);
    let order = ordering::sort_order(keys);
    assert(ordering::in_order(keys, order[i], order[j]));
    let ranked = ranked_memories(memories, user_id);
    let a = memory_key(ranked[j]);
    let b = memory_key(ranked[i]);
    assert(a[0] == Part::NumDown(ranked[j].priority));
    assert(b[0] == Part::NumDown(ranked[i].priority));
}

// ---------------------------------------------------------------------------
// Governance
// ---------------------------------------------------------------------------

/// The normal form by which memories are compared, from the lower-case content: single
/// spaces between words.
pub open spec fn spaced(lowered: Seq<char>) -> Seq<char> {
    text::join(text::words(lowered), " "@)
}

pub open spec fn normal_form(content: Seq<char>) -> Seq<char> {
    spaced(text::lowercase(content))
}

pub open spec fn has_form(form: Seq<char>) -> spec_fn(MemoryData) -> bool {
    |m: MemoryData| normal_form(m.content) == form
}

pub open spec fn memory_with_id(id: Seq<char>) -> spec_fn(MemoryData) -> bool {
    |m: MemoryData| m.id == id
}

/// A write that is asked for.
pub struct WriteInput {
    pub user_id: Seq<char>,
    pub content: Seq<char>,
    pub memory_type: MemoryType,
    pub priority: int,
    pub id: Seq<char>,
    pub now: Seq<char>,
}

/// The row of a new memory.
pub open spec fn new_memory(w: WriteInput) -> MemoryData {
    MemoryData {
        id: w.id,
        user_id: text::trim(w.user_id),
        content: text::trim(w.content),
        memory_type: w.memory_type,
        status: "active"@,
        priority: w.priority,
        last_used_at: None,
        use_count: 0,
        retrieved_count: 0,
        injected_count: 0,
        useful: false,
        created_at: w.now,
        updated_at: w.now,
    }
}

pub open spec fn skipped(content: Seq<char>, reason: SkipReason) -> Decision {
    Decision::Skipped { content_preview: text::clipped(content, 20), reason }
}

/// Why a write is refused before any memory is looked at.
pub open spec fn refusal(w: WriteInput) -> Option<SkipReason> {
    let content = text::trim(w.content);
    if content.len() == 0 {
        Some(SkipReason::Empty)
    } else if content.len() > MAX_MEMORY_WRITE_CHARS {
        Some(SkipReason::TooLong)
    } else if memory_noise(content) {
        Some(SkipReason::Noise)
    } else if text::trim(w.user_id).len() == 0 {
        Some(SkipReason::Invalid)
    } else {
        None
    }
}

/// The decision on a write of type `t` where memory `m` has the same normal form.
pub open spec fn against(content: Seq<char>, t: MemoryType, m: MemoryData) -> Decision {
    if types::promotes(t, m.memory_type) {
        Decision::Promoted {
            id: m.id,
            reason: PromoteReason::TypePromotesLower { from: t, to: m.memory_type },
        }
    } else if types::promotes(m.memory_type, t) {
        skipped(content, SkipReason::LowerPriorityWouldDowngradeHigher)
    } else {
        skipped(content, SkipReason::Duplicate)
    }
}

/// The decision on a write. The first memory in the ranking of the user with the same
/// normal form decides whether it is raised or stays; without one the content is new.
pub open spec fn governed(memories: Seq<MemoryData>, w: WriteInput) -> Decision {
    let content = text::trim(w.content);
    match refusal(w) {
        Some(reason) => skipped(content, reason),
        None => {
            let ranked = ranked_memories(memories, w.user_id);
            match rows::first_where(ranked, has_form(normal_form(content))) {
                Some(i) => against(content, w.memory_type, ranked[i]),
                None => if rows::first_where(memories, memory_with_id(w.id)) is Some {
                    skipped(content, SkipReason::StorageError)
                } else {
                    Decision::Written(new_memory(w))
                },
            }
        },
    }
}

/// The memories with that of this id raised to the type and the priority.
pub open spec fn promoted(
    memories: Seq<MemoryData>,
    id: Seq<char>,
    memory_type: MemoryType,
    priority: int,
    now: Seq<char>,
) -> Seq<MemoryData> {
    Seq::new(
        memories.len(),
        |i: int|
            if memories[i].id == id {
                MemoryData { memory_type, priority, updated_at: now, ..memories[i] }
            } else {
                memories[i]
            },
    )
}

/// The memories after a governed write.
pub open spec fn memories_after(memories: Seq<MemoryData>, w: WriteInput) -> Seq<MemoryData> {
    match governed(memories, w) {
        Decision::Written(m) => memories.push(m),
        Decision::Promoted { id, .. } => promoted(memories, id, w.memory_type, w.priority, w.now),
        Decision::Skipped { .. } => memories,
    }
}

pub open spec fn distinct_ids(memories: Seq<MemoryData>) -> bool {
    forall|i: int, j: int|
        0 <= i < j < memories.len() ==> (#[trigger] memories[i]).id != (#[trigger] memories[j]).id
}

proof fn lemma_promoted_member(memories: Seq<MemoryData>, w: WriteInput)
    ensures
        governed(memories, w) matches Decision::Promoted { id, reason } ==> exists|k: int|
            0 <= k < memories.len() && (#[trigger] memories[k]).id == id && active_of(w.user_id)(
                memories[k],
            ) && types::promotes(w.memory_type, memories[k].memory_type) && normal_form(
                memories[k].content,
            ) == normal_form(text::trim(w.content)),
{
    let ranked = ranked_memories(memories, w.user_id);
    let p = has_form(normal_form(text::trim(w.content)));
    rows::lemma_first_where(ranked, p);
    lemma_ranked_members(memories, w.user_id);
    if let Decision::Promoted { id, reason } = governed(memories, w) {
        let i = rows::first_where(ranked, p)->0;
        assert(p(ranked[i]));
        assert(ranked.contains(ranked[i]));
        let k = choose|k: int| 0 <= k < memories.len() && memories[k] == ranked[i];
        assert(memories[k].id == id);
    }
}

/// A governed write never weakens a memory and never touches another user's: every
/// memory keeps its id, its owner, its content and its state, its type is only raised,
/// and that of another user stays as it is.
pub proof fn lemma_govern_only_raises(memories: Seq<MemoryData>, w: WriteInput, i: int)
    requires
        distinct_ids(memories),
        0 <= i < memories.len(),
    ensures
        ({
            let before = memories[i];
            let after = memories_after(memories, w)[i];
            &&& after.id == before.id
            &&& after.user_id == before.user_id
            &&& after.content == before.content
            &&& after.status == before.status
            &&& after.memory_type == before.memory_type || types::promotes(
                after.memory_type,
                before.memory_type,
            )
            &&& before.user_id != w.user_id ==> after == before
        }),
{
    lemma_promoted_member(memories, w);
    if let Decision::Promoted { id, reason } = governed(memories, w) {
        let k = choose|k: int|
            0 <= k < memories.len() && (#[trigger] memories[k]).id == id && active_of(w.user_id)(
                memories[k],
            ) && types::promotes(w.memory_type, memories[k].memory_type) && normal_form(
                memories[k].content,
            ) == normal_form(text::trim(w.content));
        if memories[i].id == id && i != k {
            if i < k {
                assert(memories[i].id != memories[k].id);
            } else {
                assert(memories[k].id != memories[i].id);
            }
        }
    }
}

/// A governed write adds at most one memory and keeps the ids distinct.
pub proof fn lemma_govern_keeps_ids(memories: Seq<MemoryData>, w: WriteInput)
    requires
        distinct_ids(memories),
    ensures
        distinct_ids(memories_after(memories, w)),
        memories.len() <= memories_after(memories, w).len() <= memories.len() + 1,
{
    let after = memories_after(memories, w);
    rows::lemma_first_where(memories, memory_with_id(w.id));
    assert forall|i: int, j: int| 0 <= i < j < after.len() implies (#[trigger] after[i]).id != (
    #[trigger] after[j]).id by {
        if j < memories.len() {
            assert(memories[i].id != memories[j].id);
        } else {
            assert(!memory_with_id(w.id)(memories[i]));
        }
    }
}

/// No two active memories of one user have the same normal form.
pub open spec fn no_duplicates(memories: Seq<MemoryData>) -> bool {
    forall|i: int, j: int|
        0 <= i < j < memories.len() && (#[trigger] memories[i]).user_id == (
        #[trigger] memories[j]).user_id && memories[i].status == "active"@ && memories[j].status
            == "active"@ ==> normal_form(memories[i].content) != normal_form(memories[j].content)
}

/// A governed write for a user id without white space around it makes no duplicate,
/// however many memories the user has.
pub proof fn lemma_govern_makes_no_duplicate(memories: Seq<MemoryData>, w: WriteInput)
    requires
        no_duplicates(memories),
        text::trim(w.user_id) == w.user_id,
    ensures
        no_duplicates(memories_after(memories, w)),
{
    let after = memories_after(memories, w);
    let ranked = ranked_memories(memories, w.user_id);
    let p = has_form(normal_form(text::trim(w.content)));
    rows::lemma_first_where(ranked, p);
    lemma_ranked_members(memories, w.user_id);
    assert forall|i: int, j: int|
        0 <= i < j < after.len() && (#[trigger] after[i]).user_id == (#[trigger] after[j]).user_id
            && after[i].status == "active"@ && after[j].status == "active"@ implies normal_form(
        after[i].content,
    ) != normal_form(after[j].content) by {
        if j < memories.len() {
            assert(memories[i].user_id == memories[j].user_id);
        } else {
            assert(memories.contains(memories[i]));
            assert(active_of(w.user_id)(memories[i]));
            assert(ranked.contains(memories[i]));
            let k = choose|k: int| 0 <= k < ranked.len() && ranked[k] == memories[i];
            assert(!p(ranked[k]));
        }
    }
}

/// Writing the same content again, with the same type and for a user id without white
/// space around it, is skipped as a duplicate.
pub proof fn lemma_govern_twice(memories: Seq<MemoryData>, w: WriteInput, again: WriteInput)
    requires
        governed(memories, w) is Written,
        text::trim(w.user_id) == w.user_id,
        again.user_id == w.user_id,
        again.content == w.content,
        again.memory_type == w.memory_type,
    ensures
        governed(memories_after(memories, w), again) == skipped(
            text::trim(w.content),
            SkipReason::Duplicate,
        ),
{
    let after = memories_after(memories, w);
    let form = normal_form(text::trim(w.content));
    let p = has_form(form);
    let fresh = new_memory(w);
    let ranked = ranked_memories(memories, w.user_id);
    let later = ranked_memories(after, w.user_id);
    rows::lemma_first_where(ranked, p);
    lemma_ranked_members(memories, w.user_id);
    lemma_ranked_members(after, w.user_id);
    rows::lemma_first_where(later, p);
    assert(after[memories.len() as int] == fresh);
    assert(after.contains(fresh));
    assert(active_of(w.user_id)(fresh));
    assert(later.contains(fresh));
    let at = choose|at: int| 0 <= at < later.len() && later[at] == fresh;
    assert(p(later[at]));
    let i = rows::first_where(later, p)->0;
    assert(p(later[i]));
    assert(later.contains(later[i]));
    let k = choose|k: int| 0 <= k < after.len() && after[k] == later[i];
    if k < memories.len() {
        assert(memories[k] == later[i]);
        assert(memories.contains(later[i]));
        assert(ranked.contains(later[i]));
        let q = choose|q: int| 0 <= q < ranked.len() && ranked[q] == later[i];
        assert(!p(ranked[q]));
    }
    assert(later[i] == fresh);
}

// ---------------------------------------------------------------------------
// Feedback
// ---------------------------------------------------------------------------

/// The memory with its feedback counted in.
pub open spec fn fed(m: MemoryData, c: Counts, now: Seq<char>) -> MemoryData {
    MemoryData {
        retrieved_count: m.retrieved_count + c.retrieved,
        injected_count: m.injected_count + c.injected,
        use_count: m.use_count + c.useful,
        useful: m.useful || c.useful > 0,
        last_used_at: if c.useful > 0 {
            Some(now)
        } else {
            m.last_used_at
        },
        ..m
    }
}

/// The counts stay within 64 bits.
pub open spec fn feedback_fits(m: MemoryData, c: Counts) -> bool {
    m.retrieved_count + c.retrieved <= i64::MAX && m.injected_count + c.injected <= i64::MAX
        && m.use_count + c.useful <= i64::MAX
}

pub open spec fn all_fed(
    memories: Seq<MemoryData>,
    feedback: MemoryFeedbackState,
    now: Seq<char>,
) -> Seq<MemoryData> {
    Seq::new(memories.len(), |i: int| fed(memories[i], feedback.counts(memories[i].id), now))
}

pub open spec fn all_fit(memories: Seq<MemoryData>, feedback: MemoryFeedbackState) -> bool {
    forall|i: int|
        0 <= i < memories.len() ==> feedback_fits(
            #[trigger] memories[i],
            feedback.counts(memories[i].id),
        )
}

/// The memories of a user with this id that are active.
pub open spec fn owned_active(user_id: Seq<char>, id: Seq<char>) -> spec_fn(MemoryData) -> bool {
    |m: MemoryData| m.id == id && m.user_id == user_id && m.status == "active"@
}

pub open spec fn suppressed(memories: Seq<MemoryData>, user_id: Seq<char>, id: Seq<char>) -> Seq<
    MemoryData,
> {
    Seq::new(
        memories.len(),
        |i: int|
            if owned_active(user_id, id)(memories[i]) {
                MemoryData { status: "suppressed"@, ..memories[i] }
            } else {
                memories[i]
            },
    )
}

/// A suppressed memory is no longer shown to its user.
pub proof fn lemma_suppressed_is_hidden(memories: Seq<MemoryData>, user_id: Seq<char>, id: Seq<char>)
    ensures
        forall|m: MemoryData|
            #[trigger] ranked_memories(suppressed(memories, user_id, id), user_id).contains(m)
                ==> m.id != id,
{
    reveal_strlit("active");
    reveal_strlit("suppressed");
    assert("active"@.len() != "suppressed"@.len());
    let after = suppressed(memories, user_id, id);
    lemma_ranked_members(after, user_id);
    assert forall|m: MemoryData| #[trigger] ranked_memories(after, user_id).contains(
        m,
    ) implies m.id != id by {
        assert(after.contains(m) && active_of(user_id)(m));
        let k = choose|k: int| 0 <= k < after.len() && after[k] == m;
        if m.id == id {
            assert(after[k] == m);
        }
    }
}

fn feedback_of(feedback: &MemoryFeedbackState, id: &str) -> (r: (usize, usize, usize))
    ensures
        r.0 == feedback.counts(id@).retrieved,
        r.1 == feedback.counts(id@).injected,
        r.2 == feedback.counts(id@).useful,
{
    (feedback.retrieved_count(id), feedback.injected_count(id), feedback.useful_count(id))
}

proof fn lemma_memory_data_set(rows: Seq<UserMemoryRecord>, i: int, row: UserMemoryRecord)
    requires
        0 <= i < rows.len(),
    ensures
        store::memory_data(rows.update(i, row)) == store::memory_data(rows).update(i, row@),
{
    assert(store::memory_data(rows.update(i, row)) =~= store::memory_data(rows).update(i, row@));
}

/// The rows of records at these positions.
pub open spec fn memories_at(memories: Seq<MemoryData>, at: Seq<usize>) -> Seq<MemoryData> {
    Seq::new(at.len(), |i: int| memories[at[i] as int])
}

fn key_of(m: &UserMemoryRecord) -> (r: Vec<KeyPart>)
    ensures
        ordering::key_view(r@) == memory_key(m@),
{
    let mut key: Vec<KeyPart> = Vec::new();
    key.push(KeyPart::NumDown(m.priority));
    key.push(KeyPart::NumDown(if m.useful { 1 } else { 0 }));
    key.push(KeyPart::NumDown(m.use_count));
    key.push(
        KeyPart::TextDown(
            match &m.last_used_at {
                Some(t) => t.clone(),
                None => m.updated_at.clone(),
            },
        ),
    );
    key.push(KeyPart::Text(m.id.clone()));
    proof {
        assert(ordering::key_view(key@) =~= memory_key(m@));
    }
    key
}

/// The normal form from the lower-case content.
pub fn space_words(lowered: &str) -> (r: String)
    ensures
        r@ == spaced(lowered@),
{
    let list = split_words(lowered);
    join_strings(list.as_slice(), " ")
}

fn form_of(content: &str) -> (r: String)
    ensures
        r@ == normal_form(content@),
{
    let lowered = to_lowercase(content);
    space_words(lowered.as_str())
}

/// Decides on a write where a memory of type `existing` has the same normal form.
pub fn decide_against(content: &str, new_type: MemoryType, id: &str, existing: MemoryType) -> (r:
    WriteDecision)
    ensures
        forall|m: MemoryData| m.id == id@ && m.memory_type == existing ==> r@ == #[trigger] against(content@, new_type, m),
{
    if new_type.can_promote(&existing) {
        WriteDecision::Promoted {
            id: owned(id),
            reason: PromoteReason::TypePromotesLower { from: new_type, to: existing },
        }
    } else if existing.can_promote(&new_type) {
        WriteDecision::Skipped {
            content_preview: clip(content, 20),
            reason: SkipReason::LowerPriorityWouldDowngradeHigher,
        }
    } else {
        WriteDecision::Skipped { content_preview: clip(content, 20), reason: SkipReason::Duplicate }
    }
}

fn check_write(user_id: &str, content: &str) -> (r: Option<SkipReason>)
    requires
        text::trim(content@) == content@,
    ensures
        forall|w: WriteInput| w.user_id == user_id@ && text::trim(w.content) == content@ ==> r == #[trigger] refusal(w),
{
    if content.is_empty() {
        return Some(SkipReason::Empty);
    }
    if char_count(content) > MAX_MEMORY_WRITE_CHARS {
        return Some(SkipReason::TooLong);
    }
    if is_memory_noise(content) {
        return Some(SkipReason::Noise);
    }
    let user = trimmed(user_id);
    if user.as_str().is_empty() {
        return Some(SkipReason::Invalid);
    }
    None
}

impl TaskStore {
    fn memory_position(&self, id: &str) -> (r: Option<usize>)
        ensures
            match r {
                Some(i) => i < self.memories@.len() && rows::first_where(
                    self@.memories,
                    memory_with_id(id@),
                ) == Some(i as int),
                None => rows::first_where(self@.memories, memory_with_id(id@)) is None,
            },
    {
        let ghost p = memory_with_id(id@);
        let mut i: usize = 0;
        while i < self.memories.len()
            invariant
                i <= self.memories.len(),
                p == memory_with_id(id@),
                forall|k: int| 0 <= k < i ==> !p(#[trigger] self@.memories[k]),
            decreases self.memories.len() - i,
        {
            if same(self.memories[i].id.as_str(), id) {
                proof {
                    rows::lemma_first_is(self@.memories, p, i as int);
                }
                return Some(i);
            }
            i = i + 1;
        }
        proof {
            rows::lemma_first_none(self@.memories, p);
        }
        None
    }

    /// The positions of a user's active memories, in order.
    fn ranked_positions(&self, user_id: &str) -> (r: Vec<usize>)
        ensures
            forall|i: int| 0 <= i < r@.len() ==> (#[trigger] r@[i]) < self.memories@.len(),
            memories_at(self@.memories, r@) == ranked_memories(self@.memories, user_id@),
    {
        let ghost p = active_of(user_id@);
        let mut picks: Vec<usize> = Vec::new();
        let mut keys: Vec<Vec<KeyPart>> = Vec::new();
        let mut i: usize = 0;
        proof {
            reveal(Seq::filter);
            assert(memories_at(self@.memories, picks@) =~= self@.memories.take(0).filter(p));
        }
        while i < self.memories.len()
            invariant
                i <= self.memories.len(),
                p == active_of(user_id@),
                forall|k: int| 0 <= k < picks@.len() ==> (#[trigger] picks@[k]) < i,
                memories_at(self@.memories, picks@) == self@.memories.take(i as int).filter(p),
                keys@.len() == picks@.len(),
                forall|k: int|
                    0 <= k < keys@.len() ==> ordering::key_view((#[trigger] keys@[k])@) == memory_key(
                        self@.memories[picks@[k] as int],
                    ),
            decreases self.memories.len() - i,
        {
            let ghost before = picks@;
            proof {
                reveal(Seq::filter);
                assert(self@.memories.take(i + 1).drop_last() =~= self@.memories.take(i as int));
                assert(self@.memories.take(i + 1).last() == self.memories@[i as int]@);
            }
            if same(self.memories[i].user_id.as_str(), user_id) && same(
                self.memories[i].status.as_str(),
                "active",
            ) {
                let key = key_of(&self.memories[i]);
                keys.push(key);
                picks.push(i);
                proof {
                    assert(memories_at(self@.memories, picks@) =~= memories_at(
                        self@.memories,
                        before,
                    ).push(self@.memories[i as int]));
                }
            }
            i = i + 1;
        }
        proof {
            assert(self@.memories.take(i as int) =~= self@.memories);
        }
        let ghost rows = self@.memories.filter(p);
        let order = sort_rows(&keys);
        proof {
            assert(ordering::keys_view(keys@) =~= memory_keys(rows)) by {
                assert forall|k: int| 0 <= k < rows.len() implies ordering::keys_view(keys@)[k]
                    == #[trigger] memory_keys(rows)[k] by {
                    assert(rows[k] == self@.memories[picks@[k] as int]);
                }
            }
        }
        let mut out: Vec<usize> = Vec::new();
        let mut k: usize = 0;
        while k < order.len()
            invariant
                k <= order.len(),
                order@.len() == picks@.len(),
                forall|i: int| 0 <= i < order@.len() ==> (#[trigger] order@[i]) < picks@.len(),
                forall|i: int| 0 <= i < picks@.len() ==> (#[trigger] picks@[i]) < self.memories@.len(),
                out@.len() == k,
                forall|i: int| 0 <= i < k ==> #[trigger] out@[i] == picks@[order@[i] as int],
            decreases order.len() - k,
        {
            out.push(picks[order[k]]);
            k = k + 1;
        }
        proof {
            let ranked = ranked_memories(self@.memories, user_id@);
            assert(memories_at(self@.memories, out@) =~= ranked) by {
                assert forall|i: int| 0 <= i < ranked.len() implies memories_at(
                    self@.memories,
                    out@,
                )[i] == #[trigger] ranked[i] by {
                    assert(ordering::indices(order@)[i] == order@[i]);
                    assert(out@[i] == picks@[order@[i] as int]);
                    assert(rows[order@[i] as int] == self@.memories[picks@[order@[i] as int] as int]);
                }
            }
        }
        out
    }

    /// The active memories of a user in order, at most `limit` of them.
    pub fn search_user_memories(&self, user_id: &str, limit: usize) -> (r: Result<
        Vec<UserMemoryRecord>,
        TaskStoreError,
    >)
        ensures
            match r {
                Ok(v) => limit <= i64::MAX && store::memory_data(v@) == first_rows(
                    ranked_memories(self@.memories, user_id@),
                    limit as int,
                ),
                Err(TaskStoreError::Validation(e)) => limit > i64::MAX && e@
                    == "memory limit 超出范围"@,
                Err(_) => false,
            },
    {
        if limit as u128 > i64::MAX as u128 {
            return Err(TaskStoreError::Validation("memory limit 超出范围".to_string()));
        }
        let at = self.ranked_positions(user_id);
        let n: usize = if limit < at.len() {
            limit
        } else {
            at.len()
        };
        let mut out: Vec<UserMemoryRecord> = Vec::new();
        let mut i: usize = 0;
        while i < n
            invariant
                i <= n <= at.len(),
                forall|k: int| 0 <= k < at@.len() ==> (#[trigger] at@[k]) < self.memories@.len(),
                out@.len() == i,
                forall|k: int|
                    0 <= k < i ==> (#[trigger] out@[k])@ == memories_at(self@.memories, at@)[k],
            decreases n - i,
        {
            out.push(self.memories[at[i]].copy());
            i = i + 1;
        }
        proof {
            assert(store::memory_data(out@) =~= first_rows(
                ranked_memories(self@.memories, user_id@),
                limit as int,
            ));
        }
        Ok(out)
    }

    /// The active memories of a user in order, at most `limit` of them.
    pub fn list_user_memories(&self, user_id: &str, limit: usize) -> (r: Result<
        Vec<UserMemoryRecord>,
        TaskStoreError,
    >)
        ensures
            match r {
                Ok(v) => limit <= i64::MAX && store::memory_data(v@) == first_rows(
                    ranked_memories(self@.memories, user_id@),
                    limit as int,
                ),
                Err(TaskStoreError::Validation(e)) => limit > i64::MAX && e@
                    == "memory limit 超出范围"@,
                Err(_) => false,
            },
    {
        self.search_user_memories(user_id, limit)
    }

    /// Whether the user has an active memory with exactly this content.
    pub fn has_user_memory(&self, user_id: &str, content: &str) -> (r: bool)
        ensures
            r == exists|i: int|
                0 <= i < self@.memories.len() && active_of(user_id@)(#[trigger] self@.memories[i])
                    && self@.memories[i].content == content@,
    {
        let mut i: usize = 0;
        while i < self.memories.len()
            invariant
                i <= self.memories.len(),
                forall|k: int|
                    0 <= k < i ==> !(active_of(user_id@)(#[trigger] self@.memories[k])
                        && self@.memories[k].content == content@),
            decreases self.memories.len() - i,
        {
            if same(self.memories[i].user_id.as_str(), user_id) && same(
                self.memories[i].status.as_str(),
                "active",
            ) && same(self.memories[i].content.as_str(), content) {
                proof {
                    assert(active_of(user_id@)(self@.memories[i as int]));
                }
                return true;
            }
            i = i + 1;
        }
        false
    }

    /// Writes a memory that the user asked for.
    pub fn add_user_memory(&mut self, user_id: &str, content: &str, id: &str, now: &str) -> (r:
        Result<UserMemoryRecord, TaskStoreError>)
        ensures
            memory_added(
                old(self)@,
                final(self)@,
                WriteInput {
                    user_id: user_id@,
                    content: content@,
                    memory_type: MemoryType::Explicit,
                    priority: 100,
                    id: id@,
                    now: now@,
                },
                r,
            ),
    {
        self.add_user_memory_typed(user_id, content, MemoryType::Explicit, 100, id, now)
    }

    /// Writes a memory with its type and priority.
    pub fn add_user_memory_typed(
        &mut self,
        user_id: &str,
        content: &str,
        memory_type: MemoryType,
        priority: i64,
        id: &str,
        now: &str,
    ) -> (r: Result<UserMemoryRecord, TaskStoreError>)
        ensures
            memory_added(
                old(self)@,
                final(self)@,
                WriteInput {
                    user_id: user_id@,
                    content: content@,
                    memory_type,
                    priority: priority as int,
                    id: id@,
                    now: now@,
                },
                r,
            ),
    {
        let user = trimmed(user_id);
        let text = trimmed(content);
        if user.as_str().is_empty() || text.as_str().is_empty() {
            return Err(TaskStoreError::Validation("user_id/content 不能为空".to_string()));
        }
        if self.memory_position(id).is_some() {
            return Err(TaskStoreError::Validation("写入 user_memory 失败".to_string()));
        }
        let row = UserMemoryRecord {
            id: owned(id),
            user_id: user,
            content: text,
            memory_type,
            status: "active".to_string(),
            priority,
            last_used_at: None,
            use_count: 0,
            retrieved_count: 0,
            injected_count: 0,
            useful: false,
            created_at: owned(now),
            updated_at: owned(now),
        };
        let record = row.copy();
        let ghost before = self.memories@;
        self.memories.push(row);
        proof {
            assert(store::memory_data(self.memories@) =~= store::memory_data(before).push(row@));
        }
        Ok(record)
    }

    fn promote_memory(&mut self, memory_id: &str, target_type: MemoryType, priority: i64, now: &str)
        ensures
            final(self)@ == (StoreData {
                memories: promoted(
                    old(self)@.memories,
                    memory_id@,
                    target_type,
                    priority as int,
                    now@,
                ),
                ..old(self)@
            }),
    {
        let ghost s = self@;
        let ghost goal = promoted(s.memories, memory_id@, target_type, priority as int, now@);
        let mut i: usize = 0;
        while i < self.memories.len()
            invariant
                i <= self.memories.len(),
                self@ == (StoreData { memories: self@.memories, ..s }),
                self.memories@.len() == s.memories.len(),
                goal == promoted(s.memories, memory_id@, target_type, priority as int, now@),
                forall|k: int|
                    0 <= k < s.memories.len() ==> #[trigger] self@.memories[k] == (if k < i {
                        goal[k]
                    } else {
                        s.memories[k]
                    }),
            decreases self.memories.len() - i,
        {
            proof {
                assert(self@.memories[i as int] == self.memories@[i as int]@);
            }
            if same(self.memories[i].id.as_str(), memory_id) {
                let mut row = self.memories[i].copy();
                row.memory_type = target_type;
                row.priority = priority;
                row.updated_at = owned(now);
                let ghost before = self.memories@;
                self.memories.set(i, row);
                proof {
                    lemma_memory_data_set(before, i as int, row);
                }
            }
            i = i + 1;
        }
        proof {
            assert(self@.memories =~= goal);
        }
    }

    /// The one entry for writes: validate, look for duplicates, then raise, skip or write.
    ///
    /// A stronger type takes over an equal memory of a weaker type, a weaker type never
    /// takes over a stronger one, and an equal memory of the same type is a duplicate.
    pub fn govern_memory_write(
        &mut self,
        user_id: &str,
        content: &str,
        memory_type: MemoryType,
        priority: i64,
        write_state: &mut MemoryWriteState,
        id: &str,
        now: &str,
    ) -> (r: WriteDecision)
        requires
            old(write_state).candidate_count < usize::MAX,
        ensures
            ({
                let w = WriteInput {
                    user_id: user_id@,
                    content: content@,
                    memory_type,
                    priority: priority as int,
                    id: id@,
                    now: now@,
                };
                let d = governed(old(self)@.memories, w);
                &&& r@ == d
                &&& final(self)@ == (StoreData {
                    memories: memories_after(old(self)@.memories, w),
                    ..old(self)@
                })
                &&& final(write_state)@ == write_recorded(old(write_state)@, d)
                &&& types::balanced(old(write_state)@) ==> types::balanced(final(write_state)@)
            }),
    {
        let ghost w = WriteInput {
            user_id: user_id@,
            content: content@,
            memory_type,
            priority: priority as int,
            id: id@,
            now: now@,
        };
        write_state.candidate_count = write_state.candidate_count + 1;
        let decision = self.decide_write(user_id, content, memory_type, priority, id, now);
        write_state.record(&decision);
        decision
    }

    fn decide_write(
        &mut self,
        user_id: &str,
        content: &str,
        memory_type: MemoryType,
        priority: i64,
        id: &str,
        now: &str,
    ) -> (r: WriteDecision)
        ensures
            ({
                let w = WriteInput {
                    user_id: user_id@,
                    content: content@,
                    memory_type,
                    priority: priority as int,
                    id: id@,
                    now: now@,
                };
                &&& r@ == governed(old(self)@.memories, w)
                &&& final(self)@ == (StoreData {
                    memories: memories_after(old(self)@.memories, w),
                    ..old(self)@
                })
            }),
    {
        let ghost w = WriteInput {
            user_id: user_id@,
            content: content@,
            memory_type,
            priority: priority as int,
            id: id@,
            now: now@,
        };
        let ghost s = self@;
        let core = trimmed(content);
        let text = core.as_str();
        proof {
            text::lemma_trim_idempotent(content@);
            assert(refusal(w) == refusal(w));
        }
        if let Some(reason) = check_write(user_id, text) {
            return WriteDecision::Skipped { content_preview: clip(text, 20), reason };
        }
        let form = form_of(text);
        let at = self.ranked_positions(user_id);
        let ghost ranked = ranked_memories(s.memories, user_id@);
        let ghost p = has_form(form@);
        let mut i: usize = 0;
        while i < at.len()
            invariant
                i <= at.len(),
                self@ == s,
                s == old(self)@,
                p == has_form(form@),
                ranked == memories_at(s.memories, at@),
                forall|k: int| 0 <= k < at@.len() ==> (#[trigger] at@[k]) < self.memories@.len(),
                forall|k: int| 0 <= k < i ==> !p(#[trigger] ranked[k]),
                ranked == ranked_memories(s.memories, user_id@),
                refusal(w) is None,
                form@ == normal_form(text::trim(w.content)),
                text@ == text::trim(w.content),
                w == (WriteInput {
                    user_id: user_id@,
                    content: content@,
                    memory_type,
                    priority: priority as int,
                    id: id@,
                    now: now@,
                }),
            decreases at.len() - i,
        {
            let m = &self.memories[at[i]];
            let other = form_of(m.content.as_str());
            proof {
                assert(ranked[i as int] == self.memories@[at@[i as int] as int]@);
            }
            if same(other.as_str(), form.as_str()) {
                proof {
                    rows::lemma_first_is(ranked, p, i as int);
                }
                let found_id = m.id.clone();
                let decision = decide_against(
                    text,
                    memory_type,
                    found_id.as_str(),
                    m.memory_type,
                );
                proof {
                    assert(decision@ == against(text@, memory_type, ranked[i as int]));
                }
                if memory_type.can_promote(&m.memory_type) {
                    self.promote_memory(found_id.as_str(), memory_type, priority, now);
                }
                return decision;
            }
            i = i + 1;
        }
        proof {
            rows::lemma_first_none(ranked, p);
        }
        match self.add_user_memory_typed(user_id, text, memory_type, priority, id, now) {
            Ok(record) => WriteDecision::Written(Box::new(record)),
            Err(_) => WriteDecision::Skipped {
                content_preview: clip(text, 20),
                reason: SkipReason::StorageError,
            },
        }
    }

    /// Counts the feedback of a run in. Nothing changes where a count would not fit.
    pub fn apply_memory_feedback(&mut self, feedback: &MemoryFeedbackState, now: &str) -> (r: Result<
        (),
        TaskStoreError,
    >)
        ensures
            match r {
                Ok(_) => all_fit(old(self)@.memories, *feedback) && final(self)@ == (StoreData {
                    memories: all_fed(old(self)@.memories, *feedback, now@),
                    ..old(self)@
                }),
                Err(TaskStoreError::Validation(e)) => !all_fit(old(self)@.memories, *feedback)
                    && final(self)@ == old(self)@ && e@ == "更新 useful/use_count 失败"@,
                Err(_) => false,
            },
    {
        let ghost s = self@;
        let mut i: usize = 0;
        while i < self.memories.len()
            invariant
                i <= self.memories.len(),
                self@ == s,
                forall|k: int|
                    0 <= k < i ==> feedback_fits(
                        #[trigger] s.memories[k],
                        feedback.counts(s.memories[k].id),
                    ),
            decreases self.memories.len() - i,
        {
            let m = &self.memories[i];
            let c = feedback_of(feedback, m.id.as_str());
            proof {
                assert(s.memories[i as int] == m@);
            }
            if m.retrieved_count as i128 + c.0 as i128 > i64::MAX as i128 || m.injected_count as i128
                + c.1 as i128 > i64::MAX as i128 || m.use_count as i128 + c.2 as i128
                > i64::MAX as i128 {
                proof {
                    assert(!feedback_fits(
                        s.memories[i as int],
                        feedback.counts(s.memories[i as int].id),
                    ));
                }
                return Err(
                    TaskStoreError::Validation("更新 useful/use_count 失败".to_string()),
                );
            }
            i = i + 1;
        }
        let ghost goal = all_fed(s.memories, *feedback, now@);
        let mut k: usize = 0;
        while k < self.memories.len()
            invariant
                k <= self.memories.len(),
                self@ == (StoreData { memories: self@.memories, ..s }),
                self.memories@.len() == s.memories.len(),
                goal == all_fed(s.memories, *feedback, now@),
                all_fit(s.memories, *feedback),
                forall|j: int|
                    0 <= j < s.memories.len() ==> #[trigger] self@.memories[j] == (if j < k {
                        goal[j]
                    } else {
                        s.memories[j]
                    }),
            decreases self.memories.len() - k,
        {
            proof {
                assert(self@.memories[k as int] == self.memories@[k as int]@);
                assert(feedback_fits(
                    s.memories[k as int],
                    feedback.counts(s.memories[k as int].id),
                ));
            }
            let mut row = self.memories[k].copy();
            let c = feedback_of(feedback, row.id.as_str());
            row.retrieved_count = (row.retrieved_count as i128 + c.0 as i128) as i64;
            row.injected_count = (row.injected_count as i128 + c.1 as i128) as i64;
            row.use_count = (row.use_count as i128 + c.2 as i128) as i64;
            if c.2 > 0 {
                row.useful = true;
                row.last_used_at = Some(owned(now));
            }
            let ghost before = self.memories@;
            self.memories.set(k, row);
            proof {
                lemma_memory_data_set(before, k as int, row);
                assert(row@ == goal[k as int]);
            }
            k = k + 1;
        }
        proof {
            assert(self@.memories =~= goal);
        }
        Ok(())
    }

    fn owns_active(&self, user_id: &str, memory_id: &str) -> (r: bool)
        ensures
            r == exists|i: int|
                0 <= i < self@.memories.len() && owned_active(user_id@, memory_id@)(
                    #[trigger] self@.memories[i],
                ),
    {
        let mut i: usize = 0;
        while i < self.memories.len()
            invariant
                i <= self.memories.len(),
                forall|k: int|
                    0 <= k < i ==> !owned_active(user_id@, memory_id@)(
                        #[trigger] self@.memories[k],
                    ),
            decreases self.memories.len() - i,
        {
            if same(self.memories[i].id.as_str(), memory_id) && same(
                self.memories[i].user_id.as_str(),
                user_id,
            ) && same(self.memories[i].status.as_str(), "active") {
                proof {
                    assert(owned_active(user_id@, memory_id@)(self@.memories[i as int]));
                }
                return true;
            }
            i = i + 1;
        }
        false
    }

    /// Counts a confirmation by the user that owns the active memory.
    pub fn confirm_memory_useful(&mut self, user_id: &str, memory_id: &str, now: &str) -> (r: Result<
        (),
        TaskStoreError,
    >)
        ensures
            ({
                let owns = exists|i: int|
                    0 <= i < old(self)@.memories.len() && owned_active(user_id@, memory_id@)(
                        #[trigger] old(self)@.memories[i],
                    );
                let fits = forall|i: int|
                    0 <= i < old(self)@.memories.len() ==> feedback_fits(
                        #[trigger] old(self)@.memories[i],
                        useful_once(old(self)@.memories[i].id, memory_id@),
                    );
                match r {
                    Ok(_) => owns && fits && final(self)@ == (StoreData {
                        memories: Seq::new(
                            old(self)@.memories.len(),
                            |i: int|
                                fed(
                                    old(self)@.memories[i],
                                    useful_once(old(self)@.memories[i].id, memory_id@),
                                    now@,
                                ),
                        ),
                        ..old(self)@
                    }),
                    Err(TaskStoreError::Validation(e)) => final(self)@ == old(self)@ && (if owns {
                        !fits && e@ == "更新 useful/use_count 失败"@
                    } else {
                        e@ == "未找到该记忆，或无权标记有用: "@ + memory_id@
                    }),
                    Err(_) => false,
                }
            }),
    {
        let ghost s = self@;
        if !self.owns_active(user_id, memory_id) {
            let mut message = "未找到该记忆，或无权标记有用: ".to_string();
            message.append(memory_id);
            return Err(TaskStoreError::Validation(message));
        }
        let mut feedback = MemoryFeedbackState::default();
        feedback.record(memory_id, FeedbackKind::Useful);
        proof {
            assert forall|i: int| 0 <= i < s.memories.len() implies feedback.counts(
                #[trigger] s.memories[i].id,
            ) == useful_once(s.memories[i].id, memory_id@) by {}
            if all_fit(s.memories, feedback) {
                assert forall|i: int| 0 <= i < s.memories.len() implies feedback_fits(
                    #[trigger] s.memories[i],
                    useful_once(s.memories[i].id, memory_id@),
                ) by {
                    assert(feedback_fits(s.memories[i], feedback.counts(s.memories[i].id)));
                }
            } else {
                let k = choose|k: int|
                    0 <= k < s.memories.len() && !feedback_fits(
                        #[trigger] s.memories[k],
                        feedback.counts(s.memories[k].id),
                    );
                assert(!feedback_fits(
                    s.memories[k],
                    useful_once(s.memories[k].id, memory_id@),
                ));
            }
            assert(all_fed(s.memories, feedback, now@) =~= Seq::new(
                s.memories.len(),
                |i: int|
                    fed(s.memories[i], useful_once(s.memories[i].id, memory_id@), now@),
            ));
        }
        self.apply_memory_feedback(&feedback, now)
    }

    /// Hides an active memory of the user.
    pub fn suppress_memory(&mut self, user_id: &str, memory_id: &str) -> (r: Result<
        (),
        TaskStoreError,
    >)
        ensures
            ({
                let owns = exists|i: int|
                    0 <= i < old(self)@.memories.len() && owned_active(user_id@, memory_id@)(
                        #[trigger] old(self)@.memories[i],
                    );
                match r {
                    Ok(_) => owns && final(self)@ == (StoreData {
                        memories: suppressed(old(self)@.memories, user_id@, memory_id@),
                        ..old(self)@
                    }),
                    Err(TaskStoreError::Validation(e)) => !owns && final(self)@ == old(self)@ && e@
                        == "未找到该记忆，或无权屏蔽: "@ + memory_id@,
                    Err(_) => false,
                }
            }),
    {
        let ghost s = self@;
        if !self.owns_active(user_id, memory_id) {
            let mut message = "未找到该记忆，或无权屏蔽: ".to_string();
            message.append(memory_id);
            return Err(TaskStoreError::Validation(message));
        }
        let ghost goal = suppressed(s.memories, user_id@, memory_id@);
        let mut i: usize = 0;
        while i < self.memories.len()
            invariant
                i <= self.memories.len(),
                self@ == (StoreData { memories: self@.memories, ..s }),
                self.memories@.len() == s.memories.len(),
                goal == suppressed(s.memories, user_id@, memory_id@),
                forall|k: int|
                    0 <= k < s.memories.len() ==> #[trigger] self@.memories[k] == (if k < i {
                        goal[k]
                    } else {
                        s.memories[k]
                    }),
            decreases self.memories.len() - i,
        {
            proof {
                assert(self@.memories[i as int] == self.memories@[i as int]@);
            }
            if same(self.memories[i].id.as_str(), memory_id) && same(
                self.memories[i].user_id.as_str(),
                user_id,
            ) && same(self.memories[i].status.as_str(), "active") {
                let mut row = self.memories[i].copy();
                row.status = "suppressed".to_string();
                let ghost before = self.memories@;
                self.memories.set(i, row);
                proof {
                    lemma_memory_data_set(before, i as int, row);
                }
            }
            i = i + 1;
        }
        proof {
            assert(self@.memories =~= goal);
        }
        Ok(())
    }
}

/// One confirmation for the memory `confirmed`, as counts of the memory `id`.
pub open spec fn useful_once(id: Seq<char>, confirmed: Seq<char>) -> Counts {
    if id == confirmed {
        Counts { retrieved: 0, injected: 0, useful: 1 }
    } else {
        types::no_counts()
    }
}

/// The outcome of writing a memory without governance.
pub open spec fn memory_added(
    before: StoreData,
    after: StoreData,
    w: WriteInput,
    r: Result<UserMemoryRecord, TaskStoreError>,
) -> bool {
    let blank = text::trim(w.user_id).len() == 0 || text::trim(w.content).len() == 0;
    let taken = rows::first_where(before.memories, memory_with_id(w.id)) is Some;
    match r {
        Ok(m) => !blank && !taken && m@ == new_memory(w) && after == (StoreData {
            memories: before.memories.push(new_memory(w)),
            ..before
        }),
        Err(TaskStoreError::Validation(e)) => after == before && (if blank {
            e@ == "user_id/content 不能为空"@
        } else {
            taken && e@ == "写入 user_memory 失败"@
        }),
        Err(_) => false,
    }
}

/// The record of a write after one more candidate was decided on.
pub open spec fn write_recorded(s: WriteStateData, d: Decision) -> WriteStateData {
    types::with_decision(WriteStateData { candidate_count: s.candidate_count + 1, ..s }, d)
}

/// Every candidate ends in one of the three lists: one of them gets the decision at its end,
/// and what was recorded before stays.
pub proof fn lemma_each_candidate_is_recorded(s: WriteStateData, d: Decision)
    requires
        types::balanced(s),
    ensures
        ({
            let t = write_recorded(s, d);
            &&& types::balanced(t)
            &&& t.candidate_count == s.candidate_count + 1
            &&& match d {
                Decision::Written(m) => t.written == s.written.push(m) && t.skipped == s.skipped
                    && t.promoted == s.promoted,
                Decision::Skipped { content_preview, reason } => t.skipped == s.skipped.push(
                    (content_preview, reason),
                ) && t.written == s.written && t.promoted == s.promoted,
                Decision::Promoted { id, reason } => t.promoted == s.promoted.push((id, reason))
                    && t.written == s.written && t.skipped == s.skipped,
            }
        }),
{
}

// ---------------------------------------------------------------------------
// Laws
// ---------------------------------------------------------------------------

/// When a memory was last used, or else last changed.
pub open spec fn last_seen(m: MemoryData) -> Seq<char> {
    match m.last_used_at {
        Some(t) => t,
        None => m.updated_at,
    }
}

/// In the ranking a useful memory comes before another one of the same priority; of those
/// that are alike in both, the one that was used more often, and then the one that was used
/// last.
pub proof fn lemma_ranking_of_equals(
    memories: Seq<MemoryData>,
    user_id: Seq<char>,
    i: int,
    j: int,
)
    requires
        0 <= i < j < ranked_memories(memories, user_id).len(),
    ensures
        ({
            let a = ranked_memories(memories, user_id)[i];
            let b = ranked_memories(memories, user_id)[j];
            &&& a.priority >= b.priority
            &&& a.priority == b.priority && b.useful ==> a.useful
            &&& a.priority == b.priority && a.useful == b.useful ==> a.use_count >= b.use_count
            &&& a.priority == b.priority && a.useful == b.useful && a.use_count == b.use_count
                ==> !text::text_before(last_seen(a), last_seen(b))
            &&& a.priority == b.priority && a.useful == b.useful && a.use_count == b.use_count
                && last_seen(a) == last_seen(b) ==> !text::text_before(b.id, a.id)
        }),
{
    let a = ranked_memories(memories, user_id)[i];
    let b = ranked_memories(memories, user_id)[j];
    lemma_ranked_order(memories, user_id, i, j);
    let x = memory_key(b);
    let y = memory_key(a);
    assert(ordering::same_shape(x, y));
    assert(!ordering::key_before(x, y));
    assert(x.len() == 5 && y.len() == 5);
    assert(x[0] == Part::NumDown(b.priority) && y[0] == Part::NumDown(a.priority));
    assert(x[1] == Part::NumDown(if b.useful { 1 } else { 0 }));
    assert(y[1] == Part::NumDown(if a.useful { 1 } else { 0 }));
    assert(x[2] == Part::NumDown(b.use_count) && y[2] == Part::NumDown(a.use_count));
    assert(x[3] == Part::TextDown(last_seen(b)) && y[3] == Part::TextDown(last_seen(a)));
    assert(x[4] == Part::Text(b.id) && y[4] == Part::Text(a.id));
    if a.priority == b.priority {
        if b.useful && !a.useful {
            ordering::lemma_first_difference(x, y, 1);
        }
        if a.useful == b.useful {
            if a.use_count < b.use_count {
                ordering::lemma_first_difference(x, y, 2);
            }
            if a.use_count == b.use_count {
                if text::text_before(last_seen(a), last_seen(b)) {
                    ordering::lemma_first_difference(x, y, 3);
                }
                if last_seen(a) == last_seen(b) && text::text_before(b.id, a.id) {
                    ordering::lemma_first_difference(x, y, 4);
                }
            }
        }
    }
}

/// Only active memories of the user are ranked.
pub proof fn lemma_ranking_is_of_the_user(memories: Seq<MemoryData>, user_id: Seq<char>, i: int)
    requires
        0 <= i < ranked_memories(memories, user_id).len(),
    ensures
        ranked_memories(memories, user_id)[i].user_id == user_id,
        ranked_memories(memories, user_id)[i].status == "active"@,
        memories.contains(ranked_memories(memories, user_id)[i]),
{
    let p = active_of(user_id);
    let rows = memories.filter(p);
    lemma_memory_keys_uniform(rows);
    ordering::lemma_sort_order(memory_keys(rows));
    let k = ordering::sort_order(memory_keys(rows))[i];
    memories.lemma_filter_pred(p, k);
    rows::lemma_filter_members(memories, p);
    assert(rows.contains(rows[k]));
}

/// Feedback adds up: two rounds of it count as much as one with the sums, and what is not a
/// count or the last use stays as it is.
pub proof fn lemma_feedback_adds_up(m: MemoryData, c: Counts, d: Counts, now: Seq<char>)
    ensures
        ({
            let twice = fed(fed(m, c, now), d, now);
            &&& twice.retrieved_count == m.retrieved_count + c.retrieved + d.retrieved
            &&& twice.injected_count == m.injected_count + c.injected + d.injected
            &&& twice.use_count == m.use_count + c.useful + d.useful
            &&& twice.useful == (m.useful || c.useful > 0 || d.useful > 0)
            &&& twice.last_used_at == (if c.useful > 0 || d.useful > 0 {
                Some(now)
            } else {
                m.last_used_at
            })
            &&& twice.id == m.id && twice.user_id == m.user_id && twice.content == m.content
            &&& twice.memory_type == m.memory_type && twice.status == m.status
            &&& twice.priority == m.priority
            &&& twice.created_at == m.created_at && twice.updated_at == m.updated_at
        }),
{
}

/// A write is refused where its content is empty, too long or noise, or where the user has
/// no name, and in no other case.
pub proof fn lemma_refused_writes(w: WriteInput)
    ensures
        ({
            let n = text::trim(w.content).len();
            &&& n == 0 ==> refusal(w) == Some(SkipReason::Empty)
            &&& n > 500 ==> refusal(w) == Some(SkipReason::TooLong)
            &&& 0 < n < 3 ==> refusal(w) == Some(SkipReason::Noise)
            &&& 3 <= n <= 500 && refusal(w) == Some(SkipReason::Noise) ==> stock_phrase(
                text::lowercase(text::trim(w.content)),
            )
            &&& 3 <= n <= 500 && !stock_phrase(text::lowercase(text::trim(w.content))) ==> (
            refusal(w) is Some) == text::is_blank(w.user_id)
        }),
{
    text::lemma_trim_idempotent(w.content);
}

/// The stock phrases are short, and these are among them.
pub proof fn lemma_stock_phrases(s: Seq<char>)
    ensures
        stock_phrase(s) ==> 1 <= s.len() <= 9,
        stock_phrase("thanks"@),
        stock_phrase("thank you"@),
        stock_phrase("got it"@),
        stock_phrase("okay"@),
        stock_phrase("没问题"@),
        stock_phrase("知道了"@),
        stock_phrase("不客气"@),
{
    reveal_strlit("好的");
    reveal_strlit("收到");
    reveal_strlit("嗯嗯");
    reveal_strlit("嗯");
    reveal_strlit("哦");
    reveal_strlit("啊");
    reveal_strlit("行");
    reveal_strlit("可以");
    reveal_strlit("没问题");
    reveal_strlit("知道了");
    reveal_strlit("明白");
    reveal_strlit("了解");
    reveal_strlit("清楚");
    reveal_strlit("ok");
    reveal_strlit("yes");
    reveal_strlit("no");
    reveal_strlit("okay");
    reveal_strlit("sure");
    reveal_strlit("got it");
    reveal_strlit("roger");
    reveal_strlit("copy");
    reveal_strlit("thx");
    reveal_strlit("thanks");
    reveal_strlit("thank you");
    reveal_strlit("1");
    reveal_strlit("111");
    reveal_strlit("6");
    reveal_strlit("666");
    reveal_strlit("多谢");
    reveal_strlit("谢谢");
    reveal_strlit("不客气");
    reveal_strlit("客气");
    reveal_strlit("再见");
    reveal_strlit("拜拜");
    reveal_strlit("hello");
    reveal_strlit("hi");
    reveal_strlit("hey");
}

/// Two contents that differ only in the white space between their words have one form.
pub proof fn lemma_form_ignores_spacing(a: Seq<char>, c: char, d: char, b: Seq<char>)
    requires
        text::is_whitespace(c),
        text::is_whitespace(d),
    ensures
        spaced(a + seq![c] + b) == spaced(a + seq![d] + b),
        spaced(a + seq![c] + b) == spaced(a + seq![c] + (seq![d] + b)),
{
    text::lemma_words_apart(a, c, b);
    text::lemma_words_apart(a, d, b);
    text::lemma_words_apart(a, c, seq![d] + b);
    let none = Seq::<char>::empty();
    text::lemma_words_apart(none, d, b);
    assert(none + seq![d] + b =~= seq![d] + b);
    assert(text::words(none) + text::words(b) =~= text::words(b));
}

/// A limit shows the start of the ranking.
pub proof fn lemma_limit_shows_the_first(rows: Seq<MemoryData>, limit: int, i: int)
    requires
        0 <= limit,
        0 <= i < rows.len(),
    ensures
        first_rows(rows, limit).len() <= limit,
        i < limit ==> i < first_rows(rows, limit).len() && first_rows(rows, limit)[i] == rows[i],
{
}

/// A new memory is kept behind the others, active and unused, with its text and its user
/// without the white space around them.
pub proof fn lemma_new_memory(memories: Seq<MemoryData>, w: WriteInput)
    requires
        governed(memories, w) is Written,
    ensures
        ({
            let r = memories_after(memories, w);
            let m = r.last();
            &&& r.len() == memories.len() + 1 && r.drop_last() == memories
            &&& m.id == w.id && m.content == text::trim(w.content)
            &&& m.user_id == text::trim(w.user_id)
            &&& m.memory_type == w.memory_type && m.priority == w.priority
            &&& m.status == "active"@ && m.use_count == 0 && !m.useful
            &&& m.retrieved_count == 0 && m.injected_count == 0 && m.last_used_at is None
            &&& m.created_at == w.now && m.updated_at == w.now
        }),
{
    let r = memories_after(memories, w);
    assert(r.drop_last() =~= memories);
}

/// Against a memory with the same text a write of a higher type raises it, one of a lower
/// type is refused as a downgrade, and one of the same type as a duplicate.
pub proof fn lemma_same_text(content: Seq<char>, t: MemoryType, m: MemoryData)
    ensures
        types::type_priority(t) > types::type_priority(m.memory_type) ==> (against(
            content,
            t,
            m,
        ) matches Decision::Promoted { id, reason } && id == m.id),
        types::type_priority(t) < types::type_priority(m.memory_type) ==> (against(
            content,
            t,
            m,
        ) matches Decision::Skipped { content_preview, reason } && reason
            == SkipReason::LowerPriorityWouldDowngradeHigher),
        types::type_priority(t) == types::type_priority(m.memory_type) ==> (against(
            content,
            t,
            m,
        ) matches Decision::Skipped { content_preview, reason } && reason == SkipReason::Duplicate),
{
}

/// A memory that is raised gets the new type, the new priority and the time; its text and its
/// counts stay, and so do all other memories.
pub proof fn lemma_raised_memory(
    memories: Seq<MemoryData>,
    id: Seq<char>,
    memory_type: MemoryType,
    priority: int,
    now: Seq<char>,
    i: int,
)
    requires
        0 <= i < memories.len(),
    ensures
        ({
            let r = promoted(memories, id, memory_type, priority, now);
            &&& r.len() == memories.len()
            &&& memories[i].id != id ==> r[i] == memories[i]
            &&& memories[i].id == id ==> r[i].memory_type == memory_type && r[i].priority
                == priority && r[i].updated_at == now
            &&& r[i].content == memories[i].content && r[i].user_id == memories[i].user_id
            &&& r[i].status == memories[i].status && r[i].use_count == memories[i].use_count
            &&& r[i].created_at == memories[i].created_at && r[i].useful == memories[i].useful
        }),
{
}

} // verus!
