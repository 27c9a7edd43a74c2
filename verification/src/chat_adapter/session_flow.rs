//! How sessions and their states move between the router and the store.

use crate::chat_adapter::replies;
use crate::chat_adapter::replies::fallback_reply;
use crate::clock;
use crate::rows;
use crate::session_router;
use crate::session_router::{Buffered, SessionRouter};
use crate::task_store::sessions;
use crate::task_store::store::{SessionData, StoreData, TaskStore};
use crate::task_store::types;
use crate::task_store::types::{SessionStateData, UserSessionStateRecord};
use crate::text;
use crate::text::{cat2, clip, copy_opt, copy_strings, owned, push_text, same, same_opt};
use vstd::prelude::*;

verus! {

/// So many characters of a text describe the intent of a user.
pub const INTENT_PREVIEW_CHARS: usize = 120;

// ---------------------------------------------------------------------------
// The state of a session when its text is flushed
// ---------------------------------------------------------------------------

/// The state with the intent of a text. What the text does not tell stays as it was: a
/// subtask is only set where there was none.
pub open spec fn with_intent(
    state: Option<SessionStateData>,
    user_id: Seq<char>,
    merged_text: Seq<char>,
    now: Seq<char>,
) -> SessionStateData {
    let base = match state {
        Some(s) => s,
        None => SessionStateData { user_id, ..(types::blank_state()) },
    };
    let preview = text::clipped(merged_text, INTENT_PREVIEW_CHARS as int);
    SessionStateData {
        last_user_intent: Some(preview),
        goal: Some("响应当前用户请求："@ + preview),
        current_subtask: if base.current_subtask is None {
            Some(preview)
        } else {
            base.current_subtask
        },
        updated_at: now,
        ..base
    }
}

/// The store with a state. Without a user nothing is stored.
pub open spec fn state_stored(s: StoreData, state: SessionStateData) -> StoreData {
    let user = text::trim(state.user_id);
    if user.len() == 0 {
        s
    } else {
        StoreData {
            session_states: rows::put_row(
                s.session_states,
                sessions::state_of(user),
                SessionStateData { user_id: user, ..state },
            ),
            ..s
        }
    }
}

pub open spec fn intent_stored(
    s: StoreData,
    user_id: Seq<char>,
    merged_text: Seq<char>,
    now: Seq<char>,
) -> StoreData {
    state_stored(
        s,
        with_intent(rows::found(s.session_states, sessions::state_of(user_id)), user_id, merged_text, now),
    )
}

/// Stores the intent of a flushed text. Returns whether it was stored.
pub fn update_session_state_intent(
    store: &mut TaskStore,
    user_id: &str,
    merged_text: &str,
    now: &str,
) -> (r: bool)
    ensures
        final(store)@ == intent_stored(old(store)@, user_id@, merged_text@, now@),
        r == (text::trim(
            with_intent(
                rows::found(old(store)@.session_states, sessions::state_of(user_id@)),
                user_id@,
                merged_text@,
                now@,
            ).user_id,
        ).len() > 0),
{
    let preview = clip(merged_text, INTENT_PREVIEW_CHARS);
    let ghost state = rows::found(store@.session_states, sessions::state_of(user_id@));
    let mut record = match store.load_user_session_state(user_id) {
        Some(existing) => existing,
        None => {
            let mut fresh = UserSessionStateRecord::default();
            fresh.user_id = owned(user_id);
            fresh
        },
    };
    proof {
        assert(record@ =~= (match state {
            Some(s) => s,
            None => SessionStateData { user_id: user_id@, ..(types::blank_state()) },
        }));
    }
    record.last_user_intent = Some(owned(preview.as_str()));
    record.goal = Some(cat2("响应当前用户请求：", preview.as_str()));
    if record.current_subtask.is_none() {
        record.current_subtask = Some(owned(preview.as_str()));
    }
    record.updated_at = owned(now);
    proof {
        assert(record@ =~= with_intent(state, user_id@, merged_text@, now@));
    }
    match store.upsert_user_session_state(&record) {
        Ok(_) => true,
        Err(_) => false,
    }
}

/// A subtask that is set stays when another text is flushed, and so do all slots that
/// lists are kept in.
pub proof fn lemma_intent_is_conservative(
    state: SessionStateData,
    user_id: Seq<char>,
    merged_text: Seq<char>,
    now: Seq<char>,
)
    ensures
        ({
            let after = with_intent(Some(state), user_id, merged_text, now);
            &&& after.user_id == state.user_id
            &&& state.current_subtask is Some ==> after.current_subtask == state.current_subtask
            &&& after.next_step == state.next_step
            &&& after.current_task == state.current_task
            &&& after.blocked_reason == state.blocked_reason
            &&& after.constraints_json == state.constraints_json
            &&& after.confirmed_facts_json == state.confirmed_facts_json
            &&& after.done_items_json == state.done_items_json
            &&& after.open_questions_json == state.open_questions_json
        }),
{
}

/// The store when the session of a user was flushed.
pub open spec fn flush_stored(
    s: StoreData,
    user_id: Seq<char>,
    merged_text: Seq<char>,
    now: Seq<char>,
) -> StoreData {
    intent_stored(
        StoreData { sessions: rows::without(s.sessions, sessions::session_of(user_id)), ..s },
        user_id,
        merged_text,
        now,
    )
}

/// Forgets the buffer of a flushed session and stores the intent of its text.
pub fn settle_flush(store: &mut TaskStore, user_id: &str, merged_text: &str, now: &str)
    ensures
        final(store)@ == flush_stored(old(store)@, user_id@, merged_text@, now@),
{
    store.delete_session_state(user_id);
    let _ = update_session_state_intent(store, user_id, merged_text, now);
}

// ---------------------------------------------------------------------------
// Buffers
// ---------------------------------------------------------------------------

/// The store with the buffer of a user.
pub open spec fn buffer_stored(s: StoreData, b: Option<Buffered>, user_id: Seq<char>, now: Seq<char>) -> StoreData {
    match b {
        Some(x) => {
            let user = text::trim(user_id);
            let text = text::trim(session_router::merged(x));
            if user.len() == 0 || text.len() == 0 {
                s
            } else {
                StoreData {
                    sessions: rows::put_row(
                        s.sessions,
                        sessions::session_of(user),
                        SessionData {
                            user_id: user,
                            merged_text: text,
                            message_ids_json: types::json_array(x.message_ids),
                            updated_at: now,
                        },
                    ),
                    ..s
                }
            }
        },
        None => s,
    }
}

pub fn persist_session_snapshot(
    store: &mut TaskStore,
    router: &SessionRouter,
    user_id: &str,
    now: &str,
)
    ensures
        final(store)@ == buffer_stored(old(store)@, router.lookup(user_id@), user_id@, now@),
{
    if let Some(snapshot) = router.snapshot(user_id) {
        let _ = store.upsert_session_state(
            snapshot.user_id.as_str(),
            snapshot.merged_text.as_str(),
            &snapshot.message_ids,
            now,
        );
    }
}

/// The buffer of a user after stored sessions were taken up in order.
pub open spec fn restored(
    before: Option<Buffered>,
    sessions: Seq<SessionData>,
    user_id: Seq<char>,
    now: nat,
) -> Option<Buffered>
    decreases sessions.len(),
{
    if sessions.len() == 0 {
        before
    } else {
        let s = sessions.last();
        if s.user_id == user_id && !text::is_blank(s.user_id) && !text::is_blank(s.merged_text) {
            Some(
                Buffered {
                    user_id,
                    buffer: text::lines(s.merged_text),
                    message_ids: sessions::id_list(s.message_ids_json),
                    last_update: now,
                },
            )
        } else {
            restored(before, sessions.drop_last(), user_id, now)
        }
    }
}

/// Takes up the stored sessions.
pub fn restore_persisted_sessions(store: &TaskStore, router: &mut SessionRouter, now: u128)
    requires
        old(router).wf(),
    ensures
        final(router).wf(),
        final(router).merge_timeout == old(router).merge_timeout,
        forall|u: Seq<char>|
            #[trigger] final(router).lookup(u) == restored(
                old(router).lookup(u),
                sessions::listed_sessions(store@.sessions),
                u,
                now as nat,
            ),
{
    let stored = store.list_session_states();
    let ghost all = sessions::listed_sessions(store@.sessions);
    let ghost start = *router;
    let mut i: usize = 0;
    proof {
        assert(all.take(0) =~= Seq::empty());
    }
    while i < stored.len()
        invariant
            start == *old(router),
            i <= stored@.len(),
            stored@.len() == all.len(),
            all == sessions::listed_sessions(store@.sessions),
            forall|k: int| 0 <= k < stored@.len() ==> sessions::session_record(#[trigger] stored@[k], all[k]),
            router.wf(),
            router.merge_timeout == start.merge_timeout,
            forall|u: Seq<char>|
                #[trigger] router.lookup(u) == restored(
                    start.lookup(u),
                    all.take(i as int),
                    u,
                    now as nat,
                ),
        decreases stored.len() - i,
    {
        let ghost before = *router;
        let ids = copy_strings(stored[i].message_ids.as_slice(), 0, stored[i].message_ids.len());
        router.restore_session(stored[i].user_id.as_str(), stored[i].merged_text.as_str(), ids, now);
        proof {
            assert(sessions::session_record(stored@[i as int], all[i as int]));
            assert(text::texts(ids@) =~= sessions::id_list(all[i as int].message_ids_json));
            assert(all.take(i + 1).drop_last() =~= all.take(i as int));
            assert forall|u: Seq<char>| #[trigger] router.lookup(u) == restored(
                start.lookup(u),
                all.take(i + 1),
                u,
                now as nat,
            ) by {
                assert(before.lookup(u) == restored(start.lookup(u), all.take(i as int), u, now as nat));
            }
        }
        i = i + 1;
    }
    proof {
        assert(all.take(i as int) =~= all);
    }
}

// ---------------------------------------------------------------------------
// What a run of the agent leaves behind
// ---------------------------------------------------------------------------

/// What a run of the agent knows of the session.
#[derive(Debug, Default)]
pub struct RuntimeSessionStateSnapshot {
    pub goal: Option<String>,
    pub current_subtask: Option<String>,
    pub next_step: Option<String>,
    pub constraints: Vec<String>,
    pub confirmed_facts: Vec<String>,
    pub done_items: Vec<String>,
    pub open_questions: Vec<String>,
}

/// A list of the session state.
#[derive(Debug, Clone, Copy, PartialEq, Eq, Structural)]
pub enum SessionList {
    Constraints,
    ConfirmedFacts,
    DoneItems,
    OpenQuestions,
}

/// How many items a list holds at most after a run was merged in.
pub open spec fn item_cap(list: SessionList) -> nat {
    match list {
        SessionList::Constraints => 4,
        SessionList::ConfirmedFacts => 5,
        SessionList::DoneItems => 3,
        SessionList::OpenQuestions => 3,
    }
}

/// How many places of a list are kept for items of the run.
pub open spec fn run_share(list: SessionList) -> nat {
    match list {
        SessionList::Constraints => 1,
        SessionList::ConfirmedFacts => 1,
        SessionList::DoneItems => 0,
        SessionList::OpenQuestions => 1,
    }
}

/// The most items of a list, and the places that are kept for the run.
pub fn list_limits(list: SessionList) -> (r: (usize, usize))
    ensures
        r.0 == item_cap(list),
        r.1 == run_share(list),
        r.1 <= r.0,
{
    match list {
        SessionList::Constraints => (4, 1),
        SessionList::ConfirmedFacts => (5, 1),
        SessionList::DoneItems => (3, 0),
        SessionList::OpenQuestions => (3, 1),
    }
}

/// What the agent is asked to merge: the items that are stored and those of the run, each
/// once, `max_items` at most, with `run_share` places at least for those of the run.
#[derive(Debug, PartialEq, Eq)]
pub struct ListMerge {
    pub stored: Vec<String>,
    pub run: Vec<String>,
    pub max_items: usize,
    pub run_share: usize,
}

/// The merge of a list that is asked for.
pub open spec fn merge_asked(
    merge: ListMerge,
    list: SessionList,
    json: Option<Seq<char>>,
    run: Seq<String>,
) -> bool {
    &&& text::texts(merge.stored@) == types::slot_items(json)
    &&& text::texts(merge.run@) == text::texts(run)
    &&& merge.max_items == item_cap(list)
    &&& merge.run_share == run_share(list)
}

fn ask_merge(list: SessionList, stored: Vec<String>, run: &Vec<String>) -> (r: ListMerge)
    ensures
        r.stored == stored,
        text::texts(r.run@) == text::texts(run@),
        r.max_items == item_cap(list),
        r.run_share == run_share(list),
{
    let (max_items, share) = list_limits(list);
    let items = copy_strings(run.as_slice(), 0, run.len());
    proof {
        assert(text::texts(items@) =~= text::texts(run@));
    }
    ListMerge { stored, run: items, max_items, run_share: share }
}

/// The merges of the four lists.
#[derive(Debug, PartialEq, Eq)]
pub struct ListMerges {
    pub constraints: ListMerge,
    pub confirmed_facts: ListMerge,
    pub done_items: ListMerge,
    pub open_questions: ListMerge,
}

pub open spec fn merges_asked(
    merges: ListMerges,
    s: SessionStateData,
    run: RuntimeSessionStateSnapshot,
) -> bool {
    &&& merge_asked(
        merges.constraints,
        SessionList::Constraints,
        s.constraints_json,
        run.constraints@,
    )
    &&& merge_asked(
        merges.confirmed_facts,
        SessionList::ConfirmedFacts,
        s.confirmed_facts_json,
        run.confirmed_facts@,
    )
    &&& merge_asked(merges.done_items, SessionList::DoneItems, s.done_items_json, run.done_items@)
    &&& merge_asked(
        merges.open_questions,
        SessionList::OpenQuestions,
        s.open_questions_json,
        run.open_questions@,
    )
}

/// What the agent is asked to merge into the stored state of a user, where there is one.
pub fn list_merges(
    store: &TaskStore,
    user_id: &str,
    run: &RuntimeSessionStateSnapshot,
) -> (r: Option<ListMerges>)
    ensures
        match rows::found(store@.session_states, sessions::state_of(user_id@)) {
            Some(s) => r matches Some(merges) && merges_asked(merges, s, *run),
            None => r is None,
        },
{
    match store.load_user_session_state(user_id) {
        Some(state) => Some(
            ListMerges {
                constraints: ask_merge(
                    SessionList::Constraints,
                    state.constraints(),
                    &run.constraints,
                ),
                confirmed_facts: ask_merge(
                    SessionList::ConfirmedFacts,
                    state.confirmed_facts(),
                    &run.confirmed_facts,
                ),
                done_items: ask_merge(SessionList::DoneItems, state.done_items(), &run.done_items),
                open_questions: ask_merge(
                    SessionList::OpenQuestions,
                    state.open_questions(),
                    &run.open_questions,
                ),
            },
        ),
        None => None,
    }
}

/// The items of a list, each where it first stands.
pub open spec fn once_each(items: Seq<Seq<char>>) -> Seq<Seq<char>>
    decreases items.len(),
{
    if items.len() == 0 {
        Seq::empty()
    } else {
        let init = once_each(items.drop_last());
        if init.contains(items.last()) {
            init
        } else {
            init.push(items.last())
        }
    }
}

/// What is taken of a merged list: each item once, and the first ones up to the cap.
pub open spec fn admitted(items: Seq<Seq<char>>, cap: nat) -> Seq<Seq<char>> {
    let each = once_each(items);
    if each.len() <= cap {
        each
    } else {
        each.take(cap as int)
    }
}

proof fn lemma_once_each(items: Seq<Seq<char>>)
    ensures
        once_each(items).no_duplicates(),
        items.no_duplicates() ==> once_each(items) == items,
        forall|x: Seq<char>| #[trigger] once_each(items).contains(x) ==> items.contains(x),
    decreases items.len(),
{
    if items.len() > 0 {
        let init = items.drop_last();
        let last = items.last();
        lemma_once_each(init);
        assert forall|x: Seq<char>| #[trigger] once_each(items).contains(x) implies items.contains(
            x,
        ) by {
            if once_each(init).contains(x) {
                let k = choose|k: int| 0 <= k < init.len() && init[k] == x;
                assert(items[k] == x);
            } else {
                let k = choose|k: int| 0 <= k < once_each(items).len() && once_each(items)[k] == x;
                if k < once_each(init).len() {
                    assert(once_each(init)[k] == x);
                }
                assert(items[items.len() - 1] == x);
            }
        }
        if items.no_duplicates() {
            assert(init.no_duplicates()) by {
                assert forall|i: int, j: int| 0 <= i < init.len() && 0 <= j < init.len() && i
                    != j implies init[i] != init[j] by {
                    assert(items[i] != items[j]);
                }
            }
            if init.contains(last) {
                let k = choose|k: int| 0 <= k < init.len() && init[k] == last;
                assert(items[k] != items[items.len() - 1]);
            }
            assert(init.push(last) =~= items);
        }
    }
}

/// A list that is taken over keeps to the cap and holds each item once. A merged list that
/// does so already is taken over as it is.
pub proof fn lemma_admitted(items: Seq<Seq<char>>, cap: nat)
    ensures
        admitted(items, cap).len() <= cap,
        admitted(items, cap).no_duplicates(),
        forall|x: Seq<char>| #[trigger] admitted(items, cap).contains(x) ==> items.contains(x),
        items.no_duplicates() && items.len() <= cap ==> admitted(items, cap) == items,
{
    lemma_once_each(items);
    let each = once_each(items);
    let r = admitted(items, cap);
    assert forall|x: Seq<char>| #[trigger] r.contains(x) implies items.contains(x) by {
        let k = choose|k: int| 0 <= k < r.len() && r[k] == x;
        assert(each[k] == x);
        assert(each.contains(x));
    }
    assert(r.no_duplicates()) by {
        assert forall|i: int, j: int| 0 <= i < r.len() && 0 <= j < r.len() && i != j implies r[i]
            != r[j] by {
            assert(each[i] != each[j]);
        }
    }
}

/// Takes a merged list over: each item once, and no more than the list may hold.
pub fn admit_items(items: &Vec<String>, list: SessionList) -> (r: Vec<String>)
    ensures
        text::texts(r@) == admitted(text::texts(items@), item_cap(list)),
        r@.len() <= item_cap(list),
{
    let (cap, _) = list_limits(list);
    let ghost all = text::texts(items@);
    let mut each: Vec<String> = Vec::new();
    let mut i: usize = 0;
    proof {
        assert(text::texts(each@) =~= Seq::empty());
        assert(all.take(0) =~= Seq::empty());
    }
    while i < items.len()
        invariant
            i <= items@.len(),
            all == text::texts(items@),
            text::texts(each@) == once_each(all.take(i as int)),
        decreases items.len() - i,
    {
        proof {
            assert(all.take(i + 1).drop_last() =~= all.take(i as int));
            assert(all.take(i + 1).last() == items@[i as int]@);
        }
        if !holds_text(&each, items[i].as_str()) {
            push_text(&mut each, items[i].as_str());
        }
        i = i + 1;
    }
    proof {
        assert(all.take(i as int) =~= all);
        assert(text::texts(each@).len() == each@.len());
        lemma_admitted(all, item_cap(list));
    }
    if each.len() <= cap {
        each
    } else {
        let first = copy_strings(each.as_slice(), 0, cap);
        proof {
            assert(text::texts(first@) =~= once_each(all).take(cap as int));
        }
        first
    }
}

fn holds_text(items: &Vec<String>, item: &str) -> (r: bool)
    ensures
        r == text::texts(items@).contains(item@),
{
    let mut i: usize = 0;
    while i < items.len()
        invariant
            i <= items@.len(),
            forall|k: int| 0 <= k < i ==> (#[trigger] items@[k])@ != item@,
        decreases items.len() - i,
    {
        if same(items[i].as_str(), item) {
            proof {
                assert(text::texts(items@)[i as int] == item@);
            }
            return true;
        }
        i = i + 1;
    }
    proof {
        if text::texts(items@).contains(item@) {
            let k = choose|k: int|
                0 <= k < text::texts(items@).len() && text::texts(items@)[k] == item@;
            assert(items@[k]@ != item@);
        }
    }
    false
}

/// The lists of a session as the agent merged them with those of the run.
#[derive(Debug)]
pub struct MergedLists {
    pub constraints: Vec<String>,
    pub confirmed_facts: Vec<String>,
    pub done_items: Vec<String>,
    pub open_questions: Vec<String>,
}

/// A stored list after a merge: what is taken over of the merged one, where that is new.
pub open spec fn merged_slot(json: Option<Seq<char>>, merged: Seq<String>, list: SessionList) -> Option<
    Seq<char>,
> {
    let items = admitted(text::texts(merged), item_cap(list));
    if items == types::slot_items(json) {
        json
    } else {
        types::items_slot(items)
    }
}

pub open spec fn newer(value: Option<Seq<char>>, old_value: Option<Seq<char>>) -> Option<Seq<char>> {
    if value is Some {
        value
    } else {
        old_value
    }
}

/// The state after a run: a goal stays, a subtask and a next step are replaced where the
/// run has them, and a list is replaced where it changed.
pub open spec fn after_run(
    s: SessionStateData,
    run: RuntimeSessionStateSnapshot,
    lists: MergedLists,
) -> SessionStateData {
    SessionStateData {
        goal: newer(s.goal, text::opt_text(run.goal)),
        current_subtask: newer(text::opt_text(run.current_subtask), s.current_subtask),
        next_step: newer(text::opt_text(run.next_step), s.next_step),
        constraints_json: merged_slot(
            s.constraints_json,
            lists.constraints@,
            SessionList::Constraints,
        ),
        confirmed_facts_json: merged_slot(
            s.confirmed_facts_json,
            lists.confirmed_facts@,
            SessionList::ConfirmedFacts,
        ),
        done_items_json: merged_slot(
            s.done_items_json,
            lists.done_items@,
            SessionList::DoneItems,
        ),
        open_questions_json: merged_slot(
            s.open_questions_json,
            lists.open_questions@,
            SessionList::OpenQuestions,
        ),
        ..s
    }
}

/// What is taken over of a merged list differs from what is stored.
pub open spec fn slot_changes(json: Option<Seq<char>>, merged: Seq<String>, list: SessionList) -> bool {
    admitted(text::texts(merged), item_cap(list)) != types::slot_items(json)
}

/// A list after a merge: what was taken over is stored, each item once, and no more than the
/// list may hold.
pub open spec fn slot_kept(json: Option<Seq<char>>, merged: Seq<String>, list: SessionList) -> bool {
    let items = types::slot_items(json);
    items == admitted(text::texts(merged), item_cap(list)) && items.len() <= item_cap(list)
        && items.no_duplicates()
}

/// All lists after a merge.
pub open spec fn lists_kept(s: SessionStateData, lists: MergedLists) -> bool {
    &&& slot_kept(s.constraints_json, lists.constraints@, SessionList::Constraints)
    &&& slot_kept(s.confirmed_facts_json, lists.confirmed_facts@, SessionList::ConfirmedFacts)
    &&& slot_kept(s.done_items_json, lists.done_items@, SessionList::DoneItems)
    &&& slot_kept(s.open_questions_json, lists.open_questions@, SessionList::OpenQuestions)
}

/// The run changes something that the state holds.
pub open spec fn run_changes(
    s: SessionStateData,
    run: RuntimeSessionStateSnapshot,
    lists: MergedLists,
) -> bool {
    ||| (s.goal is None && run.goal is Some)
    ||| (run.current_subtask is Some && text::opt_text(run.current_subtask) != s.current_subtask)
    ||| (run.next_step is Some && text::opt_text(run.next_step) != s.next_step)
    ||| slot_changes(s.constraints_json, lists.constraints@, SessionList::Constraints)
    ||| slot_changes(s.confirmed_facts_json, lists.confirmed_facts@, SessionList::ConfirmedFacts)
    ||| slot_changes(s.done_items_json, lists.done_items@, SessionList::DoneItems)
    ||| slot_changes(s.open_questions_json, lists.open_questions@, SessionList::OpenQuestions)
}

/// A run that changes nothing leaves the state as it was.
pub proof fn lemma_unchanged_run(
    s: SessionStateData,
    run: RuntimeSessionStateSnapshot,
    lists: MergedLists,
)
    requires
        !run_changes(s, run, lists),
    ensures
        after_run(s, run, lists) == s,
{
}

fn same_texts(a: &Vec<String>, b: &Vec<String>) -> (r: bool)
    ensures
        r == (text::texts(a@) == text::texts(b@)),
{
    if a.len() != b.len() {
        proof {
            assert(text::texts(a@).len() != text::texts(b@).len());
        }
        return false;
    }
    let mut i: usize = 0;
    while i < a.len()
        invariant
            i <= a@.len() == b@.len(),
            forall|k: int| 0 <= k < i ==> (#[trigger] a@[k])@ == b@[k]@,
        decreases a.len() - i,
    {
        if !same(a[i].as_str(), b[i].as_str()) {
            proof {
                assert(text::texts(a@)[i as int] != text::texts(b@)[i as int]);
            }
            return false;
        }
        i = i + 1;
    }
    proof {
        assert(text::texts(a@) =~= text::texts(b@));
    }
    true
}

/// Merges what a run leaves behind into the stored state. A run without signal changes
/// nothing. Returns whether the state holds something new.
pub fn merge_runtime_session_state_into_persistent(
    persistent: &mut UserSessionStateRecord,
    runtime: &RuntimeSessionStateSnapshot,
    lists: &MergedLists,
    low_signal: bool,
) -> (r: bool)
    ensures
        if low_signal {
            !r && final(persistent)@ == old(persistent)@
        } else {
            r == run_changes(old(persistent)@, *runtime, *lists) && final(persistent)@ == after_run(
                old(persistent)@,
                *runtime,
                *lists,
            ) && lists_kept(final(persistent)@, *lists)
        },
{
    if low_signal {
        return false;
    }
    let ghost s = persistent@;
    let mut dirty = false;
    if persistent.goal.is_none() && runtime.goal.is_some() {
        persistent.goal = copy_opt(&runtime.goal);
        dirty = true;
    }
    if runtime.current_subtask.is_some() {
        if !same_opt(&persistent.current_subtask, &runtime.current_subtask) {
            dirty = true;
        }
        persistent.current_subtask = copy_opt(&runtime.current_subtask);
    }
    if runtime.next_step.is_some() {
        if !same_opt(&persistent.next_step, &runtime.next_step) {
            dirty = true;
        }
        persistent.next_step = copy_opt(&runtime.next_step);
    }
    proof {
        lemma_admitted(text::texts(lists.constraints@), item_cap(SessionList::Constraints));
        lemma_admitted(text::texts(lists.confirmed_facts@), item_cap(SessionList::ConfirmedFacts));
        lemma_admitted(text::texts(lists.done_items@), item_cap(SessionList::DoneItems));
        lemma_admitted(text::texts(lists.open_questions@), item_cap(SessionList::OpenQuestions));
    }
    let constraints = persistent.constraints();
    let items = admit_items(&lists.constraints, SessionList::Constraints);
    if !same_texts(&items, &constraints) {
        persistent.set_constraints(items);
        dirty = true;
    }
    let facts = persistent.confirmed_facts();
    let items = admit_items(&lists.confirmed_facts, SessionList::ConfirmedFacts);
    if !same_texts(&items, &facts) {
        persistent.set_confirmed_facts(items);
        dirty = true;
    }
    let done = persistent.done_items();
    let items = admit_items(&lists.done_items, SessionList::DoneItems);
    if !same_texts(&items, &done) {
        persistent.set_done_items(items);
        dirty = true;
    }
    let questions = persistent.open_questions();
    let items = admit_items(&lists.open_questions, SessionList::OpenQuestions);
    if !same_texts(&items, &questions) {
        persistent.set_open_questions(items);
        dirty = true;
    }
    proof {
        assert(persistent@ =~= after_run(s, *runtime, *lists));
    }
    dirty
}

/// What a run leaves behind: the snapshot, the merged lists, and whether it is of low
/// signal.
#[derive(Debug)]
pub struct RunOutcome {
    pub snapshot: RuntimeSessionStateSnapshot,
    pub lists: MergedLists,
    pub low_signal: bool,
}

/// The state after a run, with the time of the run.
pub open spec fn refreshed(s: SessionStateData, run: Option<RunOutcome>, now: Seq<char>) -> SessionStateData {
    let merged = match run {
        Some(o) if !o.low_signal => after_run(s, o.snapshot, o.lists),
        _ => s,
    };
    SessionStateData { updated_at: now, ..merged }
}

pub open spec fn refresh_changes(s: SessionStateData, run: Option<RunOutcome>) -> bool {
    match run {
        Some(o) => !o.low_signal && run_changes(s, o.snapshot, o.lists),
        None => false,
    }
}

/// Stores what a run leaves behind, where the user has a state. Returns whether the
/// stored state holds something new.
pub fn refresh_session_state(
    store: &mut TaskStore,
    user_id: &str,
    run: &Option<RunOutcome>,
    now: &str,
) -> (r: bool)
    ensures
        match rows::found(old(store)@.session_states, sessions::state_of(user_id@)) {
            Some(s) => final(store)@ == state_stored(old(store)@, refreshed(s, *run, now@)) && r == (
            refresh_changes(s, *run) && !text::is_blank(s.user_id)),
            None => final(store)@ == old(store)@ && !r,
        },
{
    match store.load_user_session_state(user_id) {
        Some(state) => {
            let ghost s = state@;
            let mut updated = state;
            let mut changed = false;
            if let Some(o) = run {
                changed = merge_runtime_session_state_into_persistent(
                    &mut updated,
                    &o.snapshot,
                    &o.lists,
                    o.low_signal,
                );
            }
            updated.updated_at = owned(now);
            proof {
                assert(updated@ =~= refreshed(s, *run, now@));
            }
            match store.upsert_user_session_state(&updated) {
                Ok(_) => changed,
                Err(_) => false,
            }
        },
        None => false,
    }
}

// ---------------------------------------------------------------------------
// The answer to a flushed text
// ---------------------------------------------------------------------------

/// What an agent answers, and what it learned on the way.
#[derive(Debug)]
pub struct AgentAnswer {
    pub output: String,
    pub learned: Option<RunOutcome>,
}

/// The reply to a text: that of the agent, or one by rule where the agent failed.
pub open spec fn answer_text(
    user_text: Seq<char>,
    answer: Result<AgentAnswer, String>,
    time: Seq<char>,
) -> Seq<char> {
    match answer {
        Ok(a) => a.output@,
        Err(e) => replies::fallback(user_text, e@, time),
    }
}

/// What was learned on the way to an answer. A run that failed teaches nothing.
pub open spec fn answer_learned(answer: Result<AgentAnswer, String>) -> Option<RunOutcome> {
    match answer {
        Ok(a) => a.learned,
        Err(_) => None,
    }
}

/// Chooses the reply to a text once the agent has answered or failed, and stores what the
/// agent learned. Returns the reply, and whether the stored state holds something new.
pub fn settle_answer(
    store: &mut TaskStore,
    user_id: &str,
    user_text: &str,
    answer: Result<AgentAnswer, String>,
    now: &str,
    now_secs: i64,
) -> (r: (String, bool))
    requires
        clock::civil_secs(now_secs as int),
    ensures
        r.0@ == answer_text(user_text@, answer, clock::shanghai_text(now_secs as int)),
        match rows::found(old(store)@.session_states, sessions::state_of(user_id@)) {
            Some(s) => final(store)@ == state_stored(
                old(store)@,
                refreshed(s, answer_learned(answer), now@),
            ) && r.1 == (refresh_changes(s, answer_learned(answer)) && !text::is_blank(s.user_id)),
            None => final(store)@ == old(store)@ && !r.1,
        },
{
    match answer {
        Ok(a) => {
            let changed = refresh_session_state(store, user_id, &a.learned, now);
            (a.output, changed)
        },
        Err(e) => {
            let changed = refresh_session_state(store, user_id, &None, now);
            (fallback_reply(user_text, e.as_str(), now_secs), changed)
        },
    }
}

/// An agent that fails does not change what is known of the conversation: only the time of
/// the state moves on.
pub proof fn lemma_failed_run_teaches_nothing(s: SessionStateData, err: String, now: Seq<char>)
    ensures
        ({
            let answer: Result<AgentAnswer, String> = Err(err);
            refreshed(s, answer_learned(answer), now) == (SessionStateData { updated_at: now, ..s })
                && !refresh_changes(s, answer_learned(answer))
        }),
{
}

// ---------------------------------------------------------------------------
// Laws
// ---------------------------------------------------------------------------

/// Items come once each and where they first stand: what was taken of the first items stays
/// when more come, and no item is lost.
pub proof fn lemma_items_come_once(a: Seq<Seq<char>>, b: Seq<Seq<char>>)
    ensures
        once_each(a).is_prefix_of(once_each(a + b)),
        forall|i: int| 0 <= i < a.len() ==> once_each(a).contains(#[trigger] a[i]),
    decreases b.len(), a.len(),
{
    if b.len() > 0 {
        assert((a + b).drop_last() =~= a + b.drop_last());
        lemma_items_come_once(a, b.drop_last());
        let init = once_each(a + b.drop_last());
        assert(init.is_prefix_of(once_each(a + b)));
    } else {
        assert(a + b =~= a);
        if a.len() > 0 {
            let init = a.drop_last();
            lemma_items_come_once(init, Seq::empty());
            assert forall|i: int| 0 <= i < a.len() implies once_each(a).contains(#[trigger] a[i]) by {
                if i < init.len() {
                    assert(once_each(init).contains(init[i]));
                    let k = choose|k: int|
                        0 <= k < once_each(init).len() && once_each(init)[k] == init[i];
                    assert(once_each(a)[k] == a[i]);
                } else if !once_each(init).contains(a.last()) {
                    assert(once_each(a)[once_each(a).len() - 1] == a[i]);
                }
            }
        }
    }
}

/// The first items are those that are taken of a list: nothing that is left out stands
/// before something that is taken.
pub proof fn lemma_first_items_are_taken(items: Seq<Seq<char>>, cap: nat, i: int)
    requires
        0 <= i < items.len(),
        i < cap,
    ensures
        admitted(items, cap).contains(items[i]),
{
    let a = items.take(i + 1);
    let b = items.skip(i + 1);
    assert(a + b =~= items);
    lemma_items_come_once(a, b);
    assert(a[i] == items[i]);
    let x = once_each(a);
    let k = choose|k: int| 0 <= k < x.len() && x[k] == items[i];
    lemma_once_each_len(a);
    assert(once_each(items)[k] == items[i]);
    assert(admitted(items, cap)[k] == items[i]);
}

proof fn lemma_once_each_len(a: Seq<Seq<char>>)
    ensures
        once_each(a).len() <= a.len(),
    decreases a.len(),
{
    if a.len() > 0 {
        lemma_once_each_len(a.drop_last());
    }
}

/// What a run changes in the state: a goal that there is stays, and only a missing one is
/// taken from the run; a subtask and a next step of the run take the place of the old ones.
pub proof fn lemma_run_is_merged(
    s: SessionStateData,
    run: RuntimeSessionStateSnapshot,
    lists: MergedLists,
)
    ensures
        ({
            let r = after_run(s, run, lists);
            &&& s.goal is Some ==> r.goal == s.goal
            &&& s.goal is None ==> r.goal == text::opt_text(run.goal)
            &&& run.current_subtask is Some ==> r.current_subtask == text::opt_text(
                run.current_subtask,
            )
            &&& run.current_subtask is None ==> r.current_subtask == s.current_subtask
            &&& run.next_step is Some ==> r.next_step == text::opt_text(run.next_step)
            &&& run.next_step is None ==> r.next_step == s.next_step
            &&& r.user_id == s.user_id && r.last_user_intent == s.last_user_intent
            &&& r.current_task == s.current_task && r.blocked_reason == s.blocked_reason
        }),
{
}

/// The intent of a text is the text, or its start, and the goal names it; a user without a
/// subtask gets it as the subtask too.
pub proof fn lemma_intent_is_the_text(
    state: Option<SessionStateData>,
    user_id: Seq<char>,
    merged_text: Seq<char>,
    now: Seq<char>,
)
    ensures
        ({
            let r = with_intent(state, user_id, merged_text, now);
            let p = r.last_user_intent->0;
            &&& r.last_user_intent is Some && r.goal is Some
            &&& merged_text.len() <= 120 ==> p == merged_text
            &&& merged_text.len() > 120 ==> p.take(120)
                == merged_text.take(120)
            &&& text::ends_with(r.goal->0, p)
            &&& state is None ==> r.user_id == user_id && r.current_subtask == Some(p)
            &&& r.updated_at == now
        }),
{
    let p = text::clipped(merged_text, INTENT_PREVIEW_CHARS as int);
    let g = "响应当前用户请求："@ + p;
    let n = g.len() - p.len();
    assert(g.subrange(n, n + p.len()) =~= p);
    if merged_text.len() > INTENT_PREVIEW_CHARS {
        let k = INTENT_PREVIEW_CHARS as int;
        assert(p.take(k) =~= merged_text.take(k));
    }
}

/// The last stored session of a user is the one that is taken up, with its lines and its
/// messages; sessions of other users and blank ones change nothing.
pub proof fn lemma_last_session_is_restored(
    before: Option<Buffered>,
    a: Seq<SessionData>,
    s: SessionData,
    b: Seq<SessionData>,
    now: nat,
)
    requires
        !text::is_blank(s.user_id),
        !text::is_blank(s.merged_text),
        forall|i: int|
            0 <= i < b.len() ==> (#[trigger] b[i]).user_id != s.user_id || text::is_blank(
                b[i].merged_text,
            ),
    ensures
        restored(before, a + seq![s] + b, s.user_id, now) == Some(
            Buffered {
                user_id: s.user_id,
                buffer: text::lines(s.merged_text),
                message_ids: sessions::id_list(s.message_ids_json),
                last_update: now,
            },
        ),
    decreases b.len(),
{
    let all = a + seq![s] + b;
    if b.len() == 0 {
        assert(all.last() == s);
    } else {
        assert(all.last() == b[b.len() - 1]);
        assert(all.drop_last() =~= a + seq![s] + b.drop_last());
        assert forall|i: int| 0 <= i < b.drop_last().len() implies (
        #[trigger] b.drop_last()[i]).user_id != s.user_id || text::is_blank(
            b.drop_last()[i].merged_text,
        ) by {
            assert(b.drop_last()[i] == b[i]);
        }
        lemma_last_session_is_restored(before, a, s, b.drop_last(), now);
    }
}

/// A flush leaves no stored session of the user and notes the intent of what was said; the
/// sessions and states of other users stay as they are.
pub proof fn lemma_flush_is_stored(
    s: StoreData,
    user_id: Seq<char>,
    merged_text: Seq<char>,
    now: Seq<char>,
    other: Seq<char>,
)
    requires
        text::trim(user_id) == user_id,
        user_id.len() > 0,
        other != user_id,
    ensures
        ({
            let r = flush_stored(s, user_id, merged_text, now);
            &&& rows::found(r.sessions, sessions::session_of(user_id)) is None
            &&& rows::found(r.session_states, sessions::state_of(user_id)) matches Some(state)
                && state.last_user_intent == Some(
                text::clipped(merged_text, INTENT_PREVIEW_CHARS as int),
            ) && state.updated_at == now
            &&& rows::found(r.session_states, sessions::state_of(other)) == rows::found(
                s.session_states,
                sessions::state_of(other),
            )
            &&& r.memories == s.memories && r.tasks == s.tasks && r.articles == s.articles
            &&& r.messages == s.messages && r.context_tokens == s.context_tokens
        }),
{
    rows::lemma_without_found(s.sessions, sessions::session_of(user_id));
    let old_state = rows::found(s.session_states, sessions::state_of(user_id));
    rows::lemma_first_where(s.session_states, sessions::state_of(user_id));
    let state = with_intent(old_state, user_id, merged_text, now);
    assert(state.user_id == user_id);
    let row = SessionStateData { user_id, ..state };
    rows::lemma_put_found(s.session_states, sessions::state_of(user_id), row);
    rows::lemma_put_other(
        s.session_states,
        sessions::state_of(user_id),
        row,
        sessions::state_of(other),
    );
}

/// What a user said so far is stored as one text with the ids of the messages; a second time
/// takes the place of the first, and other users' sessions stay as they are.
pub proof fn lemma_buffer_is_stored(
    s: StoreData,
    b: Buffered,
    user_id: Seq<char>,
    now: Seq<char>,
    other: Seq<char>,
)
    requires
        text::trim(user_id) == user_id,
        user_id.len() > 0,
        !text::is_blank(session_router::merged(b)),
        other != user_id,
    ensures
        ({
            let r = buffer_stored(s, Some(b), user_id, now);
            &&& rows::found(r.sessions, sessions::session_of(user_id)) matches Some(x)
                && x.merged_text == text::trim(session_router::merged(b)) && x.message_ids_json
                == types::json_array(b.message_ids) && x.updated_at == now
            &&& rows::found(r.sessions, sessions::session_of(other)) == rows::found(
                s.sessions,
                sessions::session_of(other),
            )
            &&& r.session_states == s.session_states && r.memories == s.memories
            &&& buffer_stored(s, None, user_id, now) == s
        }),
{
    let row = SessionData {
        user_id,
        merged_text: text::trim(session_router::merged(b)),
        message_ids_json: types::json_array(b.message_ids),
        updated_at: now,
    };
    rows::lemma_put_found(s.sessions, sessions::session_of(user_id), row);
    rows::lemma_put_other(
        s.sessions,
        sessions::session_of(user_id),
        row,
        sessions::session_of(other),
    );
}

/// How much room the lists have: facts the most, constraints less, and what is done or open
/// the least; only of what is done nothing is kept for the run.
pub proof fn lemma_list_room(list: SessionList)
    ensures
        item_cap(SessionList::Constraints) + item_cap(SessionList::ConfirmedFacts) + item_cap(
            SessionList::DoneItems,
        ) + item_cap(SessionList::OpenQuestions) == 15,
        item_cap(SessionList::ConfirmedFacts) == item_cap(SessionList::Constraints) + 1,
        item_cap(SessionList::Constraints) == item_cap(SessionList::DoneItems) + 1,
        item_cap(SessionList::DoneItems) == item_cap(SessionList::OpenQuestions),
        (run_share(list) == 0) == (list is DoneItems),
        run_share(list) <= 1,
{
}

/// The agent's answer is the reply; only where it failed the reply is made by rule.
pub proof fn lemma_answers(user_text: Seq<char>, a: AgentAnswer, e: String, time: Seq<char>)
    ensures
        answer_text(user_text, Ok(a), time) == a.output@,
        answer_text(user_text, Err(e), time) == replies::fallback(user_text, e@, time),
        answer_learned(Ok(a)) == a.learned,
{
}

} // verus!
