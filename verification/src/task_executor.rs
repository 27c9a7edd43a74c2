//! Working off tasks: each one at most once at a time, and each outcome is recorded.

use crate::pipeline::outcome::{ErrorData, PipelineFailureKind, PipelineResult, PipelineTaskError};
use crate::task_store::store::{Stamp, StampData, StoreData, TaskData, TaskStore};
use crate::task_store::tasks;
use crate::task_store::types::{MarkTaskArchivedInput, PendingTaskRecord};
use crate::text;
use crate::text::{push_text, same};
use vstd::prelude::*;

verus! {

/// So long a claim on a task lasts, in seconds.
pub const LEASE_SECS: u64 = 300;

/// The tasks that were handed in and are not done.
#[derive(Debug)]
pub struct Inflight {
    pub ids: Vec<String>,
}

pub open spec fn distinct_ids(ids: Seq<Seq<char>>) -> bool {
    forall|i: int, j: int| 0 <= i < j < ids.len() ==> #[trigger] ids[i] != #[trigger] ids[j]
}

/// The ids without one of them.
pub open spec fn ids_without(ids: Seq<Seq<char>>, id: Seq<char>) -> Seq<Seq<char>>
    decreases ids.len(),
{
    if ids.len() == 0 {
        Seq::empty()
    } else {
        let before = ids_without(ids.drop_last(), id);
        if ids.last() == id {
            before
        } else {
            before.push(ids.last())
        }
    }
}

proof fn lemma_ids_without(ids: Seq<Seq<char>>, id: Seq<char>)
    ensures
        forall|x: Seq<char>| #[trigger]
            ids_without(ids, id).contains(x) <==> ids.contains(x) && x != id,
        distinct_ids(ids) ==> distinct_ids(ids_without(ids, id)),
    decreases ids.len(),
{
    if ids.len() > 0 {
        let t = ids.drop_last();
        let last = ids.last();
        lemma_ids_without(t, id);
        let before = ids_without(t, id);
        let after = ids_without(ids, id);
        assert(ids =~= t.push(last));
        assert forall|x: Seq<char>| #[trigger] after.contains(x) <==> ids.contains(x) && x != id by {
            if ids.contains(x) {
                let k = choose|k: int| 0 <= k < ids.len() && ids[k] == x;
                if k < t.len() {
                    assert(t[k] == x);
                    assert(t.contains(x));
                }
            }
            if t.contains(x) {
                let k = choose|k: int| 0 <= k < t.len() && t[k] == x;
                assert(ids[k] == x);
            }
            assert(ids[ids.len() - 1] == last);
            if last != id {
                assert(after == before.push(last));
                if before.contains(x) {
                    let k = choose|k: int| 0 <= k < before.len() && before[k] == x;
                    assert(after[k] == x);
                }
                assert(after[after.len() - 1] == last);
                if after.contains(x) {
                    let k = choose|k: int| 0 <= k < after.len() && after[k] == x;
                    if k < before.len() {
                        assert(before[k] == x);
                        assert(before.contains(x));
                    }
                }
            }
        }
        if distinct_ids(ids) {
            assert(distinct_ids(t)) by {
                assert forall|i: int, j: int| 0 <= i < j < t.len() implies #[trigger] t[i]
                    != #[trigger] t[j] by {
                    assert(ids[i] != ids[j]);
                }
            }
            if last != id {
                assert forall|i: int, j: int| 0 <= i < j < after.len() implies #[trigger] after[i]
                    != #[trigger] after[j] by {
                    if j < before.len() {
                        assert(before[i] != before[j]);
                    } else {
                        assert(before.contains(before[i]));
                        assert(t.contains(before[i]));
                        let k = choose|k: int| 0 <= k < t.len() && t[k] == before[i];
                        assert(ids[k] != ids[ids.len() - 1]);
                    }
                }
            }
        }
    }
}

impl Inflight {
    pub open spec fn view_ids(&self) -> Seq<Seq<char>> {
        text::texts(self.ids@)
    }

    /// No task is in flight twice.
    pub open spec fn wf(&self) -> bool {
        distinct_ids(self.view_ids())
    }

    pub fn new() -> (r: Self)
        ensures
            r.wf(),
            r.view_ids() == Seq::<Seq<char>>::empty(),
    {
        let r = Inflight { ids: Vec::new() };
        proof {
            assert(r.view_ids() =~= Seq::<Seq<char>>::empty());
        }
        r
    }

    /// How many tasks are in flight.
    pub fn pending_count(&self) -> (r: usize)
        ensures
            r == self.view_ids().len(),
    {
        self.ids.len()
    }

    /// Hands in a task. One that is in flight is not taken again.
    pub fn enqueue(&mut self, task_id: &str) -> (r: bool)
        requires
            old(self).wf(),
        ensures
            final(self).wf(),
            r == !old(self).view_ids().contains(task_id@),
            final(self).view_ids() == (if r {
                old(self).view_ids().push(task_id@)
            } else {
                old(self).view_ids()
            }),
    {
        let ghost all = self.view_ids();
        let mut i: usize = 0;
        while i < self.ids.len()
            invariant
                i <= self.ids@.len(),
                all == text::texts(self.ids@),
                *self == *old(self),
                old(self).wf(),
                all == old(self).view_ids(),
                forall|k: int| 0 <= k < i ==> (#[trigger] all[k]) != task_id@,
            decreases self.ids.len() - i,
        {
            if same(self.ids[i].as_str(), task_id) {
                proof {
                    assert(all[i as int] == task_id@);
                    assert(all.contains(task_id@));
                }
                return false;
            }
            i = i + 1;
        }
        proof {
            assert(all.len() == self.ids@.len());
            assert(!all.contains(task_id@));
        }
        push_text(&mut self.ids, task_id);
        proof {
            let now = self.view_ids();
            assert(now == all.push(task_id@));
            assert forall|i: int, j: int| 0 <= i < j < now.len() implies #[trigger] now[i]
                != #[trigger] now[j] by {
                if j < all.len() {
                    assert(all[i] != all[j]);
                } else {
                    assert(all.contains(all[i]));
                }
            }
        }
        true
    }

    /// Takes note that a task is done, or could not be handed on.
    pub fn finish(&mut self, task_id: &str)
        requires
            old(self).wf(),
        ensures
            final(self).wf(),
            final(self).view_ids() == ids_without(old(self).view_ids(), task_id@),
            !final(self).view_ids().contains(task_id@),
    {
        let ghost all = self.view_ids();
        let mut kept: Vec<String> = Vec::new();
        let mut i: usize = 0;
        proof {
            assert(all.take(0) =~= Seq::empty());
            assert(text::texts(kept@) =~= Seq::<Seq<char>>::empty());
        }
        while i < self.ids.len()
            invariant
                i <= self.ids@.len(),
                all == text::texts(self.ids@),
                text::texts(kept@) == ids_without(all.take(i as int), task_id@),
            decreases self.ids.len() - i,
        {
            proof {
                assert(all[i as int] == self.ids@[i as int]@);
                assert(all.take(i + 1).drop_last() =~= all.take(i as int));
            }
            if !same(self.ids[i].as_str(), task_id) {
                push_text(&mut kept, self.ids[i].as_str());
            }
            i = i + 1;
        }
        proof {
            assert(all.len() == self.ids@.len());
            assert(all.take(i as int) =~= all);
            lemma_ids_without(all, task_id@);
        }
        self.ids = kept;
    }
}

/// After a task is done it can be handed in again.
pub proof fn lemma_finished_can_return(ids: Seq<Seq<char>>, id: Seq<char>)
    ensures
        !ids_without(ids, id).contains(id),
        forall|x: Seq<char>| x != id ==> (#[trigger] ids_without(ids, id).contains(x) == ids.contains(x)),
{
    lemma_ids_without(ids, id);
}

// ---------------------------------------------------------------------------
// One task
// ---------------------------------------------------------------------------

/// What comes of claiming a task.
#[derive(Debug, Clone, PartialEq, Eq)]
pub enum Claim {
    /// There is no such task, or it is in the hands of another worker.
    Skipped,
    /// The task was claimed, and nothing is known of its page.
    NotFound,
    /// This has to be fetched.
    Taken(PendingTaskRecord),
}

/// Claims a task for a worker.
pub fn take_task(
    store: &mut TaskStore,
    task_id: &str,
    worker_id: &str,
    now: &Stamp,
    lease_until: &Stamp,
) -> (r: Claim)
    ensures
        final(store)@ == (StoreData {
            tasks: tasks::changed_where(
                old(store)@.tasks,
                tasks::claim_selects(task_id@, now@),
                |t: TaskData| tasks::claimed(t, worker_id@, now@, lease_until@),
            ),
            ..old(store)@
        }),
        r is Skipped <==> !tasks::any_where(
            old(store)@.tasks,
            tasks::claim_selects(task_id@, now@),
        ),
        !(r is Skipped) ==> match tasks::task_row(final(store)@, task_id@) {
            Some((t, a)) => r matches Claim::Taken(p) && tasks::pending_record(p, t, a),
            None => r is NotFound,
        },
{
    if !store.claim_task(task_id, worker_id, now, lease_until) {
        return Claim::Skipped;
    }
    match store.get_task_by_id(task_id) {
        Some(task) => Claim::Taken(
            PendingTaskRecord {
                task_id: task.task_id,
                article_id: task.article_id,
                normalized_url: task.normalized_url,
                original_url: task.original_url,
            },
        ),
        None => Claim::NotFound,
    }
}

/// A task after a page was archived for `task_id`.
pub open spec fn after_success(t: TaskData, task_id: Seq<char>, result: PipelineResult, now: StampData) -> TaskData {
    if tasks::archive_selects(task_id)(t) {
        TaskData {
            last_error: None,
            output_path: Some(result.output_path@),
            page_kind: Some(result.page_kind@),
            snapshot_path: text::opt_text(result.snapshot_path),
            content_source: Some(result.content_source@),
            ..(tasks::released(t, "archived"@, now))
        }
    } else {
        t
    }
}

/// A task after the pipeline failed on `task_id`.
pub open spec fn after_failure(t: TaskData, task_id: Seq<char>, e: ErrorData, now: StampData) -> TaskData {
    match e.awaiting {
        Some(page_kind) => if tasks::awaiting_selects(task_id)(t) {
            tasks::awaiting(t, e.message, page_kind, e.snapshot_path, e.content_source, now)
        } else {
            t
        },
        None => if tasks::processing_selects(task_id)(t) {
            tasks::failed(t, e.message, now)
        } else {
            t
        },
    }
}

/// The store after an outcome was recorded.
pub open spec fn outcome_recorded(
    s0: StoreData,
    s1: StoreData,
    task_id: Seq<char>,
    outcome: Result<PipelineResult, PipelineTaskError>,
    now: StampData,
) -> bool {
    &&& s1.tasks.len() == s0.tasks.len()
    &&& forall|i: int|
        0 <= i < s0.tasks.len() ==> #[trigger] s1.tasks[i] == (match outcome {
            Ok(result) => after_success(s0.tasks[i], task_id, result, now),
            Err(e) => after_failure(s0.tasks[i], task_id, e@, now),
        })
    &&& s1 == (StoreData {
        tasks: s1.tasks,
        articles: match outcome {
            Ok(result) => if tasks::any_where(s0.tasks, tasks::archive_selects(task_id)) {
                tasks::described(
                    s0.articles,
                    tasks::first_article_id(s0.tasks, task_id),
                    text::opt_text(result.title),
                    text::opt_text(result.summary),
                    now,
                )
            } else {
                s0.articles
            },
            Err(_) => s0.articles,
        },
        ..s0
    })
}

fn as_str_opt(o: &Option<String>) -> (r: Option<&str>)
    ensures
        text::opt_str(r) == text::opt_text(*o),
{
    match o {
        Some(s) => Some(s.as_str()),
        None => None,
    }
}

/// Records what the pipeline made of a task. Returns whether the task was in a state for
/// it.
pub fn record_outcome(
    store: &mut TaskStore,
    task_id: &str,
    outcome: &Result<PipelineResult, PipelineTaskError>,
    now: &Stamp,
) -> (r: bool)
    ensures
        outcome_recorded(old(store)@, final(store)@, task_id@, *outcome, now@),
        r == tasks::any_where(
            old(store)@.tasks,
            match *outcome {
                Ok(_) => tasks::archive_selects(task_id@),
                Err(e) => if e@.awaiting is Some {
                    tasks::awaiting_selects(task_id@)
                } else {
                    tasks::processing_selects(task_id@)
                },
            },
        ),
{
    match outcome {
        Ok(result) => store.mark_task_archived(
            task_id,
            MarkTaskArchivedInput {
                output_path: result.output_path.as_str(),
                title: as_str_opt(&result.title),
                page_kind: Some(result.page_kind.as_str()),
                snapshot_path: as_str_opt(&result.snapshot_path),
                content_source: Some(result.content_source.as_str()),
                summary: as_str_opt(&result.summary),
            },
            now,
        ),
        Err(e) => match &e.kind {
            PipelineFailureKind::AwaitingManualInput { page_kind } => {
                store.mark_task_awaiting_manual_input(
                    task_id,
                    e.message.as_str(),
                    page_kind.as_str(),
                    as_str_opt(&e.snapshot_path),
                    as_str_opt(&e.content_source),
                    now,
                )
            },
            PipelineFailureKind::Failed => store.mark_task_failed(
                task_id,
                e.message.as_str(),
                now,
            ),
        },
    }
}

// ---------------------------------------------------------------------------
// Laws
// ---------------------------------------------------------------------------

/// Only the task that is finished leaves the queue, and the others keep their order.
pub proof fn lemma_others_stay_queued(a: Seq<Seq<char>>, id: Seq<char>, b: Seq<Seq<char>>)
    requires
        !a.contains(id),
        !b.contains(id),
    ensures
        ids_without(a, id) == a,
        ids_without(a + seq![id] + b, id) == a + b,
    decreases b.len(), a.len(),
{
    let all = a + seq![id] + b;
    if b.len() > 0 {
        let init = b.drop_last();
        assert(all.drop_last() =~= a + seq![id] + init);
        assert(all.last() == b.last());
        assert(b.contains(b.last()));
        assert forall|i: int| 0 <= i < init.len() implies init[i] != id by {
            assert(b.contains(b[i]));
        }
        lemma_others_stay_queued(a, id, init);
        assert((a + init).push(b.last()) =~= a + b);
    } else {
        if a.len() > 0 {
            let init = a.drop_last();
            assert forall|i: int| 0 <= i < init.len() implies init[i] != id by {
                assert(a.contains(a[i]));
            }
            assert(a.contains(a.last()));
            lemma_others_stay_queued(init, id, b);
            assert(init.push(a.last()) =~= a);
        } else {
            assert(a =~= Seq::empty());
        }
        assert(all.drop_last() =~= a);
        assert(all.last() == id);
        assert(a + b =~= a);
    }
}

/// The outcome of a task concerns that task alone. A page that was archived leaves its file
/// and no error; a failure leaves its reason, and the task waits for its text where the
/// failure says so.
pub proof fn lemma_outcome_of_a_task(
    t: TaskData,
    task_id: Seq<char>,
    result: PipelineResult,
    e: ErrorData,
    now: StampData,
)
    ensures
        t.id != task_id ==> after_success(t, task_id, result, now) == t && after_failure(
            t,
            task_id,
            e,
            now,
        ) == t,
        t.id == task_id && t.status == "processing"@ ==> {
            let x = after_success(t, task_id, result, now);
            let y = after_failure(t, task_id, e, now);
            &&& x.status == "archived"@ && x.output_path == Some(result.output_path@)
            &&& x.page_kind == Some(result.page_kind@) && x.last_error is None
            &&& x.content_source == Some(result.content_source@)
            &&& x.snapshot_path == text::opt_text(result.snapshot_path)
            &&& y.last_error == Some(e.message) && y.output_path is None
            &&& e.awaiting is Some ==> y.status == "awaiting_manual_input"@ && y.page_kind
                == e.awaiting
            &&& e.awaiting is None ==> y.status == "failed"@
            &&& x.retry_count == t.retry_count && y.retry_count == t.retry_count
        },
        t.status == "archived"@ ==> after_success(t, task_id, result, now) == t && after_failure(
            t,
            task_id,
            e,
            now,
        ) == t,
{
    reveal_strlit("processing");
    reveal_strlit("archived");
    reveal_strlit("pending");
    reveal_strlit("awaiting_manual_input");
    assert("archived"@.len() == 8);
    assert("pending"@.len() == 7);
    assert("processing"@.len() == 10);
    assert("awaiting_manual_input"@.len() == 21);
}

} // verus!
