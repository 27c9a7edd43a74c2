//! The life cycle of link tasks.

use crate::ordering;
use crate::ordering::{KeyPart, Part, sort_rows};
use crate::rows;
use crate::task_store::store;
use crate::task_store::store::{
    ArticleData, ArticleRow, Stamp, StampData, StoreData, TaskData, TaskRow, TaskStore,
    is_stamp_before, stamp_key,
};
use crate::task_store::types::{
    ArchivedTaskRecord, ClaimableTaskRecord, LinkTaskRecord, MarkTaskArchivedInput,
    PendingTaskRecord, RecentTaskRecord, TaskContentRecord, TaskStatusRecord, TaskStoreError,
};
use crate::task_store::url_guard;
use crate::task_store::url_guard::{IpAddress, normalize_url, source_domain};
use crate::text;
use crate::text::{copy_opt, is_before, owned, owned_opt, same, trimmed};
use crate::url;
use vstd::prelude::*;

verus! {

// ---------------------------------------------------------------------------
// Lookups
// ---------------------------------------------------------------------------

pub open spec fn article_with_id(id: Seq<char>) -> spec_fn(ArticleData) -> bool {
    |a: ArticleData| a.id == id
}

pub open spec fn article_with_url(url: Seq<char>) -> spec_fn(ArticleData) -> bool {
    |a: ArticleData| a.normalized_url == url
}

pub open spec fn task_with_id(id: Seq<char>) -> spec_fn(TaskData) -> bool {
    |t: TaskData| t.id == id
}

pub open spec fn article_of(articles: Seq<ArticleData>, id: Seq<char>) -> Option<ArticleData> {
    match rows::first_where(articles, article_with_id(id)) {
        Some(i) => Some(articles[i]),
        None => None,
    }
}

/// The task with this id and its article.
pub open spec fn task_row(s: StoreData, id: Seq<char>) -> Option<(TaskData, ArticleData)> {
    match rows::first_where(s.tasks, task_with_id(id)) {
        Some(i) => match article_of(s.articles, s.tasks[i].article_id) {
            Some(a) => Some((s.tasks[i], a)),
            None => None,
        },
        None => None,
    }
}

// ---------------------------------------------------------------------------
// States of a task
// ---------------------------------------------------------------------------

/// A worker may claim a pending task, and a processing one whose lease has run out.
pub open spec fn claimable(t: TaskData, now: StampData) -> bool {
    t.status == "pending"@ || (t.status == "processing"@ && (match t.lease_until {
        Some(lease) => store::stamp_before(lease, now),
        None => true,
    }))
}

/// The task in the hands of a worker.
pub open spec fn claimed(t: TaskData, worker: Seq<char>, now: StampData, lease: StampData) -> TaskData {
    TaskData {
        status: "processing"@,
        worker_id: Some(worker),
        processing_started_at: Some(now),
        lease_until: Some(lease),
        updated_at: now,
        ..t
    }
}

/// The task without a worker.
pub open spec fn released(t: TaskData, status: Seq<char>, now: StampData) -> TaskData {
    TaskData {
        status,
        worker_id: None,
        processing_started_at: None,
        lease_until: None,
        updated_at: now,
        ..t
    }
}

/// Only a task that has come to an end may be retried.
pub open spec fn retryable(t: TaskData) -> bool {
    t.status == "failed"@ || t.status == "awaiting_manual_input"@ || t.status == "archived"@
}

pub open spec fn retried(t: TaskData, now: StampData) -> TaskData {
    TaskData {
        retry_count: t.retry_count + 1,
        last_error: None,
        page_kind: None,
        output_path: None,
        snapshot_path: None,
        ..released(t, "pending"@, now)
    }
}

/// Every task that is not finished can be archived.
pub open spec fn archivable(t: TaskData) -> bool {
    t.status == "pending"@ || t.status == "processing"@ || t.status == "awaiting_manual_input"@
}

/// The new value where there is one, else the old one.
pub open spec fn coalesce(new: Option<Seq<char>>, old_value: Option<Seq<char>>) -> Option<Seq<char>> {
    if new is Some {
        new
    } else {
        old_value
    }
}

pub open spec fn archived(t: TaskData, input: MarkTaskArchivedInput, now: StampData) -> TaskData {
    TaskData {
        last_error: None,
        output_path: Some(input.output_path@),
        page_kind: coalesce(text::opt_str(input.page_kind), t.page_kind),
        snapshot_path: text::opt_str(input.snapshot_path),
        content_source: coalesce(text::opt_str(input.content_source), t.content_source),
        ..released(t, "archived"@, now)
    }
}

/// What the task waits for, with the snapshot that it had where none is given.
pub open spec fn awaiting(
    t: TaskData,
    last_error: Seq<char>,
    page_kind: Seq<char>,
    snapshot_path: Option<Seq<char>>,
    content_source: Option<Seq<char>>,
    now: StampData,
) -> TaskData {
    TaskData {
        last_error: Some(last_error),
        page_kind: Some(page_kind),
        snapshot_path: coalesce(snapshot_path, t.snapshot_path),
        content_source: coalesce(content_source, t.content_source),
        output_path: None,
        ..released(t, "awaiting_manual_input"@, now)
    }
}

/// The failed task keeps what helps to diagnose it.
pub open spec fn failed(t: TaskData, last_error: Seq<char>, now: StampData) -> TaskData {
    TaskData { last_error: Some(last_error), output_path: None, ..released(t, "failed"@, now) }
}

/// The text, unless it is missing or blank.
pub open spec fn filled(s: Option<Seq<char>>) -> Option<Seq<char>> {
    match s {
        Some(t) => if text::trim(t).len() == 0 {
            None
        } else {
            Some(t)
        },
        None => None,
    }
}

/// The article after its task was archived: a title is kept, a summary replaced.
pub open spec fn archived_article(
    a: ArticleData,
    title: Option<Seq<char>>,
    summary: Option<Seq<char>>,
    now: StampData,
) -> ArticleData {
    ArticleData {
        title: coalesce(a.title, filled(title)),
        summary: coalesce(filled(summary), a.summary),
        updated_at: if filled(title) is Some || filled(summary) is Some {
            now
        } else {
            a.updated_at
        },
        ..a
    }
}

// ---------------------------------------------------------------------------
// Laws of the life cycle
// ---------------------------------------------------------------------------

/// A claimed task cannot be claimed again before its lease has run out.
pub proof fn lemma_claim_is_exclusive(
    t: TaskData,
    worker: Seq<char>,
    now: StampData,
    lease: StampData,
    later: StampData,
)
    requires
        !store::stamp_before(lease, later),
    ensures
        !claimable(claimed(t, worker, now, lease), later),
{
    reveal_strlit("processing");
    reveal_strlit("pending");
    assert("processing"@.len() != "pending"@.len());
}

/// A claimed task can be claimed again once its lease has run out.
pub proof fn lemma_expired_claim(
    t: TaskData,
    worker: Seq<char>,
    now: StampData,
    lease: StampData,
    later: StampData,
)
    requires
        store::stamp_before(lease, later),
    ensures
        claimable(claimed(t, worker, now, lease), later),
{
}

/// A claimed task can be archived; then it can be retried, and then it can be claimed.
pub proof fn lemma_life_cycle(
    t: TaskData,
    worker: Seq<char>,
    input: MarkTaskArchivedInput,
    now: StampData,
    lease: StampData,
)
    ensures
        archivable(claimed(t, worker, now, lease)),
        retryable(archived(t, input, now)),
        claimable(retried(t, now), now),
        !retryable(claimed(t, worker, now, lease)),
        !retryable(retried(t, now)),
{
    reveal_strlit("processing");
    reveal_strlit("pending");
    reveal_strlit("failed");
    reveal_strlit("archived");
    reveal_strlit("awaiting_manual_input");
    assert("processing"@.len() == 10 && "pending"@.len() == 7 && "failed"@.len() == 6
        && "archived"@.len() == 8 && "awaiting_manual_input"@.len() == 21);
}

/// A retry counts up and forgets the outcome of the last run, but not the article.
pub proof fn lemma_retry_resets(t: TaskData, now: StampData)
    ensures
        retried(t, now).retry_count == t.retry_count + 1,
        retried(t, now).last_error is None,
        retried(t, now).output_path is None,
        retried(t, now).page_kind is None,
        retried(t, now).snapshot_path is None,
        retried(t, now).worker_id is None,
        retried(t, now).lease_until is None,
        retried(t, now).status == "pending"@,
        retried(t, now).content_source == t.content_source,
        retried(t, now).updated_at == now,
        retried(t, now).id == t.id,
        retried(t, now).article_id == t.article_id,
        retried(t, now).created_at == t.created_at,
{
}

// ---------------------------------------------------------------------------
// Executable row changes
// ---------------------------------------------------------------------------

fn is_claimable(t: &TaskRow, now: &Stamp) -> (r: bool)
    ensures
        r == claimable(t@, now@),
{
    same(t.status.as_str(), "pending") || (same(t.status.as_str(), "processing") && (
    match &t.lease_until {
        Some(lease) => is_stamp_before(lease, now),
        None => true,
    }))
}

fn release(t: &mut TaskRow, status: &str, now: &Stamp)
    ensures
        final(t)@ == released(old(t)@, status@, now@),
{
    t.status = owned(status);
    t.worker_id = None;
    t.processing_started_at = None;
    t.lease_until = None;
    t.updated_at = now.copy();
}

fn coalesced(new: Option<&str>, old_value: &Option<String>) -> (r: Option<String>)
    ensures
        text::opt_text(r) == coalesce(text::opt_str(new), text::opt_text(*old_value)),
{
    match new {
        Some(s) => Some(owned(s)),
        None => copy_opt(old_value),
    }
}

fn filled_str<'a>(s: Option<&'a str>) -> (r: Option<&'a str>)
    ensures
        text::opt_str(r) == filled(text::opt_str(s)),
{
    match s {
        Some(t) => {
            let core = trimmed(t);
            if core.as_str().is_empty() {
                None
            } else {
                Some(t)
            }
        },
        None => None,
    }
}

/// The table with every row that the predicate selects changed by the function.
pub open spec fn changed_where(
    tasks: Seq<TaskData>,
    p: spec_fn(TaskData) -> bool,
    f: spec_fn(TaskData) -> TaskData,
) -> Seq<TaskData> {
    Seq::new(
        tasks.len(),
        |i: int|
            if p(tasks[i]) {
                f(tasks[i])
            } else {
                tasks[i]
            },
    )
}

pub open spec fn any_where(tasks: Seq<TaskData>, p: spec_fn(TaskData) -> bool) -> bool {
    exists|i: int| 0 <= i < tasks.len() && p(#[trigger] tasks[i])
}

pub open spec fn claim_selects(id: Seq<char>, now: StampData) -> spec_fn(TaskData) -> bool {
    |t: TaskData| t.id == id && claimable(t, now)
}

pub open spec fn archive_selects(id: Seq<char>) -> spec_fn(TaskData) -> bool {
    |t: TaskData| t.id == id && archivable(t)
}

/// A task that is not finished can be left to the user.
pub open spec fn awaiting_selects(id: Seq<char>) -> spec_fn(TaskData) -> bool {
    |t: TaskData| t.id == id && (t.status == "pending"@ || t.status == "processing"@)
}

pub open spec fn processing_selects(id: Seq<char>) -> spec_fn(TaskData) -> bool {
    |t: TaskData| t.id == id && t.status == "processing"@
}

proof fn lemma_task_data_set(rows: Seq<TaskRow>, i: int, row: TaskRow)
    requires
        0 <= i < rows.len(),
    ensures
        store::task_data(rows.update(i, row)) == store::task_data(rows).update(i, row@),
{
    assert(store::task_data(rows.update(i, row)) =~= store::task_data(rows).update(i, row@));
}

/// The first `k` rows changed where selected, the others as they were.
spec fn partly_changed(
    tasks: Seq<TaskData>,
    p: spec_fn(TaskData) -> bool,
    f: spec_fn(TaskData) -> TaskData,
    k: int,
) -> Seq<TaskData> {
    Seq::new(
        tasks.len(),
        |i: int|
            if i < k && p(tasks[i]) {
                f(tasks[i])
            } else {
                tasks[i]
            },
    )
}

// ---------------------------------------------------------------------------
// Listings
// ---------------------------------------------------------------------------

/// Which tasks a listing shows.
#[derive(Debug, Clone)]
pub enum TaskFilter {
    Any,
    Status(String),
    Claimable(Stamp),
    ArchivedBetween(Stamp, Stamp),
}

#[allow(inconsistent_fields)]
pub enum FilterData {
    Any,
    Status(Seq<char>),
    Claimable(StampData),
    ArchivedBetween(StampData, StampData),
}

impl View for TaskFilter {
    type V = FilterData;

    open spec fn view(&self) -> FilterData {
        match *self {
            TaskFilter::Any => FilterData::Any,
            TaskFilter::Status(s) => FilterData::Status(s@),
            TaskFilter::Claimable(now) => FilterData::Claimable(now@),
            TaskFilter::ArchivedBetween(a, b) => FilterData::ArchivedBetween(a@, b@),
        }
    }
}

/// `t` lies in the half-open range; nothing is known of a text that is no date.
pub open spec fn in_range(t: StampData, start: StampData, end: StampData) -> bool {
    t.secs is Some && start.secs is Some && !store::stamp_before(t, start) && store::stamp_before(t, end)
}

pub open spec fn passes(f: FilterData, t: TaskData) -> bool {
    match f {
        FilterData::Any => true,
        FilterData::Status(s) => t.status == s,
        FilterData::Claimable(now) => claimable(t, now),
        FilterData::ArchivedBetween(a, b) => t.status == "archived"@ && in_range(
            t.updated_at,
            a,
            b,
        ),
    }
}

/// The selected tasks with their articles, in table order.
pub open spec fn selected(
    tasks: Seq<TaskData>,
    articles: Seq<ArticleData>,
    f: FilterData,
) -> Seq<(TaskData, ArticleData)>
    decreases tasks.len(),
{
    if tasks.len() == 0 {
        Seq::empty()
    } else {
        let before = selected(tasks.drop_last(), articles, f);
        let t = tasks.last();
        match article_of(articles, t.article_id) {
            Some(a) => if passes(f, t) {
                before.push((t, a))
            } else {
                before
            },
            None => before,
        }
    }
}

/// How a listing is ordered.
#[derive(Debug, Clone, Copy, PartialEq, Eq, Structural)]
pub enum TaskOrder {
    /// Latest change first, by the text of the time.
    RecentFirst,
    /// Latest change first, by the second.
    LatestSecondFirst,
    /// Oldest task first.
    OldestFirst,
}

pub open spec fn order_key(o: TaskOrder, t: TaskData) -> Seq<Part> {
    match o {
        TaskOrder::RecentFirst => seq![
            Part::TextDown(t.updated_at.text),
            Part::TextDown(t.created_at.text),
        ],
        TaskOrder::LatestSecondFirst => seq![
            Part::NumDown(store::secs_key(t.updated_at)),
            Part::NumDown(store::secs_key(t.created_at)),
        ],
        TaskOrder::OldestFirst => seq![Part::Text(t.created_at.text)],
    }
}

pub open spec fn order_keys(rows: Seq<(TaskData, ArticleData)>, o: TaskOrder) -> Seq<Seq<Part>> {
    Seq::new(rows.len(), |i: int| order_key(o, rows[i].0))
}

/// The first `limit` selected tasks in the order.
pub open spec fn listing(
    s: StoreData,
    f: FilterData,
    o: TaskOrder,
    limit: int,
) -> Seq<(TaskData, ArticleData)> {
    let rows = selected(s.tasks, s.articles, f);
    let order = ordering::sort_order(order_keys(rows, o));
    Seq::new(
        if limit < rows.len() {
            limit as nat
        } else {
            rows.len()
        },
        |i: int| rows[order[i]],
    )
}

proof fn lemma_order_keys_uniform(rows: Seq<(TaskData, ArticleData)>, o: TaskOrder)
    ensures
        ordering::uniform(order_keys(rows, o)),
{
    let keys = order_keys(rows, o);
    assert forall|i: int, j: int| 0 <= i < keys.len() && 0 <= j < keys.len() implies ordering::same_shape(
        #[trigger] keys[i],
        #[trigger] keys[j],
    ) by {
        assert(keys[i] == order_key(o, rows[i].0));
        assert(keys[j] == order_key(o, rows[j].0));
    }
}

/// A listing is ordered: of two tasks that it shows, the later one does not come first
/// by its key.
pub proof fn lemma_listing_ordered(s: StoreData, f: FilterData, o: TaskOrder, limit: int, i: int, j: int)
    requires
        0 <= limit,
        0 <= i < j < listing(s, f, o, limit).len(),
    ensures
        !ordering::key_before(
            order_key(o, listing(s, f, o, limit)[j].0),
            order_key(o, listing(s, f, o, limit)[i].0),
        ),
{
    let rows = selected(s.tasks, s.articles, f);
    let keys = order_keys(rows, o);
    lemma_order_keys_uniform(rows, o);
    ordering::lemma_sort_order(keys);
    assert(ordering::in_order(keys, ordering::sort_order(keys)[i], ordering::sort_order(keys)[j]));
}

proof fn lemma_selected_passes(tasks: Seq<TaskData>, articles: Seq<ArticleData>, f: FilterData, i: int)
    requires
        0 <= i < selected(tasks, articles, f).len(),
    ensures
        passes(f, selected(tasks, articles, f)[i].0),
        tasks.contains(selected(tasks, articles, f)[i].0),
        articles.contains(selected(tasks, articles, f)[i].1),
        selected(tasks, articles, f)[i].1.id == selected(tasks, articles, f)[i].0.article_id,
    decreases tasks.len(),
{
    let before = selected(tasks.drop_last(), articles, f);
    let row = selected(tasks, articles, f)[i];
    if i < before.len() {
        lemma_selected_passes(tasks.drop_last(), articles, f, i);
        let k = choose|k: int| 0 <= k < tasks.drop_last().len() && tasks.drop_last()[k] == row.0;
        assert(tasks[k] == row.0);
    } else {
        assert(tasks[tasks.len() - 1] == row.0);
        rows::lemma_first_where(articles, article_with_id(row.0.article_id));
    }
}

/// A listing shows only tasks that its filter lets pass, each with its own article.
pub proof fn lemma_listing_passes(s: StoreData, f: FilterData, o: TaskOrder, limit: int, i: int)
    requires
        0 <= limit,
        0 <= i < listing(s, f, o, limit).len(),
    ensures
        passes(f, listing(s, f, o, limit)[i].0),
        s.tasks.contains(listing(s, f, o, limit)[i].0),
        s.articles.contains(listing(s, f, o, limit)[i].1),
        listing(s, f, o, limit)[i].1.id == listing(s, f, o, limit)[i].0.article_id,
{
    let rows = selected(s.tasks, s.articles, f);
    let keys = order_keys(rows, o);
    ordering::lemma_sort_order_range(keys);
    lemma_selected_passes(s.tasks, s.articles, f, ordering::sort_order(keys)[i]);
}

proof fn lemma_selected_complete(
    tasks: Seq<TaskData>,
    articles: Seq<ArticleData>,
    f: FilterData,
    k: int,
)
    requires
        0 <= k < tasks.len(),
        passes(f, tasks[k]),
        article_of(articles, tasks[k].article_id) is Some,
    ensures
        selected(tasks, articles, f).contains(
            (tasks[k], article_of(articles, tasks[k].article_id).unwrap()),
        ),
    decreases tasks.len(),
{
    let row = (tasks[k], article_of(articles, tasks[k].article_id).unwrap());
    let rows = selected(tasks, articles, f);
    let init = selected(tasks.drop_last(), articles, f);
    if k == tasks.len() - 1 {
        assert(rows[init.len() as int] == row);
    } else {
        assert(tasks.drop_last()[k] == tasks[k]);
        lemma_selected_complete(tasks.drop_last(), articles, f, k);
        let i = choose|i: int| 0 <= i < init.len() && init[i] == row;
        assert(rows[i] == row);
    }
}

/// Where the limit allows, a listing shows every task that passes, if its article is there.
pub proof fn lemma_listing_complete(s: StoreData, f: FilterData, o: TaskOrder, limit: int, k: int)
    requires
        0 <= k < s.tasks.len(),
        passes(f, s.tasks[k]),
        article_of(s.articles, s.tasks[k].article_id) is Some,
        selected(s.tasks, s.articles, f).len() <= limit,
    ensures
        listing(s, f, o, limit).contains(
            (s.tasks[k], article_of(s.articles, s.tasks[k].article_id).unwrap()),
        ),
{
    let row = (s.tasks[k], article_of(s.articles, s.tasks[k].article_id).unwrap());
    let rows = selected(s.tasks, s.articles, f);
    let keys = order_keys(rows, o);
    lemma_selected_complete(s.tasks, s.articles, f, k);
    lemma_order_keys_uniform(rows, o);
    ordering::lemma_sort_order(keys);
    let i = choose|i: int| 0 <= i < rows.len() && rows[i] == row;
    let order = ordering::sort_order(keys);
    assert(order.contains(i));
    let j = choose|j: int| 0 <= j < order.len() && order[j] == i;
    assert(listing(s, f, o, limit)[j] == row);
}

/// The rows at these positions of the two tables.
pub open spec fn rows_at(s: StoreData, at: Seq<(usize, usize)>) -> Seq<(TaskData, ArticleData)> {
    Seq::new(at.len(), |i: int| (s.tasks[at[i].0 as int], s.articles[at[i].1 as int]))
}

pub open spec fn positions_ok(s: StoreData, at: Seq<(usize, usize)>) -> bool {
    forall|i: int|
        0 <= i < at.len() ==> (#[trigger] at[i]).0 < s.tasks.len() && at[i].1 < s.articles.len()
}

// ---------------------------------------------------------------------------
// Records
// ---------------------------------------------------------------------------

pub open spec fn status_record(r: TaskStatusRecord, t: TaskData, a: ArticleData) -> bool {
    &&& r.task_id@ == t.id
    &&& r.article_id@ == t.article_id
    &&& r.normalized_url@ == a.normalized_url
    &&& text::opt_text(r.title) == a.title
    &&& text::opt_text(r.content_source) == t.content_source
    &&& text::opt_text(r.page_kind) == t.page_kind
    &&& r.status@ == t.status
    &&& r.retry_count == t.retry_count
    &&& text::opt_text(r.last_error) == t.last_error
    &&& text::opt_text(r.output_path) == t.output_path
    &&& text::opt_text(r.snapshot_path) == t.snapshot_path
    &&& r.created_at@ == t.created_at.text
    &&& r.updated_at@ == t.updated_at.text
}

pub open spec fn content_record(r: TaskContentRecord, t: TaskData, a: ArticleData) -> bool {
    &&& r.task_id@ == t.id
    &&& r.article_id@ == t.article_id
    &&& r.normalized_url@ == a.normalized_url
    &&& r.original_url@ == a.original_url
    &&& text::opt_text(r.title) == a.title
}

pub open spec fn recent_record(r: RecentTaskRecord, t: TaskData, a: ArticleData) -> bool {
    &&& r.task_id@ == t.id
    &&& r.status@ == t.status
    &&& text::opt_text(r.content_source) == t.content_source
    &&& text::opt_text(r.page_kind) == t.page_kind
    &&& r.normalized_url@ == a.normalized_url
    &&& r.updated_at@ == t.updated_at.text
}

pub open spec fn archived_record(r: ArchivedTaskRecord, t: TaskData, a: ArticleData) -> bool {
    &&& r.task_id@ == t.id
    &&& r.article_id@ == t.article_id
    &&& r.normalized_url@ == a.normalized_url
    &&& text::opt_text(r.title) == a.title
    &&& text::opt_text(r.summary) == a.summary
    &&& text::opt_text(r.content_source) == t.content_source
    &&& text::opt_text(r.page_kind) == t.page_kind
    &&& text::opt_text(r.output_path) == t.output_path
    &&& r.updated_at@ == t.updated_at.text
}

pub open spec fn pending_record(r: PendingTaskRecord, t: TaskData, a: ArticleData) -> bool {
    &&& r.task_id@ == t.id
    &&& r.article_id@ == t.article_id
    &&& r.normalized_url@ == a.normalized_url
    &&& r.original_url@ == a.original_url
}

pub open spec fn claimable_record(r: ClaimableTaskRecord, t: TaskData, a: ArticleData) -> bool {
    &&& r.task_id@ == t.id
    &&& r.article_id@ == t.article_id
    &&& r.normalized_url@ == a.normalized_url
    &&& r.original_url@ == a.original_url
}

fn make_status(t: &TaskRow, a: &ArticleRow) -> (r: TaskStatusRecord)
    ensures
        status_record(r, t@, a@),
{
    TaskStatusRecord {
        task_id: t.id.clone(),
        article_id: t.article_id.clone(),
        normalized_url: a.normalized_url.clone(),
        title: copy_opt(&a.title),
        content_source: copy_opt(&t.content_source),
        page_kind: copy_opt(&t.page_kind),
        status: t.status.clone(),
        retry_count: t.retry_count,
        last_error: copy_opt(&t.last_error),
        output_path: copy_opt(&t.output_path),
        snapshot_path: copy_opt(&t.snapshot_path),
        created_at: t.created_at.text.clone(),
        updated_at: t.updated_at.text.clone(),
    }
}

fn make_recent(t: &TaskRow, a: &ArticleRow) -> (r: RecentTaskRecord)
    ensures
        recent_record(r, t@, a@),
{
    RecentTaskRecord {
        task_id: t.id.clone(),
        status: t.status.clone(),
        content_source: copy_opt(&t.content_source),
        page_kind: copy_opt(&t.page_kind),
        normalized_url: a.normalized_url.clone(),
        updated_at: t.updated_at.text.clone(),
    }
}

fn make_archived(t: &TaskRow, a: &ArticleRow) -> (r: ArchivedTaskRecord)
    ensures
        archived_record(r, t@, a@),
{
    ArchivedTaskRecord {
        task_id: t.id.clone(),
        article_id: t.article_id.clone(),
        normalized_url: a.normalized_url.clone(),
        title: copy_opt(&a.title),
        summary: copy_opt(&a.summary),
        content_source: copy_opt(&t.content_source),
        page_kind: copy_opt(&t.page_kind),
        output_path: copy_opt(&t.output_path),
        updated_at: t.updated_at.text.clone(),
    }
}

fn make_pending(t: &TaskRow, a: &ArticleRow) -> (r: PendingTaskRecord)
    ensures
        pending_record(r, t@, a@),
{
    PendingTaskRecord {
        task_id: t.id.clone(),
        article_id: t.article_id.clone(),
        normalized_url: a.normalized_url.clone(),
        original_url: a.original_url.clone(),
    }
}

fn make_claimable(t: &TaskRow, a: &ArticleRow) -> (r: ClaimableTaskRecord)
    ensures
        claimable_record(r, t@, a@),
{
    ClaimableTaskRecord {
        task_id: t.id.clone(),
        article_id: t.article_id.clone(),
        normalized_url: a.normalized_url.clone(),
        original_url: a.original_url.clone(),
    }
}

// ---------------------------------------------------------------------------
// Link submission
// ---------------------------------------------------------------------------

/// The position of the oldest task of the article among the first `k` rows.
pub open spec fn oldest_task(tasks: Seq<TaskData>, article_id: Seq<char>, k: nat) -> Option<int>
    decreases k,
{
    if k == 0 {
        None
    } else {
        let best = oldest_task(tasks, article_id, (k - 1) as nat);
        let t = tasks[k - 1];
        if t.article_id != article_id {
            best
        } else {
            match best {
                None => Some(k - 1),
                Some(i) => if text::text_before(t.created_at.text, tasks[i].created_at.text) {
                    Some(k - 1)
                } else {
                    Some(i)
                },
            }
        }
    }
}

/// A link that is handed in: its texts and what the new rows would be named.
pub struct LinkInput {
    pub original_url: Seq<char>,
    pub normalized_url: Seq<char>,
    pub source_domain: Option<Seq<char>>,
    pub now: StampData,
    pub new_article_id: Seq<char>,
    pub new_task_id: Seq<char>,
}

pub open spec fn new_article(l: LinkInput) -> ArticleData {
    ArticleData {
        id: l.new_article_id,
        normalized_url: l.normalized_url,
        original_url: l.original_url,
        title: None,
        source_domain: l.source_domain,
        summary: None,
        created_at: l.now,
        updated_at: l.now,
    }
}

pub open spec fn new_task(article_id: Seq<char>, l: LinkInput) -> TaskData {
    TaskData {
        id: l.new_task_id,
        article_id,
        status: "pending"@,
        retry_count: 0,
        last_error: None,
        content_source: None,
        page_kind: None,
        output_path: None,
        snapshot_path: None,
        worker_id: None,
        processing_started_at: None,
        lease_until: None,
        created_at: l.now,
        updated_at: l.now,
    }
}

/// The articles with the one of this id marked as changed now.
pub open spec fn touched(articles: Seq<ArticleData>, id: Seq<char>, now: StampData) -> Seq<ArticleData> {
    Seq::new(
        articles.len(),
        |i: int|
            if articles[i].id == id {
                ArticleData { updated_at: now, ..articles[i] }
            } else {
                articles[i]
            },
    )
}

/// The article id of a link: that of the article with its normal form, or the new one.
pub open spec fn link_article(articles: Seq<ArticleData>, l: LinkInput) -> Seq<char> {
    match rows::first_where(articles, article_with_url(l.normalized_url)) {
        Some(i) => articles[i].id,
        None => l.new_article_id,
    }
}

pub open spec fn link_is_new(articles: Seq<ArticleData>, l: LinkInput) -> bool {
    rows::first_where(articles, article_with_url(l.normalized_url)) is None
}

pub open spec fn link_articles(articles: Seq<ArticleData>, l: LinkInput) -> Seq<ArticleData> {
    match rows::first_where(articles, article_with_url(l.normalized_url)) {
        Some(i) => touched(articles, articles[i].id, l.now),
        None => articles.push(new_article(l)),
    }
}

/// The task id of a link: that of the oldest task of its article, or the new one.
pub open spec fn link_task(s: StoreData, l: LinkInput) -> Seq<char> {
    match oldest_task(s.tasks, link_article(s.articles, l), s.tasks.len()) {
        Some(i) => s.tasks[i].id,
        None => l.new_task_id,
    }
}

pub open spec fn link_tasks(s: StoreData, l: LinkInput) -> Seq<TaskData> {
    match oldest_task(s.tasks, link_article(s.articles, l), s.tasks.len()) {
        Some(_) => s.tasks,
        None => s.tasks.push(new_task(link_article(s.articles, l), l)),
    }
}

/// A new row would take an id that is in use.
pub open spec fn link_conflict(s: StoreData, l: LinkInput) -> Option<Seq<char>> {
    if link_is_new(s.articles, l) && rows::first_where(s.articles, article_with_id(l.new_article_id)) is Some {
        Some("写入文章失败"@)
    } else if oldest_task(s.tasks, link_article(s.articles, l), s.tasks.len()) is None
        && rows::first_where(s.tasks, task_with_id(l.new_task_id)) is Some {
        Some("写入任务失败"@)
    } else {
        None
    }
}

/// The store after a link was handed in.
pub open spec fn link_recorded(s: StoreData, l: LinkInput) -> StoreData {
    StoreData { articles: link_articles(s.articles, l), tasks: link_tasks(s, l), ..s }
}

proof fn lemma_oldest_task(tasks: Seq<TaskData>, article_id: Seq<char>, k: nat)
    requires
        k <= tasks.len(),
    ensures
        match oldest_task(tasks, article_id, k) {
            Some(i) => 0 <= i < k && tasks[i].article_id == article_id,
            None => forall|i: int| 0 <= i < k ==> (#[trigger] tasks[i]).article_id != article_id,
        },
    decreases k,
{
    if k > 0 {
        lemma_oldest_task(tasks, article_id, (k - 1) as nat);
    }
}

/// Handing in the same normal form again finds the article and the task of the first
/// time and adds no row.
pub proof fn lemma_resubmission(s: StoreData, l: LinkInput, again: LinkInput)
    requires
        again.normalized_url == l.normalized_url,
        link_conflict(s, l) is None,
    ensures
        ({
            let after = link_recorded(s, l);
            &&& !link_is_new(after.articles, again)
            &&& link_article(after.articles, again) == link_article(s.articles, l)
            &&& link_task(after, again) == link_task(s, l)
            &&& link_conflict(after, again) is None
            &&& link_recorded(after, again).articles.len() == after.articles.len()
            &&& link_recorded(after, again).tasks == after.tasks
        }),
{
    let after = link_recorded(s, l);
    let p = article_with_url(l.normalized_url);
    let id = link_article(s.articles, l);
    rows::lemma_first_where(s.articles, p);
    match rows::first_where(s.articles, p) {
        Some(i) => {
            assert forall|k: int| 0 <= k < i implies !p(#[trigger] after.articles[k]) by {
                assert(!p(s.articles[k]));
            }
            rows::lemma_first_is(after.articles, p, i);
        },
        None => {
            let i = s.articles.len() as int;
            assert forall|k: int| 0 <= k < i implies !p(#[trigger] after.articles[k]) by {
                assert(!p(s.articles[k]));
            }
            rows::lemma_first_is(after.articles, p, i);
        },
    }
    lemma_oldest_task(s.tasks, id, s.tasks.len());
    if oldest_task(s.tasks, id, s.tasks.len()) is None {
        lemma_oldest_prefix(s.tasks, after.tasks, id, s.tasks.len());
        let n = s.tasks.len();
        assert(after.tasks[n as int].article_id == id);
        assert(oldest_task(after.tasks, id, (n + 1) as nat) == Some(n as int));
    }
}

proof fn lemma_oldest_prefix(a: Seq<TaskData>, b: Seq<TaskData>, id: Seq<char>, k: nat)
    requires
        k <= a.len(),
        k <= b.len(),
        forall|i: int| 0 <= i < k ==> #[trigger] b[i] == a[i],
    ensures
        oldest_task(a, id, k) == oldest_task(b, id, k),
    decreases k,
{
    if k > 0 {
        lemma_oldest_task(a, id, (k - 1) as nat);
        lemma_oldest_prefix(a, b, id, (k - 1) as nat);
        assert(b[k - 1] == a[k - 1]);
    }
}

// ---------------------------------------------------------------------------
// Sound tables
// ---------------------------------------------------------------------------

/// Ids and normal forms are unique, and every task belongs to an article.
pub open spec fn sound(s: StoreData) -> bool {
    &&& forall|i: int, j: int|
        0 <= i < j < s.articles.len() ==> (#[trigger] s.articles[i]).id != (
        #[trigger] s.articles[j]).id && s.articles[i].normalized_url
            != s.articles[j].normalized_url
    &&& forall|i: int, j: int|
        0 <= i < j < s.tasks.len() ==> (#[trigger] s.tasks[i]).id != (#[trigger] s.tasks[j]).id
    &&& forall|i: int|
        0 <= i < s.tasks.len() ==> article_of(s.articles, (#[trigger] s.tasks[i]).article_id)
            is Some
}

/// Handing in a link keeps the tables sound.
pub proof fn lemma_link_keeps_sound(s: StoreData, l: LinkInput)
    requires
        sound(s),
        link_conflict(s, l) is None,
    ensures
        sound(link_recorded(s, l)),
{
    let after = link_recorded(s, l);
    let id = link_article(s.articles, l);
    let by_url = article_with_url(l.normalized_url);
    rows::lemma_first_where(s.articles, by_url);
    rows::lemma_first_where(s.articles, article_with_id(l.new_article_id));
    rows::lemma_first_where(s.tasks, task_with_id(l.new_task_id));
    assert forall|i: int, j: int| 0 <= i < j < after.articles.len() implies (
    #[trigger] after.articles[i]).id != (#[trigger] after.articles[j]).id
        && after.articles[i].normalized_url != after.articles[j].normalized_url by {
        if j < s.articles.len() {
            assert(s.articles[i].id != s.articles[j].id);
        } else {
            assert(!by_url(s.articles[i]));
            assert(!article_with_id(l.new_article_id)(s.articles[i]));
        }
    }
    assert forall|i: int, j: int| 0 <= i < j < after.tasks.len() implies (
    #[trigger] after.tasks[i]).id != (#[trigger] after.tasks[j]).id by {
        if j < s.tasks.len() {
            assert(s.tasks[i].id != s.tasks[j].id);
        } else {
            assert(!task_with_id(l.new_task_id)(s.tasks[i]));
        }
    }
    assert forall|i: int| 0 <= i < after.tasks.len() implies article_of(
        after.articles,
        (#[trigger] after.tasks[i]).article_id,
    ) is Some by {
        let q = article_with_id(after.tasks[i].article_id);
        rows::lemma_first_where(after.articles, q);
        if i < s.tasks.len() {
            assert(article_of(s.articles, s.tasks[i].article_id) is Some);
            rows::lemma_first_where(s.articles, q);
            let k = rows::first_where(s.articles, q)->0;
            assert(q(after.articles[k]));
        } else {
            match rows::first_where(s.articles, by_url) {
                Some(k) => {
                    assert(q(after.articles[k]));
                },
                None => {
                    assert(q(after.articles[s.articles.len() as int]));
                },
            }
        }
    }
}

/// A change of task rows that keeps ids and articles keeps the tables sound.
pub proof fn lemma_change_keeps_sound(
    s: StoreData,
    p: spec_fn(TaskData) -> bool,
    f: spec_fn(TaskData) -> TaskData,
)
    requires
        sound(s),
        forall|t: TaskData| (#[trigger] f(t)).id == t.id && f(t).article_id == t.article_id,
    ensures
        sound(StoreData { tasks: changed_where(s.tasks, p, f), ..s }),
{
    let after = StoreData { tasks: changed_where(s.tasks, p, f), ..s };
    assert forall|i: int, j: int| 0 <= i < j < after.tasks.len() implies (
    #[trigger] after.tasks[i]).id != (#[trigger] after.tasks[j]).id by {
        assert(s.tasks[i].id != s.tasks[j].id);
    }
    assert forall|i: int| 0 <= i < after.tasks.len() implies article_of(
        after.articles,
        (#[trigger] after.tasks[i]).article_id,
    ) is Some by {
        assert(article_of(s.articles, s.tasks[i].article_id) is Some);
    }
}

// ---------------------------------------------------------------------------
// The store's operations
// ---------------------------------------------------------------------------

fn limit_fits(limit: usize) -> (r: bool)
    ensures
        r == (limit <= i64::MAX),
{
    limit as u128 <= i64::MAX as u128
}

impl TaskStore {
    fn article_position(&self, id: &str) -> (r: Option<usize>)
        ensures
            match r {
                Some(i) => i < self.articles@.len() && rows::first_where(
                    self@.articles,
                    article_with_id(id@),
                ) == Some(i as int),
                None => rows::first_where(self@.articles, article_with_id(id@)) is None,
            },
    {
        let ghost p = article_with_id(id@);
        let mut i: usize = 0;
        while i < self.articles.len()
            invariant
                i <= self.articles.len(),
                p == article_with_id(id@),
                forall|k: int| 0 <= k < i ==> !p(#[trigger] self@.articles[k]),
            decreases self.articles.len() - i,
        {
            if same(self.articles[i].id.as_str(), id) {
                proof {
                    rows::lemma_first_is(self@.articles, p, i as int);
                }
                return Some(i);
            }
            i = i + 1;
        }
        proof {
            rows::lemma_first_none(self@.articles, p);
        }
        None
    }

    fn url_position(&self, url: &str) -> (r: Option<usize>)
        ensures
            match r {
                Some(i) => i < self.articles@.len() && rows::first_where(
                    self@.articles,
                    article_with_url(url@),
                ) == Some(i as int),
                None => rows::first_where(self@.articles, article_with_url(url@)) is None,
            },
    {
        let ghost p = article_with_url(url@);
        let mut i: usize = 0;
        while i < self.articles.len()
            invariant
                i <= self.articles.len(),
                p == article_with_url(url@),
                forall|k: int| 0 <= k < i ==> !p(#[trigger] self@.articles[k]),
            decreases self.articles.len() - i,
        {
            if same(self.articles[i].normalized_url.as_str(), url) {
                proof {
                    rows::lemma_first_is(self@.articles, p, i as int);
                }
                return Some(i);
            }
            i = i + 1;
        }
        proof {
            rows::lemma_first_none(self@.articles, p);
        }
        None
    }

    fn task_position(&self, id: &str) -> (r: Option<usize>)
        ensures
            match r {
                Some(i) => i < self.tasks@.len() && rows::first_where(self@.tasks, task_with_id(id@))
                    == Some(i as int),
                None => rows::first_where(self@.tasks, task_with_id(id@)) is None,
            },
    {
        let ghost p = task_with_id(id@);
        let mut i: usize = 0;
        while i < self.tasks.len()
            invariant
                i <= self.tasks.len(),
                p == task_with_id(id@),
                forall|k: int| 0 <= k < i ==> !p(#[trigger] self@.tasks[k]),
            decreases self.tasks.len() - i,
        {
            if same(self.tasks[i].id.as_str(), id) {
                proof {
                    rows::lemma_first_is(self@.tasks, p, i as int);
                }
                return Some(i);
            }
            i = i + 1;
        }
        proof {
            rows::lemma_first_none(self@.tasks, p);
        }
        None
    }

    fn oldest_position(&self, article_id: &str) -> (r: Option<usize>)
        ensures
            match r {
                Some(i) => i < self.tasks@.len() && oldest_task(
                    self@.tasks,
                    article_id@,
                    self@.tasks.len(),
                ) == Some(i as int),
                None => oldest_task(self@.tasks, article_id@, self@.tasks.len()) is None,
            },
    {
        let mut best: Option<usize> = None;
        let mut k: usize = 0;
        while k < self.tasks.len()
            invariant
                k <= self.tasks.len(),
                match best {
                    Some(i) => i < k && oldest_task(self@.tasks, article_id@, k as nat) == Some(
                        i as int,
                    ),
                    None => oldest_task(self@.tasks, article_id@, k as nat) is None,
                },
            decreases self.tasks.len() - k,
        {
            if same(self.tasks[k].article_id.as_str(), article_id) {
                best = match best {
                    None => Some(k),
                    Some(i) => if is_before(
                        self.tasks[k].created_at.text.as_str(),
                        self.tasks[i].created_at.text.as_str(),
                    ) {
                        Some(k)
                    } else {
                        Some(i)
                    },
                };
            }
            k = k + 1;
        }
        best
    }

    /// The positions of the task with this id and of its article.
    fn row_position(&self, task_id: &str) -> (r: Option<(usize, usize)>)
        ensures
            match r {
                Some(p) => p.0 < self.tasks@.len() && p.1 < self.articles@.len() && task_row(
                    self@,
                    task_id@,
                ) == Some((self@.tasks[p.0 as int], self@.articles[p.1 as int])),
                None => task_row(self@, task_id@) is None,
            },
    {
        match self.task_position(task_id) {
            Some(i) => match self.article_position(self.tasks[i].article_id.as_str()) {
                Some(j) => Some((i, j)),
                None => None,
            },
            None => None,
        }
    }

    /// Records a link whose normal form and host are known.
    pub fn record_normalized_link(
        &mut self,
        original_url: &str,
        normalized_url: &str,
        source_domain: Option<String>,
        now: &Stamp,
        new_article_id: &str,
        new_task_id: &str,
    ) -> (r: Result<LinkTaskRecord, TaskStoreError>)
        ensures
            ({
                let l = LinkInput {
                    original_url: original_url@,
                    normalized_url: normalized_url@,
                    source_domain: text::opt_text(source_domain),
                    now: now@,
                    new_article_id: new_article_id@,
                    new_task_id: new_task_id@,
                };
                match r {
                    Ok(rec) => {
                        &&& link_conflict(old(self)@, l) is None
                        &&& final(self)@ == link_recorded(old(self)@, l)
                        &&& rec.article_id@ == link_article(old(self)@.articles, l)
                        &&& rec.task_id@ == link_task(old(self)@, l)
                        &&& rec.normalized_url@ == normalized_url@
                        &&& rec.original_url@ == original_url@
                        &&& rec.created_new == link_is_new(old(self)@.articles, l)
                    },
                    Err(TaskStoreError::Validation(e)) => link_conflict(old(self)@, l) == Some(e@)
                        && final(self)@ == old(self)@,
                    Err(_) => false,
                }
            }),
    {
        let ghost s = self@;
        let ghost l = LinkInput {
            original_url: original_url@,
            normalized_url: normalized_url@,
            source_domain: text::opt_text(source_domain),
            now: now@,
            new_article_id: new_article_id@,
            new_task_id: new_task_id@,
        };
        let existing = self.url_position(normalized_url);
        let (article_id, created_new) = match existing {
            Some(i) => (self.articles[i].id.clone(), false),
            None => {
                if self.article_position(new_article_id).is_some() {
                    return Err(TaskStoreError::Validation("写入文章失败".to_string()));
                }
                (owned(new_article_id), true)
            },
        };
        let (task_id, task_exists) = match self.oldest_position(article_id.as_str()) {
            Some(i) => (self.tasks[i].id.clone(), true),
            None => {
                if self.task_position(new_task_id).is_some() {
                    return Err(TaskStoreError::Validation("写入任务失败".to_string()));
                }
                (owned(new_task_id), false)
            },
        };
        if created_new {
            let row = ArticleRow {
                id: owned(new_article_id),
                normalized_url: owned(normalized_url),
                original_url: owned(original_url),
                title: None,
                source_domain,
                summary: None,
                created_at: now.copy(),
                updated_at: now.copy(),
            };
            self.articles.push(row);
            proof {
                assert(self@.articles =~= s.articles.push(new_article(l)));
            }
        } else {
            self.touch_article(article_id.as_str(), now);
        }
        if !task_exists {
            let row = TaskRow {
                id: owned(new_task_id),
                article_id: article_id.clone(),
                status: "pending".to_string(),
                retry_count: 0,
                last_error: None,
                content_source: None,
                page_kind: None,
                output_path: None,
                snapshot_path: None,
                worker_id: None,
                processing_started_at: None,
                lease_until: None,
                created_at: now.copy(),
                updated_at: now.copy(),
            };
            self.tasks.push(row);
            proof {
                assert(self@.tasks =~= s.tasks.push(new_task(article_id@, l)));
            }
        }
        Ok(
            LinkTaskRecord {
                article_id,
                task_id,
                normalized_url: owned(normalized_url),
                original_url: owned(original_url),
                created_new,
            },
        )
    }

    fn touch_article(&mut self, id: &str, now: &Stamp)
        ensures
            final(self)@ == (StoreData {
                articles: touched(old(self)@.articles, id@, now@),
                ..old(self)@
            }),
    {
        let ghost s = self@;
        let mut i: usize = 0;
        while i < self.articles.len()
            invariant
                i <= self.articles.len(),
                self@ == (StoreData { articles: self@.articles, ..s }),
                self@.articles.len() == s.articles.len(),
                forall|k: int|
                    0 <= k < s.articles.len() ==> #[trigger] self@.articles[k] == (if k < i {
                        touched(s.articles, id@, now@)[k]
                    } else {
                        s.articles[k]
                    }),
            decreases self.articles.len() - i,
        {
            proof {
                assert(self@.articles[i as int] == self.articles@[i as int]@);
            }
            if same(self.articles[i].id.as_str(), id) {
                let mut row = self.articles[i].copy();
                row.updated_at = now.copy();
                let ghost before = self.articles@;
                self.articles.set(i, row);
                proof {
                    assert(store::article_data(self.articles@) =~= store::article_data(before).update(
                        i as int,
                        row@,
                    ));
                }
            }
            i = i + 1;
        }
        proof {
            assert(self@.articles =~= touched(s.articles, id@, now@));
        }
    }

    /// Records a link: its normal form finds the article, or makes a new one. The new
    /// ids are used where rows are added. The resolver is asked for the addresses of
    /// host names.
    pub fn record_link_submission<F: Fn(&str) -> Vec<IpAddress>>(
        &mut self,
        original_url: &str,
        resolver: F,
        now: &Stamp,
        new_article_id: &str,
        new_task_id: &str,
    ) -> (r: Result<LinkTaskRecord, TaskStoreError>)
        requires
            url_guard::resolves_all(resolver),
        ensures
            ({
                let l = |url: Seq<char>|
                    LinkInput {
                        original_url: original_url@,
                        normalized_url: url,
                        source_domain: url::host_of(url),
                        now: now@,
                        new_article_id: new_article_id@,
                        new_task_id: new_task_id@,
                    };
                match r {
                    Ok(rec) => {
                        let url = rec.normalized_url@;
                        &&& url::parsed_url(original_url@) matches Some(parts) && url_guard::web_scheme(
                            parts.scheme,
                        ) && (parts.host matches Some(host) ==> url_guard::host_judged(host, resolver, false))
                            && url == url_guard::normalized_form(original_url@, parts)
                        &&& link_conflict(old(self)@, l(url)) is None
                        &&& final(self)@ == link_recorded(old(self)@, l(url))
                        &&& rec.article_id@ == link_article(old(self)@.articles, l(url))
                        &&& rec.task_id@ == link_task(old(self)@, l(url))
                        &&& rec.original_url@ == original_url@
                        &&& rec.created_new == link_is_new(old(self)@.articles, l(url))
                    },
                    Err(TaskStoreError::InvalidUrl(text)) => url::parsed_url(original_url@) is None
                        && text@ == original_url@ && final(self)@ == old(self)@,
                    Err(TaskStoreError::UnsupportedScheme(text)) => url::parsed_url(original_url@)
                        matches Some(parts) && !url_guard::web_scheme(parts.scheme) && text@ == original_url@
                        && final(self)@ == old(self)@,
                    Err(TaskStoreError::PrivateNetworkUrl(text)) => url::parsed_url(original_url@)
                        matches Some(parts) && url_guard::web_scheme(parts.scheme) && (parts.host matches Some(
                        host,
                    ) && url_guard::host_judged(host, resolver, true)) && text@ == original_url@
                        && final(self)@ == old(self)@,
                    Err(TaskStoreError::Validation(e)) => url::parsed_url(original_url@) matches Some(
                        parts,
                    ) && url_guard::web_scheme(parts.scheme) && (parts.host matches Some(host)
                        ==> url_guard::host_judged(host, resolver, false)) && link_conflict(
                        old(self)@,
                        l(url_guard::normalized_form(original_url@, parts)),
                    ) == Some(e@) && final(self)@ == old(self)@,
                }
            }),
    {
        let normalized_url = match normalize_url(original_url, resolver) {
            Ok(url) => url,
            Err(e) => {
                return Err(e);
            },
        };
        let domain = source_domain(normalized_url.as_str());
        self.record_normalized_link(
            original_url,
            normalized_url.as_str(),
            domain,
            now,
            new_article_id,
            new_task_id,
        )
    }

    pub fn get_task_status(&self, task_id: &str) -> (r: Option<TaskStatusRecord>)
        ensures
            match r {
                Some(rec) => task_row(self@, task_id@) matches Some((t, a)) && status_record(
                    rec,
                    t,
                    a,
                ),
                None => task_row(self@, task_id@) is None,
            },
    {
        match self.row_position(task_id) {
            Some((i, j)) => Some(make_status(&self.tasks[i], &self.articles[j])),
            None => None,
        }
    }

    pub fn get_task_content(&self, task_id: &str) -> (r: Option<TaskContentRecord>)
        ensures
            match r {
                Some(rec) => task_row(self@, task_id@) matches Some((t, a)) && content_record(
                    rec,
                    t,
                    a,
                ),
                None => task_row(self@, task_id@) is None,
            },
    {
        match self.row_position(task_id) {
            Some((i, j)) => {
                let t = &self.tasks[i];
                let a = &self.articles[j];
                Some(
                    TaskContentRecord {
                        task_id: t.id.clone(),
                        article_id: t.article_id.clone(),
                        normalized_url: a.normalized_url.clone(),
                        original_url: a.original_url.clone(),
                        title: copy_opt(&a.title),
                    },
                )
            },
            None => None,
        }
    }

    pub fn get_pending_task(&self, task_id: &str) -> (r: Option<PendingTaskRecord>)
        ensures
            match r {
                Some(rec) => task_row(self@, task_id@) matches Some((t, a)) && t.status
                    == "pending"@ && pending_record(rec, t, a),
                None => !(task_row(self@, task_id@) matches Some((t, a)) && t.status
                    == "pending"@),
            },
    {
        match self.row_position(task_id) {
            Some((i, j)) => if same(self.tasks[i].status.as_str(), "pending") {
                Some(make_pending(&self.tasks[i], &self.articles[j]))
            } else {
                None
            },
            None => None,
        }
    }

    /// The task with this id in whatever state.
    pub fn get_task_by_id(&self, task_id: &str) -> (r: Option<ClaimableTaskRecord>)
        ensures
            match r {
                Some(rec) => task_row(self@, task_id@) matches Some((t, a)) && claimable_record(
                    rec,
                    t,
                    a,
                ),
                None => task_row(self@, task_id@) is None,
            },
    {
        match self.row_position(task_id) {
            Some((i, j)) => Some(make_claimable(&self.tasks[i], &self.articles[j])),
            None => None,
        }
    }

    fn row_passes(&self, i: usize, filter: &TaskFilter) -> (r: bool)
        requires
            i < self.tasks@.len(),
        ensures
            r == passes(filter@, self@.tasks[i as int]),
    {
        let t = &self.tasks[i];
        match filter {
            TaskFilter::Any => true,
            TaskFilter::Status(s) => same(t.status.as_str(), s.as_str()),
            TaskFilter::Claimable(now) => is_claimable(t, now),
            TaskFilter::ArchivedBetween(a, b) => same(t.status.as_str(), "archived")
                && t.updated_at.secs.is_some() && a.secs.is_some() && !is_stamp_before(
                &t.updated_at,
                a,
            ) && is_stamp_before(&t.updated_at, b),
        }
    }

    fn select_rows(&self, filter: &TaskFilter) -> (r: Vec<(usize, usize)>)
        ensures
            positions_ok(self@, r@),
            rows_at(self@, r@) == selected(self@.tasks, self@.articles, filter@),
    {
        let mut out: Vec<(usize, usize)> = Vec::new();
        let mut i: usize = 0;
        proof {
            assert(rows_at(self@, out@) =~= selected(
                self@.tasks.take(0),
                self@.articles,
                filter@,
            ));
        }
        while i < self.tasks.len()
            invariant
                i <= self.tasks.len(),
                positions_ok(self@, out@),
                rows_at(self@, out@) == selected(
                    self@.tasks.take(i as int),
                    self@.articles,
                    filter@,
                ),
            decreases self.tasks.len() - i,
        {
            let ghost before = out@;
            proof {
                assert(self@.tasks.take(i + 1).drop_last() =~= self@.tasks.take(i as int));
                assert(self@.tasks.take(i + 1).last() == self.tasks@[i as int]@);
            }
            if self.row_passes(i, filter) {
                if let Some(j) = self.article_position(self.tasks[i].article_id.as_str()) {
                    out.push((i, j));
                    proof {
                        assert(rows_at(self@, out@) =~= rows_at(self@, before).push(
                            (self@.tasks[i as int], self@.articles[j as int]),
                        ));
                    }
                }
            }
            i = i + 1;
        }
        proof {
            assert(self@.tasks.take(i as int) =~= self@.tasks);
        }
        out
    }

    fn row_key(&self, i: usize, order: TaskOrder) -> (r: Vec<KeyPart>)
        requires
            i < self.tasks@.len(),
        ensures
            ordering::key_view(r@) == order_key(order, self@.tasks[i as int]),
    {
        let t = &self.tasks[i];
        let mut key: Vec<KeyPart> = Vec::new();
        match order {
            TaskOrder::RecentFirst => {
                key.push(KeyPart::TextDown(t.updated_at.text.clone()));
                key.push(KeyPart::TextDown(t.created_at.text.clone()));
            },
            TaskOrder::LatestSecondFirst => {
                key.push(KeyPart::NumDown(stamp_key(&t.updated_at)));
                key.push(KeyPart::NumDown(stamp_key(&t.created_at)));
            },
            TaskOrder::OldestFirst => {
                key.push(KeyPart::Text(t.created_at.text.clone()));
            },
        }
        proof {
            assert(ordering::key_view(key@) =~= order_key(order, t@));
        }
        key
    }

    /// The positions of the rows that a listing shows, in order.
    fn list_rows(&self, filter: &TaskFilter, order: TaskOrder, limit: usize) -> (r: Vec<
        (usize, usize),
    >)
        ensures
            positions_ok(self@, r@),
            rows_at(self@, r@) == listing(self@, filter@, order, limit as int),
    {
        let picks = self.select_rows(filter);
        let ghost rows = selected(self@.tasks, self@.articles, filter@);
        let mut keys: Vec<Vec<KeyPart>> = Vec::new();
        let mut i: usize = 0;
        while i < picks.len()
            invariant
                i <= picks.len(),
                positions_ok(self@, picks@),
                rows == rows_at(self@, picks@),
                keys@.len() == i,
                forall|k: int|
                    0 <= k < i ==> ordering::key_view((#[trigger] keys@[k])@) == order_key(order, rows[k].0),
            decreases picks.len() - i,
        {
            let key = self.row_key(picks[i].0, order);
            keys.push(key);
            i = i + 1;
        }
        let sorted_rows = sort_rows(&keys);
        proof {
            assert(ordering::keys_view(keys@) =~= order_keys(rows, order));
        }
        let n: usize = if limit < picks.len() {
            limit
        } else {
            picks.len()
        };
        let mut out: Vec<(usize, usize)> = Vec::new();
        let mut k: usize = 0;
        while k < n
            invariant
                k <= n <= picks.len(),
                picks@.len() == sorted_rows@.len(),
                forall|i: int|
                    0 <= i < sorted_rows@.len() ==> (#[trigger] sorted_rows@[i]) < picks@.len(),
                positions_ok(self@, picks@),
                positions_ok(self@, out@),
                out@.len() == k,
                forall|i: int| 0 <= i < k ==> #[trigger] out@[i] == picks@[sorted_rows@[i] as int],
            decreases n - k,
        {
            out.push(picks[sorted_rows[k]]);
            k = k + 1;
        }
        proof {
            let shown = listing(self@, filter@, order, limit as int);
            assert(rows_at(self@, out@) =~= shown) by {
                assert forall|i: int| 0 <= i < n implies rows_at(self@, out@)[i] == #[trigger] shown[i] by {
                    assert(out@[i] == picks@[sorted_rows@[i] as int]);
                    assert(ordering::indices(sorted_rows@)[i] == sorted_rows@[i]);
                }
            }
        }
        out
    }

    fn recent_rows(&self, at: &Vec<(usize, usize)>) -> (r: Vec<RecentTaskRecord>)
        requires
            positions_ok(self@, at@),
        ensures
            r@.len() == at@.len(),
            forall|i: int|
                0 <= i < r@.len() ==> recent_record(
                    #[trigger] r@[i],
                    rows_at(self@, at@)[i].0,
                    rows_at(self@, at@)[i].1,
                ),
    {
        let mut out: Vec<RecentTaskRecord> = Vec::new();
        let mut i: usize = 0;
        while i < at.len()
            invariant
                i <= at.len(),
                positions_ok(self@, at@),
                out@.len() == i,
                forall|k: int|
                    0 <= k < i ==> recent_record(
                        #[trigger] out@[k],
                        rows_at(self@, at@)[k].0,
                        rows_at(self@, at@)[k].1,
                    ),
            decreases at.len() - i,
        {
            out.push(make_recent(&self.tasks[at[i].0], &self.articles[at[i].1]));
            i = i + 1;
        }
        out
    }

    fn archived_rows(&self, at: &Vec<(usize, usize)>) -> (r: Vec<ArchivedTaskRecord>)
        requires
            positions_ok(self@, at@),
        ensures
            r@.len() == at@.len(),
            forall|i: int|
                0 <= i < r@.len() ==> archived_record(
                    #[trigger] r@[i],
                    rows_at(self@, at@)[i].0,
                    rows_at(self@, at@)[i].1,
                ),
    {
        let mut out: Vec<ArchivedTaskRecord> = Vec::new();
        let mut i: usize = 0;
        while i < at.len()
            invariant
                i <= at.len(),
                positions_ok(self@, at@),
                out@.len() == i,
                forall|k: int|
                    0 <= k < i ==> archived_record(
                        #[trigger] out@[k],
                        rows_at(self@, at@)[k].0,
                        rows_at(self@, at@)[k].1,
                    ),
            decreases at.len() - i,
        {
            out.push(make_archived(&self.tasks[at[i].0], &self.articles[at[i].1]));
            i = i + 1;
        }
        out
    }

    pub fn list_recent_tasks(&self, limit: usize) -> (r: Result<
        Vec<RecentTaskRecord>,
        TaskStoreError,
    >)
        ensures
            match r {
                Ok(v) => limit <= i64::MAX && recent_list(
                    v@,
                    listing(self@, FilterData::Any, TaskOrder::RecentFirst, limit as int),
                ),
                Err(TaskStoreError::Validation(e)) => limit > i64::MAX && e@
                    == "recent task limit 超出范围"@,
                Err(_) => false,
            },
    {
        if !limit_fits(limit) {
            return Err(TaskStoreError::Validation("recent task limit 超出范围".to_string()));
        }
        let at = self.list_rows(&TaskFilter::Any, TaskOrder::RecentFirst, limit);
        Ok(self.recent_rows(&at))
    }

    pub fn list_manual_tasks(&self, limit: usize) -> (r: Result<
        Vec<RecentTaskRecord>,
        TaskStoreError,
    >)
        ensures
            match r {
                Ok(v) => limit <= i64::MAX && recent_list(
                    v@,
                    listing(
                        self@,
                        FilterData::Status("awaiting_manual_input"@),
                        TaskOrder::RecentFirst,
                        limit as int,
                    ),
                ),
                Err(TaskStoreError::Validation(e)) => limit > i64::MAX && e@
                    == "manual task limit 超出范围"@,
                Err(_) => false,
            },
    {
        if !limit_fits(limit) {
            return Err(TaskStoreError::Validation("manual task limit 超出范围".to_string()));
        }
        let filter = TaskFilter::Status("awaiting_manual_input".to_string());
        let at = self.list_rows(&filter, TaskOrder::RecentFirst, limit);
        Ok(self.recent_rows(&at))
    }

    pub fn list_archived_tasks(&self, limit: usize) -> (r: Result<
        Vec<ArchivedTaskRecord>,
        TaskStoreError,
    >)
        ensures
            match r {
                Ok(v) => limit <= i64::MAX && archived_list(
                    v@,
                    listing(
                        self@,
                        FilterData::Status("archived"@),
                        TaskOrder::LatestSecondFirst,
                        limit as int,
                    ),
                ),
                Err(TaskStoreError::Validation(e)) => limit > i64::MAX && e@
                    == "archived task limit 超出范围"@,
                Err(_) => false,
            },
    {
        if !limit_fits(limit) {
            return Err(TaskStoreError::Validation("archived task limit 超出范围".to_string()));
        }
        let filter = TaskFilter::Status("archived".to_string());
        let at = self.list_rows(&filter, TaskOrder::LatestSecondFirst, limit);
        Ok(self.archived_rows(&at))
    }

    pub fn list_archived_tasks_in_range(&self, start: &Stamp, end: &Stamp, limit: usize) -> (r:
        Result<Vec<ArchivedTaskRecord>, TaskStoreError>)
        ensures
            match r {
                Ok(v) => limit <= i64::MAX && archived_list(
                    v@,
                    listing(
                        self@,
                        FilterData::ArchivedBetween(start@, end@),
                        TaskOrder::LatestSecondFirst,
                        limit as int,
                    ),
                ),
                Err(TaskStoreError::Validation(e)) => limit > i64::MAX && e@
                    == "archived task limit 超出范围"@,
                Err(_) => false,
            },
    {
        if !limit_fits(limit) {
            return Err(TaskStoreError::Validation("archived task limit 超出范围".to_string()));
        }
        let filter = TaskFilter::ArchivedBetween(start.copy(), end.copy());
        let at = self.list_rows(&filter, TaskOrder::LatestSecondFirst, limit);
        Ok(self.archived_rows(&at))
    }

    pub fn list_pending_tasks(&self, limit: usize) -> (r: Result<
        Vec<PendingTaskRecord>,
        TaskStoreError,
    >)
        ensures
            match r {
                Ok(v) => limit <= i64::MAX && pending_list(
                    v@,
                    listing(
                        self@,
                        FilterData::Status("pending"@),
                        TaskOrder::OldestFirst,
                        limit as int,
                    ),
                ),
                Err(TaskStoreError::Validation(e)) => limit > i64::MAX && e@
                    == "pending task limit 超出范围"@,
                Err(_) => false,
            },
    {
        if !limit_fits(limit) {
            return Err(TaskStoreError::Validation("pending task limit 超出范围".to_string()));
        }
        let filter = TaskFilter::Status("pending".to_string());
        let at = self.list_rows(&filter, TaskOrder::OldestFirst, limit);
        let mut out: Vec<PendingTaskRecord> = Vec::new();
        let mut i: usize = 0;
        while i < at.len()
            invariant
                i <= at.len(),
                positions_ok(self@, at@),
                out@.len() == i,
                forall|k: int|
                    0 <= k < i ==> pending_record(
                        #[trigger] out@[k],
                        rows_at(self@, at@)[k].0,
                        rows_at(self@, at@)[k].1,
                    ),
            decreases at.len() - i,
        {
            out.push(make_pending(&self.tasks[at[i].0], &self.articles[at[i].1]));
            i = i + 1;
        }
        Ok(out)
    }

    /// All tasks that a worker may claim now.
    pub fn list_claimable_tasks(&self, limit: usize, now: &Stamp) -> (r: Result<
        Vec<ClaimableTaskRecord>,
        TaskStoreError,
    >)
        ensures
            match r {
                Ok(v) => limit <= i64::MAX && claimable_list(
                    v@,
                    listing(
                        self@,
                        FilterData::Claimable(now@),
                        TaskOrder::OldestFirst,
                        limit as int,
                    ),
                ),
                Err(TaskStoreError::Validation(e)) => limit > i64::MAX && e@
                    == "claimable task limit 超出范围"@,
                Err(_) => false,
            },
    {
        if !limit_fits(limit) {
            return Err(TaskStoreError::Validation("claimable task limit 超出范围".to_string()));
        }
        let filter = TaskFilter::Claimable(now.copy());
        let at = self.list_rows(&filter, TaskOrder::OldestFirst, limit);
        let mut out: Vec<ClaimableTaskRecord> = Vec::new();
        let mut i: usize = 0;
        while i < at.len()
            invariant
                i <= at.len(),
                positions_ok(self@, at@),
                out@.len() == i,
                forall|k: int|
                    0 <= k < i ==> claimable_record(
                        #[trigger] out@[k],
                        rows_at(self@, at@)[k].0,
                        rows_at(self@, at@)[k].1,
                    ),
            decreases at.len() - i,
        {
            out.push(make_claimable(&self.tasks[at[i].0], &self.articles[at[i].1]));
            i = i + 1;
        }
        Ok(out)
    }

    /// Hands a claimable task to a worker. Returns whether there was one.
    pub fn claim_task(&mut self, task_id: &str, worker_id: &str, now: &Stamp, lease_until: &Stamp) -> (r:
        bool)
        ensures
            r == any_where(old(self)@.tasks, claim_selects(task_id@, now@)),
            final(self)@ == (StoreData {
                tasks: changed_where(
                    old(self)@.tasks,
                    claim_selects(task_id@, now@),
                    |t: TaskData| claimed(t, worker_id@, now@, lease_until@),
                ),
                ..old(self)@
            }),
    {
        let ghost s = self@;
        let ghost p = claim_selects(task_id@, now@);
        let ghost f = |t: TaskData| claimed(t, worker_id@, now@, lease_until@);
        let mut found = false;
        let mut i: usize = 0;
        proof {
            assert(self@.tasks =~= partly_changed(s.tasks, p, f, 0));
        }
        while i < self.tasks.len()
            invariant
                i <= self.tasks.len(),
                p == claim_selects(task_id@, now@),
                f == (|t: TaskData| claimed(t, worker_id@, now@, lease_until@)),
                self@ == (StoreData { tasks: self@.tasks, ..s }),
                self@.tasks == partly_changed(s.tasks, p, f, i as int),
                self.tasks@.len() == s.tasks.len(),
                found == exists|k: int| 0 <= k < i && p(#[trigger] s.tasks[k]),
            decreases self.tasks.len() - i,
        {
            let ghost before = self.tasks@;
            proof {
                assert(self@.tasks[i as int] == s.tasks[i as int]);
            }
            if same(self.tasks[i].id.as_str(), task_id) && is_claimable(&self.tasks[i], now) {
                let mut row = self.tasks[i].copy();
                row.status = "processing".to_string();
                row.worker_id = Some(owned(worker_id));
                row.processing_started_at = Some(now.copy());
                row.lease_until = Some(lease_until.copy());
                row.updated_at = now.copy();
                self.tasks.set(i, row);
                found = true;
                proof {
                    lemma_task_data_set(before, i as int, row);
                    assert(p(s.tasks[i as int]));
                }
            }
            i = i + 1;
            proof {
                assert(self@.tasks =~= partly_changed(s.tasks, p, f, i as int));
            }
        }
        proof {
            assert(self@.tasks =~= changed_where(s.tasks, p, f));
        }
        found
    }

    /// Puts a task that has come to an end back into the queue. A task in another state
    /// is refused; for an unknown id there is no record.
    pub fn retry_task(&mut self, task_id: &str, now: &Stamp) -> (r: Result<
        Option<TaskStatusRecord>,
        TaskStoreError,
    >)
        ensures
            ({
                let s = old(self)@;
                match rows::first_where(s.tasks, task_with_id(task_id@)) {
                    None => r matches Ok(None) && final(self)@ == s,
                    Some(i) => {
                        let t = s.tasks[i];
                        if !retryable(t) {
                            &&& r matches Err(TaskStoreError::Validation(e)) && e@
                                == "任务当前状态为 "@ + t.status + "，不允许重试"@
                            &&& final(self)@ == s
                        } else if t.retry_count >= i64::MAX || article_of(s.articles, t.article_id)
                            is None {
                            &&& r matches Err(TaskStoreError::Validation(e)) && e@
                                == "读取重试后的任务状态失败"@
                            &&& final(self)@ == s
                        } else {
                            &&& final(self)@ == (StoreData {
                                tasks: s.tasks.update(i, retried(t, now@)),
                                ..s
                            })
                            &&& r matches Ok(Some(rec)) && status_record(
                                rec,
                                retried(t, now@),
                                article_of(s.articles, t.article_id)->0,
                            )
                        }
                    },
                }
            }),
    {
        let ghost s = self@;
        let i = match self.task_position(task_id) {
            Some(i) => i,
            None => {
                return Ok(None);
            },
        };
        let status = self.tasks[i].status.clone();
        if !(same(status.as_str(), "failed") || same(status.as_str(), "awaiting_manual_input")
            || same(status.as_str(), "archived")) {
            let mut message = "任务当前状态为 ".to_string();
            message.append(status.as_str());
            message.append("，不允许重试");
            return Err(TaskStoreError::Validation(message));
        }
        if self.tasks[i].retry_count == i64::MAX {
            return Err(TaskStoreError::Validation("读取重试后的任务状态失败".to_string()));
        }
        let j = match self.article_position(self.tasks[i].article_id.as_str()) {
            Some(j) => j,
            None => {
                return Err(TaskStoreError::Validation("读取重试后的任务状态失败".to_string()));
            },
        };
        let mut row = self.tasks[i].copy();
        release(&mut row, "pending", now);
        row.retry_count = row.retry_count + 1;
        row.last_error = None;
        row.page_kind = None;
        row.output_path = None;
        row.snapshot_path = None;
        let ghost before = self.tasks@;
        self.tasks.set(i, row);
        proof {
            lemma_task_data_set(before, i as int, row);
        }
        Ok(Some(make_status(&self.tasks[i], &self.articles[j])))
    }

    fn describe_article(&mut self, id: &str, title: Option<&str>, summary: Option<&str>, now: &Stamp)
        ensures
            final(self)@ == (StoreData {
                articles: described(
                    old(self)@.articles,
                    id@,
                    text::opt_str(title),
                    text::opt_str(summary),
                    now@,
                ),
                ..old(self)@
            }),
    {
        let ghost s = self@;
        let ghost goal = described(s.articles, id@, text::opt_str(title), text::opt_str(summary), now@);
        let title = filled_str(title);
        let summary = filled_str(summary);
        let mut i: usize = 0;
        while i < self.articles.len()
            invariant
                i <= self.articles.len(),
                self@ == (StoreData { articles: self@.articles, ..s }),
                self@.articles.len() == s.articles.len(),
                goal.len() == s.articles.len(),
                forall|k: int|
                    0 <= k < s.articles.len() ==> #[trigger] self@.articles[k] == (if k < i {
                        goal[k]
                    } else {
                        s.articles[k]
                    }),
                forall|k: int|
                    0 <= k < s.articles.len() ==> #[trigger] goal[k] == (if s.articles[k].id
                        == id@ {
                        ArticleData {
                            title: coalesce(s.articles[k].title, text::opt_str(title)),
                            summary: coalesce(text::opt_str(summary), s.articles[k].summary),
                            updated_at: if title is Some || summary is Some {
                                now@
                            } else {
                                s.articles[k].updated_at
                            },
                            ..s.articles[k]
                        }
                    } else {
                        s.articles[k]
                    }),
            decreases self.articles.len() - i,
        {
            proof {
                assert(self@.articles[i as int] == self.articles@[i as int]@);
            }
            if same(self.articles[i].id.as_str(), id) {
                let mut row = self.articles[i].copy();
                if row.title.is_none() {
                    row.title = owned_opt(title);
                }
                if let Some(text) = summary {
                    row.summary = Some(owned(text));
                }
                if title.is_some() || summary.is_some() {
                    row.updated_at = now.copy();
                }
                let ghost before = self.articles@;
                self.articles.set(i, row);
                proof {
                    assert(store::article_data(self.articles@) =~= store::article_data(before).update(
                        i as int,
                        row@,
                    ));
                    assert(row@ == goal[i as int]);
                }
            }
            i = i + 1;
        }
        proof {
            assert(self@.articles =~= goal);
        }
    }

    /// Marks a task that is pending, in work or waiting for input as archived, and fills in
    /// what is known of its article. Returns whether there was such a task.
    pub fn mark_task_archived(&mut self, task_id: &str, input: MarkTaskArchivedInput, now: &Stamp) -> (r:
        bool)
        ensures
            r == any_where(old(self)@.tasks, archive_selects(task_id@)),
            final(self)@.tasks == changed_where(
                old(self)@.tasks,
                archive_selects(task_id@),
                |t: TaskData| archived(t, input, now@),
            ),
            final(self)@ == (StoreData {
                tasks: final(self)@.tasks,
                articles: if r {
                    described(
                        old(self)@.articles,
                        first_article_id(old(self)@.tasks, task_id@),
                        text::opt_str(input.title),
                        text::opt_str(input.summary),
                        now@,
                    )
                } else {
                    old(self)@.articles
                },
                ..old(self)@
            }),
    {
        let ghost s = self@;
        let ghost p = archive_selects(task_id@);
        let ghost f = |t: TaskData| archived(t, input, now@);
        let mut found = false;
        let mut i: usize = 0;
        proof {
            assert(self@.tasks =~= partly_changed(s.tasks, p, f, 0));
        }
        while i < self.tasks.len()
            invariant
                i <= self.tasks.len(),
                p == archive_selects(task_id@),
                f == (|t: TaskData| archived(t, input, now@)),
                self@ == (StoreData { tasks: self@.tasks, ..s }),
                self@.tasks == partly_changed(s.tasks, p, f, i as int),
                self.tasks@.len() == s.tasks.len(),
                found == exists|k: int| 0 <= k < i && p(#[trigger] s.tasks[k]),
            decreases self.tasks.len() - i,
        {
            let ghost before = self.tasks@;
            proof {
                assert(self@.tasks[i as int] == s.tasks[i as int]);
            }
            if same(self.tasks[i].id.as_str(), task_id) && (same(
                self.tasks[i].status.as_str(),
                "processing",
            ) || same(self.tasks[i].status.as_str(), "awaiting_manual_input") || same(
                self.tasks[i].status.as_str(),
                "pending",
            )) {
                let mut row = self.tasks[i].copy();
                release(&mut row, "archived", now);
                row.last_error = None;
                row.output_path = Some(owned(input.output_path));
                row.page_kind = coalesced(input.page_kind, &row.page_kind);
                row.snapshot_path = owned_opt(input.snapshot_path);
                row.content_source = coalesced(input.content_source, &row.content_source);
                self.tasks.set(i, row);
                found = true;
                proof {
                    lemma_task_data_set(before, i as int, row);
                    assert(p(s.tasks[i as int]));
                }
            }
            i = i + 1;
            proof {
                assert(self@.tasks =~= partly_changed(s.tasks, p, f, i as int));
            }
        }
        proof {
            assert(self@.tasks =~= changed_where(s.tasks, p, f));
        }
        if found {
            let position = self.task_position(task_id);
            proof {
                lemma_same_ids(s.tasks, self@.tasks, task_id@);
                rows::lemma_first_where(s.tasks, task_with_id(task_id@));
                let k = choose|k: int| 0 <= k < s.tasks.len() && p(#[trigger] s.tasks[k]);
                assert(task_with_id(task_id@)(s.tasks[k]));
            }
            if let Some(k) = position {
                let article_id = self.tasks[k].article_id.clone();
                proof {
                    assert(self@.tasks[k as int].article_id == s.tasks[k as int].article_id);
                }
                self.describe_article(article_id.as_str(), input.title, input.summary, now);
            }
        }
        found
    }

    /// Marks a task that is pending or in work as waiting for input. Returns whether there was such a task.
    pub fn mark_task_awaiting_manual_input(
        &mut self,
        task_id: &str,
        last_error: &str,
        page_kind: &str,
        snapshot_path: Option<&str>,
        content_source: Option<&str>,
        now: &Stamp,
    ) -> (r: bool)
        ensures
            r == any_where(old(self)@.tasks, awaiting_selects(task_id@)),
            final(self)@ == (StoreData {
                tasks: changed_where(
                    old(self)@.tasks,
                    awaiting_selects(task_id@),
                    |t: TaskData|
                        awaiting(
                            t,
                            last_error@,
                            page_kind@,
                            text::opt_str(snapshot_path),
                            text::opt_str(content_source),
                            now@,
                        ),
                ),
                ..old(self)@
            }),
    {
        let ghost s = self@;
        let ghost p = awaiting_selects(task_id@);
        let ghost f = |t: TaskData|
            awaiting(
                t,
                last_error@,
                page_kind@,
                text::opt_str(snapshot_path),
                text::opt_str(content_source),
                now@,
            );
        let mut found = false;
        let mut i: usize = 0;
        proof {
            assert(self@.tasks =~= partly_changed(s.tasks, p, f, 0));
        }
        while i < self.tasks.len()
            invariant
                i <= self.tasks.len(),
                p == awaiting_selects(task_id@),
                f == (|t: TaskData|
                    awaiting(
                        t,
                        last_error@,
                        page_kind@,
                        text::opt_str(snapshot_path),
                        text::opt_str(content_source),
                        now@,
                    )),
                self@ == (StoreData { tasks: self@.tasks, ..s }),
                self@.tasks == partly_changed(s.tasks, p, f, i as int),
                self.tasks@.len() == s.tasks.len(),
                found == exists|k: int| 0 <= k < i && p(#[trigger] s.tasks[k]),
            decreases self.tasks.len() - i,
        {
            let ghost before = self.tasks@;
            proof {
                assert(self@.tasks[i as int] == s.tasks[i as int]);
            }
            if same(self.tasks[i].id.as_str(), task_id) && (same(
                self.tasks[i].status.as_str(),
                "processing",
            ) || same(self.tasks[i].status.as_str(), "pending")) {
                let mut row = self.tasks[i].copy();
                release(&mut row, "awaiting_manual_input", now);
                row.last_error = Some(owned(last_error));
                row.page_kind = Some(owned(page_kind));
                row.snapshot_path = coalesced(snapshot_path, &row.snapshot_path);
                row.content_source = coalesced(content_source, &row.content_source);
                row.output_path = None;
                self.tasks.set(i, row);
                found = true;
                proof {
                    lemma_task_data_set(before, i as int, row);
                    assert(p(s.tasks[i as int]));
                }
            }
            i = i + 1;
            proof {
                assert(self@.tasks =~= partly_changed(s.tasks, p, f, i as int));
            }
        }
        proof {
            assert(self@.tasks =~= changed_where(s.tasks, p, f));
        }
        found
    }

    /// Marks a task in work as failed. Returns whether there was such a task.
    pub fn mark_task_failed(&mut self, task_id: &str, last_error: &str, now: &Stamp) -> (r: bool)
        ensures
            r == any_where(old(self)@.tasks, processing_selects(task_id@)),
            final(self)@ == (StoreData {
                tasks: changed_where(
                    old(self)@.tasks,
                    processing_selects(task_id@),
                    |t: TaskData| failed(t, last_error@, now@),
                ),
                ..old(self)@
            }),
    {
        let ghost s = self@;
        let ghost p = processing_selects(task_id@);
        let ghost f = |t: TaskData| failed(t, last_error@, now@);
        let mut found = false;
        let mut i: usize = 0;
        proof {
            assert(self@.tasks =~= partly_changed(s.tasks, p, f, 0));
        }
        while i < self.tasks.len()
            invariant
                i <= self.tasks.len(),
                p == processing_selects(task_id@),
                f == (|t: TaskData| failed(t, last_error@, now@)),
                self@ == (StoreData { tasks: self@.tasks, ..s }),
                self@.tasks == partly_changed(s.tasks, p, f, i as int),
                self.tasks@.len() == s.tasks.len(),
                found == exists|k: int| 0 <= k < i && p(#[trigger] s.tasks[k]),
            decreases self.tasks.len() - i,
        {
            let ghost before = self.tasks@;
            proof {
                assert(self@.tasks[i as int] == s.tasks[i as int]);
            }
            if same(self.tasks[i].id.as_str(), task_id) && same(
                self.tasks[i].status.as_str(),
                "processing",
            ) {
                let mut row = self.tasks[i].copy();
                release(&mut row, "failed", now);
                row.last_error = Some(owned(last_error));
                row.output_path = None;
                self.tasks.set(i, row);
                found = true;
                proof {
                    lemma_task_data_set(before, i as int, row);
                    assert(p(s.tasks[i as int]));
                }
            }
            i = i + 1;
            proof {
                assert(self@.tasks =~= partly_changed(s.tasks, p, f, i as int));
            }
        }
        proof {
            assert(self@.tasks =~= changed_where(s.tasks, p, f));
        }
        found
    }
}

/// The article that the first task with this id belongs to.
pub open spec fn first_article_id(tasks: Seq<TaskData>, id: Seq<char>) -> Seq<char> {
    tasks[rows::first_where(tasks, task_with_id(id))->0].article_id
}

/// The articles with what an archived task tells of the one with this id.
pub open spec fn described(
    articles: Seq<ArticleData>,
    id: Seq<char>,
    title: Option<Seq<char>>,
    summary: Option<Seq<char>>,
    now: StampData,
) -> Seq<ArticleData> {
    Seq::new(
        articles.len(),
        |i: int|
            if articles[i].id == id {
                archived_article(articles[i], title, summary, now)
            } else {
                articles[i]
            },
    )
}

proof fn lemma_same_ids(a: Seq<TaskData>, b: Seq<TaskData>, id: Seq<char>)
    requires
        a.len() == b.len(),
        forall|i: int| 0 <= i < a.len() ==> (#[trigger] b[i]).id == a[i].id,
    ensures
        rows::first_where(b, task_with_id(id)) == rows::first_where(a, task_with_id(id)),
{
    let p = task_with_id(id);
    rows::lemma_first_where(a, p);
    match rows::first_where(a, p) {
        Some(i) => {
            assert forall|k: int| 0 <= k < i implies !p(#[trigger] b[k]) by {
                assert(!p(a[k]));
            }
            rows::lemma_first_is(b, p, i);
        },
        None => {
            assert forall|k: int| 0 <= k < b.len() implies !p(#[trigger] b[k]) by {
                assert(!p(a[k]));
            }
            rows::lemma_first_none(b, p);
        },
    }
}

pub open spec fn recent_list(v: Seq<RecentTaskRecord>, rows: Seq<(TaskData, ArticleData)>) -> bool {
    v.len() == rows.len() && forall|i: int|
        0 <= i < v.len() ==> recent_record(#[trigger] v[i], rows[i].0, rows[i].1)
}

pub open spec fn archived_list(
    v: Seq<ArchivedTaskRecord>,
    rows: Seq<(TaskData, ArticleData)>,
) -> bool {
    v.len() == rows.len() && forall|i: int|
        0 <= i < v.len() ==> archived_record(#[trigger] v[i], rows[i].0, rows[i].1)
}

pub open spec fn pending_list(v: Seq<PendingTaskRecord>, rows: Seq<(TaskData, ArticleData)>) -> bool {
    v.len() == rows.len() && forall|i: int|
        0 <= i < v.len() ==> pending_record(#[trigger] v[i], rows[i].0, rows[i].1)
}

pub open spec fn claimable_list(
    v: Seq<ClaimableTaskRecord>,
    rows: Seq<(TaskData, ArticleData)>,
) -> bool {
    v.len() == rows.len() && forall|i: int|
        0 <= i < v.len() ==> claimable_record(#[trigger] v[i], rows[i].0, rows[i].1)
}

// ---------------------------------------------------------------------------
// Laws
// ---------------------------------------------------------------------------

/// Which of two tasks a list shows first: the one that was changed last, by the text or by
/// the second of the time, and of two that were changed at once the one that was made last;
/// or, in a list of the oldest, the one that was made first.
pub proof fn lemma_listing_by_time(
    s: StoreData,
    f: FilterData,
    o: TaskOrder,
    limit: int,
    i: int,
    j: int,
)
    requires
        0 <= limit,
        0 <= i < j < listing(s, f, o, limit).len(),
    ensures
        ({
            let a = listing(s, f, o, limit)[i].0;
            let b = listing(s, f, o, limit)[j].0;
            match o {
                TaskOrder::RecentFirst => {
                    &&& !text::text_before(a.updated_at.text, b.updated_at.text)
                    &&& a.updated_at.text == b.updated_at.text ==> !text::text_before(
                        a.created_at.text,
                        b.created_at.text,
                    )
                },
                TaskOrder::LatestSecondFirst => {
                    &&& store::secs_key(a.updated_at) >= store::secs_key(b.updated_at)
                    &&& store::secs_key(a.updated_at) == store::secs_key(b.updated_at)
                        ==> store::secs_key(a.created_at) >= store::secs_key(b.created_at)
                },
                TaskOrder::OldestFirst => !text::text_before(
                    b.created_at.text,
                    a.created_at.text,
                ),
            }
        }),
{
    let a = listing(s, f, o, limit)[i].0;
    let b = listing(s, f, o, limit)[j].0;
    lemma_listing_ordered(s, f, o, limit, i, j);
    let x = order_key(o, b);
    let y = order_key(o, a);
    assert(ordering::same_shape(x, y));
    if ordering::part_before(x[0], y[0]) {
        ordering::lemma_first_difference(x, y, 0);
    }
    if x.len() > 1 && x[0] == y[0] && ordering::part_before(x[1], y[1]) {
        ordering::lemma_first_difference(x, y, 1);
    }
}

/// The oldest task of an article is one of its tasks, and none of them was made before it.
/// An article without tasks has none.
pub proof fn lemma_no_older_task(tasks: Seq<TaskData>, article_id: Seq<char>, k: nat, i: int)
    requires
        k <= tasks.len(),
        0 <= i < k,
    ensures
        match oldest_task(tasks, article_id, k) {
            Some(n) => 0 <= n < k && tasks[n].article_id == article_id && (tasks[i].article_id
                == article_id ==> !text::text_before(
                tasks[i].created_at.text,
                tasks[n].created_at.text,
            )),
            None => tasks[i].article_id != article_id,
        },
    decreases k,
{
    let m = (k - 1) as nat;
    text::lemma_text_order(tasks[k - 1].created_at.text, tasks[k - 1].created_at.text);
    if i < m {
        lemma_no_older_task(tasks, article_id, m, i);
        if tasks[k - 1].article_id == article_id {
            match oldest_task(tasks, article_id, m) {
                Some(n) => {
                    let x = tasks[i].created_at.text;
                    let y = tasks[n].created_at.text;
                    let z = tasks[k - 1].created_at.text;
                    if text::text_before(z, y) && text::text_before(x, z) {
                        text::lemma_text_order_transitive(x, z, y);
                    }
                },
                None => {},
            }
        }
    } else if m > 0 {
        lemma_no_older_task(tasks, article_id, m, 0);
        match oldest_task(tasks, article_id, m) {
            Some(n) => {
                text::lemma_text_order(tasks[n].created_at.text, tasks[n].created_at.text);
            },
            None => {},
        }
    }
}

/// What the archive tells of an article: a title that it has stays, and only a missing one
/// is filled in; a new summary takes the place of the old one. Blank texts tell nothing.
pub proof fn lemma_article_is_described(
    a: ArticleData,
    title: Seq<char>,
    summary: Seq<char>,
    now: StampData,
)
    ensures
        ({
            let r = archived_article(a, Some(title), Some(summary), now);
            &&& a.title is Some ==> r.title == a.title
            &&& a.title is None && !text::is_blank(title) ==> r.title == Some(title)
            &&& a.title is None && text::is_blank(title) ==> r.title is None
            &&& !text::is_blank(summary) ==> r.summary == Some(summary)
            &&& text::is_blank(summary) ==> r.summary == a.summary
            &&& text::is_blank(title) && text::is_blank(summary) ==> r == a
            &&& r.id == a.id && r.normalized_url == a.normalized_url
            &&& archived_article(a, None, None, now) == a
        }),
{
}

/// A range of time holds its start and not its end; ranges that follow each other share no
/// moment and leave none out.
pub proof fn lemma_ranges_follow(t: i64, a: i64, b: i64, c: i64, text: Seq<char>)
    requires
        a <= b <= c,
    ensures
        ({
            let at = StampData { text, secs: Some(t) };
            let x = store::moment(a as int);
            let y = store::moment(b as int);
            let z = store::moment(c as int);
            &&& !(in_range(at, x, y) && in_range(at, y, z))
            &&& in_range(at, x, z) == (in_range(at, x, y) || in_range(at, y, z))
            &&& a < b ==> in_range(StampData { text, secs: Some(a) }, x, y)
            &&& !in_range(StampData { text, secs: Some(b) }, x, y)
        }),
{
}

/// A failed task keeps its reason, and so does one that waits for its text; neither has a
/// worker or a file.
pub proof fn lemma_reason_is_kept(
    t: TaskData,
    reason: Seq<char>,
    kind: Seq<char>,
    snapshot: Option<Seq<char>>,
    source: Option<Seq<char>>,
    now: StampData,
)
    ensures
        ({
            let x = failed(t, reason, now);
            let y = awaiting(t, reason, kind, snapshot, source, now);
            &&& x.last_error == Some(reason) && y.last_error == Some(reason)
            &&& x.worker_id is None && y.worker_id is None
            &&& x.lease_until is None && y.lease_until is None
            &&& x.output_path is None && y.output_path is None
            &&& x.retry_count == t.retry_count && y.retry_count == t.retry_count
            &&& x.page_kind == t.page_kind && x.snapshot_path == t.snapshot_path
            &&& y.page_kind == Some(kind)
            &&& snapshot is Some ==> y.snapshot_path == snapshot
            &&& snapshot is None ==> y.snapshot_path == t.snapshot_path
            &&& source is Some ==> y.content_source == source
            &&& source is None ==> y.content_source == t.content_source
            &&& x.status == "failed"@ && y.status == "awaiting_manual_input"@
            &&& retryable(x) && retryable(y)
            &&& x.created_at == t.created_at && y.created_at == t.created_at
            &&& x.updated_at == now && y.updated_at == now
        }),
{
}

/// A claim is held up to the end of its lease: until that second no one else gets the task,
/// and from the next one on anyone does.
pub proof fn lemma_lease_runs_out(
    t: TaskData,
    worker: Seq<char>,
    now: StampData,
    lease: StampData,
    later: StampData,
)
    requires
        lease.secs is Some,
        later.secs is Some,
    ensures
        claimable(claimed(t, worker, now, lease), later) == (lease.secs->0 < later.secs->0),
        claimed(t, worker, now, lease).worker_id == Some(worker),
{
    reveal_strlit("pending");
    reveal_strlit("processing");
    assert("pending"@.len() == 7);
    assert("processing"@.len() == 10);
}

/// An archived task has its file and no error or worker; what the archive does not tell of its
/// kind and its source stays.
pub proof fn lemma_archived_task(t: TaskData, input: MarkTaskArchivedInput, now: StampData)
    ensures
        ({
            let r = archived(t, input, now);
            &&& r.status == "archived"@ && r.output_path == Some(input.output_path@)
            &&& r.last_error is None && r.worker_id is None && r.lease_until is None
            &&& input.page_kind is Some ==> r.page_kind == text::opt_str(input.page_kind)
            &&& input.page_kind is None ==> r.page_kind == t.page_kind
            &&& input.content_source is Some ==> r.content_source == text::opt_str(
                input.content_source,
            )
            &&& input.content_source is None ==> r.content_source == t.content_source
            &&& r.snapshot_path == text::opt_str(input.snapshot_path)
            &&& r.id == t.id && r.article_id == t.article_id && r.retry_count == t.retry_count
            &&& r.created_at == t.created_at && r.updated_at == now
        }),
{
}

/// A link that is new makes an article and a task that waits for a worker, behind the others;
/// the rest of the store stays as it is.
pub proof fn lemma_new_link(s: StoreData, l: LinkInput)
    requires
        link_conflict(s, l) is None,
        link_is_new(s.articles, l),
        forall|i: int| 0 <= i < s.tasks.len() ==> (#[trigger] s.tasks[i]).article_id != l.new_article_id,
    ensures
        ({
            let r = link_recorded(s, l);
            &&& r.articles.len() == s.articles.len() + 1 && r.tasks.len() == s.tasks.len() + 1
            &&& r.articles.last().normalized_url == l.normalized_url
            &&& r.articles.last().original_url == l.original_url
            &&& r.articles.last().id == l.new_article_id
            &&& r.tasks.last().id == l.new_task_id
            &&& r.tasks.last().article_id == l.new_article_id
            &&& r.tasks.last().status == "pending"@ && r.tasks.last().retry_count == 0
            &&& claimable(r.tasks.last(), l.now)
            &&& r.articles.drop_last() == s.articles && r.tasks.drop_last() == s.tasks
            &&& r.memories == s.memories && r.sessions == s.sessions
        }),
{
    let n = s.tasks.len();
    if n > 0 {
        match oldest_task(s.tasks, l.new_article_id, n) {
            Some(i) => {
                lemma_no_older_task(s.tasks, l.new_article_id, n, 0);
                assert(s.tasks[i].article_id != l.new_article_id);
            },
            None => {},
        }
    }
    let r = link_recorded(s, l);
    assert(r.articles.drop_last() =~= s.articles);
    assert(r.tasks.drop_last() =~= s.tasks);
}

/// A link that is known marks its article as changed now and keeps everything else of it; the
/// other articles stay as they are.
pub proof fn lemma_known_link(s: StoreData, l: LinkInput, i: int)
    requires
        sound(s),
        0 <= i < s.articles.len(),
        !link_is_new(s.articles, l),
    ensures
        ({
            let r = link_recorded(s, l).articles;
            &&& r.len() == s.articles.len()
            &&& s.articles[i].normalized_url == l.normalized_url ==> r[i].updated_at == l.now
            &&& s.articles[i].normalized_url != l.normalized_url ==> r[i] == s.articles[i]
            &&& r[i].id == s.articles[i].id && r[i].title == s.articles[i].title
            &&& r[i].summary == s.articles[i].summary
            &&& r[i].normalized_url == s.articles[i].normalized_url
            &&& r[i].original_url == s.articles[i].original_url
        }),
{
    let p = article_with_url(l.normalized_url);
    rows::lemma_first_where(s.articles, p);
    let k = rows::first_where(s.articles, p)->0;
    assert(p(s.articles[k]));
    if i != k {
        if i < k {
            assert(s.articles[i].id != s.articles[k].id);
            assert(s.articles[i].normalized_url != s.articles[k].normalized_url);
        } else {
            assert(s.articles[k].id != s.articles[i].id);
            assert(s.articles[k].normalized_url != s.articles[i].normalized_url);
        }
    }
}

} // verus!
