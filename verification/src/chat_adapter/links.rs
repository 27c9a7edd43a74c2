//! Links that are handed in, and texts that are handed in for a task.

use crate::chat_adapter::replies;
use crate::chat_adapter::replies::{
    LinkData, build_link_submission_reply, build_manual_archive_rejected_reply,
};
use crate::rows;
use crate::task_store::store::{Stamp, StampData, StoreData, TaskData, TaskStore};
use crate::task_store::tasks;
use crate::task_store::tasks::LinkInput;
use crate::task_store::types;
use crate::task_store::types::{LinkTaskRecord, MarkTaskArchivedInput, TaskStoreError};
use crate::task_store::url_guard;
use crate::task_store::url_guard::{IpAddress, normalize_url, source_domain};
use crate::text;
use crate::text::{cat2, cat3, cat4, push_text};
use crate::url;
use vstd::prelude::*;

verus! {

/// The normal form of a link, or the message of the error.
pub open spec fn normal_outcome(r: Result<String, TaskStoreError>) -> Result<Seq<char>, Seq<char>> {
    match r {
        Ok(url) => Ok(url@),
        Err(e) => Err(types::error_message(e)),
    }
}

pub open spec fn normal_outcomes(v: Seq<Result<String, TaskStoreError>>) -> Seq<
    Result<Seq<char>, Seq<char>>,
> {
    Seq::new(v.len(), |i: int| normal_outcome(v[i]))
}

pub open spec fn id_pairs(v: Seq<(String, String)>) -> Seq<(Seq<char>, Seq<char>)> {
    Seq::new(v.len(), |i: int| (v[i].0@, v[i].1@))
}

/// The store and the replies after some links were recorded.
pub struct LinkRun {
    pub store: StoreData,
    pub records: Seq<LinkData>,
    pub failures: Seq<Seq<char>>,
}

pub open spec fn link_input(
    url: Seq<char>,
    normalized: Seq<char>,
    ids: (Seq<char>, Seq<char>),
    now: StampData,
) -> LinkInput {
    LinkInput {
        original_url: url,
        normalized_url: normalized,
        source_domain: url::host_of(normalized),
        now,
        new_article_id: ids.0,
        new_task_id: ids.1,
    }
}

/// One more link is recorded: a failure is listed with its link.
pub open spec fn link_step(
    run: LinkRun,
    url: Seq<char>,
    outcome: Result<Seq<char>, Seq<char>>,
    ids: (Seq<char>, Seq<char>),
    now: StampData,
) -> LinkRun {
    match outcome {
        Err(m) => LinkRun { failures: run.failures.push(url + " => "@ + m), ..run },
        Ok(normalized) => {
            let l = link_input(url, normalized, ids, now);
            match tasks::link_conflict(run.store, l) {
                Some(m) => LinkRun { failures: run.failures.push(url + " => "@ + m), ..run },
                None => LinkRun {
                    store: tasks::link_recorded(run.store, l),
                    records: run.records.push(
                        LinkData {
                            url: normalized,
                            original_url: url,
                            article_id: tasks::link_article(run.store.articles, l),
                            task_id: tasks::link_task(run.store, l),
                            created_new: tasks::link_is_new(run.store.articles, l),
                        },
                    ),
                    failures: run.failures,
                },
            }
        },
    }
}

/// The first `n` links recorded in order.
pub open spec fn link_run(
    s: StoreData,
    urls: Seq<Seq<char>>,
    outcomes: Seq<Result<Seq<char>, Seq<char>>>,
    ids: Seq<(Seq<char>, Seq<char>)>,
    now: StampData,
    n: nat,
) -> LinkRun
    decreases n,
{
    if n == 0 {
        LinkRun { store: s, records: Seq::empty(), failures: Seq::empty() }
    } else {
        link_step(
            link_run(s, urls, outcomes, ids, now, (n - 1) as nat),
            urls[n - 1],
            outcomes[n - 1],
            ids[n - 1],
            now,
        )
    }
}

fn failure_text(url: &str, message: &str) -> (r: String)
    ensures
        r@ == url@ + " => "@ + message@,
{
    cat3(url, " => ", message)
}

proof fn lemma_link_data_push(records: Seq<LinkTaskRecord>, r: LinkTaskRecord)
    ensures
        replies::link_data(records.push(r)) == replies::link_data(records).push(
            LinkData {
                url: r.normalized_url@,
                original_url: r.original_url@,
                article_id: r.article_id@,
                task_id: r.task_id@,
                created_new: r.created_new,
            },
        ),
{
    assert(replies::link_data(records.push(r)) =~= replies::link_data(records).push(
        replies::link_data(seq![r])[0],
    ));
}

/// Records links whose normal forms are known, and gives the reply. Each link has the two
/// ids that new rows would take.
pub fn record_links(
    store: &mut TaskStore,
    urls: &Vec<String>,
    outcomes: &Vec<Result<String, TaskStoreError>>,
    ids: &Vec<(String, String)>,
    now: &Stamp,
) -> (r: String)
    requires
        outcomes@.len() == urls@.len(),
        ids@.len() == urls@.len(),
    ensures
        ({
            let run = link_run(
                old(store)@,
                text::texts(urls@),
                normal_outcomes(outcomes@),
                id_pairs(ids@),
                now@,
                urls@.len(),
            );
            &&& final(store)@ == run.store
            &&& r@ == replies::link_reply(run.records, run.failures)
        }),
{
    let ghost s = store@;
    let ghost us = text::texts(urls@);
    let ghost os = normal_outcomes(outcomes@);
    let ghost is = id_pairs(ids@);
    let mut records: Vec<LinkTaskRecord> = Vec::new();
    let mut failures: Vec<String> = Vec::new();
    let mut i: usize = 0;
    proof {
        assert(replies::link_data(records@) =~= Seq::<LinkData>::empty());
        assert(text::texts(failures@) =~= Seq::<Seq<char>>::empty());
    }
    while i < urls.len()
        invariant
            i <= urls@.len(),
            outcomes@.len() == urls@.len(),
            ids@.len() == urls@.len(),
            us == text::texts(urls@),
            os == normal_outcomes(outcomes@),
            is == id_pairs(ids@),
            ({
                let run = link_run(s, us, os, is, now@, i as nat);
                &&& store@ == run.store
                &&& replies::link_data(records@) == run.records
                &&& text::texts(failures@) == run.failures
            }),
        decreases urls.len() - i,
    {
        let url = urls[i].as_str();
        proof {
            assert(us[i as int] == url@);
            assert(os[i as int] == normal_outcome(outcomes@[i as int]));
            assert(is[i as int] == (ids@[i as int].0@, ids@[i as int].1@));
        }
        match &outcomes[i] {
            Err(e) => {
                let m = e.message();
                let line = failure_text(url, m.as_str());
                push_text(&mut failures, line.as_str());
            },
            Ok(normalized) => {
                let domain = source_domain(normalized.as_str());
                match store.record_normalized_link(
                    url,
                    normalized.as_str(),
                    domain,
                    now,
                    ids[i].0.as_str(),
                    ids[i].1.as_str(),
                ) {
                    Ok(record) => {
                        proof {
                            lemma_link_data_push(records@, record);
                        }
                        records.push(record);
                    },
                    Err(e) => {
                        let m = e.message();
                        let line = failure_text(url, m.as_str());
                        push_text(&mut failures, line.as_str());
                    },
                }
            },
        }
        i = i + 1;
    }
    build_link_submission_reply(records.as_slice(), failures.as_slice())
}

/// What the normal form of a link can be, whatever the resolver answers.
pub open spec fn normalized_by<F: Fn(&str) -> Vec<IpAddress>>(
    url: Seq<char>,
    resolver: F,
    outcome: Result<String, TaskStoreError>,
) -> bool {
    match outcome {
        Ok(u) => url::parsed_url(url) matches Some(parts) && url_guard::web_scheme(parts.scheme) && (
        parts.host matches Some(host) ==> url_guard::host_judged(host, resolver, false)) && u@
            == url_guard::normalized_form(url, parts),
        Err(TaskStoreError::InvalidUrl(t)) => url::parsed_url(url) is None && t@ == url,
        Err(TaskStoreError::UnsupportedScheme(t)) => url::parsed_url(url) matches Some(parts)
            && !url_guard::web_scheme(parts.scheme) && t@ == url,
        Err(TaskStoreError::PrivateNetworkUrl(t)) => url::parsed_url(url) matches Some(parts)
            && url_guard::web_scheme(parts.scheme) && (parts.host matches Some(host) && url_guard::host_judged(
            host,
            resolver,
            true,
        )) && t@ == url,
        Err(_) => false,
    }
}

/// Records links that were handed in, and gives the reply. The resolver is asked for the
/// addresses of host names.
pub fn handle_link_submission<F: Fn(&str) -> Vec<IpAddress> + Copy>(
    store: &mut TaskStore,
    urls: &Vec<String>,
    resolver: F,
    ids: &Vec<(String, String)>,
    now: &Stamp,
) -> (r: String)
    requires
        url_guard::resolves_all(resolver),
        ids@.len() == urls@.len(),
    ensures
        exists|outcomes: Seq<Result<String, TaskStoreError>>|
            {
                &&& outcomes.len() == urls@.len()
                &&& forall|i: int|
                    0 <= i < urls@.len() ==> normalized_by(
                        urls@[i]@,
                        resolver,
                        #[trigger] outcomes[i],
                    )
                &&& final(store)@ == (#[trigger] link_run(
                    old(store)@,
                    text::texts(urls@),
                    normal_outcomes(outcomes),
                    id_pairs(ids@),
                    now@,
                    urls@.len(),
                )).store
                &&& r@ == replies::link_reply(
                    link_run(
                        old(store)@,
                        text::texts(urls@),
                        normal_outcomes(outcomes),
                        id_pairs(ids@),
                        now@,
                        urls@.len(),
                    ).records,
                    link_run(
                        old(store)@,
                        text::texts(urls@),
                        normal_outcomes(outcomes),
                        id_pairs(ids@),
                        now@,
                        urls@.len(),
                    ).failures,
                )
            },
{
    let mut outcomes: Vec<Result<String, TaskStoreError>> = Vec::new();
    let mut i: usize = 0;
    while i < urls.len()
        invariant
            i <= urls@.len(),
            outcomes@.len() == i,
            url_guard::resolves_all(resolver),
            forall|k: int|
                0 <= k < i ==> normalized_by(urls@[k]@, resolver, #[trigger] outcomes@[k]),
        decreases urls.len() - i,
    {
        outcomes.push(normalize_url(urls[i].as_str(), resolver));
        i = i + 1;
    }
    record_links(store, urls, &outcomes, ids, now)
}

// ---------------------------------------------------------------------------
// Texts for a task
// ---------------------------------------------------------------------------

/// The store and the reply after a text that the user gave was archived at a path.
pub open spec fn manual_recorded(
    before: StoreData,
    after: StoreData,
    task_id: Seq<char>,
    output_path: Seq<char>,
    title: Option<Seq<char>>,
    now: StampData,
    reply: Seq<char>,
) -> bool {
    let ok = tasks::any_where(before.tasks, tasks::archive_selects(task_id));
    &&& ok ==> reply == "已写入人工补正文\ntask_id: "@ + task_id + "\noutput_path: "@ + output_path
    &&& !ok ==> after == before && reply == replies::archive_rejection(before, task_id)
    &&& after.tasks.len() == before.tasks.len()
    &&& forall|i: int|
        0 <= i < before.tasks.len() ==> #[trigger] after.tasks[i] == manually_archived(
            before.tasks[i],
            task_id,
            output_path,
            now,
        )
    &&& after == (StoreData {
        tasks: after.tasks,
        articles: if ok {
            tasks::described(
                before.articles,
                tasks::first_article_id(before.tasks, task_id),
                title,
                None,
                now,
            )
        } else {
            before.articles
        },
        ..before
    })
}

/// Marks a task as archived with a text that the user gave, and gives the reply.
pub fn record_manual_archive(
    store: &mut TaskStore,
    task_id: &str,
    output_path: &str,
    title: Option<&str>,
    now: &Stamp,
) -> (r: String)
    ensures
        manual_recorded(
            old(store)@,
            final(store)@,
            task_id@,
            output_path@,
            text::opt_str(title),
            now@,
            r@,
        ),
{
    let ghost s = store@;
    let input = MarkTaskArchivedInput {
        output_path,
        title,
        page_kind: Some("manual_input"),
        snapshot_path: None,
        content_source: Some("manual_input"),
        summary: None,
    };
    if store.mark_task_archived(task_id, input, now) {
        cat4("已写入人工补正文\ntask_id: ", task_id, "\noutput_path: ", output_path)
    } else {
        proof {
            assert(store@.tasks =~= s.tasks);
        }
        build_manual_archive_rejected_reply(store, task_id)
    }
}

/// Takes note of how the archiving of a text that the user gave went: where the archive
/// stands, and its title. The reply says it.
pub fn settle_manual_content(
    store: &mut TaskStore,
    task_id: &str,
    outcome: &Result<(String, Option<String>), String>,
    now: &Stamp,
) -> (r: String)
    ensures
        match *outcome {
            Ok(archive) => manual_recorded(
                old(store)@,
                final(store)@,
                task_id@,
                archive.0@,
                text::opt_text(archive.1),
                now@,
                r@,
            ),
            Err(e) => final(store)@ == old(store)@ && r@ == "人工补录归档失败: "@ + e@,
        },
{
    match outcome {
        Ok(archive) => {
            let title: Option<&str> = match &archive.1 {
                Some(t) => Some(t.as_str()),
                None => None,
            };
            record_manual_archive(store, task_id, archive.0.as_str(), title, now)
        },
        Err(e) => cat2("人工补录归档失败: ", e.as_str()),
    }
}

/// A task after a text was archived for `task_id`.
pub open spec fn manually_archived(
    t: TaskData,
    task_id: Seq<char>,
    output_path: Seq<char>,
    now: StampData,
) -> TaskData {
    if tasks::archive_selects(task_id)(t) {
        TaskData {
            output_path: Some(output_path),
            page_kind: Some("manual_input"@),
            content_source: Some("manual_input"@),
            last_error: None,
            snapshot_path: None,
            ..(tasks::released(t, "archived"@, now))
        }
    } else {
        t
    }
}

// ---------------------------------------------------------------------------
// Laws
// ---------------------------------------------------------------------------

/// Every link is either recorded or listed as a failure, and none is so twice.
pub proof fn lemma_every_link_counts(
    s: StoreData,
    urls: Seq<Seq<char>>,
    outcomes: Seq<Result<Seq<char>, Seq<char>>>,
    ids: Seq<(Seq<char>, Seq<char>)>,
    now: StampData,
    n: nat,
)
    ensures
        ({
            let run = link_run(s, urls, outcomes, ids, now, n);
            run.records.len() + run.failures.len() == n
        }),
    decreases n,
{
    if n > 0 {
        lemma_every_link_counts(s, urls, outcomes, ids, now, (n - 1) as nat);
    }
}

/// A link that has no normal form is a failure, listed with the link and the reason. One
/// that has is recorded under its normal form, or listed as a failure with the link.
pub proof fn lemma_link_is_recorded(
    s: StoreData,
    urls: Seq<Seq<char>>,
    outcomes: Seq<Result<Seq<char>, Seq<char>>>,
    ids: Seq<(Seq<char>, Seq<char>)>,
    now: StampData,
    n: nat,
    i: int,
)
    requires
        0 <= i < n,
    ensures
        ({
            let run = link_run(s, urls, outcomes, ids, now, n);
            match outcomes[i] {
                Err(m) => run.failures.contains(urls[i] + " => "@ + m),
                Ok(normal) => {
                    ||| exists|j: int|
                        0 <= j < run.records.len() && (#[trigger] run.records[j]).url == normal
                            && run.records[j].original_url == urls[i]
                    ||| exists|j: int|
                        0 <= j < run.failures.len() && text::starts_with(
                            #[trigger] run.failures[j],
                            urls[i],
                        )
                },
            }
        }),
    decreases n,
{
    let run = link_run(s, urls, outcomes, ids, now, n);
    let before = link_run(s, urls, outcomes, ids, now, (n - 1) as nat);
    if i < n - 1 {
        lemma_link_is_recorded(s, urls, outcomes, ids, now, (n - 1) as nat, i);
        assert forall|j: int| 0 <= j < before.records.len() implies run.records[j]
            == #[trigger] before.records[j] by {}
        assert forall|j: int| 0 <= j < before.failures.len() implies run.failures[j]
            == #[trigger] before.failures[j] by {}
        match outcomes[i] {
            Err(m) => {
                let w = urls[i] + " => "@ + m;
                let j = choose|j: int| 0 <= j < before.failures.len() && before.failures[j] == w;
                assert(run.failures[j] == w);
            },
            Ok(normal) => {
                if exists|j: int|
                    0 <= j < before.records.len() && (#[trigger] before.records[j]).url == normal
                        && before.records[j].original_url == urls[i] {
                    let j = choose|j: int|
                        0 <= j < before.records.len() && (#[trigger] before.records[j]).url
                            == normal && before.records[j].original_url == urls[i];
                    assert(run.records[j].url == normal);
                } else {
                    let j = choose|j: int|
                        0 <= j < before.failures.len() && text::starts_with(
                            #[trigger] before.failures[j],
                            urls[i],
                        );
                    assert(text::starts_with(run.failures[j], urls[i]));
                }
            },
        }
    } else {
        match outcomes[i] {
            Err(m) => {
                assert(run.failures.last() == urls[i] + " => "@ + m);
            },
            Ok(normal) => {
                let l = link_input(urls[i], normal, ids[i], now);
                match tasks::link_conflict(before.store, l) {
                    Some(m) => {
                        let w = urls[i] + " => "@ + m;
                        let last = run.failures.len() - 1;
                        assert(run.failures[last] == w);
                        assert(w.subrange(0, urls[i].len() as int) =~= urls[i]);
                        assert(text::starts_with(run.failures[last], urls[i]));
                    },
                    None => {
                        let last = run.records.len() - 1;
                        assert(run.records[last].url == normal);
                    },
                }
            },
        }
    }
}

/// What was recorded of the first links stays as it is when more links come, and stands
/// before what is recorded of them.
pub proof fn lemma_earlier_links_stay(
    s: StoreData,
    urls: Seq<Seq<char>>,
    outcomes: Seq<Result<Seq<char>, Seq<char>>>,
    ids: Seq<(Seq<char>, Seq<char>)>,
    now: StampData,
    k: nat,
    n: nat,
)
    requires
        k <= n,
    ensures
        link_run(s, urls, outcomes, ids, now, k).records.is_prefix_of(
            link_run(s, urls, outcomes, ids, now, n).records,
        ),
        link_run(s, urls, outcomes, ids, now, k).failures.is_prefix_of(
            link_run(s, urls, outcomes, ids, now, n).failures,
        ),
    decreases n,
{
    if k < n {
        lemma_earlier_links_stay(s, urls, outcomes, ids, now, k, (n - 1) as nat);
    }
}

/// A text that the user gave finishes the task that it is for, with its file, and no other
/// task; a task that is finished already is not changed, and the reply says why.
pub proof fn lemma_manual_text_is_recorded(
    before: StoreData,
    after: StoreData,
    task_id: Seq<char>,
    output_path: Seq<char>,
    title: Option<Seq<char>>,
    now: StampData,
    reply: Seq<char>,
    i: int,
)
    requires
        manual_recorded(before, after, task_id, output_path, title, now, reply),
        0 <= i < before.tasks.len(),
    ensures
        before.tasks[i].id != task_id ==> after.tasks[i] == before.tasks[i],
        before.tasks[i].id == task_id && (before.tasks[i].status == "pending"@
            || before.tasks[i].status == "processing"@ || before.tasks[i].status
            == "awaiting_manual_input"@) ==> {
            let t = after.tasks[i];
            &&& t.status == "archived"@ && t.output_path == Some(output_path)
            &&& t.last_error is None && t.worker_id is None
            &&& t.page_kind == Some("manual_input"@) && t.content_source == Some("manual_input"@)
            &&& text::ends_with(reply, output_path)
        },
        before.tasks[i].status == "archived"@ || before.tasks[i].status == "failed"@
            ==> after.tasks[i] == before.tasks[i],
        after.memories == before.memories && after.sessions == before.sessions,
{
    let t = before.tasks[i];
    assert(after.tasks[i] == manually_archived(t, task_id, output_path, now));
    reveal_strlit("pending");
    reveal_strlit("processing");
    reveal_strlit("awaiting_manual_input");
    reveal_strlit("archived");
    reveal_strlit("failed");
    assert("pending"@.len() == 7 && "processing"@.len() == 10);
    assert("awaiting_manual_input"@.len() == 21);
    assert("archived"@.len() == 8 && "failed"@.len() == 6);
    if tasks::archive_selects(task_id)(t) {
        assert(tasks::any_where(before.tasks, tasks::archive_selects(task_id)));
        assert(reply.subrange(reply.len() - output_path.len(), reply.len() as int)
            =~= output_path);
    }
}

/// What is recorded of a link is what the store then holds: an article with its normal form,
/// and a task of that article.
pub proof fn lemma_record_tells_the_store(
    run: LinkRun,
    url: Seq<char>,
    normalized: Seq<char>,
    ids: (Seq<char>, Seq<char>),
    now: StampData,
)
    requires
        tasks::link_conflict(run.store, link_input(url, normalized, ids, now)) is None,
    ensures
        ({
            let r = link_step(run, url, Ok(normalized), ids, now);
            let x = r.records.last();
            &&& r.records.len() == run.records.len() + 1 && r.failures == run.failures
            &&& exists|i: int|
                0 <= i < r.store.articles.len() && (#[trigger] r.store.articles[i]).id
                    == x.article_id && r.store.articles[i].normalized_url == normalized
            &&& exists|i: int|
                0 <= i < r.store.tasks.len() && (#[trigger] r.store.tasks[i]).id == x.task_id
                    && r.store.tasks[i].article_id == x.article_id
            &&& x.created_new == (r.store.articles.len() > run.store.articles.len())
        }),
{
    let l = link_input(url, normalized, ids, now);
    let s = run.store;
    let r = link_step(run, url, Ok(normalized), ids, now);
    let x = r.records.last();
    let p = tasks::article_with_url(normalized);
    rows::lemma_first_where(s.articles, p);
    match rows::first_where(s.articles, p) {
        Some(i) => {
            assert(p(s.articles[i]));
            assert(r.store.articles[i].id == x.article_id);
        },
        None => {
            let i = s.articles.len() as int;
            assert(r.store.articles[i].id == x.article_id);
        },
    }
    let n = s.tasks.len();
    let a = tasks::link_article(s.articles, l);
    match tasks::oldest_task(s.tasks, a, n) {
        Some(i) => {
            if n > 0 {
                tasks::lemma_no_older_task(s.tasks, a, n, 0);
            }
            assert(r.store.tasks[i].id == x.task_id);
        },
        None => {
            let i = n as int;
            assert(r.store.tasks[i].id == x.task_id);
        },
    }
}

} // verus!
