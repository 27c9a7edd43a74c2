//! Routing of inbound text to an intent.

use crate::text;
use crate::text::{
    CharClass, ascii_alphabetic, ascii_alphanumeric, chars_of, has, has_char, has_prefix,
    has_suffix, owned, push_text, same, split_by_char, split_once, split_words, string_of,
    strip_prefix, strip_suffix, trim_chars, trim_leading_chars, trim_trailing_chars, trimmed,
};
use crate::url;
use crate::url::url_host;
use vstd::prelude::*;

verus! {

#[allow(inconsistent_fields)]
#[derive(Debug, Clone, PartialEq, Eq)]
pub enum RouteIntent {
    ManualContentSubmission { task_id: String, content: String },
    TaskRetryRequest { task_id: String },
    ManualTasksQuery,
    RecentTasksQuery,
    UserMemoryWrite { content: String },
    UserMemoryUseful { memory_id: String },
    UserMemorySuppress { memory_id: String },
    UserMemoriesQuery,
    ContextDebugQuery { text: Option<String> },
    DailyReportQuery { day: Option<String> },
    TaskStatusQuery { task_id: String },
    LinkSubmission { urls: Vec<String> },
    ChatContinue { text: String },
    ChatCommit { text: String },
    ChatPending { text: String },
    Ignore,
}

/// An intent with its texts as sequences of characters.
#[allow(inconsistent_fields)]
pub enum Route {
    ManualContentSubmission { task_id: Seq<char>, content: Seq<char> },
    TaskRetryRequest { task_id: Seq<char> },
    ManualTasksQuery,
    RecentTasksQuery,
    UserMemoryWrite { content: Seq<char> },
    UserMemoryUseful { memory_id: Seq<char> },
    UserMemorySuppress { memory_id: Seq<char> },
    UserMemoriesQuery,
    ContextDebugQuery { text: Option<Seq<char>> },
    DailyReportQuery { day: Option<Seq<char>> },
    TaskStatusQuery { task_id: Seq<char> },
    LinkSubmission { urls: Seq<Seq<char>> },
    ChatContinue { text: Seq<char> },
    ChatCommit { text: Seq<char> },
    ChatPending { text: Seq<char> },
    Ignore,
}

impl View for RouteIntent {
    type V = Route;

    open spec fn view(&self) -> Route {
        match *self {
            RouteIntent::ManualContentSubmission { task_id, content } => {
                Route::ManualContentSubmission { task_id: task_id@, content: content@ }
            },
            RouteIntent::TaskRetryRequest { task_id } => Route::TaskRetryRequest {
                task_id: task_id@,
            },
            RouteIntent::ManualTasksQuery => Route::ManualTasksQuery,
            RouteIntent::RecentTasksQuery => Route::RecentTasksQuery,
            RouteIntent::UserMemoryWrite { content } => Route::UserMemoryWrite {
                content: content@,
            },
            RouteIntent::UserMemoryUseful { memory_id } => Route::UserMemoryUseful {
                memory_id: memory_id@,
            },
            RouteIntent::UserMemorySuppress { memory_id } => Route::UserMemorySuppress {
                memory_id: memory_id@,
            },
            RouteIntent::UserMemoriesQuery => Route::UserMemoriesQuery,
            RouteIntent::ContextDebugQuery { text } => Route::ContextDebugQuery {
                text: text::opt_text(text),
            },
            RouteIntent::DailyReportQuery { day } => Route::DailyReportQuery { day: text::opt_text(day) },
            RouteIntent::TaskStatusQuery { task_id } => Route::TaskStatusQuery {
                task_id: task_id@,
            },
            RouteIntent::LinkSubmission { urls } => Route::LinkSubmission { urls: text::texts(urls@) },
            RouteIntent::ChatContinue { text } => Route::ChatContinue { text: text@ },
            RouteIntent::ChatCommit { text } => Route::ChatCommit { text: text@ },
            RouteIntent::ChatPending { text } => Route::ChatPending { text: text@ },
            RouteIntent::Ignore => Route::Ignore,
        }
    }
}

// ---------------------------------------------------------------------------
// Commands
// ---------------------------------------------------------------------------

/// The trimmed text, unless it is blank.
pub open spec fn nonblank(s: Option<Seq<char>>) -> Option<Seq<char>> {
    match s {
        Some(t) => if text::trim(t).len() == 0 {
            None
        } else {
            Some(text::trim(t))
        },
        None => None,
    }
}

/// The rest after the first of two prefixes that the text has.
pub open spec fn rest2(s: Seq<char>, a: Seq<char>, b: Seq<char>) -> Option<Seq<char>> {
    match text::after_prefix(s, a) {
        Some(r) => Some(r),
        None => text::after_prefix(s, b),
    }
}

/// The rest after the first of three prefixes that the text has.
pub open spec fn rest3(s: Seq<char>, a: Seq<char>, b: Seq<char>, c: Seq<char>) -> Option<
    Seq<char>,
> {
    match text::after_prefix(s, a) {
        Some(r) => Some(r),
        None => rest2(s, b, c),
    }
}

pub open spec fn manual_tasks_query(s: Seq<char>) -> bool {
    s == "待补录任务"@ || s == "manual tasks"@ || s == "awaiting manual input"@
}

pub open spec fn recent_tasks_query(s: Seq<char>) -> bool {
    s == "最近任务"@ || s == "最新任务"@ || s == "recent tasks"@ || s == "recent"@
}

pub open spec fn user_memories_query(s: Seq<char>) -> bool {
    s == "我的记忆"@ || s == "我的偏好"@ || s == "memories"@ || s == "my memories"@
}

/// `补正文 <task id>::<content>`, neither part blank.
pub open spec fn manual_content(s: Seq<char>) -> Option<(Seq<char>, Seq<char>)> {
    match text::after_prefix(s, "补正文 "@) {
        None => None,
        Some(rest) => match text::split_at_first(rest, "::"@) {
            None => None,
            Some((left, right)) => if text::trim(left).len() == 0 || text::trim(right).len() == 0 {
                None
            } else {
                Some((text::trim(left), text::trim(right)))
            },
        },
    }
}

/// A debug query, with the text to try where there is one.
pub open spec fn context_debug(s: Seq<char>) -> Option<Option<Seq<char>>> {
    if s == "/context"@ || s == "上下文"@ || s == "context"@ {
        Some(None)
    } else {
        match rest3(s, "/context "@, "上下文 "@, "context "@) {
            None => None,
            Some(rest) => Some(nonblank(Some(rest))),
        }
    }
}

/// A daily report query, with the day where one is given.
pub open spec fn daily_report(s: Seq<char>) -> Option<Option<Seq<char>>> {
    if s == "日报"@ || s == "今日整理"@ || s == "daily report"@ || s == "today digest"@ {
        Some(None)
    } else {
        match rest2(s, "日报 "@, "daily report "@) {
            None => None,
            Some(rest) => Some(nonblank(Some(rest))),
        }
    }
}

pub open spec fn memory_useful(s: Seq<char>) -> Option<Seq<char>> {
    nonblank(rest3(s, "有用 "@, "标记有用 "@, "useful "@))
}

pub open spec fn memory_suppress(s: Seq<char>) -> Option<Seq<char>> {
    nonblank(rest3(s, "忘记 "@, "屏蔽记忆 "@, "forget "@))
}

pub open spec fn memory_write(s: Seq<char>) -> Option<Seq<char>> {
    nonblank(rest2(s, "记住 "@, "记一下 "@))
}

pub open spec fn retry_query(s: Seq<char>) -> Option<Seq<char>> {
    nonblank(rest2(s, "重试 "@, "retry "@))
}

pub open spec fn status_query(s: Seq<char>) -> Option<Seq<char>> {
    nonblank(rest2(s, "状态 "@, "status "@))
}

fn trimmed_nonblank(s: Option<String>) -> (r: Option<String>)
    ensures
        text::opt_text(r) == nonblank(text::opt_text(s)),
{
    match s {
        Some(t) => {
            let core = trimmed(t.as_str());
            if core.as_str().is_empty() {
                None
            } else {
                Some(core)
            }
        },
        None => None,
    }
}

fn strip2(s: &str, a: &str, b: &str) -> (r: Option<String>)
    ensures
        text::opt_text(r) == rest2(s@, a@, b@),
{
    match strip_prefix(s, a) {
        Some(r) => Some(r),
        None => strip_prefix(s, b),
    }
}

fn strip3(s: &str, a: &str, b: &str, c: &str) -> (r: Option<String>)
    ensures
        text::opt_text(r) == rest3(s@, a@, b@, c@),
{
    match strip_prefix(s, a) {
        Some(r) => Some(r),
        None => strip2(s, b, c),
    }
}

pub fn is_manual_tasks_query(input: &str) -> (r: bool)
    ensures
        r == manual_tasks_query(input@),
{
    same(input, "待补录任务") || same(input, "manual tasks") || same(
        input,
        "awaiting manual input",
    )
}

pub fn is_recent_tasks_query(input: &str) -> (r: bool)
    ensures
        r == recent_tasks_query(input@),
{
    same(input, "最近任务") || same(input, "最新任务") || same(input, "recent tasks") || same(
        input,
        "recent",
    )
}

pub fn is_user_memories_query(input: &str) -> (r: bool)
    ensures
        r == user_memories_query(input@),
{
    same(input, "我的记忆") || same(input, "我的偏好") || same(input, "memories") || same(
        input,
        "my memories",
    )
}

pub fn parse_manual_content_submission(input: &str) -> (r: Option<(String, String)>)
    ensures
        match r {
            Some(p) => manual_content(input@) == Some((p.0@, p.1@)),
            None => manual_content(input@) is None,
        },
{
    match strip_prefix(input, "补正文 ") {
        None => None,
        Some(rest) => match split_once(rest.as_str(), "::") {
            None => None,
            Some((left, right)) => {
                let task_id = trimmed(left.as_str());
                let content = trimmed(right.as_str());
                if task_id.as_str().is_empty() || content.as_str().is_empty() {
                    None
                } else {
                    Some((task_id, content))
                }
            },
        },
    }
}

pub fn parse_context_debug_query(input: &str) -> (r: Option<Option<String>>)
    ensures
        match r {
            Some(t) => context_debug(input@) == Some(text::opt_text(t)),
            None => context_debug(input@) is None,
        },
{
    if same(input, "/context") || same(input, "上下文") || same(input, "context") {
        return Some(None);
    }
    match strip3(input, "/context ", "上下文 ", "context ") {
        None => None,
        Some(rest) => Some(trimmed_nonblank(Some(rest))),
    }
}

pub fn parse_daily_report_query(input: &str) -> (r: Option<Option<String>>)
    ensures
        match r {
            Some(t) => daily_report(input@) == Some(text::opt_text(t)),
            None => daily_report(input@) is None,
        },
{
    if same(input, "日报") || same(input, "今日整理") || same(input, "daily report") || same(
        input,
        "today digest",
    ) {
        return Some(None);
    }
    match strip2(input, "日报 ", "daily report ") {
        None => None,
        Some(rest) => Some(trimmed_nonblank(Some(rest))),
    }
}

pub fn parse_user_memory_useful(input: &str) -> (r: Option<String>)
    ensures
        text::opt_text(r) == memory_useful(input@),
{
    trimmed_nonblank(strip3(input, "有用 ", "标记有用 ", "useful "))
}

pub fn parse_user_memory_suppress(input: &str) -> (r: Option<String>)
    ensures
        text::opt_text(r) == memory_suppress(input@),
{
    trimmed_nonblank(strip3(input, "忘记 ", "屏蔽记忆 ", "forget "))
}

pub fn parse_user_memory_write(input: &str) -> (r: Option<String>)
    ensures
        text::opt_text(r) == memory_write(input@),
{
    trimmed_nonblank(strip2(input, "记住 ", "记一下 "))
}

pub fn parse_retry_query(input: &str) -> (r: Option<String>)
    ensures
        text::opt_text(r) == retry_query(input@),
{
    trimmed_nonblank(strip2(input, "重试 ", "retry "))
}

pub fn parse_status_query(input: &str) -> (r: Option<String>)
    ensures
        text::opt_text(r) == status_query(input@),
{
    trimmed_nonblank(strip2(input, "状态 ", "status "))
}

/// The text before the suffix, trimmed, unless it is blank.
pub fn strip_suffix_and_trim(input: &str, suffix: &str) -> (r: Option<String>)
    ensures
        text::opt_text(r) == nonblank(text::before_suffix(input@, suffix@)),
{
    trimmed_nonblank(strip_suffix(input, suffix))
}

// ---------------------------------------------------------------------------
// Links
// ---------------------------------------------------------------------------

/// Letters, digits and inner hyphens.
pub open spec fn valid_label(s: Seq<char>) -> bool {
    &&& s.len() > 0
    &&& s[0] != '-'
    &&& s.last() != '-'
    &&& forall|i: int| 0 <= i < s.len() ==> text::is_ascii_alphanumeric(#[trigger] s[i]) || s[i] == '-'
}

/// A dotted name with a letter in it, made of valid labels.
pub open spec fn supported_host(s: Seq<char>) -> bool {
    let labels = text::split_char(s, '.');
    &&& s.contains('.')
    &&& exists|i: int| 0 <= i < s.len() && text::is_ascii_alphabetic(#[trigger] s[i])
    &&& forall|i: int| 0 <= i < labels.len() ==> valid_label(#[trigger] labels[i])
}

pub fn is_valid_host_label(label: &str) -> (r: bool)
    ensures
        r == valid_label(label@),
{
    let v = chars_of(label);
    if v.len() == 0 || v[0] == '-' || v[v.len() - 1] == '-' {
        return false;
    }
    let mut i: usize = 0;
    while i < v.len()
        invariant
            i <= v.len(),
            v@ == label@,
            forall|k: int|
                0 <= k < i ==> text::is_ascii_alphanumeric(#[trigger] v@[k]) || v@[k] == '-',
        decreases v.len() - i,
    {
        if !(ascii_alphanumeric(v[i]) || v[i] == '-') {
            return false;
        }
        i = i + 1;
    }
    true
}

pub fn looks_like_supported_host(host: &str) -> (r: bool)
    ensures
        r == supported_host(host@),
{
    if !has_char(host, '.') {
        return false;
    }
    let v = chars_of(host);
    let mut letter = false;
    let mut i: usize = 0;
    while i < v.len()
        invariant
            i <= v.len(),
            v@ == host@,
            letter == exists|k: int| 0 <= k < i && text::is_ascii_alphabetic(#[trigger] v@[k]),
        decreases v.len() - i,
    {
        if ascii_alphabetic(v[i]) {
            letter = true;
        }
        i = i + 1;
    }
    if !letter {
        return false;
    }
    let labels = split_by_char(host, '.');
    let mut k: usize = 0;
    while k < labels.len()
        invariant
            k <= labels.len(),
            text::texts(labels@) == text::split_char(host@, '.'),
            forall|j: int| 0 <= j < k ==> valid_label(#[trigger] text::split_char(host@, '.')[j]),
        decreases labels.len() - k,
    {
        let ok = is_valid_host_label(labels[k].as_str());
        proof {
            assert(text::split_char(host@, '.')[k as int] == labels@[k as int]@);
        }
        if !ok {
            return false;
        }
        k = k + 1;
    }
    true
}

/// A candidate without a scheme is supported as `https` where its host is.
pub open spec fn url_for_host(prefixed: Seq<char>, host: Option<Seq<char>>) -> Option<Seq<char>> {
    match host {
        Some(h) => if supported_host(h) {
            Some(prefixed)
        } else {
            None
        },
        None => None,
    }
}

/// The URL that a candidate stands for.
pub open spec fn supported_url(s: Seq<char>) -> Option<Seq<char>> {
    if text::starts_with(s, "http://"@) || text::starts_with(s, "https://"@) {
        Some(s)
    } else if s.len() == 0 || s.contains('@') || text::contains(s, "://"@) {
        None
    } else {
        url_for_host("https://"@ + s, url::host_of("https://"@ + s))
    }
}

/// Decides on a candidate without a scheme from the host that its `https` form has.
pub fn supported_url_for_host(prefixed: &str, host: Option<String>) -> (r: Option<String>)
    ensures
        text::opt_text(r) == url_for_host(prefixed@, text::opt_text(host)),
{
    match host {
        Some(h) => if looks_like_supported_host(h.as_str()) {
            Some(owned(prefixed))
        } else {
            None
        },
        None => None,
    }
}

pub fn normalize_supported_url(input: &str) -> (r: Option<String>)
    ensures
        text::opt_text(r) == supported_url(input@),
{
    if has_prefix(input, "http://") || has_prefix(input, "https://") {
        return Some(owned(input));
    }
    if input.is_empty() || has_char(input, '@') || has(input, "://") {
        return None;
    }
    let mut prefixed = "https://".to_string();
    prefixed.append(input);
    let host = url_host(prefixed.as_str());
    supported_url_for_host(prefixed.as_str(), host)
}

/// A word without the quotes, brackets and punctuation around it.
pub open spec fn link_candidate(token: Seq<char>) -> Seq<char> {
    text::trim(
        text::drop_trailing(
            text::drop_trailing(text::drop_leading(token, CharClass::Opening), CharClass::Opening),
            CharClass::Closing,
        ),
    )
}

/// The URLs of the words, in order, each once.
pub open spec fn urls_of(tokens: Seq<Seq<char>>) -> Seq<Seq<char>>
    decreases tokens.len(),
{
    if tokens.len() == 0 {
        Seq::empty()
    } else {
        let before = urls_of(tokens.drop_last());
        match supported_url(link_candidate(tokens.last())) {
            Some(url) => if before.contains(url) {
                before
            } else {
                before.push(url)
            },
            None => before,
        }
    }
}

fn contains_text(list: &Vec<String>, s: &str) -> (r: bool)
    ensures
        r == text::texts(list@).contains(s@),
{
    let mut i: usize = 0;
    while i < list.len()
        invariant
            i <= list.len(),
            forall|k: int| 0 <= k < i ==> text::texts(list@)[k] != s@,
        decreases list.len() - i,
    {
        if same(list[i].as_str(), s) {
            proof {
                assert(text::texts(list@)[i as int] == s@);
            }
            return true;
        }
        i = i + 1;
    }
    false
}

fn unwrapped(token: &str) -> (r: String)
    ensures
        r@ == link_candidate(token@),
{
    let v = chars_of(token);
    let a = trim_leading_chars(&v, CharClass::Opening);
    let b = trim_trailing_chars(&a, CharClass::Opening);
    let c = trim_trailing_chars(&b, CharClass::Closing);
    let d = trim_chars(&c);
    string_of(&d)
}

pub fn extract_urls(input: &str) -> (r: Vec<String>)
    ensures
        text::texts(r@) == urls_of(text::words(input@)),
{
    let tokens = split_words(input);
    let mut urls: Vec<String> = Vec::new();
    let mut i: usize = 0;
    proof {
        assert(text::texts(urls@) =~= urls_of(text::texts(tokens@).take(0)));
    }
    while i < tokens.len()
        invariant
            i <= tokens.len(),
            text::texts(urls@) == urls_of(text::texts(tokens@).take(i as int)),
        decreases tokens.len() - i,
    {
        proof {
            text::lemma_texts_take_next(tokens@, i as int);
        }
        let candidate = unwrapped(tokens[i].as_str());
        if let Some(url) = normalize_supported_url(candidate.as_str()) {
            if !contains_text(&urls, url.as_str()) {
                push_text(&mut urls, url.as_str());
            }
        }
        i = i + 1;
    }
    proof {
        assert(text::texts(tokens@).take(i as int) =~= text::texts(tokens@));
    }
    urls
}

/// No URL is listed twice, and each one begins with `http://` or `https://`.
pub proof fn lemma_urls_distinct(tokens: Seq<Seq<char>>)
    ensures
        urls_of(tokens).no_duplicates(),
        forall|i: int|
            0 <= i < urls_of(tokens).len() ==> text::starts_with(#[trigger] urls_of(tokens)[i], "http://"@)
                || text::starts_with(urls_of(tokens)[i], "https://"@),
    decreases tokens.len(),
{
    if tokens.len() > 0 {
        lemma_urls_distinct(tokens.drop_last());
        let before = urls_of(tokens.drop_last());
        let candidate = link_candidate(tokens.last());
        match supported_url(candidate) {
            Some(url) => {
                if !before.contains(url) {
                    let out = before.push(url);
                    assert forall|i: int, j: int| 0 <= i < j < out.len() implies out[i]
                        != out[j] by {
                        if j == before.len() {
                            assert(before.contains(before[i]));
                        }
                    }
                    let p = "https://"@ + candidate;
                    assert(p.subrange(0, "https://"@.len() as int) =~= "https://"@);
                }
            },
            None => {},
        }
    }
}

/// Every link of the words is listed, and only those: a word that stands for a URL has that
/// URL in the list, and each URL of the list stands for a word.
pub proof fn lemma_every_link_is_listed(tokens: Seq<Seq<char>>)
    ensures
        forall|i: int|
            #![trigger tokens[i]]
            0 <= i < tokens.len() ==> match supported_url(link_candidate(tokens[i])) {
                Some(u) => urls_of(tokens).contains(u),
                None => true,
            },
        forall|k: int|
            0 <= k < urls_of(tokens).len() ==> exists|i: int|
                0 <= i < tokens.len() && supported_url(link_candidate(#[trigger] tokens[i])) == Some(
                    #[trigger] urls_of(tokens)[k],
                ),
    decreases tokens.len(),
{
    if tokens.len() > 0 {
        let init = tokens.drop_last();
        lemma_every_link_is_listed(init);
        let before = urls_of(init);
        let out = urls_of(tokens);
        let last = supported_url(link_candidate(tokens.last()));
        assert forall|u: Seq<char>| before.contains(u) implies out.contains(u) by {
            let k = choose|k: int| 0 <= k < before.len() && before[k] == u;
            assert(out[k] == u);
        }
        assert forall|i: int|
            #![trigger tokens[i]]
            0 <= i < tokens.len() implies match supported_url(link_candidate(tokens[i])) {
            Some(u) => out.contains(u),
            None => true,
        } by {
            if i < init.len() {
                assert(init[i] == tokens[i]);
            } else if let Some(u) = last {
                if !before.contains(u) {
                    assert(out[before.len() as int] == u);
                }
            }
        }
        assert forall|k: int| 0 <= k < out.len() implies exists|i: int|
            0 <= i < tokens.len() && supported_url(link_candidate(#[trigger] tokens[i])) == Some(
                #[trigger] out[k],
            ) by {
            if k < before.len() {
                let i = choose|i: int|
                    0 <= i < init.len() && supported_url(link_candidate(#[trigger] init[i]))
                        == Some(before[k]);
                assert(tokens[i] == init[i]);
            } else {
                assert(tokens[tokens.len() - 1] == tokens.last());
            }
        }
    }
}

/// The links of a text that is made of two come in the order of the text: those of the first
/// part, and then those of the second part that are new.
pub proof fn lemma_links_keep_their_order(a: Seq<Seq<char>>, b: Seq<Seq<char>>)
    ensures
        urls_of(a).is_prefix_of(urls_of(a + b)),
        forall|u: Seq<char>| #[trigger]
            urls_of(a + b).contains(u) <==> urls_of(a).contains(u) || urls_of(b).contains(u),
    decreases b.len(),
{
    if b.len() == 0 {
        assert(a + b =~= a);
        assert(urls_of(b) =~= Seq::empty());
    } else {
        let init = b.drop_last();
        lemma_links_keep_their_order(a, init);
        assert((a + b).drop_last() =~= a + init);
        let x = urls_of(a + init);
        let y = urls_of(init);
        let last = supported_url(link_candidate(b.last()));
        assert forall|u: Seq<char>| #[trigger] urls_of(a + b).contains(u) <==> urls_of(a).contains(u)
            || urls_of(b).contains(u) by {
            lemma_grown(x, last, u);
            lemma_grown(y, last, u);
            assert(x.contains(u) <==> urls_of(a).contains(u) || y.contains(u));
        }
    }
}

/// What a list holds after a link was added, where it is new.
proof fn lemma_grown(x: Seq<Seq<char>>, last: Option<Seq<char>>, u: Seq<char>)
    ensures
        ({
            let out = match last {
                Some(url) => if x.contains(url) {
                    x
                } else {
                    x.push(url)
                },
                None => x,
            };
            out.contains(u) <==> x.contains(u) || last == Some(u)
        }),
{
    if let Some(url) = last {
        let out = x.push(url);
        if x.contains(u) {
            let k = choose|k: int| 0 <= k < x.len() && x[k] == u;
            assert(out[k] == u);
        }
        if url == u {
            assert(out[x.len() as int] == u);
        }
        if out.contains(u) && url != u {
            let k = choose|k: int| 0 <= k < out.len() && out[k] == u;
            assert(x[k] == u);
        }
    }
}

/// Quotes, brackets and punctuation around a word do not matter: what stands inside them is
/// the candidate for a link.
pub proof fn lemma_wrapped_candidate(a: Seq<char>, core: Seq<char>, b: Seq<char>)
    requires
        forall|i: int| 0 <= i < a.len() ==> text::opening_wrapper(#[trigger] a[i]),
        forall|i: int| 0 <= i < b.len() ==> text::closing_wrapper(#[trigger] b[i]),
        core.len() > 0,
        !text::opening_wrapper(core[0]),
        !text::is_whitespace(core[0]),
        !text::opening_wrapper(core.last()),
        !text::closing_wrapper(core.last()),
        !text::is_whitespace(core.last()),
    ensures
        link_candidate(a + core + b) == core,
{
    assert(a + core + b =~= a + (core + b));
    assert((core + b)[0] == core[0]);
    assert forall|i: int| 0 <= i < a.len() implies text::in_class(
        #[trigger] a[i],
        CharClass::Opening,
    ) by {}
    text::lemma_drop_leading_exact(a, core + b, CharClass::Opening);
    lemma_after_opening(core, b);
    let none = Seq::<char>::empty();
    text::lemma_trim_exact(none, core, none);
    assert(none + core + none =~= core);
}

proof fn lemma_after_opening(core: Seq<char>, b: Seq<char>)
    requires
        forall|i: int| 0 <= i < b.len() ==> text::closing_wrapper(#[trigger] b[i]),
        core.len() > 0,
        !text::opening_wrapper(core.last()),
        !text::closing_wrapper(core.last()),
    ensures
        text::drop_trailing(
            text::drop_trailing(core + b, CharClass::Opening),
            CharClass::Closing,
        ) == core,
    decreases b.len(),
{
    let s = core + b;
    if b.len() == 0 {
        assert(s =~= core);
    } else if text::opening_wrapper(s.last()) {
        let rest = b.drop_last();
        assert forall|i: int| 0 <= i < rest.len() implies text::closing_wrapper(
            #[trigger] rest[i],
        ) by {
            assert(rest[i] == b[i]);
        }
        assert(s.drop_last() =~= core + rest);
        lemma_after_opening(core, rest);
    } else {
        assert forall|i: int| 0 <= i < b.len() implies text::in_class(
            #[trigger] b[i],
            CharClass::Closing,
        ) by {}
        text::lemma_drop_trailing_exact(core, b, CharClass::Closing);
    }
}

// ---------------------------------------------------------------------------
// Routing
// ---------------------------------------------------------------------------

/// The chat intent of a text that is no command and holds no link.
pub open spec fn chat_route(s: Seq<char>) -> Route {
    if text::ends_with(s, ".."@) {
        match nonblank(text::before_suffix(s, ".."@)) {
            Some(text) => Route::ChatContinue { text },
            None => Route::Ignore,
        }
    } else if text::ends_with(s, "!!"@) {
        match nonblank(text::before_suffix(s, "!!"@)) {
            Some(text) => Route::ChatCommit { text },
            None => Route::Ignore,
        }
    } else {
        Route::ChatPending { text: s }
    }
}

/// The intent of a trimmed text: the first rule that applies decides.
pub open spec fn trimmed_route(s: Seq<char>) -> Route {
    if s.len() == 0 {
        Route::Ignore
    } else if manual_tasks_query(s) {
        Route::ManualTasksQuery
    } else if let Some((task_id, content)) = manual_content(s) {
        Route::ManualContentSubmission { task_id, content }
    } else if recent_tasks_query(s) {
        Route::RecentTasksQuery
    } else if user_memories_query(s) {
        Route::UserMemoriesQuery
    } else if let Some(text) = context_debug(s) {
        Route::ContextDebugQuery { text }
    } else if let Some(memory_id) = memory_useful(s) {
        Route::UserMemoryUseful { memory_id }
    } else if let Some(memory_id) = memory_suppress(s) {
        Route::UserMemorySuppress { memory_id }
    } else if let Some(content) = memory_write(s) {
        Route::UserMemoryWrite { content }
    } else if let Some(day) = daily_report(s) {
        Route::DailyReportQuery { day }
    } else if let Some(task_id) = retry_query(s) {
        Route::TaskRetryRequest { task_id }
    } else if let Some(task_id) = status_query(s) {
        Route::TaskStatusQuery { task_id }
    } else {
        let urls = urls_of(text::words(s));
        if urls.len() > 0 {
            Route::LinkSubmission { urls }
        } else {
            chat_route(s)
        }
    }
}

/// The intent of an inbound text.
pub open spec fn route(input: Seq<char>) -> Route {
    trimmed_route(text::trim(input))
}

/// White space around a message does not change its intent.
pub proof fn lemma_route_ignores_outer_space(input: Seq<char>)
    ensures
        route(text::trim(input)) == route(input),
{
    text::lemma_trim_idempotent(input);
}

/// Only a blank message, or one that consists of a chat suffix alone, is ignored.
pub proof fn lemma_ignored(input: Seq<char>)
    ensures
        route(input) is Ignore ==> text::trim(input).len() == 0 || nonblank(
            text::before_suffix(text::trim(input), ".."@),
        ) is None && text::ends_with(text::trim(input), ".."@) || nonblank(text::before_suffix(text::trim(input), "!!"@))
            is None && text::ends_with(text::trim(input), "!!"@),
{
}

/// A message that is routed as links carries every link of its words, each once, and nothing
/// else. A message that is routed as chat holds no link.
pub proof fn lemma_message_links(input: Seq<char>)
    ensures
        ({
            let ws = text::words(text::trim(input));
            match route(input) {
                Route::LinkSubmission { urls } => {
                    &&& urls.len() > 0
                    &&& urls.no_duplicates()
                    &&& forall|i: int|
                        #![trigger ws[i]]
                        0 <= i < ws.len() ==> match supported_url(link_candidate(ws[i])) {
                            Some(u) => urls.contains(u),
                            None => true,
                        }
                    &&& forall|k: int|
                        0 <= k < urls.len() ==> exists|i: int|
                            0 <= i < ws.len() && supported_url(link_candidate(#[trigger] ws[i]))
                                == Some(#[trigger] urls[k])
                },
                Route::ChatContinue { .. } | Route::ChatCommit { .. } | Route::ChatPending { .. } => {
                    forall|i: int|
                        0 <= i < ws.len() ==> supported_url(link_candidate(#[trigger] ws[i])) is None
                },
                _ => true,
            }
        }),
{
    let ws = text::words(text::trim(input));
    lemma_every_link_is_listed(ws);
    lemma_urls_distinct(ws);
    if urls_of(ws).len() == 0 {
        assert forall|i: int| 0 <= i < ws.len() implies supported_url(
            link_candidate(#[trigger] ws[i]),
        ) is None by {
            if let Some(u) = supported_url(link_candidate(ws[i])) {
                assert(urls_of(ws).contains(u));
            }
        }
    }
}

/// A text that is cut right: not empty, and no white space at its ends.
pub open spec fn clean(s: Seq<char>) -> bool {
    s.len() > 0 && !text::is_whitespace(s[0]) && !text::is_whitespace(s.last())
}

proof fn lemma_clean(s: Seq<char>)
    requires
        clean(s),
    ensures
        text::trim(s) == s,
{
    let none = Seq::<char>::empty();
    text::lemma_trim_exact(none, s, none);
    assert(none + s + none =~= s);
}

/// Without a command word and without a link, a message is chat: two dots at its end let the
/// session go on, two exclamation marks end it, and anything else waits for more.
pub proof fn lemma_chat_suffixes(body: Seq<char>)
    requires
        clean(body),
    ensures
        chat_route(body + ".."@) == (Route::ChatContinue { text: body }),
        chat_route(body + "!!"@) == (Route::ChatCommit { text: body }),
        !text::ends_with(body, ".."@) && !text::ends_with(body, "!!"@) ==> chat_route(body)
            == (Route::ChatPending { text: body }),
{
    reveal_strlit("..");
    reveal_strlit("!!");
    lemma_clean(body);
    let n = body.len() as int;
    let a = body + ".."@;
    let b = body + "!!"@;
    assert(a.subrange(n, n + 2) =~= ".."@);
    assert(b.subrange(n, n + 2) =~= "!!"@);
    assert(b.subrange(n, n + 2)[0] == '!');
    assert(".."@[0] == '.');
    assert(a.take(n) =~= body);
    assert(b.take(n) =~= body);
}

fn route_chat(text: &str) -> (r: RouteIntent)
    ensures
        r@ == chat_route(text@),
{
    if has_suffix(text, "..") {
        return match strip_suffix_and_trim(text, "..") {
            Some(text) => RouteIntent::ChatContinue { text },
            None => RouteIntent::Ignore,
        };
    }
    if has_suffix(text, "!!") {
        return match strip_suffix_and_trim(text, "!!") {
            Some(text) => RouteIntent::ChatCommit { text },
            None => RouteIntent::Ignore,
        };
    }
    RouteIntent::ChatPending { text: owned(text) }
}

pub fn route_text(input: &str) -> (r: RouteIntent)
    ensures
        r@ == route(input@),
{
    let core = trimmed(input);
    let text = core.as_str();
    if text.is_empty() {
        return RouteIntent::Ignore;
    }
    if is_manual_tasks_query(text) {
        return RouteIntent::ManualTasksQuery;
    }
    if let Some((task_id, content)) = parse_manual_content_submission(text) {
        return RouteIntent::ManualContentSubmission { task_id, content };
    }
    if is_recent_tasks_query(text) {
        return RouteIntent::RecentTasksQuery;
    }
    if is_user_memories_query(text) {
        return RouteIntent::UserMemoriesQuery;
    }
    if let Some(query) = parse_context_debug_query(text) {
        return RouteIntent::ContextDebugQuery { text: query };
    }
    if let Some(memory_id) = parse_user_memory_useful(text) {
        return RouteIntent::UserMemoryUseful { memory_id };
    }
    if let Some(memory_id) = parse_user_memory_suppress(text) {
        return RouteIntent::UserMemorySuppress { memory_id };
    }
    if let Some(content) = parse_user_memory_write(text) {
        return RouteIntent::UserMemoryWrite { content };
    }
    if let Some(day) = parse_daily_report_query(text) {
        return RouteIntent::DailyReportQuery { day };
    }
    if let Some(task_id) = parse_retry_query(text) {
        return RouteIntent::TaskRetryRequest { task_id };
    }
    if let Some(task_id) = parse_status_query(text) {
        return RouteIntent::TaskStatusQuery { task_id };
    }
    let urls = extract_urls(text);
    proof {
        assert(text::texts(urls@).len() == urls@.len());
    }
    if !urls.is_empty() {
        return RouteIntent::LinkSubmission { urls };
    }
    route_chat(text)
}

// ---------------------------------------------------------------------------
// Command words
// ---------------------------------------------------------------------------

proof fn lemma_other_start(s: Seq<char>, p: Seq<char>, k: int)
    requires
        0 <= k < p.len(),
        k < s.len(),
        s[k] != p[k],
    ensures
        text::after_prefix(s, p) is None,
        s != p,
{
    if text::starts_with(s, p) {
        assert(s.subrange(0, p.len() as int)[k] == s[k]);
    }
}

proof fn lemma_start_of_manual_tasks(s: Seq<char>)
    requires
        s.len() >= 3,
        manual_tasks_query(s),
    ensures
        (s[0] == '待' && s[1] == '补' && s[2] == '录') || (s[0] == 'm' && s[1] == 'a' && s[2] == 'n') || (s[0] == 'a' && s[1] == 'w' && s[2] == 'a'),
{
    reveal_strlit("待补录任务");
    reveal_strlit("manual tasks");
    reveal_strlit("awaiting manual input");
}

proof fn lemma_start_of_manual_content(s: Seq<char>)
    requires
        s.len() >= 3,
        manual_content(s) is Some,
    ensures
        (s[0] == '补' && s[1] == '正' && s[2] == '文'),
{
    reveal_strlit("补正文 ");
    if text::after_prefix(s, "补正文 "@) is Some {
        assert(s.subrange(0, "补正文 "@.len() as int)[0] == s[0]);
        assert(s.subrange(0, "补正文 "@.len() as int)[1] == s[1]);
        assert(s.subrange(0, "补正文 "@.len() as int)[2] == s[2]);
    }
}

proof fn lemma_start_of_recent_tasks(s: Seq<char>)
    requires
        s.len() >= 3,
        recent_tasks_query(s),
    ensures
        (s[0] == '最' && s[1] == '近' && s[2] == '任') || (s[0] == '最' && s[1] == '新' && s[2] == '任') || (s[0] == 'r' && s[1] == 'e' && s[2] == 'c'),
{
    reveal_strlit("最近任务");
    reveal_strlit("最新任务");
    reveal_strlit("recent tasks");
    reveal_strlit("recent");
}

proof fn lemma_start_of_memories(s: Seq<char>)
    requires
        s.len() >= 3,
        user_memories_query(s),
    ensures
        (s[0] == '我' && s[1] == '的' && s[2] == '记') || (s[0] == '我' && s[1] == '的' && s[2] == '偏') || (s[0] == 'm' && s[1] == 'e' && s[2] == 'm') || (s[0] == 'm' && s[1] == 'y' && s[2] == ' '),
{
    reveal_strlit("我的记忆");
    reveal_strlit("我的偏好");
    reveal_strlit("memories");
    reveal_strlit("my memories");
}

proof fn lemma_start_of_context(s: Seq<char>)
    requires
        s.len() >= 3,
        context_debug(s) is Some,
    ensures
        (s[0] == '/' && s[1] == 'c' && s[2] == 'o') || (s[0] == '上' && s[1] == '下' && s[2] == '文') || (s[0] == 'c' && s[1] == 'o' && s[2] == 'n'),
{
    reveal_strlit("/context");
    reveal_strlit("上下文");
    reveal_strlit("context");
    reveal_strlit("/context ");
    reveal_strlit("上下文 ");
    reveal_strlit("context ");
    if text::after_prefix(s, "/context "@) is Some {
        assert(s.subrange(0, "/context "@.len() as int)[0] == s[0]);
        assert(s.subrange(0, "/context "@.len() as int)[1] == s[1]);
        assert(s.subrange(0, "/context "@.len() as int)[2] == s[2]);
    }
    if text::after_prefix(s, "上下文 "@) is Some {
        assert(s.subrange(0, "上下文 "@.len() as int)[0] == s[0]);
        assert(s.subrange(0, "上下文 "@.len() as int)[1] == s[1]);
        assert(s.subrange(0, "上下文 "@.len() as int)[2] == s[2]);
    }
    if text::after_prefix(s, "context "@) is Some {
        assert(s.subrange(0, "context "@.len() as int)[0] == s[0]);
        assert(s.subrange(0, "context "@.len() as int)[1] == s[1]);
        assert(s.subrange(0, "context "@.len() as int)[2] == s[2]);
    }
}

proof fn lemma_start_of_useful(s: Seq<char>)
    requires
        s.len() >= 3,
        memory_useful(s) is Some,
    ensures
        (s[0] == '有' && s[1] == '用' && s[2] == ' ') || (s[0] == '标' && s[1] == '记' && s[2] == '有') || (s[0] == 'u' && s[1] == 's' && s[2] == 'e'),
{
    reveal_strlit("有用 ");
    reveal_strlit("标记有用 ");
    reveal_strlit("useful ");
    if text::after_prefix(s, "有用 "@) is Some {
        assert(s.subrange(0, "有用 "@.len() as int)[0] == s[0]);
        assert(s.subrange(0, "有用 "@.len() as int)[1] == s[1]);
        assert(s.subrange(0, "有用 "@.len() as int)[2] == s[2]);
    }
    if text::after_prefix(s, "标记有用 "@) is Some {
        assert(s.subrange(0, "标记有用 "@.len() as int)[0] == s[0]);
        assert(s.subrange(0, "标记有用 "@.len() as int)[1] == s[1]);
        assert(s.subrange(0, "标记有用 "@.len() as int)[2] == s[2]);
    }
    if text::after_prefix(s, "useful "@) is Some {
        assert(s.subrange(0, "useful "@.len() as int)[0] == s[0]);
        assert(s.subrange(0, "useful "@.len() as int)[1] == s[1]);
        assert(s.subrange(0, "useful "@.len() as int)[2] == s[2]);
    }
}

proof fn lemma_start_of_suppress(s: Seq<char>)
    requires
        s.len() >= 3,
        memory_suppress(s) is Some,
    ensures
        (s[0] == '忘' && s[1] == '记' && s[2] == ' ') || (s[0] == '屏' && s[1] == '蔽' && s[2] == '记') || (s[0] == 'f' && s[1] == 'o' && s[2] == 'r'),
{
    reveal_strlit("忘记 ");
    reveal_strlit("屏蔽记忆 ");
    reveal_strlit("forget ");
    if text::after_prefix(s, "忘记 "@) is Some {
        assert(s.subrange(0, "忘记 "@.len() as int)[0] == s[0]);
        assert(s.subrange(0, "忘记 "@.len() as int)[1] == s[1]);
        assert(s.subrange(0, "忘记 "@.len() as int)[2] == s[2]);
    }
    if text::after_prefix(s, "屏蔽记忆 "@) is Some {
        assert(s.subrange(0, "屏蔽记忆 "@.len() as int)[0] == s[0]);
        assert(s.subrange(0, "屏蔽记忆 "@.len() as int)[1] == s[1]);
        assert(s.subrange(0, "屏蔽记忆 "@.len() as int)[2] == s[2]);
    }
    if text::after_prefix(s, "forget "@) is Some {
        assert(s.subrange(0, "forget "@.len() as int)[0] == s[0]);
        assert(s.subrange(0, "forget "@.len() as int)[1] == s[1]);
        assert(s.subrange(0, "forget "@.len() as int)[2] == s[2]);
    }
}

proof fn lemma_start_of_write(s: Seq<char>)
    requires
        s.len() >= 3,
        memory_write(s) is Some,
    ensures
        (s[0] == '记' && s[1] == '住' && s[2] == ' ') || (s[0] == '记' && s[1] == '一' && s[2] == '下'),
{
    reveal_strlit("记住 ");
    reveal_strlit("记一下 ");
    if text::after_prefix(s, "记住 "@) is Some {
        assert(s.subrange(0, "记住 "@.len() as int)[0] == s[0]);
        assert(s.subrange(0, "记住 "@.len() as int)[1] == s[1]);
        assert(s.subrange(0, "记住 "@.len() as int)[2] == s[2]);
    }
    if text::after_prefix(s, "记一下 "@) is Some {
        assert(s.subrange(0, "记一下 "@.len() as int)[0] == s[0]);
        assert(s.subrange(0, "记一下 "@.len() as int)[1] == s[1]);
        assert(s.subrange(0, "记一下 "@.len() as int)[2] == s[2]);
    }
}

proof fn lemma_start_of_daily(s: Seq<char>)
    requires
        s.len() >= 3,
        daily_report(s) is Some,
    ensures
        (s[0] == '今' && s[1] == '日' && s[2] == '整') || (s[0] == 'd' && s[1] == 'a' && s[2] == 'i') || (s[0] == 't' && s[1] == 'o' && s[2] == 'd') || (s[0] == '日' && s[1] == '报' && s[2] == ' '),
{
    reveal_strlit("日报");
    reveal_strlit("今日整理");
    reveal_strlit("daily report");
    reveal_strlit("today digest");
    reveal_strlit("日报 ");
    reveal_strlit("daily report ");
    if text::after_prefix(s, "日报 "@) is Some {
        assert(s.subrange(0, "日报 "@.len() as int)[0] == s[0]);
        assert(s.subrange(0, "日报 "@.len() as int)[1] == s[1]);
        assert(s.subrange(0, "日报 "@.len() as int)[2] == s[2]);
    }
    if text::after_prefix(s, "daily report "@) is Some {
        assert(s.subrange(0, "daily report "@.len() as int)[0] == s[0]);
        assert(s.subrange(0, "daily report "@.len() as int)[1] == s[1]);
        assert(s.subrange(0, "daily report "@.len() as int)[2] == s[2]);
    }
}

proof fn lemma_start_of_retry(s: Seq<char>)
    requires
        s.len() >= 3,
        retry_query(s) is Some,
    ensures
        (s[0] == '重' && s[1] == '试' && s[2] == ' ') || (s[0] == 'r' && s[1] == 'e' && s[2] == 't'),
{
    reveal_strlit("重试 ");
    reveal_strlit("retry ");
    if text::after_prefix(s, "重试 "@) is Some {
        assert(s.subrange(0, "重试 "@.len() as int)[0] == s[0]);
        assert(s.subrange(0, "重试 "@.len() as int)[1] == s[1]);
        assert(s.subrange(0, "重试 "@.len() as int)[2] == s[2]);
    }
    if text::after_prefix(s, "retry "@) is Some {
        assert(s.subrange(0, "retry "@.len() as int)[0] == s[0]);
        assert(s.subrange(0, "retry "@.len() as int)[1] == s[1]);
        assert(s.subrange(0, "retry "@.len() as int)[2] == s[2]);
    }
}

proof fn lemma_word_useful_zh(arg: Seq<char>)
    requires
        clean(arg),
    ensures
        trimmed_route("有用 "@ + arg) == (Route::UserMemoryUseful { memory_id: arg }),
{
    let s = "有用 "@ + arg;
    reveal_strlit("有用 ");
    lemma_clean(arg);
    text::lemma_after_prefix("有用 "@, arg);
    assert(s[0] == '有' && s[1] == '用' && s[2] == ' ');
    if manual_tasks_query(s) {
        lemma_start_of_manual_tasks(s);
    }
    if manual_content(s) is Some {
        lemma_start_of_manual_content(s);
    }
    if recent_tasks_query(s) {
        lemma_start_of_recent_tasks(s);
    }
    if user_memories_query(s) {
        lemma_start_of_memories(s);
    }
    if context_debug(s) is Some {
        lemma_start_of_context(s);
    }
}

proof fn lemma_word_mark_useful_zh(arg: Seq<char>)
    requires
        clean(arg),
    ensures
        trimmed_route("标记有用 "@ + arg) == (Route::UserMemoryUseful { memory_id: arg }),
{
    let s = "标记有用 "@ + arg;
    reveal_strlit("标记有用 ");
    lemma_clean(arg);
    text::lemma_after_prefix("标记有用 "@, arg);
    assert(s[0] == '标' && s[1] == '记' && s[2] == '有');
    if manual_tasks_query(s) {
        lemma_start_of_manual_tasks(s);
    }
    if manual_content(s) is Some {
        lemma_start_of_manual_content(s);
    }
    if recent_tasks_query(s) {
        lemma_start_of_recent_tasks(s);
    }
    if user_memories_query(s) {
        lemma_start_of_memories(s);
    }
    if context_debug(s) is Some {
        lemma_start_of_context(s);
    }
    reveal_strlit("有用 ");
    lemma_other_start(s, "有用 "@, 0);
}

proof fn lemma_word_useful(arg: Seq<char>)
    requires
        clean(arg),
    ensures
        trimmed_route("useful "@ + arg) == (Route::UserMemoryUseful { memory_id: arg }),
{
    let s = "useful "@ + arg;
    reveal_strlit("useful ");
    lemma_clean(arg);
    text::lemma_after_prefix("useful "@, arg);
    assert(s[0] == 'u' && s[1] == 's' && s[2] == 'e');
    if manual_tasks_query(s) {
        lemma_start_of_manual_tasks(s);
    }
    if manual_content(s) is Some {
        lemma_start_of_manual_content(s);
    }
    if recent_tasks_query(s) {
        lemma_start_of_recent_tasks(s);
    }
    if user_memories_query(s) {
        lemma_start_of_memories(s);
    }
    if context_debug(s) is Some {
        lemma_start_of_context(s);
    }
    reveal_strlit("有用 ");
    lemma_other_start(s, "有用 "@, 0);
    reveal_strlit("标记有用 ");
    lemma_other_start(s, "标记有用 "@, 0);
}

proof fn lemma_word_forget_zh(arg: Seq<char>)
    requires
        clean(arg),
    ensures
        trimmed_route("忘记 "@ + arg) == (Route::UserMemorySuppress { memory_id: arg }),
{
    let s = "忘记 "@ + arg;
    reveal_strlit("忘记 ");
    lemma_clean(arg);
    text::lemma_after_prefix("忘记 "@, arg);
    assert(s[0] == '忘' && s[1] == '记' && s[2] == ' ');
    if manual_tasks_query(s) {
        lemma_start_of_manual_tasks(s);
    }
    if manual_content(s) is Some {
        lemma_start_of_manual_content(s);
    }
    if recent_tasks_query(s) {
        lemma_start_of_recent_tasks(s);
    }
    if user_memories_query(s) {
        lemma_start_of_memories(s);
    }
    if context_debug(s) is Some {
        lemma_start_of_context(s);
    }
    if memory_useful(s) is Some {
        lemma_start_of_useful(s);
    }
}

proof fn lemma_word_hide_zh(arg: Seq<char>)
    requires
        clean(arg),
    ensures
        trimmed_route("屏蔽记忆 "@ + arg) == (Route::UserMemorySuppress { memory_id: arg }),
{
    let s = "屏蔽记忆 "@ + arg;
    reveal_strlit("屏蔽记忆 ");
    lemma_clean(arg);
    text::lemma_after_prefix("屏蔽记忆 "@, arg);
    assert(s[0] == '屏' && s[1] == '蔽' && s[2] == '记');
    if manual_tasks_query(s) {
        lemma_start_of_manual_tasks(s);
    }
    if manual_content(s) is Some {
        lemma_start_of_manual_content(s);
    }
    if recent_tasks_query(s) {
        lemma_start_of_recent_tasks(s);
    }
    if user_memories_query(s) {
        lemma_start_of_memories(s);
    }
    if context_debug(s) is Some {
        lemma_start_of_context(s);
    }
    if memory_useful(s) is Some {
        lemma_start_of_useful(s);
    }
    reveal_strlit("忘记 ");
    lemma_other_start(s, "忘记 "@, 0);
}

proof fn lemma_word_forget(arg: Seq<char>)
    requires
        clean(arg),
    ensures
        trimmed_route("forget "@ + arg) == (Route::UserMemorySuppress { memory_id: arg }),
{
    let s = "forget "@ + arg;
    reveal_strlit("forget ");
    lemma_clean(arg);
    text::lemma_after_prefix("forget "@, arg);
    assert(s[0] == 'f' && s[1] == 'o' && s[2] == 'r');
    if manual_tasks_query(s) {
        lemma_start_of_manual_tasks(s);
    }
    if manual_content(s) is Some {
        lemma_start_of_manual_content(s);
    }
    if recent_tasks_query(s) {
        lemma_start_of_recent_tasks(s);
    }
    if user_memories_query(s) {
        lemma_start_of_memories(s);
    }
    if context_debug(s) is Some {
        lemma_start_of_context(s);
    }
    if memory_useful(s) is Some {
        lemma_start_of_useful(s);
    }
    reveal_strlit("忘记 ");
    lemma_other_start(s, "忘记 "@, 0);
    reveal_strlit("屏蔽记忆 ");
    lemma_other_start(s, "屏蔽记忆 "@, 0);
}

proof fn lemma_word_remember_zh(arg: Seq<char>)
    requires
        clean(arg),
    ensures
        trimmed_route("记住 "@ + arg) == (Route::UserMemoryWrite { content: arg }),
{
    let s = "记住 "@ + arg;
    reveal_strlit("记住 ");
    lemma_clean(arg);
    text::lemma_after_prefix("记住 "@, arg);
    assert(s[0] == '记' && s[1] == '住' && s[2] == ' ');
    if manual_tasks_query(s) {
        lemma_start_of_manual_tasks(s);
    }
    if manual_content(s) is Some {
        lemma_start_of_manual_content(s);
    }
    if recent_tasks_query(s) {
        lemma_start_of_recent_tasks(s);
    }
    if user_memories_query(s) {
        lemma_start_of_memories(s);
    }
    if context_debug(s) is Some {
        lemma_start_of_context(s);
    }
    if memory_useful(s) is Some {
        lemma_start_of_useful(s);
    }
    if memory_suppress(s) is Some {
        lemma_start_of_suppress(s);
    }
}

proof fn lemma_word_note_zh(arg: Seq<char>)
    requires
        clean(arg),
    ensures
        trimmed_route("记一下 "@ + arg) == (Route::UserMemoryWrite { content: arg }),
{
    let s = "记一下 "@ + arg;
    reveal_strlit("记一下 ");
    lemma_clean(arg);
    text::lemma_after_prefix("记一下 "@, arg);
    assert(s[0] == '记' && s[1] == '一' && s[2] == '下');
    if manual_tasks_query(s) {
        lemma_start_of_manual_tasks(s);
    }
    if manual_content(s) is Some {
        lemma_start_of_manual_content(s);
    }
    if recent_tasks_query(s) {
        lemma_start_of_recent_tasks(s);
    }
    if user_memories_query(s) {
        lemma_start_of_memories(s);
    }
    if context_debug(s) is Some {
        lemma_start_of_context(s);
    }
    if memory_useful(s) is Some {
        lemma_start_of_useful(s);
    }
    if memory_suppress(s) is Some {
        lemma_start_of_suppress(s);
    }
    reveal_strlit("记住 ");
    lemma_other_start(s, "记住 "@, 1);
}

proof fn lemma_word_daily_zh(arg: Seq<char>)
    requires
        clean(arg),
    ensures
        trimmed_route("日报 "@ + arg) == (Route::DailyReportQuery { day: Some(arg) }),
{
    let s = "日报 "@ + arg;
    reveal_strlit("日报 ");
    lemma_clean(arg);
    text::lemma_after_prefix("日报 "@, arg);
    assert(s[0] == '日' && s[1] == '报' && s[2] == ' ');
    if manual_tasks_query(s) {
        lemma_start_of_manual_tasks(s);
    }
    if manual_content(s) is Some {
        lemma_start_of_manual_content(s);
    }
    if recent_tasks_query(s) {
        lemma_start_of_recent_tasks(s);
    }
    if user_memories_query(s) {
        lemma_start_of_memories(s);
    }
    if context_debug(s) is Some {
        lemma_start_of_context(s);
    }
    if memory_useful(s) is Some {
        lemma_start_of_useful(s);
    }
    if memory_suppress(s) is Some {
        lemma_start_of_suppress(s);
    }
    if memory_write(s) is Some {
        lemma_start_of_write(s);
    }
    reveal_strlit("日报");
    assert(s.len() > "日报"@.len());
    reveal_strlit("今日整理");
    lemma_other_start(s, "今日整理"@, 0);
    reveal_strlit("daily report");
    lemma_other_start(s, "daily report"@, 0);
    reveal_strlit("today digest");
    lemma_other_start(s, "today digest"@, 0);
}

proof fn lemma_word_daily(arg: Seq<char>)
    requires
        clean(arg),
    ensures
        trimmed_route("daily report "@ + arg) == (Route::DailyReportQuery { day: Some(arg) }),
{
    let s = "daily report "@ + arg;
    reveal_strlit("daily report ");
    lemma_clean(arg);
    text::lemma_after_prefix("daily report "@, arg);
    assert(s[0] == 'd' && s[1] == 'a' && s[2] == 'i');
    if manual_tasks_query(s) {
        lemma_start_of_manual_tasks(s);
    }
    if manual_content(s) is Some {
        lemma_start_of_manual_content(s);
    }
    if recent_tasks_query(s) {
        lemma_start_of_recent_tasks(s);
    }
    if user_memories_query(s) {
        lemma_start_of_memories(s);
    }
    if context_debug(s) is Some {
        lemma_start_of_context(s);
    }
    if memory_useful(s) is Some {
        lemma_start_of_useful(s);
    }
    if memory_suppress(s) is Some {
        lemma_start_of_suppress(s);
    }
    if memory_write(s) is Some {
        lemma_start_of_write(s);
    }
    reveal_strlit("日报 ");
    lemma_other_start(s, "日报 "@, 0);
    reveal_strlit("日报");
    lemma_other_start(s, "日报"@, 0);
    reveal_strlit("今日整理");
    lemma_other_start(s, "今日整理"@, 0);
    reveal_strlit("daily report");
    assert(s.len() > "daily report"@.len());
    reveal_strlit("today digest");
    lemma_other_start(s, "today digest"@, 0);
}

proof fn lemma_word_retry_zh(arg: Seq<char>)
    requires
        clean(arg),
    ensures
        trimmed_route("重试 "@ + arg) == (Route::TaskRetryRequest { task_id: arg }),
{
    let s = "重试 "@ + arg;
    reveal_strlit("重试 ");
    lemma_clean(arg);
    text::lemma_after_prefix("重试 "@, arg);
    assert(s[0] == '重' && s[1] == '试' && s[2] == ' ');
    if manual_tasks_query(s) {
        lemma_start_of_manual_tasks(s);
    }
    if manual_content(s) is Some {
        lemma_start_of_manual_content(s);
    }
    if recent_tasks_query(s) {
        lemma_start_of_recent_tasks(s);
    }
    if user_memories_query(s) {
        lemma_start_of_memories(s);
    }
    if context_debug(s) is Some {
        lemma_start_of_context(s);
    }
    if memory_useful(s) is Some {
        lemma_start_of_useful(s);
    }
    if memory_suppress(s) is Some {
        lemma_start_of_suppress(s);
    }
    if memory_write(s) is Some {
        lemma_start_of_write(s);
    }
    if daily_report(s) is Some {
        lemma_start_of_daily(s);
    }
}

proof fn lemma_word_retry(arg: Seq<char>)
    requires
        clean(arg),
    ensures
        trimmed_route("retry "@ + arg) == (Route::TaskRetryRequest { task_id: arg }),
{
    let s = "retry "@ + arg;
    reveal_strlit("retry ");
    lemma_clean(arg);
    text::lemma_after_prefix("retry "@, arg);
    assert(s[0] == 'r' && s[1] == 'e' && s[2] == 't');
    if manual_tasks_query(s) {
        lemma_start_of_manual_tasks(s);
    }
    if manual_content(s) is Some {
        lemma_start_of_manual_content(s);
    }
    if recent_tasks_query(s) {
        lemma_start_of_recent_tasks(s);
    }
    if user_memories_query(s) {
        lemma_start_of_memories(s);
    }
    if context_debug(s) is Some {
        lemma_start_of_context(s);
    }
    if memory_useful(s) is Some {
        lemma_start_of_useful(s);
    }
    if memory_suppress(s) is Some {
        lemma_start_of_suppress(s);
    }
    if memory_write(s) is Some {
        lemma_start_of_write(s);
    }
    if daily_report(s) is Some {
        lemma_start_of_daily(s);
    }
    reveal_strlit("重试 ");
    lemma_other_start(s, "重试 "@, 0);
}

proof fn lemma_word_status_zh(arg: Seq<char>)
    requires
        clean(arg),
    ensures
        trimmed_route("状态 "@ + arg) == (Route::TaskStatusQuery { task_id: arg }),
{
    let s = "状态 "@ + arg;
    reveal_strlit("状态 ");
    lemma_clean(arg);
    text::lemma_after_prefix("状态 "@, arg);
    assert(s[0] == '状' && s[1] == '态' && s[2] == ' ');
    if manual_tasks_query(s) {
        lemma_start_of_manual_tasks(s);
    }
    if manual_content(s) is Some {
        lemma_start_of_manual_content(s);
    }
    if recent_tasks_query(s) {
        lemma_start_of_recent_tasks(s);
    }
    if user_memories_query(s) {
        lemma_start_of_memories(s);
    }
    if context_debug(s) is Some {
        lemma_start_of_context(s);
    }
    if memory_useful(s) is Some {
        lemma_start_of_useful(s);
    }
    if memory_suppress(s) is Some {
        lemma_start_of_suppress(s);
    }
    if memory_write(s) is Some {
        lemma_start_of_write(s);
    }
    if daily_report(s) is Some {
        lemma_start_of_daily(s);
    }
    if retry_query(s) is Some {
        lemma_start_of_retry(s);
    }
}

proof fn lemma_word_status(arg: Seq<char>)
    requires
        clean(arg),
    ensures
        trimmed_route("status "@ + arg) == (Route::TaskStatusQuery { task_id: arg }),
{
    let s = "status "@ + arg;
    reveal_strlit("status ");
    lemma_clean(arg);
    text::lemma_after_prefix("status "@, arg);
    assert(s[0] == 's' && s[1] == 't' && s[2] == 'a');
    if manual_tasks_query(s) {
        lemma_start_of_manual_tasks(s);
    }
    if manual_content(s) is Some {
        lemma_start_of_manual_content(s);
    }
    if recent_tasks_query(s) {
        lemma_start_of_recent_tasks(s);
    }
    if user_memories_query(s) {
        lemma_start_of_memories(s);
    }
    if context_debug(s) is Some {
        lemma_start_of_context(s);
    }
    if memory_useful(s) is Some {
        lemma_start_of_useful(s);
    }
    if memory_suppress(s) is Some {
        lemma_start_of_suppress(s);
    }
    if memory_write(s) is Some {
        lemma_start_of_write(s);
    }
    if daily_report(s) is Some {
        lemma_start_of_daily(s);
    }
    if retry_query(s) is Some {
        lemma_start_of_retry(s);
    }
    reveal_strlit("状态 ");
    lemma_other_start(s, "状态 "@, 0);
}

proof fn lemma_word_slash_context(arg: Seq<char>)
    requires
        clean(arg),
    ensures
        trimmed_route("/context "@ + arg) == (Route::ContextDebugQuery { text: Some(arg) }),
{
    let s = "/context "@ + arg;
    reveal_strlit("/context ");
    lemma_clean(arg);
    text::lemma_after_prefix("/context "@, arg);
    assert(s[0] == '/' && s[1] == 'c' && s[2] == 'o');
    if manual_tasks_query(s) {
        lemma_start_of_manual_tasks(s);
    }
    if manual_content(s) is Some {
        lemma_start_of_manual_content(s);
    }
    if recent_tasks_query(s) {
        lemma_start_of_recent_tasks(s);
    }
    if user_memories_query(s) {
        lemma_start_of_memories(s);
    }
    reveal_strlit("/context");
    assert(s.len() > "/context"@.len());
    reveal_strlit("上下文");
    lemma_other_start(s, "上下文"@, 0);
    reveal_strlit("context");
    lemma_other_start(s, "context"@, 0);
}

proof fn lemma_word_context_zh(arg: Seq<char>)
    requires
        clean(arg),
    ensures
        trimmed_route("上下文 "@ + arg) == (Route::ContextDebugQuery { text: Some(arg) }),
{
    let s = "上下文 "@ + arg;
    reveal_strlit("上下文 ");
    lemma_clean(arg);
    text::lemma_after_prefix("上下文 "@, arg);
    assert(s[0] == '上' && s[1] == '下' && s[2] == '文');
    if manual_tasks_query(s) {
        lemma_start_of_manual_tasks(s);
    }
    if manual_content(s) is Some {
        lemma_start_of_manual_content(s);
    }
    if recent_tasks_query(s) {
        lemma_start_of_recent_tasks(s);
    }
    if user_memories_query(s) {
        lemma_start_of_memories(s);
    }
    reveal_strlit("/context ");
    lemma_other_start(s, "/context "@, 0);
    reveal_strlit("/context");
    lemma_other_start(s, "/context"@, 0);
    reveal_strlit("上下文");
    assert(s.len() > "上下文"@.len());
    reveal_strlit("context");
    lemma_other_start(s, "context"@, 0);
}

proof fn lemma_word_context(arg: Seq<char>)
    requires
        clean(arg),
    ensures
        trimmed_route("context "@ + arg) == (Route::ContextDebugQuery { text: Some(arg) }),
{
    let s = "context "@ + arg;
    reveal_strlit("context ");
    lemma_clean(arg);
    text::lemma_after_prefix("context "@, arg);
    assert(s[0] == 'c' && s[1] == 'o' && s[2] == 'n');
    if manual_tasks_query(s) {
        lemma_start_of_manual_tasks(s);
    }
    if manual_content(s) is Some {
        lemma_start_of_manual_content(s);
    }
    if recent_tasks_query(s) {
        lemma_start_of_recent_tasks(s);
    }
    if user_memories_query(s) {
        lemma_start_of_memories(s);
    }
    reveal_strlit("/context ");
    lemma_other_start(s, "/context "@, 0);
    reveal_strlit("上下文 ");
    lemma_other_start(s, "上下文 "@, 0);
    reveal_strlit("/context");
    lemma_other_start(s, "/context"@, 0);
    reveal_strlit("上下文");
    lemma_other_start(s, "上下文"@, 0);
    reveal_strlit("context");
    assert(s.len() > "context"@.len());
}

/// A command word with something behind it is that command, whatever white space stands
/// around the message: what stands behind the word is what the command is about.
pub proof fn lemma_commands_are_routed(input: Seq<char>, arg: Seq<char>)
    requires
        clean(arg),
    ensures
        text::trim(input) == "有用 "@ + arg ==> route(input) == (Route::UserMemoryUseful { memory_id: arg }),
        text::trim(input) == "标记有用 "@ + arg ==> route(input) == (Route::UserMemoryUseful { memory_id: arg }),
        text::trim(input) == "useful "@ + arg ==> route(input) == (Route::UserMemoryUseful { memory_id: arg }),
        text::trim(input) == "忘记 "@ + arg ==> route(input) == (Route::UserMemorySuppress { memory_id: arg }),
        text::trim(input) == "屏蔽记忆 "@ + arg ==> route(input) == (Route::UserMemorySuppress { memory_id: arg }),
        text::trim(input) == "forget "@ + arg ==> route(input) == (Route::UserMemorySuppress { memory_id: arg }),
        text::trim(input) == "记住 "@ + arg ==> route(input) == (Route::UserMemoryWrite { content: arg }),
        text::trim(input) == "记一下 "@ + arg ==> route(input) == (Route::UserMemoryWrite { content: arg }),
        text::trim(input) == "日报 "@ + arg ==> route(input) == (Route::DailyReportQuery { day: Some(arg) }),
        text::trim(input) == "daily report "@ + arg ==> route(input) == (Route::DailyReportQuery { day: Some(arg) }),
        text::trim(input) == "重试 "@ + arg ==> route(input) == (Route::TaskRetryRequest { task_id: arg }),
        text::trim(input) == "retry "@ + arg ==> route(input) == (Route::TaskRetryRequest { task_id: arg }),
        text::trim(input) == "状态 "@ + arg ==> route(input) == (Route::TaskStatusQuery { task_id: arg }),
        text::trim(input) == "status "@ + arg ==> route(input) == (Route::TaskStatusQuery { task_id: arg }),
        text::trim(input) == "/context "@ + arg ==> route(input) == (Route::ContextDebugQuery { text: Some(arg) }),
        text::trim(input) == "上下文 "@ + arg ==> route(input) == (Route::ContextDebugQuery { text: Some(arg) }),
        text::trim(input) == "context "@ + arg ==> route(input) == (Route::ContextDebugQuery { text: Some(arg) }),
{
    lemma_word_useful_zh(arg);
    lemma_word_mark_useful_zh(arg);
    lemma_word_useful(arg);
    lemma_word_forget_zh(arg);
    lemma_word_hide_zh(arg);
    lemma_word_forget(arg);
    lemma_word_remember_zh(arg);
    lemma_word_note_zh(arg);
    lemma_word_daily_zh(arg);
    lemma_word_daily(arg);
    lemma_word_retry_zh(arg);
    lemma_word_retry(arg);
    lemma_word_status_zh(arg);
    lemma_word_status(arg);
    lemma_word_slash_context(arg);
    lemma_word_context_zh(arg);
    lemma_word_context(arg);
}

/// A text for a task is handed in with the task before the double colon and the text behind
/// it.
#[verifier::rlimit(60)]
pub proof fn lemma_text_is_handed_in(
    input: Seq<char>,
    task_id: Seq<char>,
    a: Seq<char>,
    b: Seq<char>,
    content: Seq<char>,
)
    requires
        clean(task_id),
        clean(content),
        forall|i: int| 0 <= i < a.len() ==> text::is_whitespace(#[trigger] a[i]),
        forall|i: int| 0 <= i < b.len() ==> text::is_whitespace(#[trigger] b[i]),
        forall|k: int|
            0 <= k < (task_id + a).len() ==> !#[trigger] text::occurs_at(
                task_id + a + "::"@ + (b + content),
                "::"@,
                k,
            ),
        text::trim(input) == "补正文 "@ + (task_id + a + "::"@ + (b + content)),
    ensures
        route(input) == (Route::ManualContentSubmission { task_id, content }),
{
    let rest = task_id + a + "::"@ + (b + content);
    let s = "补正文 "@ + rest;
    reveal_strlit("补正文 ");
    assert(s[0] == '补' && s[1] == '正' && s[2] == '文');
    if manual_tasks_query(s) {
        lemma_start_of_manual_tasks(s);
    }
    text::lemma_after_prefix("补正文 "@, rest);
    let n = (task_id + a).len() as int;
    assert(rest.subrange(n, n + "::"@.len()) =~= "::"@);
    text::lemma_find_is(rest, "::"@, 0, n);
    assert(rest.take(n) =~= task_id + a);
    assert(rest.skip(n + "::"@.len()) =~= b + content);
    let none = Seq::<char>::empty();
    text::lemma_trim_exact(none, task_id, a);
    assert(none + task_id + a =~= task_id + a);
    text::lemma_trim_exact(b, content, none);
    assert(b + content + none =~= b + content);
}

/// A host is made of labels with dots between them; each is made of letters, digits and inner
/// hyphens, and somewhere there is a letter.
pub proof fn lemma_hosts(a: Seq<char>, b: Seq<char>)
    requires
        valid_label(a),
        valid_label(b),
        !a.contains('.'),
        !b.contains('.'),
    ensures
        supported_host(a + seq!['.'] + b) == ((exists|i: int|
            0 <= i < a.len() && text::is_ascii_alphabetic(#[trigger] a[i])) || (exists|i: int|
            0 <= i < b.len() && text::is_ascii_alphabetic(#[trigger] b[i]))),
        !supported_host(a),
        !supported_host(a + seq!['.', '.'] + b),
{
    let s = a + seq!['.'] + b;
    text::lemma_split_single(a, '.');
    text::lemma_split_single(b, '.');
    text::lemma_split_apart(a, '.', b);
    let labels = text::split_char(s, '.');
    assert(labels =~= seq![a, b]);
    assert(s[a.len() as int] == '.');
    if exists|i: int| 0 <= i < a.len() && text::is_ascii_alphabetic(#[trigger] a[i]) {
        let i = choose|i: int| 0 <= i < a.len() && text::is_ascii_alphabetic(#[trigger] a[i]);
        assert(s[i] == a[i]);
    }
    if exists|i: int| 0 <= i < b.len() && text::is_ascii_alphabetic(#[trigger] b[i]) {
        let i = choose|i: int| 0 <= i < b.len() && text::is_ascii_alphabetic(#[trigger] b[i]);
        assert(s[a.len() + 1 + i] == b[i]);
    }
    if exists|i: int| 0 <= i < s.len() && text::is_ascii_alphabetic(#[trigger] s[i]) {
        let i = choose|i: int| 0 <= i < s.len() && text::is_ascii_alphabetic(#[trigger] s[i]);
        if i < a.len() {
            assert(s[i] == a[i]);
        } else {
            assert(s[i] == b[i - a.len() - 1]);
        }
    }
    let d = a + seq!['.', '.'] + b;
    let none = Seq::<char>::empty();
    let rest = none + seq!['.'] + b;
    assert(d =~= a + seq!['.'] + rest);
    text::lemma_split_apart(a, '.', rest);
    text::lemma_split_apart(none, '.', b);
    text::lemma_split_single(none, '.');
    assert(text::split_char(d, '.')[1] == none);
    assert(!valid_label(none));
}

} // verus!
