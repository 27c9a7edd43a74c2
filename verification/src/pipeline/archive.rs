//! The texts that are archived.

use crate::pipeline::capture::BrowserCaptureResult;
use crate::pipeline::html_extract;
use crate::pipeline::html_extract::{
    extract_html_title, extract_http_archive_body_with, extract_primary_body_with,
    generate_rule_summary, preview_text,
};
use crate::pipeline::markdown;
use crate::pipeline::markdown::{fresh_nonce, nonblank_lines};
use crate::pipeline::outcome::{HttpFetchResult, PipelineResult};
use crate::task_store::types::{PendingTaskRecord, TaskContentRecord};
use crate::text;
use crate::text::{blank, cat2, copy_opt, head_string, owned, string_or, trimmed};
use vstd::prelude::*;

verus! {

/// The first line of a text that is not blank, cut to a length.
pub open spec fn manual_title_of(content: Seq<char>) -> Option<Seq<char>> {
    let kept = markdown::kept_lines(text::lines(content));
    if kept.len() == 0 {
        None
    } else {
        Some(text::head(kept[0], 80))
    }
}

pub fn extract_manual_title(content: &str) -> (r: Option<String>)
    ensures
        text::opt_text(r) == manual_title_of(content@),
{
    let kept = nonblank_lines(content);
    proof {
        assert(text::texts(kept@).len() == kept@.len());
    }
    if kept.len() == 0 {
        None
    } else {
        Some(head_string(kept[0].as_str(), 80))
    }
}

/// The title of a text that the user gave for a task: that of the task, else the start of
/// the text. A blank title is none.
pub open spec fn manual_title(task_title: Option<Seq<char>>, content: Seq<char>) -> Option<Seq<char>> {
    let title = match task_title {
        Some(t) => Some(t),
        None => manual_title_of(content),
    };
    match title {
        Some(t) if !text::is_blank(t) => Some(t),
        _ => None,
    }
}

pub fn choose_manual_title(task_title: &Option<String>, content: &str) -> (r: Option<String>)
    ensures
        text::opt_text(r) == manual_title(text::opt_text(*task_title), content@),
{
    let title = match task_title {
        Some(t) => Some(owned(t.as_str())),
        None => extract_manual_title(content),
    };
    match title {
        Some(t) => if blank(t.as_str()) {
            None
        } else {
            Some(t)
        },
        None => None,
    }
}

pub open spec fn head_lines(
    task_id: Seq<char>,
    article_id: Seq<char>,
    normalized_url: Seq<char>,
    original_url: Seq<char>,
) -> Seq<char> {
    "# Archived Link\n\n- task_id: "@ + task_id + "\n- article_id: "@ + article_id
        + "\n- normalized_url: "@ + normalized_url + "\n- original_url: "@ + original_url
}

fn push_head(out: &mut String, task_id: &str, article_id: &str, normalized_url: &str, original_url: &str)
    ensures
        final(out)@ == old(out)@ + head_lines(task_id@, article_id@, normalized_url@, original_url@),
{
    let ghost before = out@;
    out.append("# Archived Link\n\n- task_id: ");
    out.append(task_id);
    out.append("\n- article_id: ");
    out.append(article_id);
    out.append("\n- normalized_url: ");
    out.append(normalized_url);
    out.append("\n- original_url: ");
    out.append(original_url);
    proof {
        assert(out@ =~= before + head_lines(task_id@, article_id@, normalized_url@, original_url@));
    }
}

/// The file of a text that the user gave.
pub open spec fn manual_archive_text(task: TaskContentRecord, content: Seq<char>, archived_at: Seq<char>) -> Seq<
    char,
> {
    head_lines(task.task_id@, task.article_id@, task.normalized_url@, task.original_url@)
        + "\n- title: "@ + text::text_or(manual_title(text::opt_text(task.title), content), "(none)"@)
        + "\n- archived_at: "@ + archived_at + "\n- source: manual_input\n\n## Content\n\n"@ + text::trim(
        content,
    ) + "\n"@
}

/// Renders a text that the user gave for a task. Gives the file and the title.
pub fn render_manual_archive(task: &TaskContentRecord, content: &str, archived_at: &str) -> (r: (
    String,
    Option<String>,
))
    ensures
        r.0@ == manual_archive_text(*task, content@, archived_at@),
        text::opt_text(r.1) == manual_title(text::opt_text(task.title), content@),
{
    let title = choose_manual_title(&task.title, content);
    let shown = string_or(&title, "(none)");
    let body = trimmed(content);
    let mut out = String::new();
    push_head(
        &mut out,
        task.task_id.as_str(),
        task.article_id.as_str(),
        task.normalized_url.as_str(),
        task.original_url.as_str(),
    );
    out.append("\n- title: ");
    out.append(shown.as_str());
    out.append("\n- archived_at: ");
    out.append(archived_at);
    out.append("\n- source: manual_input\n\n## Content\n\n");
    out.append(body.as_str());
    out.append("\n");
    proof {
        assert(out@ =~= manual_archive_text(*task, content@, archived_at@));
    }
    (out, title)
}

/// The file of a page that a browser captured.
pub open spec fn browser_archive_text(
    task: PendingTaskRecord,
    capture: BrowserCaptureResult,
    body: Seq<char>,
    archived_at: Seq<char>,
) -> Seq<char> {
    head_lines(task.task_id@, task.article_id@, task.normalized_url@, task.original_url@)
        + "\n- final_url: "@ + capture.final_url@ + "\n- title: "@ + text::text_or(
        text::opt_text(capture.title),
        "(none)"@,
    ) + "\n- archived_at: "@ + archived_at + "\n- source: browser_capture\n- page_kind: "@
        + capture.page_kind@ + "\n- screenshot_path: "@ + capture.screenshot_path@
        + "\n\n## Content\n\n"@ + body + "\n"@
}

/// Renders a page that a browser captured. `nonce` marks the code blocks on the way.
pub fn render_browser_archive(
    task: &PendingTaskRecord,
    capture: &BrowserCaptureResult,
    html: &str,
    archived_at: &str,
    nonce: &str,
) -> (r: String)
    ensures
        r@ == browser_archive_text(*task, *capture, html_extract::archive_text(html@, nonce@), archived_at@),
{
    let body = match extract_primary_body_with(html, nonce) {
        Some(b) => b,
        None => preview_text(html),
    };
    let shown = string_or(&capture.title, "(none)");
    let mut out = String::new();
    push_head(
        &mut out,
        task.task_id.as_str(),
        task.article_id.as_str(),
        task.normalized_url.as_str(),
        task.original_url.as_str(),
    );
    out.append("\n- final_url: ");
    out.append(capture.final_url.as_str());
    out.append("\n- title: ");
    out.append(shown.as_str());
    out.append("\n- archived_at: ");
    out.append(archived_at);
    out.append("\n- source: browser_capture\n- page_kind: ");
    out.append(capture.page_kind.as_str());
    out.append("\n- screenshot_path: ");
    out.append(capture.screenshot_path.as_str());
    out.append("\n\n## Content\n\n");
    out.append(body.as_str());
    out.append("\n");
    proof {
        assert(out@ =~= browser_archive_text(
            *task,
            *capture,
            html_extract::archive_text(html@, nonce@),
            archived_at@,
        ));
    }
    out
}

/// A page as it is archived.
#[derive(Debug)]
pub struct HttpArchive {
    pub content: String,
    pub title: Option<String>,
    pub page_kind: String,
    pub summary: Option<String>,
}

pub open spec fn summary_section(summary: Option<Seq<char>>) -> Seq<char> {
    match summary {
        Some(s) => "\n## Summary\n\n"@ + s + "\n"@,
        None => Seq::empty(),
    }
}

/// The file of a page that was fetched over HTTP.
pub open spec fn http_archive_text(
    task: PendingTaskRecord,
    page: HttpFetchResult,
    archived_at: Seq<char>,
    nonce: Seq<char>,
) -> Seq<char> {
    let html = page.html@;
    let markdown = html_extract::archive_text(html, nonce);
    head_lines(task.task_id@, task.article_id@, task.normalized_url@, task.original_url@)
        + "\n- final_url: "@ + page.final_url@ + "\n- title: "@ + text::text_or(
        html_extract::html_title(html),
        "(none)"@,
    ) + "\n- archived_at: "@ + archived_at + "\n- source: http\n- page_kind: "@ + html_extract::page_kind(
        html,
        markdown,
    ) + "\n"@ + summary_section(html_extract::rule_summary(html_extract::html_title(html), markdown)) + "## "@
        + html_extract::archive_section(html, nonce) + "\n\n"@ + markdown + "\n"@
}

pub open spec fn http_archive_is(
    r: HttpArchive,
    task: PendingTaskRecord,
    page: HttpFetchResult,
    archived_at: Seq<char>,
    nonce: Seq<char>,
) -> bool {
    let html = page.html@;
    let markdown = html_extract::archive_text(html, nonce);
    &&& r.content@ == http_archive_text(task, page, archived_at, nonce)
    &&& text::opt_text(r.title) == html_extract::html_title(html)
    &&& r.page_kind@ == html_extract::page_kind(html, markdown)
    &&& text::opt_text(r.summary) == html_extract::rule_summary(html_extract::html_title(html), markdown)
}

/// Renders a page that was fetched over HTTP. `nonce` marks the code blocks on the way.
pub fn render_http_archive_with(
    task: &PendingTaskRecord,
    page: &HttpFetchResult,
    archived_at: &str,
    nonce: &str,
) -> (r: HttpArchive)
    ensures
        http_archive_is(r, *task, *page, archived_at@, nonce@),
{
    let html = page.html.as_str();
    let title = extract_html_title(html);
    let extracted = extract_http_archive_body_with(html, nonce);
    let title_str: Option<&str> = match &title {
        Some(t) => Some(t.as_str()),
        None => None,
    };
    let summary = generate_rule_summary(title_str, extracted.markdown.as_str());
    let shown = string_or(&title, "(none)");
    let mut out = String::new();
    push_head(
        &mut out,
        task.task_id.as_str(),
        task.article_id.as_str(),
        task.normalized_url.as_str(),
        task.original_url.as_str(),
    );
    out.append("\n- final_url: ");
    out.append(page.final_url.as_str());
    out.append("\n- title: ");
    out.append(shown.as_str());
    out.append("\n- archived_at: ");
    out.append(archived_at);
    out.append("\n- source: http\n- page_kind: ");
    out.append(extracted.page_kind.as_str());
    out.append("\n");
    let ghost mid = out@;
    if let Some(s) = &summary {
        out.append("\n## Summary\n\n");
        out.append(s.as_str());
        out.append("\n");
    }
    proof {
        assert(out@ =~= mid + summary_section(text::opt_text(summary)));
    }
    out.append("## ");
    out.append(extracted.section_title.as_str());
    out.append("\n\n");
    out.append(extracted.markdown.as_str());
    out.append("\n");
    proof {
        assert(out@ =~= http_archive_text(*task, *page, archived_at@, nonce@));
    }
    HttpArchive { content: out, title, page_kind: extracted.page_kind, summary }
}

pub fn render_http_archive(task: &PendingTaskRecord, page: &HttpFetchResult, archived_at: &str) -> (r:
    HttpArchive)
    ensures
        exists|n: nat|
            http_archive_is(r, *task, *page, archived_at@, #[trigger] text::decimal(n)),
{
    let nonce = fresh_nonce();
    render_http_archive_with(task, page, archived_at, nonce.as_str())
}

// ---------------------------------------------------------------------------
// What was archived
// ---------------------------------------------------------------------------

/// The names of the files for a text that the user gave: the text and the archive.
pub fn manual_file_names(task_id: &str) -> (r: (String, String))
    ensures
        r.0@ == task_id@ + ".manual.txt"@,
        r.1@ == task_id@ + ".md"@,
{
    (cat2(task_id, ".manual.txt"), cat2(task_id, ".md"))
}

/// The names of the files for a page that was fetched: the page and the archive.
pub fn http_file_names(task_id: &str) -> (r: (String, String))
    ensures
        r.0@ == task_id@ + ".html"@,
        r.1@ == task_id@ + ".md"@,
{
    (cat2(task_id, ".html"), cat2(task_id, ".md"))
}

/// The result for a text that the user gave.
pub fn manual_result(output_path: String, raw_path: String, title: Option<String>) -> (r:
    PipelineResult)
    ensures
        r.output_path == output_path,
        r.raw_path == raw_path,
        r.snapshot_path is None,
        r.title == title,
        r.page_kind@ == "manual_input"@,
        r.content_source@ == "manual_input"@,
        r.summary is None,
{
    PipelineResult {
        output_path,
        raw_path,
        snapshot_path: None,
        title,
        page_kind: owned("manual_input"),
        content_source: owned("manual_input"),
        summary: None,
    }
}

/// The result for a page that a browser captured.
pub fn browser_result(output_path: String, capture: &BrowserCaptureResult) -> (r: PipelineResult)
    ensures
        r.output_path == output_path,
        r.raw_path@ == capture.html_path@,
        text::opt_text(r.snapshot_path) == Some(capture.screenshot_path@),
        text::opt_text(r.title) == text::opt_text(capture.title),
        r.page_kind@ == capture.page_kind@,
        r.content_source@ == "browser_capture"@,
        r.summary is None,
{
    PipelineResult {
        output_path,
        raw_path: capture.html_path.clone(),
        snapshot_path: Some(capture.screenshot_path.clone()),
        title: copy_opt(&capture.title),
        page_kind: capture.page_kind.clone(),
        content_source: owned("browser_capture"),
        summary: None,
    }
}

/// The result for a page that was fetched.
pub fn http_result(output_path: String, raw_path: String, archive: HttpArchive) -> (r:
    PipelineResult)
    ensures
        r.output_path == output_path,
        r.raw_path == raw_path,
        r.snapshot_path is None,
        r.title == archive.title,
        r.page_kind == archive.page_kind,
        r.content_source@ == "http"@,
        r.summary == archive.summary,
{
    PipelineResult {
        output_path,
        raw_path,
        snapshot_path: None,
        title: archive.title,
        page_kind: archive.page_kind,
        content_source: owned("http"),
        summary: archive.summary,
    }
}

// ---------------------------------------------------------------------------
// Laws
// ---------------------------------------------------------------------------

/// The title of a text that the user gave: that of the task where it has one, and else the
/// first line that is not blank, without the white space around it and cut to a length.
pub proof fn lemma_manual_title(task_title: Option<Seq<char>>, line: Seq<char>, rest: Seq<char>)
    requires
        !line.contains('\n'),
        !text::is_blank(line),
    ensures
        task_title is Some && !text::is_blank(task_title->0) ==> manual_title(
            task_title,
            line + seq!['\n'] + rest,
        ) == task_title,
        task_title is Some && text::is_blank(task_title->0) ==> manual_title(
            task_title,
            line + seq!['\n'] + rest,
        ) is None,
        manual_title_of(line + seq!['\n'] + rest) == Some(
            text::head(text::trim(text::without_return(line)), 80),
        ) || text::is_blank(text::without_return(line)),
{
    let s = line + seq!['\n'] + rest;
    text::lemma_lines_apart(line, rest);
    let w = text::without_return(line);
    let ls = text::lines(rest);
    let none = Seq::<Seq<char>>::empty();
    markdown::lemma_lines_kept(none, w, ls);
    assert(none + seq![w] + ls =~= seq![w] + ls);
    if !text::is_blank(w) {
        assert(markdown::kept_lines(none) =~= none);
        let k = markdown::kept_lines(text::lines(s));
        assert(k[0] == text::trim(w));
    }
}

/// Blank lines at the start of a text do not count for its title.
pub proof fn lemma_blank_lines_before_the_title(blank: Seq<char>, rest: Seq<char>)
    requires
        !blank.contains('\n'),
        text::is_blank(text::without_return(blank)),
    ensures
        manual_title_of(blank + seq!['\n'] + rest) == manual_title_of(rest),
{
    text::lemma_lines_apart(blank, rest);
    let w = text::without_return(blank);
    let ls = text::lines(rest);
    let none = Seq::<Seq<char>>::empty();
    markdown::lemma_lines_kept(none, w, ls);
    assert(none + seq![w] + ls =~= seq![w] + ls);
    assert(markdown::kept_lines(none) =~= none);
    assert(none + none + markdown::kept_lines(ls) =~= markdown::kept_lines(ls));
}

/// Every file names the task, the article and both forms of the link.
pub proof fn lemma_file_names_its_task(
    task_id: Seq<char>,
    article_id: Seq<char>,
    normalized_url: Seq<char>,
    original_url: Seq<char>,
)
    ensures
        ({
            let r = head_lines(task_id, article_id, normalized_url, original_url);
            &&& text::contains(r, "\n- task_id: "@ + task_id)
            &&& text::contains(r, "\n- article_id: "@ + article_id)
            &&& text::contains(r, "\n- normalized_url: "@ + normalized_url)
            &&& text::ends_with(r, "\n- original_url: "@ + original_url)
        }),
{
    let r = head_lines(task_id, article_id, normalized_url, original_url);
    reveal_strlit("# Archived Link\n\n- task_id: ");
    reveal_strlit("\n- task_id: ");
    let first = "# Archived Link\n\n- task_id: "@;
    let start = first.take(first.len() - "\n- task_id: "@.len());
    assert(first =~= start + "\n- task_id: "@);
    let a = "\n- task_id: "@ + task_id;
    let b = "\n- article_id: "@ + article_id;
    let c = "\n- normalized_url: "@ + normalized_url;
    let d = "\n- original_url: "@ + original_url;
    assert(r =~= start + a + (b + c + d));
    assert(r =~= start + a + b + (c + d));
    assert(r =~= start + a + b + c + d);
    text::lemma_holds(start, a, b + c + d);
    text::lemma_holds(start + a, b, c + d);
    text::lemma_holds(start + a + b, c, d);
    let n = r.len() - d.len();
    assert(r.subrange(n, n + d.len()) =~= d);
}

/// The file of a text that the user gave begins with what it is of, tells its title and its
/// time, and ends with the text itself.
pub proof fn lemma_manual_file(task: TaskContentRecord, content: Seq<char>, archived_at: Seq<char>)
    ensures
        ({
            let r = manual_archive_text(task, content, archived_at);
            &&& text::starts_with(
                r,
                head_lines(
                    task.task_id@,
                    task.article_id@,
                    task.normalized_url@,
                    task.original_url@,
                ),
            )
            &&& manual_title(text::opt_text(task.title), content) matches Some(t)
                ==> text::contains(r, "\n- title: "@ + t + "\n"@)
            &&& text::contains(r, "\n- archived_at: "@ + archived_at + "\n"@)
            &&& text::ends_with(r, "## Content\n\n"@ + text::trim(content) + "\n"@)
        }),
{
    let r = manual_archive_text(task, content, archived_at);
    let h = head_lines(task.task_id@, task.article_id@, task.normalized_url@, task.original_url@);
    let t = text::text_or(manual_title(text::opt_text(task.title), content), "(none)"@);
    reveal_strlit("\n- title: ");
    reveal_strlit("\n- archived_at: ");
    reveal_strlit("\n- source: manual_input\n\n## Content\n\n");
    reveal_strlit("## Content\n\n");
    reveal_strlit("\n");
    let mid = "\n- source: manual_input\n\n## Content\n\n"@;
    let m0 = mid.take(mid.len() - "## Content\n\n"@.len());
    assert(mid =~= m0 + "## Content\n\n"@);
    let at = "\n- archived_at: "@;
    assert(at =~= "\n"@ + at.skip(1));
    assert(m0 =~= "\n"@ + m0.skip(1));
    let body = "## Content\n\n"@ + text::trim(content) + "\n"@;
    let x = "\n- title: "@ + t + "\n"@;
    let y = at + archived_at + "\n"@;
    assert(r =~= h + x + (at.skip(1) + archived_at + m0 + body));
    assert(r =~= (h + "\n- title: "@ + t) + y + (m0.skip(1) + body));
    text::lemma_holds(h, x, at.skip(1) + archived_at + m0 + body);
    text::lemma_holds(h + "\n- title: "@ + t, y, m0.skip(1) + body);
    assert(r.subrange(0, h.len() as int) =~= h);
    let n = r.len() - body.len();
    assert(r.subrange(n, n + body.len()) =~= body);
}

/// The file of a page from the web begins with what it is of, tells where the page came from
/// and what kind it is, and ends with its text; a summary stands before the text where there
/// is one.
pub proof fn lemma_page_file(
    task: PendingTaskRecord,
    page: HttpFetchResult,
    archived_at: Seq<char>,
    nonce: Seq<char>,
)
    ensures
        ({
            let r = http_archive_text(task, page, archived_at, nonce);
            let body = html_extract::archive_text(page.html@, nonce);
            let title = html_extract::html_title(page.html@);
            &&& text::starts_with(
                r,
                head_lines(
                    task.task_id@,
                    task.article_id@,
                    task.normalized_url@,
                    task.original_url@,
                ),
            )
            &&& text::contains(r, "\n- final_url: "@ + page.final_url@)
            &&& title matches Some(t) ==> text::contains(r, "\n- title: "@ + t)
            &&& text::contains(r, "\n- archived_at: "@ + archived_at)
            &&& text::contains(
                r,
                "\n- page_kind: "@ + html_extract::page_kind(page.html@, body) + "\n"@,
            )
            &&& html_extract::rule_summary(title, body) matches Some(s) ==> text::contains(
                r,
                "\n## Summary\n\n"@ + s + "\n"@,
            )
            &&& text::ends_with(r, "\n\n"@ + body + "\n"@)
        }),
{
    let html = page.html@;
    let body = html_extract::archive_text(html, nonce);
    let title = html_extract::html_title(html);
    let r = http_archive_text(task, page, archived_at, nonce);
    let h = head_lines(task.task_id@, task.article_id@, task.normalized_url@, task.original_url@);
    let t = text::text_or(title, "(none)"@);
    let kind = html_extract::page_kind(html, body);
    let sum = summary_section(html_extract::rule_summary(title, body));
    let sec = html_extract::archive_section(html, nonce);
    reveal_strlit("\n- source: http\n- page_kind: ");
    reveal_strlit("\n- page_kind: ");
    let src = "\n- source: http\n- page_kind: "@;
    let s0 = src.take(src.len() - "\n- page_kind: "@.len());
    assert(src =~= s0 + "\n- page_kind: "@);
    let a = "\n- final_url: "@ + page.final_url@;
    let b = "\n- title: "@ + t;
    let c = "\n- archived_at: "@ + archived_at;
    let d = "\n- page_kind: "@ + kind + "\n"@;
    let e = "\n\n"@ + body + "\n"@;
    let tail = "## "@ + sec;
    let all = h + a + b + c + s0 + d + sum + tail + e;
    assert(r == all) by {
        let head = h + a + b + c + s0;
        assert(h + "\n- final_url: "@ + page.final_url@ =~= h + a);
        assert(h + a + "\n- title: "@ + t =~= h + a + b);
        assert(h + a + b + "\n- archived_at: "@ + archived_at =~= h + a + b + c);
        assert(h + a + b + c + src + kind + "\n"@ =~= head + d);
        assert(head + d + sum + "## "@ + sec =~= head + d + sum + tail);
        assert(head + d + sum + tail + "\n\n"@ + body + "\n"@ =~= all);
    }
    lemma_parts_of_nine(h, a, b, c, s0, d, sum, tail, e);
}

proof fn lemma_parts_of_nine(
    h: Seq<char>,
    a: Seq<char>,
    b: Seq<char>,
    c: Seq<char>,
    s: Seq<char>,
    d: Seq<char>,
    m: Seq<char>,
    t: Seq<char>,
    e: Seq<char>,
)
    ensures
        ({
            let r = h + a + b + c + s + d + m + t + e;
            &&& text::starts_with(r, h)
            &&& text::contains(r, a)
            &&& text::contains(r, b)
            &&& text::contains(r, c)
            &&& text::contains(r, d)
            &&& text::contains(r, m)
            &&& text::ends_with(r, e)
        }),
{
    let r = h + a + b + c + s + d + m + t + e;
    lemma_part_within(h, a, b + c + s + d + m + t + e, r);
    lemma_part_within(h + a, b, c + s + d + m + t + e, r);
    lemma_part_within(h + a + b, c, s + d + m + t + e, r);
    lemma_part_within(h + a + b + c + s, d, m + t + e, r);
    lemma_part_within(h + a + b + c + s + d, m, t + e, r);
    assert(r.subrange(0, h.len() as int) =~= h);
    let n = r.len() - e.len();
    assert(r.subrange(n, n + e.len()) =~= e);
}

proof fn lemma_part_within(x: Seq<char>, y: Seq<char>, z: Seq<char>, r: Seq<char>)
    requires
        r =~= x + y + z,
    ensures
        text::contains(r, y),
{
    text::lemma_holds(x, y, z);
}

/// The file of a captured page begins with what it is of, tells where the page came from and
/// where its picture is, and ends with its text.
pub proof fn lemma_captured_file(
    task: PendingTaskRecord,
    capture: BrowserCaptureResult,
    body: Seq<char>,
    archived_at: Seq<char>,
)
    ensures
        ({
            let r = browser_archive_text(task, capture, body, archived_at);
            &&& text::starts_with(
                r,
                head_lines(
                    task.task_id@,
                    task.article_id@,
                    task.normalized_url@,
                    task.original_url@,
                ),
            )
            &&& text::contains(r, "\n- final_url: "@ + capture.final_url@)
            &&& capture.title matches Some(t) ==> text::contains(r, "\n- title: "@ + t@)
            &&& text::contains(r, "\n- archived_at: "@ + archived_at)
            &&& text::contains(r, "\n- screenshot_path: "@ + capture.screenshot_path@)
            &&& text::ends_with(r, "\n\n## Content\n\n"@ + body + "\n"@)
        }),
{
    let r = browser_archive_text(task, capture, body, archived_at);
    let h = head_lines(task.task_id@, task.article_id@, task.normalized_url@, task.original_url@);
    let t = text::text_or(text::opt_text(capture.title), "(none)"@);
    let a = "\n- final_url: "@ + capture.final_url@;
    let b = "\n- title: "@ + t;
    let c = "\n- archived_at: "@ + archived_at;
    let d = "\n- source: browser_capture\n- page_kind: "@ + capture.page_kind@;
    let p = "\n- screenshot_path: "@ + capture.screenshot_path@;
    let e = "\n\n## Content\n\n"@ + body + "\n"@;
    assert(r =~= h + a + (b + c + d + p + e));
    assert(r =~= h + a + b + (c + d + p + e));
    assert(r =~= h + a + b + c + (d + p + e));
    assert(r =~= h + a + b + c + d + p + e);
    text::lemma_holds(h, a, b + c + d + p + e);
    text::lemma_holds(h + a, b, c + d + p + e);
    text::lemma_holds(h + a + b, c, d + p + e);
    text::lemma_holds(h + a + b + c + d, p, e);
    assert(r.subrange(0, h.len() as int) =~= h);
    let n = r.len() - e.len();
    assert(r.subrange(n, n + e.len()) =~= e);
}

} // verus!
