//! Titles, bodies, kinds and summaries of pages.

use crate::pipeline::markdown;
use crate::pipeline::markdown::{fresh_nonce, html_fragment_to_markdown_with, nonblank_lines};
use crate::text;
use crate::text::{
    CharClass, blank, cat2, cat3, cat4, char_count, chars_of, clip, count_matches, find_chars,
    has, has_any, has_char, has_prefix, join_strings, owned, push_text, split_by_text,
    split_lines, split_words, string_of, string_of_range, to_lower, trim_leading_chars,
    trim_trailing_chars, trimmed, whitespace,
};
use vstd::prelude::*;

verus! {

/// The words of a text with one space between them.
pub open spec fn one_line(s: Seq<char>) -> Seq<char> {
    text::join(text::words(s), " "@)
}

pub fn joined_words(s: &str) -> (r: String)
    ensures
        r@ == one_line(s@),
{
    let ws = split_words(s);
    join_strings(ws.as_slice(), " ")
}

/// The text between `<title>` and `</title>`, on one line.
pub open spec fn html_title(html: Seq<char>) -> Option<Seq<char>> {
    let low = text::lower(html);
    match text::find(low, "<title>"@) {
        None => None,
        Some(at) => match text::find_from(low, "</title>"@, at + 7) {
            None => None,
            Some(end) => {
                let title = one_line(html.subrange(at + 7, end));
                if title.len() == 0 {
                    None
                } else {
                    Some(title)
                }
            },
        },
    }
}

pub fn extract_html_title(html: &str) -> (r: Option<String>)
    ensures
        text::opt_text(r) == html_title(html@),
{
    let v = chars_of(html);
    let lowered = to_lower(html);
    let low = chars_of(lowered.as_str());
    let open = chars_of("<title>");
    let close = chars_of("</title>");
    proof {
        reveal_strlit("<title>");
        reveal_strlit("</title>");
        text::lemma_find_from(low@, open@, 0);
    }
    match find_chars(&low, &open, 0) {
        None => None,
        Some(at) => {
            let total: usize = low.len();
            proof {
                assert(at + 7 <= total);
                text::lemma_find_from(low@, close@, at + 7);
            }
            match find_chars(&low, &close, at + 7) {
                None => None,
                Some(end) => {
                    let raw = string_of_range(&v, at + 7, end);
                    let title = joined_words(raw.as_str());
                    if char_count(title.as_str()) == 0 {
                        None
                    } else {
                        Some(title)
                    }
                },
            }
        },
    }
}

/// The start of a page on one line.
pub open spec fn preview(html: Seq<char>) -> Seq<char> {
    text::clipped(one_line(html), 240)
}

pub fn preview_text(html: &str) -> (r: String)
    ensures
        r@ == preview(html@),
{
    let line = joined_words(html);
    clip(line.as_str(), 240)
}

// ---------------------------------------------------------------------------
// Elements
// ---------------------------------------------------------------------------

/// The last position before `to` at which `c` stands.
pub open spec fn last_before(s: Seq<char>, c: char, to: int) -> Option<int>
    decreases to,
{
    if to <= 0 {
        None
    } else if s[to - 1] == c {
        Some(to - 1)
    } else {
        last_before(s, c, to - 1)
    }
}

fn find_last_before(v: &Vec<char>, c: char, to: usize) -> (r: Option<usize>)
    requires
        to <= v@.len(),
    ensures
        match r {
            Some(k) => last_before(v@, c, to as int) == Some(k as int) && k < to,
            None => last_before(v@, c, to as int) is None,
        },
{
    let mut i: usize = to;
    while i > 0
        invariant
            i <= to <= v@.len(),
            last_before(v@, c, to as int) == last_before(v@, c, i as int),
        decreases i,
    {
        if v[i - 1] == c {
            return Some(i - 1);
        }
        i = i - 1;
    }
    None
}

/// The name of a tag from the text behind its `<`.
pub open spec fn tag_name(rest: Seq<char>) -> Option<Seq<char>> {
    if text::words(rest).len() == 0 {
        None
    } else {
        Some(
            text::drop_trailing(
                text::drop_leading(text::words(rest)[0], CharClass::Only('/')),
                CharClass::Only('>'),
            ),
        )
    }
}

fn read_tag_name(rest: &str) -> (r: Option<String>)
    ensures
        text::opt_text(r) == tag_name(rest@),
{
    let ws = split_words(rest);
    proof {
        assert(text::texts(ws@).len() == ws@.len());
    }
    if ws.len() == 0 {
        return None;
    }
    let v = chars_of(ws[0].as_str());
    let a = trim_leading_chars(&v, CharClass::Only('/'));
    let b = trim_trailing_chars(&a, CharClass::Only('>'));
    Some(string_of(&b))
}

/// Where the attribute `id` with this value stands.
pub open spec fn id_position(html: Seq<char>, id: Seq<char>) -> Option<int> {
    match text::find(html, "id=\""@ + id + "\""@) {
        Some(k) => Some(k),
        None => text::find(html, "id='"@ + id + "'"@),
    }
}

/// What stands inside the element with this id.
pub open spec fn inner_by_id(html: Seq<char>, id: Seq<char>) -> Option<Seq<char>> {
    match id_position(html, id) {
        None => None,
        Some(at) => match last_before(html, '<', at) {
            None => None,
            Some(open) => match text::find_from(html, ">"@, at) {
                None => None,
                Some(tag_end) => match tag_name(html.skip(open + 1)) {
                    None => None,
                    Some(name) => match text::find_from(html, "</"@ + name + ">"@, tag_end + 1) {
                        None => None,
                        Some(end) => Some(html.subrange(tag_end + 1, end)),
                    },
                },
            },
        },
    }
}

pub fn extract_element_inner_html_by_id(html: &str, element_id: &str) -> (r: Option<String>)
    ensures
        text::opt_text(r) == inner_by_id(html@, element_id@),
{
    let v = chars_of(html);
    let total: usize = v.len();
    let double = cat3("id=\"", element_id, "\"");
    let single = cat3("id='", element_id, "'");
    let d = chars_of(double.as_str());
    let s = chars_of(single.as_str());
    let gt = chars_of(">");
    proof {
        reveal_strlit(">");
        text::lemma_find_from(v@, d@, 0);
        text::lemma_find_from(v@, s@, 0);
    }
    let at: usize = match find_chars(&v, &d, 0) {
        Some(k) => k,
        None => match find_chars(&v, &s, 0) {
            Some(k) => k,
            None => {
                return None;
            },
        },
    };
    proof {
        assert(at <= total);
        text::lemma_find_from(v@, gt@, at as int);
    }
    let open: usize = match find_last_before(&v, '<', at) {
        Some(k) => k,
        None => {
            return None;
        },
    };
    let tag_end: usize = match find_chars(&v, &gt, at) {
        Some(k) => k,
        None => {
            return None;
        },
    };
    let rest = string_of_range(&v, open + 1, total);
    proof {
        assert(rest@ =~= v@.skip(open + 1));
    }
    let name = match read_tag_name(rest.as_str()) {
        Some(n) => n,
        None => {
            return None;
        },
    };
    let close_text = cat3("</", name.as_str(), ">");
    let close = chars_of(close_text.as_str());
    proof {
        text::lemma_find_from(v@, close@, tag_end + 1);
    }
    match find_chars(&v, &close, tag_end + 1) {
        None => None,
        Some(end) => Some(string_of_range(&v, tag_end + 1, end)),
    }
}

/// What stands inside the first element with this tag.
pub open spec fn inner_by_tag(html: Seq<char>, tag: Seq<char>) -> Option<Seq<char>> {
    let low = text::lower(html);
    match text::find(low, "<"@ + tag) {
        None => None,
        Some(at) => match text::find_from(html, ">"@, at) {
            None => None,
            Some(tag_end) => match text::find_from(low, "</"@ + tag + ">"@, tag_end + 1) {
                None => None,
                Some(end) => Some(html.subrange(tag_end + 1, end)),
            },
        },
    }
}

pub fn extract_element_inner_html_by_tag(html: &str, tag_name: &str) -> (r: Option<String>)
    ensures
        text::opt_text(r) == inner_by_tag(html@, tag_name@),
{
    let v = chars_of(html);
    let lowered = to_lower(html);
    let low = chars_of(lowered.as_str());
    let open_text = cat2("<", tag_name);
    let open = chars_of(open_text.as_str());
    let close_text = cat3("</", tag_name, ">");
    let close = chars_of(close_text.as_str());
    let gt = chars_of(">");
    proof {
        reveal_strlit(">");
        text::lemma_find_from(low@, open@, 0);
    }
    match find_chars(&low, &open, 0) {
        None => None,
        Some(at) => {
            proof {
                text::lemma_find_from(v@, gt@, at as int);
            }
            match find_chars(&v, &gt, at) {
                None => None,
                Some(tag_end) => {
                    let total: usize = v.len();
                    proof {
                        assert(tag_end + 1 <= total);
                        text::lemma_find_from(low@, close@, tag_end + 1);
                    }
                    match find_chars(&low, &close, tag_end + 1) {
                        None => None,
                        Some(end) => Some(string_of_range(&v, tag_end + 1, end)),
                    }
                },
            }
        },
    }
}

// ---------------------------------------------------------------------------
// Bodies
// ---------------------------------------------------------------------------

/// A text that is long enough to be the body of a page.
pub open spec fn meaningful_body(s: Seq<char>) -> bool {
    s.len() >= 80 || markdown::kept_lines(text::lines(s)).len() >= 3
}

pub fn is_meaningful_extracted_body(text: &str) -> (r: bool)
    ensures
        r == meaningful_body(text@),
{
    let kept = nonblank_lines(text);
    proof {
        assert(text::texts(kept@).len() == kept@.len());
    }
    char_count(text) >= 80 || kept.len() >= 3
}

pub open spec fn fragment_markdown(fragment: Option<Seq<char>>, nonce: Seq<char>) -> Option<Seq<char>> {
    match fragment {
        Some(f) => Some(markdown::markdown_of(f, nonce)),
        None => None,
    }
}

/// Title and text of a page of the chat service's publishing platform.
pub open spec fn wechat_body(html: Seq<char>, nonce: Seq<char>) -> Option<Seq<char>> {
    let title = fragment_markdown(inner_by_id(html, "activity-name"@), nonce);
    let body = match fragment_markdown(inner_by_id(html, "js_content"@), nonce) {
        Some(b) if !text::is_blank(b) => Some(b),
        _ => None,
    };
    match (title, body) {
        (Some(t), Some(b)) => Some("## "@ + text::trim(t) + "\n\n"@ + text::trim(b)),
        (None, Some(b)) => Some(text::trim(b)),
        (Some(t), None) => Some("## "@ + text::trim(t)),
        (None, None) => None,
    }
}

pub fn extract_wechat_primary_body(html: &str, nonce: &str) -> (r: Option<String>)
    ensures
        text::opt_text(r) == wechat_body(html@, nonce@),
{
    let title = match extract_element_inner_html_by_id(html, "activity-name") {
        Some(f) => Some(html_fragment_to_markdown_with(f.as_str(), nonce)),
        None => None,
    };
    let body = match extract_element_inner_html_by_id(html, "js_content") {
        Some(f) => {
            let md = html_fragment_to_markdown_with(f.as_str(), nonce);
            if blank(md.as_str()) {
                None
            } else {
                Some(md)
            }
        },
        None => None,
    };
    match (title, body) {
        (Some(t), Some(b)) => {
            let tt = trimmed(t.as_str());
            let bb = trimmed(b.as_str());
            Some(cat4("## ", tt.as_str(), "\n\n", bb.as_str()))
        },
        (None, Some(b)) => Some(trimmed(b.as_str())),
        (Some(t), None) => {
            let tt = trimmed(t.as_str());
            Some(cat2("## ", tt.as_str()))
        },
        (None, None) => None,
    }
}

/// The text of an element, where it is long enough.
pub open spec fn tag_body(html: Seq<char>, tag: Seq<char>, nonce: Seq<char>) -> Option<Seq<char>> {
    match inner_by_tag(html, tag) {
        Some(f) => if meaningful_body(text::trim(markdown::markdown_of(f, nonce))) {
            Some(text::trim(markdown::markdown_of(f, nonce)))
        } else {
            None
        },
        None => None,
    }
}

fn body_of_tag(html: &str, tag: &str, nonce: &str) -> (r: Option<String>)
    ensures
        text::opt_text(r) == tag_body(html@, tag@, nonce@),
{
    match extract_element_inner_html_by_tag(html, tag) {
        Some(f) => {
            let md = html_fragment_to_markdown_with(f.as_str(), nonce);
            let core = trimmed(md.as_str());
            if is_meaningful_extracted_body(core.as_str()) {
                Some(core)
            } else {
                None
            }
        },
        None => None,
    }
}

pub open spec fn generic_body(html: Seq<char>, nonce: Seq<char>) -> Option<Seq<char>> {
    match tag_body(html, "article"@, nonce) {
        Some(b) => Some(b),
        None => match tag_body(html, "main"@, nonce) {
            Some(b) => Some(b),
            None => tag_body(html, "body"@, nonce),
        },
    }
}

pub fn extract_generic_primary_body(html: &str, nonce: &str) -> (r: Option<String>)
    ensures
        text::opt_text(r) == generic_body(html@, nonce@),
{
    match body_of_tag(html, "article", nonce) {
        Some(b) => Some(b),
        None => match body_of_tag(html, "main", nonce) {
            Some(b) => Some(b),
            None => body_of_tag(html, "body", nonce),
        },
    }
}

/// The text of a page, where `nonce` marks the code blocks on the way.
pub open spec fn primary_body(html: Seq<char>, nonce: Seq<char>) -> Option<Seq<char>> {
    match wechat_body(html, nonce) {
        Some(b) => Some(b),
        None => generic_body(html, nonce),
    }
}

pub fn extract_primary_body_with(html: &str, nonce: &str) -> (r: Option<String>)
    ensures
        text::opt_text(r) == primary_body(html@, nonce@),
{
    match extract_wechat_primary_body(html, nonce) {
        Some(b) => Some(b),
        None => extract_generic_primary_body(html, nonce),
    }
}

pub fn extract_primary_body(html: &str) -> (r: Option<String>)
    ensures
        exists|n: nat| text::opt_text(r) == primary_body(html@, #[trigger] text::decimal(n)),
{
    let nonce = fresh_nonce();
    extract_primary_body_with(html, nonce.as_str())
}

// ---------------------------------------------------------------------------
// Kinds of pages
// ---------------------------------------------------------------------------

/// The page says itself that it is an article.
pub open spec fn declares_article(low: Seq<char>) -> bool {
    text::contains(low, "<article"@) || text::contains(low, "property=\"og:type\" content=\"article"@)
        || text::contains(low, "property='og:type' content='article"@)
}

fn is_declared_article(low: &str) -> (r: bool)
    ensures
        r == declares_article(low@),
{
    has(low, "<article") || has(low, "property=\"og:type\" content=\"article") || has(
        low,
        "property='og:type' content='article",
    )
}

/// How many characters of a text are neither space nor part of the brackets of tags.
pub open spec fn solid_chars(s: Seq<char>) -> nat
    decreases s.len(),
{
    if s.len() == 0 {
        0
    } else {
        let c = s.last();
        solid_chars(s.drop_last()) + (if !text::is_whitespace(c) && c != '<' && c != '>' && c != '/' {
            1nat
        } else {
            0
        })
    }
}

fn count_solid(s: &str) -> (r: usize)
    ensures
        r == solid_chars(s@),
{
    let v = chars_of(s);
    let mut n: usize = 0;
    let mut i: usize = 0;
    proof {
        assert(v@.take(0) =~= Seq::empty());
    }
    while i < v.len()
        invariant
            i <= v@.len(),
            n == solid_chars(v@.take(i as int)),
            n <= i,
        decreases v.len() - i,
    {
        proof {
            assert(v@.take(i + 1).drop_last() =~= v@.take(i as int));
        }
        let c = v[i];
        if !whitespace(c) && c != '<' && c != '>' && c != '/' {
            n = n + 1;
        }
        i = i + 1;
    }
    proof {
        assert(v@.take(i as int) =~= v@);
    }
    n
}

pub open spec fn error_words() -> Seq<Seq<char>> {
    seq!["404"@, "not found"@, "页面不存在"@, "找不到页面"@, "page not found"@, "页面未找到"@]
}

/// A short page whose title speaks of a missing page.
pub open spec fn error_page(html: Seq<char>) -> bool {
    let low = text::lower(html);
    let pieces = text::split_text(low, "<body"@);
    !declares_article(low) && solid_chars(pieces.last()) <= 1500 && text::contains_any(
        text::lower(text::text_or(html_title(html), Seq::empty())),
        error_words(),
    )
}

fn is_error_page(html: &str, low: &str) -> (r: bool)
    requires
        low@ == text::lower(html@),
    ensures
        r == error_page(html@),
{
    if is_declared_article(low) {
        return false;
    }
    proof {
        reveal_strlit("<body");
    }
    let pieces = split_by_text(low, "<body");
    proof {
        assert(text::texts(pieces@).len() == pieces@.len());
        assert(text::texts(pieces@).last() == pieces@.last()@);
    }
    if count_solid(pieces[pieces.len() - 1].as_str()) > 1500 {
        return false;
    }
    let title = match extract_html_title(html) {
        Some(t) => t,
        None => {
            let none = String::new();
            proof {
                assert(none@ =~= Seq::<char>::empty());
            }
            none
        },
    };
    let low_title = to_lower(title.as_str());
    let mut keys: Vec<String> = Vec::new();
    push_text(&mut keys, "404");
    push_text(&mut keys, "not found");
    push_text(&mut keys, "页面不存在");
    push_text(&mut keys, "找不到页面");
    push_text(&mut keys, "page not found");
    push_text(&mut keys, "页面未找到");
    proof {
        assert(text::texts(keys@) =~= error_words());
    }
    has_any(low_title.as_str(), &keys)
}

/// A page of many links or list items with little text.
pub open spec fn index_like(low: Seq<char>, markdown: Seq<char>) -> bool {
    (text::count_of(low, "<a "@) >= 10 && markdown.len() < 500) || (text::count_of(low, "<li"@) >= 8
        && markdown.len() < 800)
}

fn is_index_like_page(low: &str, markdown: &str) -> (r: bool)
    ensures
        r == index_like(low@, markdown@),
{
    proof {
        reveal_strlit("<a ");
        reveal_strlit("<li");
    }
    let prose: usize = char_count(markdown);
    (count_matches(low, "<a ") >= 10 && prose < 500) || (count_matches(low, "<li") >= 8 && prose < 800)
}

/// A short text with a link.
pub open spec fn link_post(markdown: Seq<char>) -> bool {
    markdown.len() < 300 && text::contains(markdown, "http"@)
}

fn is_link_post(markdown: &str) -> (r: bool)
    ensures
        r == link_post(markdown@),
{
    char_count(markdown) < 300 && has(markdown, "http")
}

/// A page that says it is an article, or has enough paragraphs or text.
pub open spec fn article_like(low: Seq<char>, markdown: Seq<char>) -> bool {
    declares_article(low) || text::contains(low, "name=\"twitter:card\" content=\"summary_large_image"@)
        || text::count_of(markdown, "\n\n"@) + 1 >= 3 || markdown.len() >= 400
}

fn looks_like_article(low: &str, markdown: &str) -> (r: bool)
    ensures
        r == article_like(low@, markdown@),
{
    proof {
        reveal_strlit("\n\n");
    }
    is_declared_article(low) || has(low, "name=\"twitter:card\" content=\"summary_large_image")
        || count_matches(markdown, "\n\n") >= 2 || char_count(markdown) >= 400
}

/// The kind of a page.
pub open spec fn page_kind(html: Seq<char>, markdown: Seq<char>) -> Seq<char> {
    let low = text::lower(html);
    if error_page(html) {
        "error_page"@
    } else if article_like(low, markdown) {
        "article"@
    } else if index_like(low, markdown) {
        "index_like"@
    } else if link_post(markdown) {
        "link_post"@
    } else {
        "webpage"@
    }
}

pub fn classify_http_page_kind(html: &str, markdown: &str) -> (r: String)
    ensures
        r@ == page_kind(html@, markdown@),
{
    let low = to_lower(html);
    if is_error_page(html, low.as_str()) {
        return owned("error_page");
    }
    if looks_like_article(low.as_str(), markdown) {
        return owned("article");
    }
    if is_index_like_page(low.as_str(), markdown) {
        return owned("index_like");
    }
    if is_link_post(markdown) {
        return owned("link_post");
    }
    owned("webpage")
}

/// A page that says it is an article is never taken for an error page, whatever its title
/// says.
pub proof fn lemma_declared_article(html: Seq<char>, markdown: Seq<char>)
    requires
        declares_article(text::lower(html)),
    ensures
        page_kind(html, markdown) == "article"@,
{
}

/// What is archived of a page.
#[derive(Debug, Clone, PartialEq, Eq)]
pub struct ExtractedArchiveBody {
    pub markdown: String,
    pub page_kind: String,
    pub section_title: String,
}

/// The body of a page, or its start where there is none.
pub open spec fn archive_text(html: Seq<char>, nonce: Seq<char>) -> Seq<char> {
    match primary_body(html, nonce) {
        Some(b) => b,
        None => preview(html),
    }
}

pub open spec fn archive_section(html: Seq<char>, nonce: Seq<char>) -> Seq<char> {
    if primary_body(html, nonce) is Some {
        "Content"@
    } else {
        "Preview"@
    }
}

pub open spec fn archive_body_is(r: ExtractedArchiveBody, html: Seq<char>, nonce: Seq<char>) -> bool {
    &&& r.markdown@ == archive_text(html, nonce)
    &&& r.page_kind@ == page_kind(html, archive_text(html, nonce))
    &&& r.section_title@ == archive_section(html, nonce)
}

pub fn extract_http_archive_body_with(html: &str, nonce: &str) -> (r: ExtractedArchiveBody)
    ensures
        archive_body_is(r, html@, nonce@),
{
    match extract_primary_body_with(html, nonce) {
        Some(markdown) => {
            let page_kind = classify_http_page_kind(html, markdown.as_str());
            ExtractedArchiveBody { markdown, page_kind, section_title: owned("Content") }
        },
        None => {
            let markdown = preview_text(html);
            let page_kind = classify_http_page_kind(html, markdown.as_str());
            ExtractedArchiveBody { markdown, page_kind, section_title: owned("Preview") }
        },
    }
}

pub fn extract_http_archive_body(html: &str) -> (r: ExtractedArchiveBody)
    ensures
        exists|n: nat| archive_body_is(r, html@, #[trigger] text::decimal(n)),
{
    let nonce = fresh_nonce();
    extract_http_archive_body_with(html, nonce.as_str())
}

// ---------------------------------------------------------------------------
// Summaries
// ---------------------------------------------------------------------------

pub open spec fn navigation_words() -> Seq<Seq<char>> {
    seq![
        "版权所有"@,
        "备案号"@,
        "icp"@,
        "关注我们"@,
        "扫码关注"@,
        "点击阅读原文"@,
        "分享到"@,
        "copyright"@,
        "all rights reserved"@,
        "cookie"@,
        "privacy policy"@,
        "隐私政策"@,
        "回到顶部"@,
        "返回顶部"@,
        "top ↑"@,
    ]
}

/// Text around a page rather than of it: short texts with certain words, and bare links.
pub open spec fn navigation_like(s: Seq<char>) -> bool {
    let low = text::lower(s);
    (s.len() < 60 && text::contains_any(low, navigation_words())) || (text::starts_with(low, "http"@)
        && !low.contains(' '))
}

pub fn is_navigation_like(text: &str) -> (r: bool)
    ensures
        r == navigation_like(text@),
{
    let low = to_lower(text);
    let mut keys: Vec<String> = Vec::new();
    push_text(&mut keys, "版权所有");
    push_text(&mut keys, "备案号");
    push_text(&mut keys, "icp");
    push_text(&mut keys, "关注我们");
    push_text(&mut keys, "扫码关注");
    push_text(&mut keys, "点击阅读原文");
    push_text(&mut keys, "分享到");
    push_text(&mut keys, "copyright");
    push_text(&mut keys, "all rights reserved");
    push_text(&mut keys, "cookie");
    push_text(&mut keys, "privacy policy");
    push_text(&mut keys, "隐私政策");
    push_text(&mut keys, "回到顶部");
    push_text(&mut keys, "返回顶部");
    push_text(&mut keys, "top ↑");
    proof {
        assert(text::texts(keys@) =~= navigation_words());
    }
    if char_count(text) < 60 && has_any(low.as_str(), &keys) {
        return true;
    }
    has_prefix(low.as_str(), "http") && !has_char(low.as_str(), ' ')
}

/// A paragraph that says enough for a summary.
pub open spec fn summary_paragraph(s: Seq<char>) -> bool {
    text::trim(s).len() >= 20 && !navigation_like(text::trim(s))
}

pub fn is_meaningful_summary_paragraph(text: &str) -> (r: bool)
    ensures
        r == summary_paragraph(text@),
{
    let core = trimmed(text);
    if char_count(core.as_str()) < 20 {
        return false;
    }
    !is_navigation_like(core.as_str())
}

pub fn truncate_line(text: &str, max_chars: usize) -> (r: String)
    ensures
        r@ == text::clipped(text@, max_chars as int),
{
    clip(text, max_chars)
}

/// The first `n` trimmed paragraphs that say enough.
pub open spec fn good_paragraphs(parts: Seq<Seq<char>>, n: nat) -> Seq<Seq<char>>
    decreases parts.len(),
{
    if n == 0 || parts.len() == 0 {
        Seq::empty()
    } else if summary_paragraph(text::trim(parts[0])) {
        seq![text::trim(parts[0])] + good_paragraphs(parts.drop_first(), (n - 1) as nat)
    } else {
        good_paragraphs(parts.drop_first(), n)
    }
}

pub open spec fn first_line(s: Seq<char>) -> Seq<char> {
    if text::lines(s).len() == 0 {
        s
    } else {
        text::lines(s)[0]
    }
}

pub open spec fn short_lines(paragraphs: Seq<Seq<char>>) -> Seq<Seq<char>> {
    Seq::new(paragraphs.len(), |i: int| text::clipped(first_line(paragraphs[i]), 150))
}

/// The title and the first lines of up to three paragraphs.
pub open spec fn rule_summary(title: Option<Seq<char>>, markdown: Seq<char>) -> Option<Seq<char>> {
    let paragraphs = good_paragraphs(text::split_text(markdown, "\n\n"@), 3);
    if paragraphs.len() == 0 {
        None
    } else {
        let head = match title {
            Some(t) if !text::is_blank(t) => seq![text::clipped(t, 200)],
            _ => Seq::empty(),
        };
        Some(text::join(head + short_lines(paragraphs), "\n"@))
    }
}

fn find_good_paragraphs(markdown: &str) -> (r: Vec<String>)
    ensures
        text::texts(r@) == good_paragraphs(text::split_text(markdown@, "\n\n"@), 3),
{
    proof {
        reveal_strlit("\n\n");
    }
    let parts = split_by_text(markdown, "\n\n");
    let ghost all = text::texts(parts@);
    let ghost goal = good_paragraphs(all, 3);
    let mut out: Vec<String> = Vec::new();
    let mut i: usize = 0;
    proof {
        assert(all.len() == parts@.len());
        assert(all.skip(0) =~= all);
        assert(text::texts(out@) =~= Seq::<Seq<char>>::empty());
        assert(goal =~= text::texts(out@) + good_paragraphs(all.skip(0), 3));
    }
    while i < parts.len() && out.len() < 3
        invariant
            i <= parts@.len(),
            all == text::texts(parts@),
            all.len() == parts@.len(),
            out@.len() <= 3,
            goal == text::texts(out@) + good_paragraphs(all.skip(i as int), (3 - out@.len()) as nat),
        decreases parts.len() - i,
    {
        let core = trimmed(parts[i].as_str());
        let ghost before = text::texts(out@);
        let ghost left = (3 - out@.len()) as nat;
        proof {
            assert(all.skip(i as int)[0] == parts@[i as int]@);
            assert(all.skip(i as int).drop_first() =~= all.skip(i + 1));
        }
        if is_meaningful_summary_paragraph(core.as_str()) {
            out.push(core);
            proof {
                assert(text::texts(out@) =~= before.push(text::trim(all[i as int])));
                let rest = good_paragraphs(all.skip(i + 1), (left - 1) as nat);
                assert(before + (seq![text::trim(all[i as int])] + rest) =~= text::texts(out@) + rest);
            }
        }
        i = i + 1;
    }
    proof {
        assert(goal =~= text::texts(out@));
    }
    out
}

pub fn generate_rule_summary(title: Option<&str>, markdown: &str) -> (r: Option<String>)
    ensures
        text::opt_text(r) == rule_summary(text::opt_str(title), markdown@),
{
    let paragraphs = find_good_paragraphs(markdown);
    let ghost good = text::texts(paragraphs@);
    proof {
        assert(good.len() == paragraphs@.len());
    }
    if paragraphs.len() == 0 {
        return None;
    }
    let mut out: Vec<String> = Vec::new();
    if let Some(t) = title {
        if !blank(t) {
            let head = truncate_line(t, 200);
            out.push(head);
        }
    }
    let ghost head = match text::opt_str(title) {
        Some(t) if !text::is_blank(t) => seq![text::clipped(t, 200)],
        _ => Seq::empty(),
    };
    let ghost want = short_lines(good);
    let mut i: usize = 0;
    proof {
        assert(text::texts(out@) =~= head);
        assert(head + want.take(0) =~= head);
    }
    while i < paragraphs.len()
        invariant
            i <= paragraphs@.len(),
            good == text::texts(paragraphs@),
            want == short_lines(good),
            want.len() == paragraphs@.len(),
            text::texts(out@) == head + want.take(i as int),
        decreases paragraphs.len() - i,
    {
        let ls = split_lines(paragraphs[i].as_str());
        proof {
            assert(text::texts(ls@).len() == ls@.len());
        }
        let line = if ls.len() == 0 {
            truncate_line(paragraphs[i].as_str(), 150)
        } else {
            truncate_line(ls[0].as_str(), 150)
        };
        proof {
            assert(good[i as int] == paragraphs@[i as int]@);
            assert(line@ == want[i as int]);
            assert((head + want.take(i as int)).push(line@) =~= head + want.take(i + 1));
        }
        push_text(&mut out, line.as_str());
        i = i + 1;
    }
    proof {
        assert(want.take(i as int) =~= want);
    }
    Some(join_strings(out.as_slice(), "\n"))
}

// ---------------------------------------------------------------------------
// Laws
// ---------------------------------------------------------------------------

/// The title of a page is what stands between the first opening and closing tag of a title,
/// in whichever case these are written, with its words on one line.
pub proof fn lemma_title_is_read(
    a: Seq<char>,
    open: Seq<char>,
    title: Seq<char>,
    close: Seq<char>,
    b: Seq<char>,
)
    requires
        text::lower(open) == "<title>"@,
        text::lower(close) == "</title>"@,
        one_line(title).len() > 0,
        forall|k: int|
            0 <= k < a.len() ==> !#[trigger] text::occurs_at(
                text::lower(a + open + title + close + b),
                "<title>"@,
                k,
            ),
        forall|k: int|
            0 <= k < title.len() ==> !#[trigger] text::occurs_at(
                text::lower(title + close),
                "</title>"@,
                k,
            ),
    ensures
        html_title(a + open + title + close + b) == Some(one_line(title)),
{
    let html = a + open + title + close + b;
    let low = text::lower(html);
    reveal_strlit("<title>");
    reveal_strlit("</title>");
    assert(text::lower(open).len() == open.len());
    assert(text::lower(close).len() == close.len());
    let at = a.len() as int;
    let end = at + 7 + title.len();
    assert(low.subrange(at, at + 7) =~= text::lower(open));
    text::lemma_find_is(low, "<title>"@, 0, at);
    assert(low.subrange(end, end + 8) =~= text::lower(close));
    let tc = text::lower(title + close);
    assert forall|i: int| at + 7 <= i < end implies !#[trigger] text::occurs_at(
        low,
        "</title>"@,
        i,
    ) by {
        if text::occurs_at(low, "</title>"@, i) {
            let j = i - (at + 7);
            assert forall|m: int| 0 <= m < 8 implies #[trigger] tc[j + m] == low[i + m] by {
                assert((title + close)[j + m] == html[i + m]);
            }
            text::lemma_occurs_agree(low, tc, "</title>"@, i, j);
            assert(text::occurs_at(tc, "</title>"@, j));
        }
    }
    text::lemma_find_is(low, "</title>"@, at + 7, end);
    assert(html.subrange(at + 7, end) =~= title);
}

/// The words of a text stay, in their order, when it is brought onto one line: white space
/// becomes one space, and there is none at the ends.
pub proof fn lemma_one_line_of_words(a: Seq<char>, c: char, b: Seq<char>)
    requires
        text::is_whitespace(c),
    ensures
        text::words(a).len() > 0 && text::words(b).len() > 0 ==> one_line(a + seq![c] + b)
            == one_line(a) + seq![' '] + one_line(b),
        text::words(a).len() == 0 ==> one_line(a + seq![c] + b) == one_line(b),
        text::words(b).len() == 0 ==> one_line(a + seq![c] + b) == one_line(a),
{
    text::lemma_words_apart(a, c, b);
    reveal_strlit(" ");
    assert(" "@ =~= seq![' ']);
    let x = text::words(a);
    let y = text::words(b);
    if x.len() > 0 && y.len() > 0 {
        text::lemma_join_concat(x, y, " "@);
    }
    if x.len() == 0 {
        assert(x + y =~= y);
    }
    if y.len() == 0 {
        assert(x + y =~= x);
    }
}

/// A single word is on one line already.
pub proof fn lemma_one_line_of_a_word(w: Seq<char>)
    requires
        w.len() > 0,
        forall|i: int| 0 <= i < w.len() ==> !text::is_whitespace(#[trigger] w[i]),
    ensures
        one_line(w) == w,
{
    text::lemma_one_word(w);
}

proof fn lemma_last_before(s: Seq<char>, c: char, at: int, to: int)
    requires
        0 <= at < to <= s.len(),
        s[at] == c,
        forall|i: int| at < i < to ==> #[trigger] s[i] != c,
    ensures
        last_before(s, c, to) == Some(at),
    decreases to,
{
    if s[to - 1] != c {
        lemma_last_before(s, c, at, to - 1);
    }
}

/// What stands inside an element is found by the element's id: it ends with the first
/// closing tag of the same name.
pub proof fn lemma_element_is_found_by_id(
    a: Seq<char>,
    name: Seq<char>,
    x: Seq<char>,
    id: Seq<char>,
    y: Seq<char>,
    inner: Seq<char>,
    b: Seq<char>,
)
    requires
        name.len() > 0,
        forall|i: int| 0 <= i < name.len() ==> !text::is_whitespace(#[trigger] name[i]),
        name[0] != '/',
        name.last() != '>',
        !name.contains('<'),
        x.len() > 0,
        text::is_whitespace(x[0]),
        !x.contains('<'),
        !id.contains('>'),
        !y.contains('>'),
        forall|k: int|
            0 <= k < (a + "<"@ + name + x).len() ==> !#[trigger] text::occurs_at(
                a + "<"@ + name + x + ("id=\""@ + id + "\""@) + y + ">"@ + inner + ("</"@ + name
                    + ">"@) + b,
                "id=\""@ + id + "\""@,
                k,
            ),
        forall|k: int|
            0 <= k < inner.len() ==> !#[trigger] text::occurs_at(
                inner + ("</"@ + name + ">"@),
                "</"@ + name + ">"@,
                k,
            ),
    ensures
        inner_by_id(
            a + "<"@ + name + x + ("id=\""@ + id + "\""@) + y + ">"@ + inner + ("</"@ + name + ">"@)
                + b,
            id,
        ) == Some(inner),
{
    reveal_strlit("<");
    reveal_strlit(">");
    reveal_strlit("id=\"");
    reveal_strlit("\"");
    reveal_strlit("</");
    let pat = "id=\""@ + id + "\""@;
    let close = "</"@ + name + ">"@;
    let html = a + "<"@ + name + x + pat + y + ">"@ + inner + close + b;
    let open = a.len() as int;
    let at = (a + "<"@ + name + x).len() as int;
    let tag_end = at + pat.len() + y.len();
    let end = tag_end + 1 + inner.len();
    assert(html.subrange(at, at + pat.len()) =~= pat);
    text::lemma_find_is(html, pat, 0, at);
    assert(html[open] == '<');
    assert forall|i: int| open < i < at implies #[trigger] html[i] != '<' by {
        if i < open + 1 + name.len() {
            assert(html[i] == name[i - open - 1]);
            assert(name.contains(name[i - open - 1]));
        } else {
            assert(html[i] == x[i - open - 1 - name.len()]);
            assert(x.contains(x[i - open - 1 - name.len()]));
        }
    }
    lemma_last_before(html, '<', open, at);
    assert(">"@ =~= seq!['>']);
    assert(html[tag_end] == '>');
    text::lemma_occurs_char(html, '>', tag_end);
    assert forall|i: int| at <= i < tag_end implies !#[trigger] text::occurs_at(html, ">"@, i) by {
        text::lemma_occurs_char(html, '>', i);
        if i < at + pat.len() {
            assert(html[i] == pat[i - at]);
            if 4 <= i - at < 4 + id.len() {
                assert(pat[i - at] == id[i - at - 4]);
                assert(id.contains(id[i - at - 4]));
            } else if i - at < 4 {
                assert(pat[i - at] == "id=\""@[i - at]);
            } else {
                assert(pat[i - at] == '"');
            }
        } else {
            assert(html[i] == y[i - at - pat.len()]);
            assert(y.contains(y[i - at - pat.len()]));
        }
    }
    text::lemma_find_is(html, ">"@, at, tag_end);
    let rest = html.skip(open + 1);
    let after = rest.skip(name.len() as int + 1);
    assert(rest =~= name + seq![x[0]] + after);
    text::lemma_words_apart(name, x[0], after);
    text::lemma_one_word(name);
    assert(text::words(rest)[0] == name);
    let none = Seq::<char>::empty();
    text::lemma_drop_leading_exact(none, name, CharClass::Only('/'));
    assert(none + name =~= name);
    text::lemma_drop_trailing_exact(name, none, CharClass::Only('>'));
    assert(name + none =~= name);
    assert(html.subrange(end, end + close.len()) =~= close);
    let ic = inner + close;
    assert forall|i: int| tag_end + 1 <= i < end implies !#[trigger] text::occurs_at(
        html,
        close,
        i,
    ) by {
        if text::occurs_at(html, close, i) {
            let j = i - (tag_end + 1);
            assert forall|m: int| 0 <= m < close.len() implies #[trigger] ic[j + m] == html[i
                + m] by {}
            text::lemma_occurs_agree(html, ic, close, i, j);
            assert(text::occurs_at(ic, close, j));
        }
    }
    text::lemma_find_is(html, close, tag_end + 1, end);
    assert(html.subrange(tag_end + 1, end) =~= inner);
}

/// What stands inside the first element with a tag is found by that tag, in whichever case
/// it is written: it ends with the first closing tag.
pub proof fn lemma_element_is_found_by_tag(
    a: Seq<char>,
    open: Seq<char>,
    inner: Seq<char>,
    close: Seq<char>,
    b: Seq<char>,
    tag: Seq<char>,
)
    requires
        open.len() > tag.len() + 1,
        text::lower(open.take(tag.len() as int + 1)) == "<"@ + tag,
        open.last() == '>',
        !open.drop_last().contains('>'),
        text::lower(close) == "</"@ + tag + ">"@,
        forall|k: int|
            0 <= k < a.len() ==> !#[trigger] text::occurs_at(
                text::lower(a + open + inner + close + b),
                "<"@ + tag,
                k,
            ),
        forall|k: int|
            0 <= k < inner.len() ==> !#[trigger] text::occurs_at(
                text::lower(inner + close),
                "</"@ + tag + ">"@,
                k,
            ),
    ensures
        inner_by_tag(a + open + inner + close + b, tag) == Some(inner),
{
    reveal_strlit("<");
    reveal_strlit(">");
    reveal_strlit("</");
    let html = a + open + inner + close + b;
    let low = text::lower(html);
    let pat = "<"@ + tag;
    let want = "</"@ + tag + ">"@;
    assert(text::lower(close).len() == close.len());
    let at = a.len() as int;
    let tag_end = at + open.len() - 1;
    let end = tag_end + 1 + inner.len();
    assert(low.subrange(at, at + pat.len()) =~= text::lower(open.take(tag.len() as int + 1)));
    text::lemma_find_is(low, pat, 0, at);
    assert(">"@ =~= seq!['>']);
    assert(html[tag_end] == open.last());
    text::lemma_occurs_char(html, '>', tag_end);
    assert forall|i: int| at <= i < tag_end implies !#[trigger] text::occurs_at(html, ">"@, i) by {
        text::lemma_occurs_char(html, '>', i);
        assert(html[i] == open.drop_last()[i - at]);
        assert(open.drop_last().contains(open.drop_last()[i - at]));
    }
    text::lemma_find_is(html, ">"@, at, tag_end);
    assert(low.subrange(end, end + want.len()) =~= text::lower(close));
    let ic = text::lower(inner + close);
    assert forall|i: int| tag_end + 1 <= i < end implies !#[trigger] text::occurs_at(
        low,
        want,
        i,
    ) by {
        if text::occurs_at(low, want, i) {
            let j = i - (tag_end + 1);
            assert forall|m: int| 0 <= m < want.len() implies #[trigger] ic[j + m] == low[i
                + m] by {
                assert((inner + close)[j + m] == html[i + m]);
            }
            text::lemma_occurs_agree(low, ic, want, i, j);
            assert(text::occurs_at(ic, want, j));
        }
    }
    text::lemma_find_is(low, want, tag_end + 1, end);
    assert(html.subrange(tag_end + 1, end) =~= inner);
}

/// A page with the parts of the publishing platform gives its title and its text; another
/// page gives its article, or else its main part, or else its body, the first of them that is
/// long enough.
pub proof fn lemma_which_body(html: Seq<char>, nonce: Seq<char>)
    ensures
        ({
            let content = inner_by_id(html, "js_content"@);
            let named = inner_by_id(html, "activity-name"@);
            let body = markdown::markdown_of(content->0, nonce);
            let filled = content is Some && !text::is_blank(body);
            let first = tag_body(html, "article"@, nonce);
            let second = tag_body(html, "main"@, nonce);
            &&& filled ==> primary_body(html, nonce) is Some && text::ends_with(
                primary_body(html, nonce)->0,
                text::trim(body),
            )
            &&& filled && named is None ==> primary_body(html, nonce) == Some(text::trim(body))
            &&& named is Some ==> primary_body(html, nonce) is Some && text::starts_with(
                primary_body(html, nonce)->0,
                "## "@ + text::trim(markdown::markdown_of(named->0, nonce)),
            )
            &&& !filled && named is None && first is Some ==> primary_body(html, nonce) == first
            &&& !filled && named is None && first is None && second is Some ==> primary_body(
                html,
                nonce,
            ) == second
            &&& !filled && named is None && first is None && second is None ==> primary_body(
                html,
                nonce,
            ) == tag_body(html, "body"@, nonce)
        }),
{
    let content = inner_by_id(html, "js_content"@);
    let named = inner_by_id(html, "activity-name"@);
    let body = text::trim(markdown::markdown_of(content->0, nonce));
    let head = "## "@ + text::trim(markdown::markdown_of(named->0, nonce));
    let whole = head + "\n\n"@ + body;
    assert(whole.subrange(0, head.len() as int) =~= head);
    let n = whole.len() - body.len();
    assert(whole.subrange(n, n + body.len()) =~= body);
    assert(head.subrange(0, head.len() as int) =~= head);
    assert(body.subrange(0, body.len() as int) =~= body);
}

/// The element's text is taken where it is long or has several lines, and not otherwise.
pub proof fn lemma_short_text_is_no_body(html: Seq<char>, tag: Seq<char>, nonce: Seq<char>)
    requires
        inner_by_tag(html, tag) is Some,
    ensures
        ({
            let t = text::trim(markdown::markdown_of(inner_by_tag(html, tag)->0, nonce));
            &&& t.len() >= 80 ==> tag_body(html, tag, nonce) == Some(t)
            &&& markdown::kept_lines(text::lines(t)).len() >= 3 ==> tag_body(html, tag, nonce)
                == Some(t)
            &&& t.len() < 80 && markdown::kept_lines(text::lines(t)).len() < 3 ==> tag_body(
                html,
                tag,
                nonce,
            ) is None
        }),
{
}

/// What a page is: a short page with the title of a missing one is an error page, unless it
/// says that it is an article. Of the others, one with much text or several paragraphs is an
/// article; of the rest, one with many links or list items is an index, and a short one with
/// a link is a link post.
pub proof fn lemma_page_kinds(html: Seq<char>, markdown: Seq<char>)
    ensures
        ({
            let low = text::lower(html);
            let kind = page_kind(html, markdown);
            let paragraphs = text::count_of(markdown, "\n\n"@) + 1;
            let links = text::count_of(low, "<a "@);
            let items = text::count_of(low, "<li"@);
            &&& !error_page(html) && markdown.len() >= 400 ==> kind == "article"@
            &&& !error_page(html) && paragraphs >= 3 ==> kind == "article"@
            &&& text::contains(low, "<article"@) ==> kind == "article"@
            &&& kind == "article"@ && !declares_article(low) && !text::contains(
                low,
                "name=\"twitter:card\" content=\"summary_large_image"@,
            ) ==> markdown.len() >= 400 || paragraphs >= 3
            &&& !error_page(html) && !article_like(low, markdown) && links >= 10 ==> kind
                == "index_like"@
            &&& !error_page(html) && !article_like(low, markdown) && items >= 8 ==> kind
                == "index_like"@
            &&& !error_page(html) && !article_like(low, markdown) && links < 10 && items < 8
                && markdown.len() < 300 && text::contains(markdown, "http"@) ==> kind
                == "link_post"@
            &&& !error_page(html) && !article_like(low, markdown) && links < 10 && items < 8 && (
            markdown.len() >= 300 || !text::contains(markdown, "http"@)) ==> kind == "webpage"@
        }),
{
    reveal_strlit("error_page");
    reveal_strlit("article");
    reveal_strlit("index_like");
    reveal_strlit("link_post");
    reveal_strlit("webpage");
    assert("error_page"@.len() == 10 && "error_page"@[0] == 'e');
    assert("article"@.len() == 7 && "article"@[0] == 'a');
    assert("index_like"@.len() == 10 && "index_like"@[0] == 'i');
    assert("link_post"@.len() == 9);
    assert("webpage"@.len() == 7 && "webpage"@[0] == 'w');
}

/// The title of a missing page speaks of it with one of these words.
pub open spec fn is_error_word(w: Seq<char>) -> bool {
    w == "404"@ || w == "not found"@ || w == "页面不存在"@ || w == "找不到页面"@ || w == "page not found"@ || w
        == "页面未找到"@
}

/// A page is an error page just where it does not say that it is an article, has little text
/// behind the start of its body, and a title with a word for a missing page.
pub proof fn lemma_error_page(html: Seq<char>, w: Seq<char>)
    requires
        !declares_article(text::lower(html)),
        html_title(html) is Some,
    ensures
        is_error_word(w) && text::contains(text::lower(html_title(html)->0), w) && solid_chars(
            text::split_text(text::lower(html), "<body"@).last(),
        ) <= 1500 ==> error_page(html),
        solid_chars(text::split_text(text::lower(html), "<body"@).last()) > 1500 ==> !error_page(
            html,
        ),
        (forall|v: Seq<char>|
            is_error_word(v) ==> !#[trigger] text::contains(text::lower(html_title(html)->0), v))
            ==> !error_page(html),
{
    let ws = error_words();
    let t = text::lower(html_title(html)->0);
    assert(ws[0] == "404"@ && ws[1] == "not found"@ && ws[2] == "页面不存在"@ && ws[3] == "找不到页面"@ && ws[4]
        == "page not found"@ && ws[5] == "页面未找到"@);
    if is_error_word(w) {
        let i = choose|i: int| 0 <= i < 6 && #[trigger] ws[i] == w;
        assert(ws[i] == w);
    }
    if text::contains_any(t, ws) {
        let i = choose|i: int| 0 <= i < ws.len() && text::contains(t, #[trigger] ws[i]);
        assert(is_error_word(ws[i]));
    }
}

/// The characters that count are counted one by one.
pub proof fn lemma_solid_chars(a: Seq<char>, b: Seq<char>)
    ensures
        solid_chars(a + b) == solid_chars(a) + solid_chars(b),
    decreases b.len(),
{
    if b.len() == 0 {
        assert(a + b =~= a);
    } else {
        assert((a + b).drop_last() =~= a + b.drop_last());
        assert((a + b).last() == b.last());
        lemma_solid_chars(a, b.drop_last());
    }
}

/// White space, angle brackets and slashes do not count, and every other character does.
pub proof fn lemma_solid_char(c: char)
    ensures
        solid_chars(seq![c]) == (if text::is_whitespace(c) || c == '<' || c == '>' || c == '/' {
            0nat
        } else {
            1
        }),
{
    assert(seq![c].drop_last() =~= Seq::<char>::empty());
    assert(solid_chars(Seq::<char>::empty()) == 0);
}

/// A word that stands around pages rather than in their text.
pub open spec fn is_navigation_word(w: Seq<char>) -> bool {
    w == "版权所有"@ || w == "备案号"@ || w == "icp"@ || w == "关注我们"@ || w == "扫码关注"@ || w == "点击阅读原文"@ || w
        == "分享到"@ || w == "copyright"@ || w == "all rights reserved"@ || w == "cookie"@ || w
        == "privacy policy"@ || w == "隐私政策"@ || w == "回到顶部"@ || w == "返回顶部"@ || w == "top ↑"@
}

/// A short text with one of these words belongs to what stands around a page, a long one does
/// not on account of the word; a bare link always does.
pub proof fn lemma_navigation(s: Seq<char>, w: Seq<char>)
    ensures
        is_navigation_word(w) && text::contains(text::lower(s), w) && s.len() < 60
            ==> navigation_like(s),
        text::starts_with(text::lower(s), "http"@) && !text::lower(s).contains(' ')
            ==> navigation_like(s),
        s.len() >= 60 && !text::starts_with(text::lower(s), "http"@) ==> !navigation_like(s),
        !text::starts_with(text::lower(s), "http"@) && (forall|v: Seq<char>|
            is_navigation_word(v) ==> !#[trigger] text::contains(text::lower(s), v))
            ==> !navigation_like(s),
{
    let ws = navigation_words();
    let low = text::lower(s);
    assert(ws[0] == "版权所有"@ && ws[1] == "备案号"@ && ws[2] == "icp"@ && ws[3] == "关注我们"@ && ws[4]
        == "扫码关注"@ && ws[5] == "点击阅读原文"@ && ws[6] == "分享到"@ && ws[7] == "copyright"@ && ws[8]
        == "all rights reserved"@ && ws[9] == "cookie"@ && ws[10] == "privacy policy"@ && ws[11]
        == "隐私政策"@ && ws[12] == "回到顶部"@ && ws[13] == "返回顶部"@ && ws[14] == "top ↑"@);
    if is_navigation_word(w) {
        let i = choose|i: int| 0 <= i < 15 && #[trigger] ws[i] == w;
        assert(ws[i] == w);
    }
    if text::contains_any(low, ws) {
        let i = choose|i: int| 0 <= i < ws.len() && text::contains(low, #[trigger] ws[i]);
        assert(is_navigation_word(ws[i]));
    }
}

/// The paragraphs for a summary are taken in their order: first those among the first ones,
/// and then, as far as there is room, those among the others.
pub proof fn lemma_paragraphs_in_order(a: Seq<Seq<char>>, b: Seq<Seq<char>>, n: nat)
    ensures
        good_paragraphs(a, n).len() <= n,
        good_paragraphs(a + b, n) == good_paragraphs(a, n) + good_paragraphs(
            b,
            (n - good_paragraphs(a, n).len()) as nat,
        ),
    decreases a.len(),
{
    if n == 0 {
        assert(good_paragraphs(a + b, n) =~= good_paragraphs(a, n) + good_paragraphs(b, 0));
    } else if a.len() == 0 {
        assert(a + b =~= b);
        assert(good_paragraphs(a, n) + good_paragraphs(b, n) =~= good_paragraphs(b, n));
    } else {
        assert((a + b).drop_first() =~= a.drop_first() + b);
        assert((a + b)[0] == a[0]);
        if summary_paragraph(text::trim(a[0])) {
            lemma_paragraphs_in_order(a.drop_first(), b, (n - 1) as nat);
        } else {
            lemma_paragraphs_in_order(a.drop_first(), b, n);
        }
        assert(good_paragraphs(a + b, n) =~= good_paragraphs(a, n) + good_paragraphs(
            b,
            (n - good_paragraphs(a, n).len()) as nat,
        ));
    }
}

/// A paragraph is taken, without the white space around it, just where it says enough.
pub proof fn lemma_paragraph_is_taken(p: Seq<char>, n: nat)
    requires
        n > 0,
    ensures
        text::trim(p).len() >= 20 && !navigation_like(text::trim(p)) ==> good_paragraphs(
            seq![p],
            n,
        ) == seq![text::trim(p)],
        text::trim(p).len() < 20 || navigation_like(text::trim(p)) ==> good_paragraphs(
            seq![p],
            n,
        ).len() == 0,
{
    text::lemma_trim_idempotent(p);
    let rest = seq![p].drop_first();
    assert(rest.len() == 0);
    assert(good_paragraphs(rest, n) =~= Seq::empty());
    assert(good_paragraphs(rest, (n - 1) as nat) =~= Seq::empty());
    assert(seq![text::trim(p)] + Seq::<Seq<char>>::empty() =~= seq![text::trim(p)]);
}

/// A summary by rule has the title on its first line, where there is one, and a line for each
/// of the first paragraphs that say enough, in their order and three at most. A page without
/// such a paragraph has none.
pub proof fn lemma_rule_summary(title: Option<Seq<char>>, markdown: Seq<char>)
    ensures
        ({
            let all = good_paragraphs(text::split_text(markdown, "\n\n"@), 3);
            &&& all.len() <= 3
            &&& (rule_summary(title, markdown) is Some) == (all.len() > 0)
            &&& all.len() > 0 ==> exists|ls: Seq<Seq<char>>|
                {
                    let n = if title is Some && !text::is_blank(title->0) {
                        1int
                    } else {
                        0
                    };
                    &&& rule_summary(title, markdown) == Some(#[trigger] text::join(ls, "\n"@))
                    &&& ls.len() == n + all.len()
                    &&& n == 1 ==> ls[0] == text::clipped(title->0, 200)
                    &&& forall|i: int|
                        0 <= i < all.len() && text::lines(all[i]).len() > 0
                            ==> #[trigger] ls[n + i] == text::clipped(text::lines(all[i])[0], 150)
                }
        }),
{
    let parts = text::split_text(markdown, "\n\n"@);
    let all = good_paragraphs(parts, 3);
    lemma_paragraphs_in_order(parts, Seq::empty(), 3);
    if all.len() > 0 {
        let head: Seq<Seq<char>> = match title {
            Some(t) if !text::is_blank(t) => seq![text::clipped(t, 200)],
            _ => Seq::empty(),
        };
        let ls = head + short_lines(all);
        assert(rule_summary(title, markdown) == Some(text::join(ls, "\n"@)));
        assert forall|i: int| 0 <= i < all.len() && text::lines(all[i]).len() > 0 implies
            #[trigger] ls[head.len() + i] == text::clipped(text::lines(all[i])[0], 150) by {
            assert(ls[head.len() + i] == short_lines(all)[i]);
        }
    }
}

} // verus!
