//! Summaries of session text: semantic selection of segments, or truncation.

use crate::ordering;
use crate::ordering::{KeyPart, Part, sort_rows};
use crate::text;
use crate::text::{
    ascii_digit, char_count, chars_of, has, has_prefix, join_strings, owned, push_text,
    push_usize, same, string_of_range, to_lower, trimmed,
};
use vstd::prelude::*;

verus! {

#[derive(Debug, Clone, Copy, PartialEq, Eq, Structural)]
pub enum SessionSummaryStrategy {
    Semantic,
    Truncate,
}

pub open spec fn strategy_name(s: SessionSummaryStrategy) -> Seq<char> {
    match s {
        SessionSummaryStrategy::Semantic => "semantic"@,
        SessionSummaryStrategy::Truncate => "truncate"@,
    }
}

impl SessionSummaryStrategy {
    pub fn as_str(&self) -> (r: &'static str)
        ensures
            r@ == strategy_name(*self),
    {
        match self {
            SessionSummaryStrategy::Semantic => "semantic",
            SessionSummaryStrategy::Truncate => "truncate",
        }
    }

    /// `truncate`, in any case and with white space around it, selects truncation;
    /// every other text selects the semantic strategy.
    pub fn from_config_text(value: &str) -> (r: Self)
        ensures
            r == (if text::lower(text::trim(value@)) == "truncate"@ {
                SessionSummaryStrategy::Truncate
            } else {
                SessionSummaryStrategy::Semantic
            }),
    {
        let t = trimmed(value);
        let l = to_lower(t.as_str());
        if same(l.as_str(), "truncate") {
            SessionSummaryStrategy::Truncate
        } else {
            SessionSummaryStrategy::Semantic
        }
    }
}

/// Reading back the name of a strategy gives the strategy.
pub proof fn lemma_strategy_round_trip(s: SessionSummaryStrategy)
    ensures
        s == SessionSummaryStrategy::Truncate <==> text::lower(text::trim(strategy_name(s))) == "truncate"@,
{
    reveal_strlit("truncate");
    reveal_strlit("semantic");
    assert(text::trim(strategy_name(s)) == strategy_name(s));
    if s == SessionSummaryStrategy::Truncate {
        assert(text::lower("truncate"@) =~= "truncate"@);
    } else {
        assert(text::lower("semantic"@)[0] == 's');
    }
}

pub const SESSION_TEXT_FULL_MAX_CHARS: usize = 220;

pub const SESSION_TEXT_SUMMARY_MAX_CHARS: usize = 140;

pub const SESSION_TEXT_RECENT_TAIL_CHARS: usize = 120;

// ---------------------------------------------------------------------------
// Truncation
// ---------------------------------------------------------------------------

pub open spec fn truncation_notice(count: nat) -> Seq<char> {
    "\n\n...[truncated, total_chars="@ + text::decimal(count) + "]"@
}

/// How many leading characters stay before a notice of `notice` characters.
pub open spec fn kept_head(max_chars: int, notice: int) -> int {
    let wanted = if max_chars - 80 > 40 {
        max_chars - 80
    } else {
        40
    };
    if wanted < max_chars - notice {
        wanted
    } else {
        max_chars - notice
    }
}

/// A text cut to `max_chars` characters, with a notice where there is room for one.
pub open spec fn summarized(s: Seq<char>, max_chars: int) -> Seq<char> {
    let notice = truncation_notice(s.len());
    if s.len() <= max_chars {
        s
    } else if notice.len() >= max_chars {
        s.take(max_chars)
    } else {
        s.take(kept_head(max_chars, notice.len() as int)) + notice
    }
}

/// A summary is never longer than the limit.
pub proof fn lemma_summarized_fits(s: Seq<char>, max_chars: int)
    requires
        0 <= max_chars,
    ensures
        summarized(s, max_chars).len() <= max_chars,
{
}

/// A text within the limit is kept as it is.
pub proof fn lemma_summarized_identity(s: Seq<char>, max_chars: int)
    requires
        s.len() <= max_chars,
    ensures
        summarized(s, max_chars) == s,
{
}

/// A text that is cut keeps its first characters: at least one, and all that there is room
/// for before the notice up to forty, or all but eighty of the limit. Behind them stands the
/// notice with the length of the whole text, where there is room for it, and nothing else.
pub proof fn lemma_summarized_is_a_head(s: Seq<char>, max_chars: int)
    requires
        0 < max_chars < s.len(),
    ensures
        ({
            let r = summarized(s, max_chars);
            let notice = "\n\n...[truncated, total_chars="@ + text::decimal(s.len()) + "]"@;
            if notice.len() >= max_chars {
                r == s.take(max_chars)
            } else {
                exists|n: int|
                    #![trigger s.take(n)]
                    {
                        &&& 0 < n <= max_chars - notice.len()
                        &&& n >= 40 || n == max_chars - notice.len()
                        &&& n >= max_chars - 80 || n == max_chars - notice.len()
                        &&& n == 40 || n == max_chars - 80 || n == max_chars - notice.len()
                        &&& r == s.take(n) + notice
                    }
            }
        }),
{
    let notice = truncation_notice(s.len());
    let n = kept_head(max_chars, notice.len() as int);
    if notice.len() < max_chars {
        assert(summarized(s, max_chars) == s.take(n) + notice);
    }
}

/// Truncate strategy: keep a head chunk and append a truncation notice.
pub fn summarize_for_markdown(input: &str, max_chars: usize) -> (r: String)
    ensures
        r@ == summarized(input@, max_chars as int),
        r@.len() <= max_chars,
{
    let v = chars_of(input);
    let count: usize = v.len();
    if count <= max_chars {
        return owned(input);
    }
    let mut notice = "\n\n...[truncated, total_chars=".to_string();
    push_usize(&mut notice, count);
    notice.append("]");
    let notice_chars: usize = char_count(notice.as_str());
    if notice_chars >= max_chars {
        return string_of_range(&v, 0, max_chars);
    }
    let mut head_chars: usize = 40;
    if max_chars > 120 {
        head_chars = max_chars - 80;
    }
    if head_chars > max_chars - notice_chars {
        head_chars = max_chars - notice_chars;
    }
    let mut text = string_of_range(&v, 0, head_chars);
    text.append(notice.as_str());
    text
}

// ---------------------------------------------------------------------------
// Recent tail
// ---------------------------------------------------------------------------

/// The last `max_chars` characters, after a note on how many were left out.
pub open spec fn recent_tail(s: Seq<char>, max_chars: int) -> Seq<char> {
    if s.len() <= max_chars {
        s
    } else {
        let omitted = s.len() - max_chars;
        "...["@ + text::decimal(omitted as nat) + " chars omitted]\n"@ + s.skip(omitted)
    }
}

pub fn session_recent_tail_with_notice(input: &str, max_chars: usize) -> (r: String)
    ensures
        r@ == recent_tail(input@, max_chars as int),
{
    let v = chars_of(input);
    let total: usize = v.len();
    if total <= max_chars {
        return owned(input);
    }
    let omitted: usize = total - max_chars;
    let tail = string_of_range(&v, omitted, total);
    proof {
        assert(tail@ =~= input@.skip(omitted as int));
    }
    let mut out = "...[".to_string();
    push_usize(&mut out, omitted);
    out.append(" chars omitted]\n");
    out.append(tail.as_str());
    out
}

// ---------------------------------------------------------------------------
// Segments
// ---------------------------------------------------------------------------

/// The characters that end a segment.
pub open spec fn ends_segment(c: char) -> bool {
    c == '\n' || c == '。' || c == '！' || c == '？' || c == '!' || c == '?'
}

/// The list with the trimmed text appended, unless it is blank.
pub open spec fn with_nonblank(list: Seq<Seq<char>>, s: Seq<char>) -> Seq<Seq<char>> {
    if text::trim(s).len() == 0 {
        list
    } else {
        list.push(text::trim(s))
    }
}

/// The finished segments of a text and what stands after the last segment end.
pub open spec fn segment_cut(s: Seq<char>) -> (Seq<Seq<char>>, Seq<char>)
    decreases s.len(),
{
    if s.len() == 0 {
        (Seq::empty(), Seq::empty())
    } else {
        let (list, open) = segment_cut(s.drop_last());
        let grown = open.push(s.last());
        if ends_segment(s.last()) {
            (with_nonblank(list, grown), Seq::empty())
        } else {
            (list, grown)
        }
    }
}

/// The trimmed segments of a text that are not blank, in order.
pub open spec fn segments(s: Seq<char>) -> Seq<Seq<char>> {
    with_nonblank(segment_cut(s).0, segment_cut(s).1)
}

fn push_nonblank(list: &mut Vec<String>, s: &str)
    ensures
        text::texts(final(list)@) == with_nonblank(text::texts(old(list)@), s@),
{
    let t = trimmed(s);
    if !t.as_str().is_empty() {
        proof {
            text::lemma_texts_push(list@, t);
        }
        list.push(t);
    }
}

pub fn split_session_segments(input: &str) -> (r: Vec<String>)
    ensures
        text::texts(r@) == segments(input@),
{
    let v = chars_of(input);
    let mut list: Vec<String> = Vec::new();
    let mut current = String::new();
    let mut i: usize = 0;
    proof {
        assert(text::texts(list@) =~= Seq::empty());
    }
    while i < v.len()
        invariant
            i <= v.len(),
            v@ == input@,
            segment_cut(v@.take(i as int)) == (text::texts(list@), current@),
        decreases v.len() - i,
    {
        proof {
            assert(v@.take(i + 1).drop_last() =~= v@.take(i as int));
        }
        let c = v[i];
        current.push(c);
        if c == '\n' || c == '。' || c == '！' || c == '？' || c == '!' || c == '?' {
            push_nonblank(&mut list, current.as_str());
            current = String::new();
        }
        i = i + 1;
    }
    proof {
        assert(v@.take(v@.len() as int) =~= v@);
    }
    push_nonblank(&mut list, current.as_str());
    list
}

proof fn lemma_segment_cut_nonblank(s: Seq<char>)
    ensures
        forall|i: int|
            0 <= i < segment_cut(s).0.len() ==> {
                let t = #[trigger] segment_cut(s).0[i];
                t.len() > 0 && !text::is_whitespace(t.last())
            },
    decreases s.len(),
{
    if s.len() > 0 {
        lemma_segment_cut_nonblank(s.drop_last());
        text::lemma_trim_ends(segment_cut(s.drop_last()).1.push(s.last()));
    }
}

/// No segment is blank: each one ends with a character that is not white space.
pub proof fn lemma_segments_nonblank(s: Seq<char>)
    ensures
        forall|i: int|
            0 <= i < segments(s).len() ==> {
                let t = #[trigger] segments(s)[i];
                t.len() > 0 && !text::is_whitespace(t.last())
            },
{
    lemma_segment_cut_nonblank(s);
    text::lemma_trim_ends(segment_cut(s).1);
}

// ---------------------------------------------------------------------------
// Scores and ranking
// ---------------------------------------------------------------------------

/// 1 where the keyword stands in the segment or in its lower-case form.
pub open spec fn keyword_hit(s: Seq<char>, keyword: Seq<char>) -> int {
    if text::contains(s, keyword) || text::contains(text::lower(s), keyword) {
        1
    } else {
        0
    }
}

pub open spec fn keyword_hits(s: Seq<char>) -> int {
    keyword_hit(s, "目标"@) + keyword_hit(s, "下一步"@) + keyword_hit(s, "todo"@) + keyword_hit(
        s,
        "待办"@,
    ) + keyword_hit(s, "问题"@) + keyword_hit(s, "卡住"@) + keyword_hit(s, "失败"@) + keyword_hit(
        s,
        "错误"@,
    ) + keyword_hit(s, "风险"@) + keyword_hit(s, "结论"@) + keyword_hit(s, "决定"@) + keyword_hit(
        s,
        "计划"@,
    ) + keyword_hit(s, "完成"@) + keyword_hit(s, "next"@) + keyword_hit(s, "issue"@) + keyword_hit(
        s,
        "blocker"@,
    ) + keyword_hit(s, "should"@) + keyword_hit(s, "must"@)
}

/// A list item: a dash or an asterisk with a space, or a digit at the start.
pub open spec fn is_list_item(s: Seq<char>) -> bool {
    text::starts_with(s, "- "@) || text::starts_with(s, "* "@) || (s.len() > 0 && text::is_ascii_digit(s[0]))
}

/// The value of segment `idx` of `total`: keywords, list items and recency count.
pub open spec fn segment_score(s: Seq<char>, idx: int, total: int) -> int {
    1 + 3 * keyword_hits(s) + (if is_list_item(s) {
        2int
    } else {
        0
    }) + (if total <= 1 {
        3
    } else {
        (idx * 3) / (total - 1)
    })
}

/// The words that make a segment worth keeping.
pub open spec fn is_keyword(k: Seq<char>) -> bool {
    ||| k == "目标"@
    ||| k == "下一步"@
    ||| k == "todo"@
    ||| k == "待办"@
    ||| k == "问题"@
    ||| k == "卡住"@
    ||| k == "失败"@
    ||| k == "错误"@
    ||| k == "风险"@
    ||| k == "结论"@
    ||| k == "决定"@
    ||| k == "计划"@
    ||| k == "完成"@
    ||| k == "next"@
    ||| k == "issue"@
    ||| k == "blocker"@
    ||| k == "should"@
    ||| k == "must"@
}

/// A segment holds a word, as it stands or in lower case.
pub open spec fn holds_word(s: Seq<char>, k: Seq<char>) -> bool {
    text::contains(s, k) || text::contains(text::lower(s), k)
}

/// Every keyword of `t` is one of `s`.
pub open spec fn holds_keywords_of(s: Seq<char>, t: Seq<char>) -> bool {
    forall|k: Seq<char>| is_keyword(k) && #[trigger] holds_word(t, k) ==> holds_word(s, k)
}

/// Every keyword counts: a segment that holds all keywords of another one, and one more,
/// scores higher, wherever it stands behind or at the place of the other, and also where
/// only the other is a list item.
pub proof fn lemma_keyword_raises_score(
    s: Seq<char>,
    t: Seq<char>,
    k: Seq<char>,
    idx: int,
    earlier: int,
    total: int,
)
    requires
        0 <= earlier <= idx < total,
        holds_keywords_of(s, t),
        is_keyword(k),
        holds_word(s, k),
        !holds_word(t, k),
    ensures
        segment_score(s, idx, total) > segment_score(t, earlier, total),
{
    lemma_hits_grow(s, t, k);
    lemma_recency(idx, earlier, total);
}

proof fn lemma_hit_grows(s: Seq<char>, t: Seq<char>, k: Seq<char>, w: Seq<char>)
    requires
        holds_keywords_of(s, t),
        is_keyword(w),
        holds_word(s, k),
        !holds_word(t, k),
    ensures
        keyword_hit(s, w) >= keyword_hit(t, w) + (if w == k {
            1int
        } else {
            0
        }),
{
    assert(holds_word(t, w) ==> holds_word(s, w));
}

proof fn lemma_hits_grow(s: Seq<char>, t: Seq<char>, k: Seq<char>)
    requires
        holds_keywords_of(s, t),
        is_keyword(k),
        holds_word(s, k),
        !holds_word(t, k),
    ensures
        keyword_hits(s) >= keyword_hits(t) + 1,
{
    lemma_hit_grows(s, t, k, "目标"@);
    lemma_hit_grows(s, t, k, "下一步"@);
    lemma_hit_grows(s, t, k, "todo"@);
    lemma_hit_grows(s, t, k, "待办"@);
    lemma_hit_grows(s, t, k, "问题"@);
    lemma_hit_grows(s, t, k, "卡住"@);
    lemma_hit_grows(s, t, k, "失败"@);
    lemma_hit_grows(s, t, k, "错误"@);
    lemma_hit_grows(s, t, k, "风险"@);
    lemma_hit_grows(s, t, k, "结论"@);
    lemma_hit_grows(s, t, k, "决定"@);
    lemma_hit_grows(s, t, k, "计划"@);
    lemma_hit_grows(s, t, k, "完成"@);
    lemma_hit_grows(s, t, k, "next"@);
    lemma_hit_grows(s, t, k, "issue"@);
    lemma_hit_grows(s, t, k, "blocker"@);
    lemma_hit_grows(s, t, k, "should"@);
    lemma_hit_grows(s, t, k, "must"@);
}

proof fn lemma_recency(idx: int, earlier: int, total: int)
    requires
        0 <= earlier <= idx < total,
    ensures
        total > 1 ==> 0 <= (earlier * 3) / (total - 1) <= (idx * 3) / (total - 1) <= 3,
        total > 1 && idx == total - 1 ==> (idx * 3) / (total - 1) == 3,
        total > 1 && earlier == 0 ==> (earlier * 3) / (total - 1) == 0,
{
    if total > 1 {
        let d = total - 1;
        assert(0 <= (earlier * 3) / d <= (idx * 3) / d <= 3) by (nonlinear_arith)
            requires
                0 <= earlier <= idx <= d,
                d > 0,
        ;
        if idx == d {
            assert((idx * 3) / d == 3) by (nonlinear_arith)
                requires
                    idx == d,
                    d > 0,
            ;
        }
    }
}

/// More keywords make a higher score at the same place, whether list item or not; two more
/// do so at any place.
pub proof fn lemma_more_keywords_score_higher(
    s: Seq<char>,
    t: Seq<char>,
    idx: int,
    other: int,
    total: int,
)
    requires
        0 <= idx < total,
        0 <= other < total,
        keyword_hits(s) > keyword_hits(t),
    ensures
        other <= idx ==> segment_score(s, idx, total) > segment_score(t, other, total),
        keyword_hits(s) > keyword_hits(t) + 1 ==> segment_score(s, idx, total) > segment_score(
            t,
            other,
            total,
        ),
{
    lemma_recency(idx, 0, total);
    lemma_recency(other, 0, total);
    if other <= idx {
        lemma_recency(idx, other, total);
    }
}

/// With equal keywords, a list item scores higher than another segment at its place, and a
/// later segment never lower than an earlier one that is as it is. The last of several
/// scores three more than it would as the first.
pub proof fn lemma_place_and_form_count(
    s: Seq<char>,
    t: Seq<char>,
    idx: int,
    earlier: int,
    total: int,
)
    requires
        0 <= earlier <= idx < total,
        keyword_hits(s) == keyword_hits(t),
    ensures
        is_list_item(s) && !is_list_item(t) ==> segment_score(s, idx, total) > segment_score(
            t,
            earlier,
            total,
        ),
        is_list_item(s) == is_list_item(t) ==> segment_score(s, idx, total) >= segment_score(
            t,
            earlier,
            total,
        ),
        is_list_item(s) == is_list_item(t) && earlier == 0 && idx == total - 1 && total > 1
            ==> segment_score(s, idx, total) == segment_score(t, earlier, total) + 3,
{
    lemma_recency(idx, earlier, total);
}

fn hit(segment: &str, normalized: &str, keyword: &str) -> (r: i32)
    requires
        normalized@ == text::lower(segment@),
    ensures
        r == keyword_hit(segment@, keyword@),
        0 <= r <= 1,
{
    if has(segment, keyword) || has(normalized, keyword) {
        1
    } else {
        0
    }
}

pub fn score_session_segment(segment: &str, idx: usize, total: usize) -> (r: i32)
    requires
        idx < total,
    ensures
        r == segment_score(segment@, idx as int, total as int),
{
    let normalized = to_lower(segment);
    let n = normalized.as_str();
    let hits: i32 = hit(segment, n, "目标") + hit(segment, n, "下一步") + hit(segment, n, "todo")
        + hit(segment, n, "待办") + hit(segment, n, "问题") + hit(segment, n, "卡住") + hit(
        segment,
        n,
        "失败",
    ) + hit(segment, n, "错误") + hit(segment, n, "风险") + hit(segment, n, "结论") + hit(
        segment,
        n,
        "决定",
    ) + hit(segment, n, "计划") + hit(segment, n, "完成") + hit(segment, n, "next") + hit(
        segment,
        n,
        "issue",
    ) + hit(segment, n, "blocker") + hit(segment, n, "should") + hit(segment, n, "must");
    let mut score: i32 = 1 + hits * 3;
    let v = chars_of(segment);
    if has_prefix(segment, "- ") || has_prefix(segment, "* ") || (v.len() > 0 && ascii_digit(v[0]))
    {
        score = score + 2;
    }
    let recency: i32 = if total <= 1 {
        3
    } else {
        let bonus: u128 = (idx as u128 * 3) / (total as u128 - 1);
        proof {
            assert(bonus <= 3) by (nonlinear_arith)
                requires
                    bonus == (idx as int * 3) / (total as int - 1),
                    0 <= idx < total,
                    total > 1,
            ;
        }
        bonus as i32
    };
    score + recency
}

/// The scores of all segments.
pub open spec fn scores(list: Seq<Seq<char>>) -> Seq<int> {
    Seq::new(list.len(), |i: int| segment_score(list[i], i, list.len() as int))
}

/// Segment `a` comes before segment `b`: a higher score, or the same score and later.
pub open spec fn ranks_before(sc: Seq<int>, a: int, b: int) -> bool {
    sc[a] > sc[b] || (sc[a] == sc[b] && a > b)
}

/// The keys by which segments are ranked, the last segment first.
pub open spec fn rank_keys(sc: Seq<int>) -> Seq<Seq<Part>> {
    Seq::new(sc.len(), |i: int| seq![Part::NumDown(sc[sc.len() - 1 - i])])
}

/// The ranking of the segments: by score, and those with one score from the last to the
/// first.
pub open spec fn ranking(sc: Seq<int>) -> Seq<int> {
    Seq::new(sc.len(), |i: int| sc.len() - 1 - ordering::sort_order(rank_keys(sc))[i])
}

/// The ranking names each segment once, each before those that score lower and, at the same
/// score, before the earlier ones.
pub proof fn lemma_ranking(sc: Seq<int>)
    ensures
        ranking(sc).len() == sc.len(),
        forall|i: int| 0 <= i < sc.len() ==> 0 <= #[trigger] ranking(sc)[i] < sc.len(),
        forall|y: int| 0 <= y < sc.len() ==> #[trigger] ranking(sc).contains(y),
        forall|i: int, j: int|
            0 <= i < j < sc.len() ==> ranks_before(
                sc,
                #[trigger] ranking(sc)[i],
                #[trigger] ranking(sc)[j],
            ),
{
    let keys = rank_keys(sc);
    let n = sc.len();
    let order = ordering::sort_order(keys);
    ordering::lemma_sort_order(keys);
    assert forall|y: int| 0 <= y < n implies #[trigger] ranking(sc).contains(y) by {
        assert(order.contains(n - 1 - y));
        let k = choose|k: int| 0 <= k < order.len() && order[k] == n - 1 - y;
        assert(ranking(sc)[k] == y);
    }
    assert forall|i: int, j: int| 0 <= i < j < n implies ranks_before(
        sc,
        #[trigger] ranking(sc)[i],
        #[trigger] ranking(sc)[j],
    ) by {
        let (a, b) = (order[i], order[j]);
        assert(ordering::in_order(keys, a, b));
        reveal_with_fuel(ordering::key_before, 2);
        assert(keys[a][0] == Part::NumDown(sc[n - 1 - a]));
        assert(keys[b][0] == Part::NumDown(sc[n - 1 - b]));
    }
}

/// Whether each segment is picked, and the characters that the picked ones take
/// when joined, after the first `k` of the ranking: the last segment is always
/// picked, and the others where they still fit.
pub open spec fn picked(
    list: Seq<Seq<char>>,
    order: Seq<int>,
    max_chars: int,
    k: nat,
) -> (Seq<bool>, int)
    decreases k,
{
    if k == 0 {
        (
            Seq::new(list.len(), |i: int| i == list.len() - 1),
            list.last().len() as int,
        )
    } else {
        let (picks, used) = picked(list, order, max_chars, (k - 1) as nat);
        let idx = order[k - 1];
        if picks[idx] || used + 1 + list[idx].len() > max_chars {
            (picks, used)
        } else {
            (picks.update(idx, true), used + 1 + list[idx].len())
        }
    }
}

/// The picked ones among the first `k` segments, in text order.
pub open spec fn chosen(list: Seq<Seq<char>>, picks: Seq<bool>, k: nat) -> Seq<Seq<char>>
    decreases k,
{
    if k == 0 {
        Seq::empty()
    } else if picks[k - 1] {
        chosen(list, picks, (k - 1) as nat).push(list[k - 1])
    } else {
        chosen(list, picks, (k - 1) as nat)
    }
}

/// The joined picks of a text that has segments.
pub open spec fn selection(list: Seq<Seq<char>>, max_chars: int) -> Seq<char> {
    let n = list.len();
    let picks = picked(list, ranking(scores(list)), max_chars, n).0;
    text::join(chosen(list, picks, n), "\n"@)
}

/// The text where it fits; else the best segments, or a truncation.
pub open spec fn semantic(s: Seq<char>, max_chars: int) -> Seq<char> {
    let list = segments(s);
    if s.len() <= max_chars {
        s
    } else if list.len() == 0 {
        summarized(s, max_chars)
    } else {
        let summary = summarized(selection(list, max_chars), max_chars);
        if text::trim(summary).len() == 0 {
            summarized(s, max_chars)
        } else {
            summary
        }
    }
}

/// A semantic summary is never longer than the limit.
pub proof fn lemma_semantic_fits(s: Seq<char>, max_chars: int)
    requires
        0 <= max_chars,
    ensures
        semantic(s, max_chars).len() <= max_chars,
{
    lemma_summarized_fits(s, max_chars);
    lemma_summarized_fits(selection(segments(s), max_chars), max_chars);
}

/// What the picked segments cost: their lengths and one separator each.
spec fn cost(list: Seq<Seq<char>>, picks: Seq<bool>, k: nat) -> int
    decreases k,
{
    if k == 0 {
        0
    } else {
        cost(list, picks, (k - 1) as nat) + (if picks[k - 1] {
            list[k - 1].len() + 1
        } else {
            0
        })
    }
}

proof fn lemma_cost_update(list: Seq<Seq<char>>, picks: Seq<bool>, idx: int, k: nat)
    requires
        picks.len() == list.len(),
        k <= list.len(),
        0 <= idx < list.len(),
        !picks[idx],
    ensures
        cost(list, picks.update(idx, true), k) == cost(list, picks, k) + (if idx < k {
            list[idx].len() + 1
        } else {
            0
        }),
    decreases k,
{
    if k > 0 {
        lemma_cost_update(list, picks, idx, (k - 1) as nat);
    }
}

proof fn lemma_chosen_cost(list: Seq<Seq<char>>, picks: Seq<bool>, k: nat)
    requires
        picks.len() == list.len(),
        k <= list.len(),
    ensures
        chosen(list, picks, k).len() > 0 ==> text::join(chosen(list, picks, k), "\n"@).len() + 1 == cost(
            list,
            picks,
            k,
        ),
        chosen(list, picks, k).len() == 0 ==> cost(list, picks, k) == 0,
    decreases k,
{
    reveal_strlit("\n");
    if k > 0 {
        lemma_chosen_cost(list, picks, (k - 1) as nat);
        text::lemma_join_push(chosen(list, picks, (k - 1) as nat), list[k - 1], "\n"@);
    }
}

proof fn lemma_first_pick_cost(list: Seq<Seq<char>>, k: nat)
    requires
        k <= list.len(),
        list.len() > 0,
    ensures
        cost(list, Seq::new(list.len(), |i: int| i == list.len() - 1), k) == (if k == list.len() {
            list.last().len() + 1
        } else {
            0
        }),
    decreases k,
{
    if k > 0 {
        lemma_first_pick_cost(list, (k - 1) as nat);
    }
}

proof fn lemma_picked(list: Seq<Seq<char>>, order: Seq<int>, max_chars: int, k: nat)
    requires
        list.len() > 0,
        k <= order.len(),
        forall|i: int| 0 <= i < order.len() ==> 0 <= #[trigger] order[i] < list.len(),
    ensures
        ({
            let (picks, used) = picked(list, order, max_chars, k);
            &&& picks.len() == list.len()
            &&& picks[list.len() - 1]
            &&& used + 1 == cost(list, picks, list.len())
            &&& list.last().len() <= max_chars ==> used <= max_chars
        }),
    decreases k,
{
    if k == 0 {
        lemma_first_pick_cost(list, list.len());
    } else {
        lemma_picked(list, order, max_chars, (k - 1) as nat);
        let (picks, used) = picked(list, order, max_chars, (k - 1) as nat);
        let idx = order[k - 1];
        if !picks[idx] {
            lemma_cost_update(list, picks, idx, list.len());
        }
    }
}

proof fn lemma_used_grows(list: Seq<Seq<char>>, order: Seq<int>, max_chars: int, j: nat, k: nat)
    requires
        list.len() > 0,
        j <= k <= order.len(),
        forall|i: int| 0 <= i < order.len() ==> 0 <= #[trigger] order[i] < list.len(),
    ensures
        picked(list, order, max_chars, j).1 <= picked(list, order, max_chars, k).1,
        forall|x: int|
            0 <= x < list.len() && #[trigger] picked(list, order, max_chars, j).0[x] ==> picked(
                list,
                order,
                max_chars,
                k,
            ).0[x],
        forall|x: int|
            0 <= x < list.len() && #[trigger] picked(list, order, max_chars, k).0[x] && !picked(
                list,
                order,
                max_chars,
                j,
            ).0[x] ==> exists|i: int| j <= i < k && #[trigger] order[i] == x,
    decreases k - j,
{
    if j < k {
        lemma_used_grows(list, order, max_chars, j, (k - 1) as nat);
        lemma_picked(list, order, max_chars, (k - 1) as nat);
        let before = picked(list, order, max_chars, (k - 1) as nat).0;
        let after = picked(list, order, max_chars, k).0;
        let first = picked(list, order, max_chars, j).0;
        assert forall|x: int|
            0 <= x < list.len() && #[trigger] after[x] && !first[x] implies exists|i: int|
            j <= i < k && #[trigger] order[i] == x by {
            if before[x] {
                let i = choose|i: int| j <= i < k - 1 && #[trigger] order[i] == x;
                assert(order[i] == x);
            } else {
                assert(order[k - 1] == x);
            }
        }
    }
}

/// What the selection of segments keeps.
pub open spec fn selected(list: Seq<Seq<char>>, max_chars: int) -> Seq<bool> {
    picked(list, ranking(scores(list)), max_chars, list.len()).0
}

/// The selection is good: the last segment is kept; a segment is left out only where it does
/// not fit beside those that are kept; and where a segment is left out though one that ranks
/// behind it is kept, it is the longer of the two.
pub proof fn lemma_selection_is_good(list: Seq<Seq<char>>, max_chars: int)
    requires
        list.len() > 0,
    ensures
        selected(list, max_chars).len() == list.len(),
        selected(list, max_chars)[list.len() - 1],
        list.last().len() <= max_chars ==> selection(list, max_chars).len() <= max_chars,
        forall|x: int|
            0 <= x < list.len() && !#[trigger] selected(list, max_chars)[x] ==> selection(
                list,
                max_chars,
            ).len() + 1 + list[x].len() > max_chars,
        forall|a: int, b: int|
            0 <= a < list.len() && 0 <= b < list.len() - 1 && ranks_before(scores(list), a, b)
                && !#[trigger] selected(list, max_chars)[a] && #[trigger] selected(
                list,
                max_chars,
            )[b] ==> list[a].len() > list[b].len(),
{
    let n = list.len();
    let sc = scores(list);
    let order = ranking(sc);
    lemma_ranking(sc);
    lemma_picked(list, order, max_chars, n);
    let (picks, used) = picked(list, order, max_chars, n);
    lemma_chosen_cost(list, picks, n);
    assert(chosen(list, picks, n) == chosen(list, picks, (n - 1) as nat).push(list[n - 1]));
    assert(selection(list, max_chars).len() == used);
    assert forall|x: int| 0 <= x < n && !#[trigger] picks[x] implies used + 1 + list[x].len()
        > max_chars by {
        assert(order.contains(x));
        let j = choose|j: int| 0 <= j < order.len() && order[j] == x;
        lemma_left_out(list, order, max_chars, j);
    }
    assert forall|a: int, b: int|
        0 <= a < n && 0 <= b < n - 1 && ranks_before(sc, a, b) && !#[trigger] picks[a]
            && #[trigger] picks[b] implies list[a].len() > list[b].len() by {
        assert(order.contains(a));
        assert(order.contains(b));
        let i = choose|i: int| 0 <= i < order.len() && order[i] == a;
        let j = choose|j: int| 0 <= j < order.len() && order[j] == b;
        if j < i {
            assert(ranks_before(sc, order[j], order[i]));
        }
        lemma_left_out(list, order, max_chars, i);
        lemma_taken(list, order, max_chars, j);
        lemma_used_grows(list, order, max_chars, i as nat, j as nat);
    }
}

proof fn lemma_left_out(list: Seq<Seq<char>>, order: Seq<int>, max_chars: int, j: int)
    requires
        list.len() > 0,
        0 <= j < order.len(),
        forall|i: int| 0 <= i < order.len() ==> 0 <= #[trigger] order[i] < list.len(),
        !picked(list, order, max_chars, order.len()).0[order[j]],
    ensures
        picked(list, order, max_chars, j as nat).1 + 1 + list[order[j]].len() > max_chars,
        picked(list, order, max_chars, order.len()).1 + 1 + list[order[j]].len() > max_chars,
{
    lemma_used_grows(list, order, max_chars, j as nat, order.len());
    lemma_used_grows(list, order, max_chars, (j + 1) as nat, order.len());
    lemma_picked(list, order, max_chars, j as nat);
    assert(0 <= order[j] < list.len());
    let (picks, used) = picked(list, order, max_chars, j as nat);
    if !picks[order[j]] && used + 1 + list[order[j]].len() <= max_chars {
        assert(picked(list, order, max_chars, (j + 1) as nat).0[order[j]]);
    }
}

proof fn lemma_taken(list: Seq<Seq<char>>, order: Seq<int>, max_chars: int, j: int)
    requires
        list.len() > 0,
        0 <= j < order.len(),
        forall|i: int| 0 <= i < order.len() ==> 0 <= #[trigger] order[i] < list.len(),
        forall|i: int, k: int|
            0 <= i < k < order.len() ==> #[trigger] order[i] != #[trigger] order[k],
        order[j] < list.len() - 1,
        picked(list, order, max_chars, order.len()).0[order[j]],
    ensures
        picked(list, order, max_chars, j as nat).1 + 1 + list[order[j]].len() <= max_chars,
{
    let x = order[j];
    lemma_used_grows(list, order, max_chars, (j + 1) as nat, order.len());
    lemma_picked(list, order, max_chars, j as nat);
    lemma_used_grows(list, order, max_chars, 0, j as nat);
    let picks = picked(list, order, max_chars, j as nat).0;
    if picks[x] {
        assert(!picked(list, order, max_chars, 0).0[x]);
        let i = choose|i: int| 0 <= i < j && #[trigger] order[i] == x;
        assert(order[i] != order[j]);
    }
    if !picked(list, order, max_chars, (j + 1) as nat).0[x] {
        let i = choose|i: int| j + 1 <= i < order.len() && #[trigger] order[i] == x;
        assert(order[j] != order[i]);
    }
}

/// Where the last segment fits, the summary of a longer text ends with it whole.
pub proof fn lemma_semantic_keeps_last(s: Seq<char>, max_chars: int)
    requires
        s.len() > max_chars,
        segments(s).len() > 0,
        segments(s).last().len() <= max_chars,
    ensures
        text::ends_with(semantic(s, max_chars), segments(s).last()),
{
    let list = segments(s);
    let n = list.len();
    let order = ranking(scores(list));
    lemma_ranking(scores(list));
    lemma_picked(list, order, max_chars, n);
    let picks = picked(list, order, max_chars, n).0;
    lemma_chosen_cost(list, picks, n);
    let before = chosen(list, picks, (n - 1) as nat);
    assert(chosen(list, picks, n) == before.push(list.last()));
    text::lemma_join_push(before, list.last(), "\n"@);
    let sel = selection(list, max_chars);
    assert(sel.subrange(sel.len() - list.last().len(), sel.len() as int) =~= list.last());
    lemma_segments_nonblank(s);
    assert(!text::is_whitespace(list[n - 1].last()));
    assert(sel.last() == list.last().last());
    if text::trim(sel).len() == 0 {
        text::lemma_trim_blank(sel);
        assert(text::is_whitespace(sel[sel.len() - 1]));
    }
}

// ---------------------------------------------------------------------------
// Executable selection
// ---------------------------------------------------------------------------

spec fn score_ints(v: Seq<i32>) -> Seq<int> {
    Seq::new(v.len(), |i: int| v[i] as int)
}

fn rank_segments(sc: &Vec<i32>) -> (order: Vec<usize>)
    ensures
        ordering::indices(order@) == ranking(score_ints(sc@)),
        forall|i: int| 0 <= i < order@.len() ==> #[trigger] order@[i] < sc@.len(),
{
    let ghost ints = score_ints(sc@);
    let n: usize = sc.len();
    let mut keys: Vec<Vec<KeyPart>> = Vec::new();
    let mut i: usize = 0;
    while i < n
        invariant
            i <= n == sc@.len(),
            keys@.len() == i,
            ints == score_ints(sc@),
            forall|k: int|
                0 <= k < i ==> ordering::key_view((#[trigger] keys@[k])@) == rank_keys(ints)[k],
        decreases n - i,
    {
        let mut key: Vec<KeyPart> = Vec::new();
        key.push(KeyPart::NumDown(sc[n - 1 - i] as i64));
        proof {
            assert(ordering::key_view(key@) =~= rank_keys(ints)[i as int]);
        }
        keys.push(key);
        i = i + 1;
    }
    proof {
        assert(ordering::keys_view(keys@) =~= rank_keys(ints));
    }
    let rows = sort_rows(&keys);
    let mut order: Vec<usize> = Vec::new();
    let mut k: usize = 0;
    while k < n
        invariant
            k <= n == sc@.len(),
            n == rows@.len(),
            order@.len() == k,
            forall|i: int| 0 <= i < rows@.len() ==> (#[trigger] rows@[i]) < n,
            forall|i: int| 0 <= i < k ==> #[trigger] order@[i] == n - 1 - rows@[i],
        decreases n - k,
    {
        order.push(n - 1 - rows[k]);
        k = k + 1;
    }
    proof {
        assert forall|i: int| 0 <= i < n implies #[trigger] ordering::indices(order@)[i] == ranking(
            ints,
        )[i] by {
            assert(ordering::indices(rows@)[i] == rows@[i]);
        }
        assert(ordering::indices(order@) =~= ranking(ints));
    }
    order
}

fn all_scores(list: &Vec<String>) -> (sc: Vec<i32>)
    ensures
        score_ints(sc@) == scores(text::texts(list@)),
{
    let n: usize = list.len();
    let mut sc: Vec<i32> = Vec::new();
    let mut i: usize = 0;
    while i < n
        invariant
            i <= n == list.len(),
            sc@.len() == i,
            forall|k: int|
                0 <= k < i ==> sc@[k] == segment_score(text::texts(list@)[k], k, n as int),
        decreases n - i,
    {
        let x: i32 = score_session_segment(list[i].as_str(), i, n);
        sc.push(x);
        i = i + 1;
    }
    proof {
        assert(score_ints(sc@) =~= scores(text::texts(list@)));
    }
    sc
}

fn pick_segments(list: &Vec<String>, order: &Vec<usize>, max_chars: usize) -> (picks: Vec<bool>)
    requires
        list@.len() > 0,
        forall|i: int| 0 <= i < order@.len() ==> #[trigger] order@[i] < list@.len(),
    ensures
        picks@ == picked(text::texts(list@), ordering::indices(order@), max_chars as int, order@.len()).0,
{
    let ghost ts = text::texts(list@);
    let ghost ord = ordering::indices(order@);
    let n: usize = list.len();
    let mut picks: Vec<bool> = Vec::new();
    let mut i: usize = 0;
    while i < n
        invariant
            i <= n,
            picks@.len() == i,
            forall|k: int| 0 <= k < i ==> picks@[k] == (k == n - 1),
        decreases n - i,
    {
        picks.push(i == n - 1);
        i = i + 1;
    }
    let mut used: u128 = char_count(list[n - 1].as_str()) as u128;
    let mut k: usize = 0;
    proof {
        assert(picks@ =~= picked(ts, ord, max_chars as int, 0).0);
    }
    while k < order.len()
        invariant
            k <= order.len(),
            n == list.len(),
            n > 0,
            ts == text::texts(list@),
            ord == ordering::indices(order@),
            forall|i: int| 0 <= i < order@.len() ==> #[trigger] order@[i] < list@.len(),
            picks@.len() == n,
            used <= 0xffff_ffff_ffff_ffff,
            (picks@, used as int) == picked(ts, ord, max_chars as int, k as nat),
        decreases order.len() - k,
    {
        let idx: usize = order[k];
        let len: usize = char_count(list[idx].as_str());
        proof {
            assert(ord[k as int] == idx);
            assert(ts[idx as int].len() == len);
        }
        if !picks[idx] && used + 1 + len as u128 <= max_chars as u128 {
            picks.set(idx, true);
            used = used + 1 + len as u128;
        }
        k = k + 1;
    }
    picks
}

fn join_picked(list: &Vec<String>, picks: &Vec<bool>) -> (r: String)
    requires
        picks@.len() == list@.len(),
    ensures
        r@ == text::join(chosen(text::texts(list@), picks@, list@.len()), "\n"@),
{
    let mut parts: Vec<String> = Vec::new();
    let mut i: usize = 0;
    proof {
        assert(text::texts(parts@) =~= Seq::empty());
    }
    while i < list.len()
        invariant
            i <= list.len(),
            picks@.len() == list@.len(),
            text::texts(parts@) == chosen(text::texts(list@), picks@, i as nat),
        decreases list.len() - i,
    {
        if picks[i] {
            push_text(&mut parts, list[i].as_str());
        }
        i = i + 1;
    }
    join_strings(parts.as_slice(), "\n")
}

/// Semantic strategy: score and select high-value segments.
pub fn summarize_session_text_semantic(input: &str, max_chars: usize) -> (r: String)
    ensures
        r@ == semantic(input@, max_chars as int),
        r@.len() <= max_chars,
{
    proof {
        lemma_semantic_fits(input@, max_chars as int);
    }
    if char_count(input) <= max_chars {
        return owned(input);
    }
    let list = split_session_segments(input);
    if list.is_empty() {
        return summarize_for_markdown(input, max_chars);
    }
    let sc = all_scores(&list);
    let order = rank_segments(&sc);
    proof {
        let ints = scores(text::texts(list@));
        assert(score_ints(sc@).len() == list@.len());
        lemma_ranking(ints);
        let ord = ordering::indices(order@);
        assert(ord.len() == order@.len());
        assert forall|i: int| 0 <= i < ord.len() implies 0 <= #[trigger] ord[i] < list@.len() by {
            assert(0 <= ranking(ints)[i]);
        }
        lemma_picked(text::texts(list@), ord, max_chars as int, list@.len());
    }
    let picks = pick_segments(&list, &order, max_chars);
    let joined = join_picked(&list, &picks);
    let summary = summarize_for_markdown(joined.as_str(), max_chars);
    let core = trimmed(summary.as_str());
    if core.as_str().is_empty() {
        summarize_for_markdown(input, max_chars)
    } else {
        summary
    }
}

// ---------------------------------------------------------------------------
// The session text section
// ---------------------------------------------------------------------------

pub open spec fn compact_summary(s: Seq<char>, strategy: SessionSummaryStrategy) -> Seq<char> {
    match strategy {
        SessionSummaryStrategy::Semantic => semantic(s, SESSION_TEXT_SUMMARY_MAX_CHARS as int),
        SessionSummaryStrategy::Truncate => summarized(s, SESSION_TEXT_SUMMARY_MAX_CHARS as int),
    }
}

/// The lines of the session text section.
pub open spec fn section_lines(s: Seq<char>, strategy: SessionSummaryStrategy) -> Seq<Seq<char>> {
    let head = Seq::<Seq<char>>::empty().push(Seq::empty()).push("## Session Text"@).push(
        "- total_chars: "@ + text::decimal(s.len()),
    );
    if s.len() <= SESSION_TEXT_FULL_MAX_CHARS {
        head.push("- mode: full"@).push("```text"@).push(s).push("```"@)
    } else {
        head.push("- mode: boundary_compaction"@).push(
            "- summary_strategy: "@ + strategy_name(strategy),
        ).push("- summary_compact:"@).push("```text"@).push(compact_summary(s, strategy)).push(
            "```"@,
        ).push("- recent_tail:"@).push("```text"@).push(
            recent_tail(s, SESSION_TEXT_RECENT_TAIL_CHARS as int),
        ).push("```"@)
    }
}

/// Build the full session text section lines using the chosen strategy.
pub fn build_session_text_section_lines(
    session_text: &str,
    session_summary_strategy: SessionSummaryStrategy,
) -> (r: Vec<String>)
    ensures
        text::texts(r@) == section_lines(session_text@, session_summary_strategy),
{
    let total_chars: usize = char_count(session_text);
    let mut lines: Vec<String> = Vec::new();
    proof {
        assert(text::texts(lines@) =~= Seq::<Seq<char>>::empty());
    }
    let blank = String::new();
    push_text(&mut lines, blank.as_str());
    push_text(&mut lines, "## Session Text");
    let mut total_line = "- total_chars: ".to_string();
    push_usize(&mut total_line, total_chars);
    push_text(&mut lines, total_line.as_str());
    if total_chars <= SESSION_TEXT_FULL_MAX_CHARS {
        push_text(&mut lines, "- mode: full");
        push_text(&mut lines, "```text");
        push_text(&mut lines, session_text);
        push_text(&mut lines, "```");
        return lines;
    }
    push_text(&mut lines, "- mode: boundary_compaction");
    let mut strategy_line = "- summary_strategy: ".to_string();
    strategy_line.append(session_summary_strategy.as_str());
    push_text(&mut lines, strategy_line.as_str());
    push_text(&mut lines, "- summary_compact:");
    push_text(&mut lines, "```text");
    let summary_compact = match session_summary_strategy {
        SessionSummaryStrategy::Semantic => summarize_session_text_semantic(
            session_text,
            SESSION_TEXT_SUMMARY_MAX_CHARS,
        ),
        SessionSummaryStrategy::Truncate => summarize_for_markdown(
            session_text,
            SESSION_TEXT_SUMMARY_MAX_CHARS,
        ),
    };
    push_text(&mut lines, summary_compact.as_str());
    push_text(&mut lines, "```");
    push_text(&mut lines, "- recent_tail:");
    push_text(&mut lines, "```text");
    let tail = session_recent_tail_with_notice(session_text, SESSION_TEXT_RECENT_TAIL_CHARS);
    push_text(&mut lines, tail.as_str());
    push_text(&mut lines, "```");
    lines
}

// ---------------------------------------------------------------------------
// Laws of segments and of the section
// ---------------------------------------------------------------------------

proof fn lemma_cut_goes_on(a: Seq<char>, b: Seq<char>)
    requires
        segment_cut(a).1.len() == 0,
    ensures
        segment_cut(a + b) == (segment_cut(a).0 + segment_cut(b).0, segment_cut(b).1),
    decreases b.len(),
{
    let x = segment_cut(a).0;
    if b.len() == 0 {
        assert(a + b =~= a);
        assert(segment_cut(a).1 =~= Seq::empty());
        assert(x + segment_cut(b).0 =~= x);
    } else {
        let init = b.drop_last();
        assert((a + b).drop_last() =~= a + init);
        assert((a + b).last() == b.last());
        lemma_cut_goes_on(a, init);
        let (list, open) = segment_cut(init);
        let grown = open.push(b.last());
        assert(with_nonblank(x + list, grown) =~= x + with_nonblank(list, grown));
    }
}

proof fn lemma_cut_stays_open(s: Seq<char>)
    requires
        forall|i: int| 0 <= i < s.len() ==> !ends_segment(#[trigger] s[i]),
    ensures
        segment_cut(s) == (Seq::<Seq<char>>::empty(), s),
    decreases s.len(),
{
    if s.len() > 0 {
        let init = s.drop_last();
        assert forall|i: int| 0 <= i < init.len() implies !ends_segment(#[trigger] init[i]) by {
            assert(init[i] == s[i]);
        }
        lemma_cut_stays_open(init);
        assert(!ends_segment(s[s.len() - 1]));
        assert(init.push(s.last()) =~= s);
    } else {
        assert(s =~= Seq::empty());
    }
}

/// The end of a line and the marks that end a sentence cut a text: the segment before the
/// mark, with it, and then the segments of what follows. Blank segments go.
pub proof fn lemma_segments_apart(a: Seq<char>, c: char, b: Seq<char>)
    requires
        forall|i: int| 0 <= i < a.len() ==> !ends_segment(#[trigger] a[i]),
        c == '\n' || c == '。' || c == '！' || c == '？' || c == '!' || c == '?',
    ensures
        segments(a + seq![c] + b) == (if text::is_blank(a.push(c)) {
            segments(b)
        } else {
            seq![text::trim(a.push(c))] + segments(b)
        }),
{
    let s = a + seq![c];
    lemma_cut_stays_open(a);
    assert(s.drop_last() =~= a);
    assert(s.last() == c);
    let none = Seq::<Seq<char>>::empty();
    assert(segment_cut(s) == (with_nonblank(none, a.push(c)), Seq::<char>::empty()));
    lemma_cut_goes_on(s, b);
    let x = with_nonblank(none, a.push(c));
    let (list, open) = segment_cut(b);
    assert(with_nonblank(x + list, open) =~= x + with_nonblank(list, open));
    if text::is_blank(a.push(c)) {
        assert(none + segments(b) =~= segments(b));
    } else {
        assert(x =~= seq![text::trim(a.push(c))]);
    }
}

/// A text without such a mark is one segment, and none where it is blank.
pub proof fn lemma_single_segment(s: Seq<char>)
    requires
        forall|i: int|
            0 <= i < s.len() ==> #[trigger] s[i] != '\n' && s[i] != '。' && s[i] != '！' && s[i]
                != '？' && s[i] != '!' && s[i] != '?',
    ensures
        segments(s) == (if text::is_blank(s) {
            Seq::empty()
        } else {
            seq![text::trim(s)]
        }),
{
    assert forall|i: int| 0 <= i < s.len() implies !ends_segment(#[trigger] s[i]) by {}
    lemma_cut_stays_open(s);
    let none = Seq::<Seq<char>>::empty();
    assert(none.push(text::trim(s)) =~= seq![text::trim(s)]);
}

/// The tail of a long text is its last characters, behind a note on how many were left out.
pub proof fn lemma_tail_is_the_end(s: Seq<char>, max_chars: int)
    requires
        0 <= max_chars,
    ensures
        s.len() <= max_chars ==> recent_tail(s, max_chars) == s,
        s.len() > max_chars ==> {
            let r = recent_tail(s, max_chars);
            &&& r.len() > max_chars
            &&& r.skip(r.len() - max_chars) == s.skip(s.len() - max_chars)
            &&& text::contains(
                r.take(r.len() - max_chars),
                text::decimal((s.len() - max_chars) as nat),
            )
        },
{
    if s.len() > max_chars {
        let omitted = s.len() - max_chars;
        let d = text::decimal(omitted as nat);
        let head = "...["@ + d + " chars omitted]\n"@;
        let r = recent_tail(s, max_chars);
        text::lemma_decimal_is_digits(omitted as nat);
        assert(r =~= head + s.skip(omitted));
        assert(r.skip(r.len() - max_chars) =~= s.skip(omitted));
        assert(r.take(r.len() - max_chars) =~= head);
        text::lemma_holds("...["@, d, " chars omitted]\n"@);
    }
}

/// The section shows a short text as it is. Of a long one it shows the summary and then the
/// end, and in both cases it tells how long the text is.
pub proof fn lemma_section_shows_the_text(s: Seq<char>, strategy: SessionSummaryStrategy)
    ensures
        ({
            let ls = section_lines(s, strategy);
            &&& ls[2] == "- total_chars: "@ + text::decimal(s.len())
            &&& s.len() <= 220 ==> ls.len() == 7 && ls[5] == s && ls[3]
                == "- mode: full"@
            &&& s.len() > 220 ==> {
                &&& ls.len() == 13
                &&& ls[4] == "- summary_strategy: "@ + strategy_name(strategy)
                &&& ls[7] == compact_summary(s, strategy)
                &&& ls[11] == recent_tail(s, 120)
            }
        }),
{
}

/// Either way a session is summarized in 140 characters at most.
pub proof fn lemma_compact_summary_fits(s: Seq<char>, strategy: SessionSummaryStrategy)
    ensures
        compact_summary(s, strategy).len() <= 140,
        s.len() <= 140 ==> compact_summary(s, strategy) == s,
        compact_summary(s, SessionSummaryStrategy::Semantic) == semantic(s, 140),
        compact_summary(s, SessionSummaryStrategy::Truncate) == summarized(s, 140),
{
    lemma_summarized_fits(s, 140);
    lemma_semantic_fits(s, 140);
}

} // verus!
