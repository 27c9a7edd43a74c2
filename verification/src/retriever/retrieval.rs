//! What is asked of a search, and what it brings.

use crate::retriever::metadata::Metadata;
use crate::text;
use crate::text::{blank, owned, push_decimal, trimmed};
use vstd::prelude::*;

verus! {

/// How many memories a search brings when no number is asked for.
pub const DEFAULT_LIMIT: usize = 15;

#[derive(Debug, Clone)]
pub struct RetrieveQuery {
    pub user_id: String,
    pub query_text: Option<String>,
    pub limit: usize,
    pub context_hints: Metadata,
}

impl RetrieveQuery {
    pub fn new(user_id: &str, limit: usize) -> (r: Self)
        ensures
            r.user_id@ == user_id@,
            r.query_text is None,
            r.limit == limit,
            r.context_hints@ == Map::<Seq<char>, Seq<char>>::empty(),
    {
        RetrieveQuery {
            user_id: owned(user_id),
            query_text: None,
            limit,
            context_hints: Metadata::new(),
        }
    }

    pub fn with_query_text(self, text: &str) -> (r: Self)
        ensures
            text::opt_text(r.query_text) == Some(text@),
            r.user_id == self.user_id,
            r.limit == self.limit,
            r.context_hints == self.context_hints,
    {
        RetrieveQuery {
            user_id: self.user_id,
            query_text: Some(owned(text)),
            limit: self.limit,
            context_hints: self.context_hints,
        }
    }

    pub fn with_hint(self, key: &str, value: &str) -> (r: Self)
        ensures
            r.context_hints@ == self.context_hints@.insert(key@, value@),
            r.user_id == self.user_id,
            r.query_text == self.query_text,
            r.limit == self.limit,
    {
        let mut hints = self.context_hints;
        hints.insert(key, value);
        RetrieveQuery {
            user_id: self.user_id,
            query_text: self.query_text,
            limit: self.limit,
            context_hints: hints,
        }
    }
}

/// The number of memories that is asked for; none stands for the usual number.
pub open spec fn asked_limit(limit: usize) -> usize {
    if limit > 0 {
        limit
    } else {
        DEFAULT_LIMIT
    }
}

pub fn effective_limit(limit: usize) -> (r: usize)
    ensures
        r == asked_limit(limit),
{
    if limit > 0 {
        limit
    } else {
        DEFAULT_LIMIT
    }
}

/// What is searched for, without the white space around it; blank text is no question.
pub open spec fn question(query_text: Option<Seq<char>>) -> Option<Seq<char>> {
    match query_text {
        Some(t) => if text::is_blank(t) {
            None
        } else {
            Some(text::trim(t))
        },
        None => None,
    }
}

pub fn question_of(query: &RetrieveQuery) -> (r: Option<String>)
    ensures
        text::opt_text(r) == question(text::opt_text(query.query_text)),
{
    match &query.query_text {
        Some(t) => if blank(t.as_str()) {
            None
        } else {
            Some(trimmed(t.as_str()))
        },
        None => None,
    }
}

/// How well a memory fits.
#[derive(Debug, Clone, Copy, PartialEq, Eq, Structural)]
pub enum Score {
    /// So many ten-thousandths exactly.
    Units(u32),
    /// A double-precision number by its bit pattern, and the ten-thousandths that it is shown
    /// with.
    Measured { bits: u64, units: u32 },
}

/// The ten-thousandths that a score is shown with.
pub open spec fn shown_units(s: Score) -> int {
    match s {
        Score::Units(u) => u as int,
        Score::Measured { units, .. } => units as int,
    }
}

impl Score {
    /// The ten-thousandths that the score is shown with.
    pub fn units(&self) -> (r: u32)
        ensures
            r == shown_units(*self),
    {
        match self {
            Score::Units(u) => *u,
            Score::Measured { units, .. } => *units,
        }
    }
}

/// A found memory.
#[derive(Debug, Clone)]
pub struct RetrievedItem {
    pub id: String,
    pub content: String,
    pub score: Option<Score>,
    pub source_type: String,
    pub metadata: Metadata,
}

pub struct ItemData {
    pub id: Seq<char>,
    pub content: Seq<char>,
    pub score: Option<Score>,
    pub source_type: Seq<char>,
    pub metadata: Map<Seq<char>, Seq<char>>,
}

impl View for RetrievedItem {
    type V = ItemData;

    open spec fn view(&self) -> ItemData {
        ItemData {
            id: self.id@,
            content: self.content@,
            score: self.score,
            source_type: self.source_type@,
            metadata: self.metadata@,
        }
    }
}

impl RetrievedItem {
    pub fn copy(&self) -> (r: Self)
        ensures
            r@ == self@,
            self.metadata.wf() ==> r.metadata.wf(),
    {
        RetrievedItem {
            id: self.id.clone(),
            content: self.content.clone(),
            score: self.score,
            source_type: self.source_type.clone(),
            metadata: self.metadata.copy(),
        }
    }

    /// The memory with one name of its metadata set.
    pub fn tagged(self, key: &str, value: &str) -> (r: Self)
        ensures
            r@ == with_tag(self@, key@, value@),
            self.metadata.wf() ==> r.metadata.wf(),
    {
        let mut metadata = self.metadata;
        metadata.insert(key, value);
        RetrievedItem {
            id: self.id,
            content: self.content,
            score: self.score,
            source_type: self.source_type,
            metadata,
        }
    }
}

pub open spec fn with_tag(item: ItemData, key: Seq<char>, value: Seq<char>) -> ItemData {
    ItemData { metadata: item.metadata.insert(key, value), ..item }
}

pub open spec fn items(v: Seq<RetrievedItem>) -> Seq<ItemData> {
    Seq::new(v.len(), |i: int| v[i]@)
}

/// What one search brought.
#[derive(Debug, Clone)]
pub struct RetrieveResult {
    pub candidates: Vec<RetrievedItem>,
    pub hit_count: usize,
    pub dropped_count: usize,
    pub latency_ms: u128,
    pub retriever_name: String,
}

pub struct ResultData {
    pub candidates: Seq<ItemData>,
    pub hit_count: int,
    pub dropped_count: int,
    pub latency_ms: int,
    pub retriever_name: Seq<char>,
}

impl View for RetrieveResult {
    type V = ResultData;

    open spec fn view(&self) -> ResultData {
        ResultData {
            candidates: items(self.candidates@),
            hit_count: self.hit_count as int,
            dropped_count: self.dropped_count as int,
            latency_ms: self.latency_ms as int,
            retriever_name: self.retriever_name@,
        }
    }
}

/// What a search that took `elapsed_ms` brings: no search takes less than a millisecond.
pub open spec fn brought(candidates: Seq<ItemData>, name: Seq<char>, elapsed_ms: int) -> ResultData {
    ResultData {
        candidates,
        hit_count: 0,
        dropped_count: 0,
        latency_ms: if elapsed_ms < 1 {
            1
        } else {
            elapsed_ms
        },
        retriever_name: name,
    }
}

impl RetrieveResult {
    pub fn empty(retriever_name: &str) -> (r: Self)
        ensures
            r@.candidates == Seq::<ItemData>::empty(),
            r.hit_count == 0,
            r.dropped_count == 0,
            r.latency_ms == 0,
            r.retriever_name@ == retriever_name@,
    {
        RetrieveResult {
            candidates: Vec::new(),
            hit_count: 0,
            dropped_count: 0,
            latency_ms: 0,
            retriever_name: owned(retriever_name),
        }
    }

    pub fn of(candidates: Vec<RetrievedItem>, name: &str, elapsed_ms: u128) -> (r: Self)
        ensures
            r@ == brought(items(candidates@), name@, elapsed_ms as int),
    {
        RetrieveResult {
            candidates,
            hit_count: 0,
            dropped_count: 0,
            latency_ms: if elapsed_ms < 1 {
                1
            } else {
                elapsed_ms
            },
            retriever_name: owned(name),
        }
    }
}

/// Every candidate with one name of its metadata set.
pub open spec fn all_tagged(c: Seq<ItemData>, key: Seq<char>, value: Seq<char>) -> Seq<ItemData> {
    Seq::new(c.len(), |i: int| with_tag(c[i], key, value))
}

pub fn tag_all(candidates: Vec<RetrievedItem>, key: &str, value: &str) -> (r: Vec<RetrievedItem>)
    ensures
        items(r@) == all_tagged(items(candidates@), key@, value@),
{
    let mut out: Vec<RetrievedItem> = Vec::new();
    let mut i: usize = 0;
    while i < candidates.len()
        invariant
            i <= candidates.len(),
            out@.len() == i,
            forall|k: int|
                0 <= k < i ==> (#[trigger] out@[k])@ == with_tag(candidates@[k]@, key@, value@),
        decreases candidates.len() - i,
    {
        out.push(candidates[i].copy().tagged(key, value));
        i = i + 1;
    }
    proof {
        assert(items(out@) =~= all_tagged(items(candidates@), key@, value@));
    }
    out
}

/// Two lists hold the same memories in the same order, whatever their metadata.
pub open spec fn same_memories(a: Seq<ItemData>, b: Seq<ItemData>) -> bool {
    a.len() == b.len() && forall|i: int|
        0 <= i < a.len() ==> (#[trigger] a[i]).id == b[i].id && a[i].content == b[i].content
            && a[i].score == b[i].score && a[i].source_type == b[i].source_type
}

/// Setting metadata changes neither the memories nor their order.
pub proof fn lemma_tags_keep_memories(c: Seq<ItemData>, key: Seq<char>, value: Seq<char>)
    ensures
        same_memories(all_tagged(c, key, value), c),
{
}

/// A score in ten-thousandths, written with four decimals.
pub open spec fn score_text(units: int) -> Seq<char> {
    text::decimal((units / 10000) as nat) + seq!['.'] + four_digits(units % 10000)
}

pub open spec fn four_digits(n: int) -> Seq<char> {
    seq![
        text::digit_char((n / 1000) as nat),
        text::digit_char((n / 100 % 10) as nat),
        text::digit_char((n / 10 % 10) as nat),
        text::digit_char((n % 10) as nat),
    ]
}

fn push_digit(out: &mut String, d: u32)
    requires
        d < 10,
    ensures
        final(out)@ == old(out)@.push(text::digit_char(d as nat)),
{
    let b: u8 = 48 + d as u8;
    out.push(b as char);
}

pub fn score_string(units: u32) -> (r: String)
    ensures
        r@ == score_text(units as int),
{
    let mut out = String::new();
    push_decimal(&mut out, (units / 10000) as u128);
    out.push('.');
    let rest: u32 = units % 10000;
    push_digit(&mut out, rest / 1000);
    push_digit(&mut out, rest / 100 % 10);
    push_digit(&mut out, rest / 10 % 10);
    push_digit(&mut out, rest % 10);
    proof {
        assert(out@ =~= score_text(units as int));
    }
    out
}

/// A score is written with the whole part before the point and just four digits behind it.
pub proof fn lemma_score_text(units: int)
    requires
        units >= 0,
    ensures
        ({
            let s = score_text(units);
            let n = s.len() - 5;
            &&& n >= 0
            &&& s[n] == '.'
            &&& s.take(n) == text::decimal((units / 10000) as nat)
            &&& text::all_digits(s.skip(n + 1), 10)
            &&& text::digits_value(s.skip(n + 1), 10) == units % 10000
        }),
{
    let s = score_text(units);
    let d = text::decimal((units / 10000) as nat);
    let f = four_digits(units % 10000);
    let n = s.len() - 5;
    assert(s.take(n) =~= d);
    assert(s.skip(n + 1) =~= f);
    let r = units % 10000;
    let f3 = f.drop_last();
    let f2 = f3.drop_last();
    let f1 = f2.drop_last();
    assert(f1.drop_last() =~= Seq::<char>::empty());
    assert(text::digits_value(Seq::<char>::empty(), 10) == 0);
    lemma_digit((r / 1000) as nat);
    lemma_digit((r / 100 % 10) as nat);
    lemma_digit((r / 10 % 10) as nat);
    lemma_digit((r % 10) as nat);
    assert(text::digits_value(f1, 10) == r / 1000);
    assert(text::digits_value(f2, 10) == r / 100);
    assert(text::digits_value(f3, 10) == r / 10);
    assert(text::digits_value(f, 10) == r);
    assert forall|i: int| 0 <= i < f.len() implies text::digit_value(#[trigger] f[i]) < 10 by {}
}

proof fn lemma_digit(d: nat)
    requires
        d < 10,
    ensures
        text::digit_value(text::digit_char(d)) == d,
{
}

/// A search asks for as many memories as it is told to, and for the usual number where it is
/// told none; blank text is no question.
pub proof fn lemma_what_is_asked(limit: usize, t: Seq<char>)
    ensures
        limit > 0 ==> asked_limit(limit) == limit,
        asked_limit(0) == 15,
        asked_limit(limit) > 0,
        text::is_blank(t) ==> question(Some(t)) is None,
        !text::is_blank(t) ==> question(Some(t)) == Some(text::trim(t)),
        question(None) is None,
{
}

/// A search brings the memories that it found, in their order, under its name; it never takes
/// less than a millisecond.
pub proof fn lemma_what_a_search_brings(c: Seq<ItemData>, name: Seq<char>, elapsed_ms: int)
    ensures
        ({
            let r = brought(c, name, elapsed_ms);
            &&& r.candidates == c && r.retriever_name == name
            &&& r.latency_ms >= 1 && r.latency_ms >= elapsed_ms
            &&& elapsed_ms >= 1 ==> r.latency_ms == elapsed_ms
            &&& r.hit_count == 0 && r.dropped_count == 0
        }),
{
}

/// A memory with one more name tells the value under that name, and what it told under other
/// names stays, as does the memory itself.
pub proof fn lemma_tag_is_told(item: ItemData, key: Seq<char>, value: Seq<char>, other: Seq<char>)
    ensures
        ({
            let r = with_tag(item, key, value);
            &&& r.metadata.dom().contains(key) && r.metadata[key] == value
            &&& other != key ==> r.metadata.dom().contains(other) == item.metadata.dom().contains(
                other,
            )
            &&& other != key && item.metadata.dom().contains(other) ==> r.metadata[other]
                == item.metadata[other]
            &&& r.id == item.id && r.content == item.content && r.score == item.score
        }),
{
}

} // verus!
