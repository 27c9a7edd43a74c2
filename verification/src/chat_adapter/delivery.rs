//! Splitting replies into messages and accounting for what was sent.

use crate::text;
use crate::text::{char_count, chars_of, owned, push_text, push_usize, string_of_range, trimmed};
use vstd::prelude::*;

verus! {

/// The most characters of one message.
pub const WECHAT_REPLY_CHUNK_MAX_CHARS: usize = 1200;

/// Inputs from this length on get a note that they are being processed.
pub const PROCESSING_ACK_MIN_INPUT_CHARS: usize = 180;

/// The longest wait for new messages, in nanoseconds.
pub const DEFAULT_GET_UPDATES_TIMEOUT: u128 = 70_000_000_000;

/// The shortest wait for new messages, in nanoseconds.
pub const MIN_GET_UPDATES_TIMEOUT: u128 = 200_000_000;

// ---------------------------------------------------------------------------
// Pieces
// ---------------------------------------------------------------------------

/// The text cut into pieces of `budget` characters. A budget of zero cuts nothing.
pub open spec fn pieces(s: Seq<char>, budget: int) -> Seq<Seq<char>>
    decreases s.len(),
{
    if s.len() == 0 {
        Seq::empty()
    } else if budget <= 0 || s.len() <= budget {
        seq![s]
    } else {
        seq![s.take(budget)] + pieces(s.skip(budget), budget)
    }
}

/// All pieces one after the other.
pub open spec fn concat(parts: Seq<Seq<char>>) -> Seq<char>
    decreases parts.len(),
{
    if parts.len() == 0 {
        Seq::empty()
    } else {
        parts[0] + concat(parts.drop_first())
    }
}

/// The pieces make up the text.
pub proof fn lemma_pieces_concat(s: Seq<char>, budget: int)
    ensures
        concat(pieces(s, budget)) == s,
    decreases s.len(),
{
    let p = pieces(s, budget);
    if s.len() == 0 {
        assert(concat(p) =~= s);
    } else if budget <= 0 || s.len() <= budget {
        assert(p.drop_first() =~= Seq::<Seq<char>>::empty());
        assert(concat(p.drop_first()) =~= Seq::<char>::empty());
        assert(concat(p) =~= s);
    } else {
        lemma_pieces_concat(s.skip(budget), budget);
        assert(p.drop_first() =~= pieces(s.skip(budget), budget));
        assert(s.take(budget) + s.skip(budget) =~= s);
    }
}

/// No piece is longer than the budget, and none is empty.
pub proof fn lemma_pieces_fit(s: Seq<char>, budget: int, i: int)
    requires
        budget > 0,
        0 <= i < pieces(s, budget).len(),
    ensures
        1 <= pieces(s, budget)[i].len() <= budget,
    decreases s.len(),
{
    if s.len() > budget {
        if i > 0 {
            lemma_pieces_fit(s.skip(budget), budget, i - 1);
        }
    }
}

/// The number of pieces is the length divided by the budget, rounded up.
proof fn lemma_pieces_count(s: Seq<char>, budget: int)
    requires
        budget > 0,
    ensures
        (pieces(s, budget).len() - 1) * budget < s.len() || s.len() == 0,
        s.len() <= pieces(s, budget).len() * budget,
        s.len() == 0 <==> pieces(s, budget).len() == 0,
    decreases s.len(),
{
    if s.len() > budget {
        lemma_pieces_count(s.skip(budget), budget);
        let n = pieces(s.skip(budget), budget).len() as int;
        assert((n + 1) * budget == n * budget + budget) by (nonlinear_arith);
        assert((n + 1 - 1) * budget == (n - 1) * budget + budget) by (nonlinear_arith);
    } else if s.len() > 0 {
        assert(1 * budget == budget) by (nonlinear_arith);
        assert(0 * budget == 0) by (nonlinear_arith);
    }
}

pub fn split_content_only(reply: &str, content_budget: usize) -> (r: Vec<String>)
    ensures
        text::texts(r@) == pieces(reply@, content_budget as int),
{
    let v = chars_of(reply);
    let mut out: Vec<String> = Vec::new();
    proof {
        assert(text::texts(out@) =~= Seq::<Seq<char>>::empty());
    }
    if v.len() == 0 {
        return out;
    }
    if content_budget == 0 {
        push_text(&mut out, reply);
        proof {
            assert(text::texts(out@) =~= seq![reply@]);
        }
        return out;
    }
    let mut start: usize = 0;
    proof {
        assert(v@.skip(0) =~= v@);
        assert(text::texts(out@) + pieces(v@.skip(0), content_budget as int) =~= pieces(
            reply@,
            content_budget as int,
        ));
    }
    while v.len() - start > content_budget
        invariant
            start < v.len(),
            content_budget > 0,
            v@ == reply@,
            text::texts(out@) + pieces(v@.skip(start as int), content_budget as int) == pieces(
                reply@,
                content_budget as int,
            ),
        decreases v.len() - start,
    {
        let ghost before = text::texts(out@);
        let ghost rest = v@.skip(start as int);
        let piece = string_of_range(&v, start, start + content_budget);
        push_text(&mut out, piece.as_str());
        proof {
            let b = content_budget as int;
            assert(piece@ =~= rest.take(b));
            assert(rest.skip(b) =~= v@.skip(start + b));
            assert(before + (seq![rest.take(b)] + pieces(rest.skip(b), b)) =~= before.push(
                rest.take(b),
            ) + pieces(rest.skip(b), b));
        }
        start = start + content_budget;
    }
    let ghost before = text::texts(out@);
    let last = string_of_range(&v, start, v.len());
    push_text(&mut out, last.as_str());
    proof {
        let rest = v@.skip(start as int);
        assert(last@ =~= rest);
        assert(before + seq![rest] =~= before.push(rest));
    }
    out
}

// ---------------------------------------------------------------------------
// Numbered chunks
// ---------------------------------------------------------------------------

/// The mark of part `i` of `n`.
pub open spec fn part_mark(i: nat, n: nat) -> Seq<char> {
    "（"@ + text::decimal(i) + "/"@ + text::decimal(n) + "）"@
}

/// The room that the marks of `n` parts need at most. Before the number of parts is
/// known, room for two parts is assumed.
pub open spec fn mark_room(n: nat) -> nat {
    if n == 0 {
        part_mark(1, 2).len()
    } else {
        part_mark(n, n).len()
    }
}

/// The pieces, cut again until their number agrees with the room for the marks. It
/// stops when no room for content is left, and after as many rounds as `fuel`.
pub open spec fn refined(
    reply: Seq<char>,
    max_chars: int,
    segments: Seq<Seq<char>>,
    fuel: nat,
) -> Seq<Seq<char>>
    decreases fuel,
{
    let budget = max_chars - mark_room(segments.len());
    if fuel == 0 || budget <= 0 {
        segments
    } else {
        let next = pieces(reply, budget);
        if next.len() == segments.len() {
            next
        } else {
            refined(reply, max_chars, next, (fuel - 1) as nat)
        }
    }
}

/// The cutting ends because the number of pieces did not change any more.
pub open spec fn settles(reply: Seq<char>, max_chars: int, segments: Seq<Seq<char>>, fuel: nat) -> bool
    decreases fuel,
{
    let budget = max_chars - mark_room(segments.len());
    fuel > 0 && budget > 0 && (pieces(reply, budget).len() == segments.len() || settles(
        reply,
        max_chars,
        pieces(reply, budget),
        (fuel - 1) as nat,
    ))
}

/// The pieces of a reply before they are numbered.
pub open spec fn numbered_segments(reply: Seq<char>, max_chars: int) -> Seq<Seq<char>> {
    refined(reply, max_chars, Seq::empty(), 5)
}

pub open spec fn marked(segments: Seq<Seq<char>>) -> Seq<Seq<char>> {
    Seq::new(
        segments.len(),
        |i: int| part_mark((i + 1) as nat, segments.len()) + segments[i],
    )
}

/// The messages of a reply: one where it fits; else numbered parts; and plain pieces
/// where the limit is too small for the number of parts to settle beside the marks.
pub open spec fn reply_chunks(reply: Seq<char>, max_chars: int) -> Seq<Seq<char>> {
    if reply.len() <= max_chars {
        seq![reply]
    } else if settles(reply, max_chars, Seq::empty(), 5) {
        marked(numbered_segments(reply, max_chars))
    } else {
        pieces(reply, max_chars)
    }
}

proof fn lemma_mark_len(i: nat, n: nat)
    ensures
        part_mark(i, n).len() == 3 + text::decimal(i).len() + text::decimal(n).len(),
{
    reveal_strlit("（");
    reveal_strlit("/");
    reveal_strlit("）");
}

proof fn lemma_decimal_small(n: nat)
    ensures
        n < 10 ==> text::decimal(n).len() == 1,
        text::decimal(n).len() >= 1,
    decreases n,
{
    if n >= 10 {
        lemma_decimal_small(n / 10);
    }
}

proof fn lemma_decimal_monotone(a: nat, b: nat)
    requires
        a <= b,
    ensures
        text::decimal(a).len() <= text::decimal(b).len(),
    decreases b,
{
    lemma_decimal_small(a);
    lemma_decimal_small(b);
    if a >= 10 {
        lemma_decimal_monotone(a / 10, b / 10);
    }
}

proof fn lemma_decimal_times_ten(n: nat)
    requires
        n > 0,
    ensures
        text::decimal(10 * n).len() == text::decimal(n).len() + 1,
{
    assert((10 * n) / 10 == n);
}

proof fn lemma_decimal_bound(n: nat)
    requires
        n <= 0xffff_ffff_ffff_ffff,
    ensures
        text::decimal(n).len() <= 20,
{
    lemma_decimal_monotone(n, 0xffff_ffff_ffff_ffff);
    reveal_with_fuel(text::decimal, 21);
    assert(text::decimal(0xffff_ffff_ffff_ffff).len() == 20);
}

fn push_mark(out: &mut String, i: usize, n: usize)
    ensures
        final(out)@ == old(out)@ + part_mark(i as nat, n as nat),
{
    let ghost before = out@;
    out.append("（");
    push_usize(out, i);
    out.append("/");
    push_usize(out, n);
    out.append("）");
    proof {
        assert(out@ =~= before + part_mark(i as nat, n as nat));
    }
}

fn room_for_marks(n: usize) -> (r: usize)
    ensures
        r == mark_room(n as nat),
{
    let mut mark = String::new();
    if n == 0 {
        push_mark(&mut mark, 1, 2);
        proof {
            assert(mark@ =~= part_mark(1, 2));
        }
    } else {
        push_mark(&mut mark, n, n);
        proof {
            assert(mark@ =~= part_mark(n as nat, n as nat));
        }
    }
    char_count(mark.as_str())
}

/// Splits a reply into messages of at most `max_chars` characters.
pub fn split_reply_into_chunks(reply: &str, max_chars: usize) -> (r: Vec<String>)
    ensures
        text::texts(r@) == reply_chunks(reply@, max_chars as int),
        max_chars >= 1 ==> forall|i: int| 0 <= i < r@.len() ==> (#[trigger] r@[i])@.len() <= max_chars,
{
    proof {
        lemma_all_chunks_fit(reply@, max_chars as int);
    }
    if char_count(reply) <= max_chars {
        let mut one: Vec<String> = Vec::new();
        one.push(owned(reply));
        proof {
            assert(text::texts(one@) =~= seq![reply@]);
            lemma_texts_fit(one@, max_chars as int);
        }
        return one;
    }
    let ghost goal = numbered_segments(reply@, max_chars as int);
    let mut segments: Vec<String> = Vec::new();
    let mut round: usize = 0;
    let mut done = false;
    let mut settled = false;
    let ghost will_settle = settles(reply@, max_chars as int, Seq::empty(), 5);
    proof {
        assert(text::texts(segments@) =~= Seq::empty());
    }
    while round < 5 && !done
        invariant
            round <= 5,
            settled ==> done,
            if done {
                settled == will_settle && (settled ==> text::texts(segments@) == goal)
            } else {
                &&& refined(reply@, max_chars as int, text::texts(segments@), (5 - round) as nat) == goal
                &&& settles(reply@, max_chars as int, text::texts(segments@), (5 - round) as nat)
                    == will_settle
            },
        decreases 5 - round,
    {
        let room: usize = room_for_marks(segments.len());
        proof {
            assert(text::texts(segments@).len() == segments@.len());
        }
        if room >= max_chars {
            done = true;
        } else {
            let next = split_content_only(reply, max_chars - room);
            proof {
                assert(text::texts(next@).len() == next@.len());
            }
            if next.len() == segments.len() {
                done = true;
                settled = true;
            }
            segments = next;
        }
        round = round + 1;
    }
    proof {
        assert(settled == will_settle);
        assert(text::texts(segments@).len() == segments@.len());
    }
    if !settled {
        let plain = split_content_only(reply, max_chars);
        proof {
            lemma_texts_fit(plain@, max_chars as int);
        }
        return plain;
    }
    let total: usize = segments.len();
    let mut out: Vec<String> = Vec::new();
    let mut i: usize = 0;
    while i < total
        invariant
            i <= total == segments@.len(),
            out@.len() == i,
            forall|k: int| 0 <= k < i ==> text::texts(out@)[k] == marked(text::texts(segments@))[k],
        decreases total - i,
    {
        let ghost before = text::texts(out@);
        let mut chunk = String::new();
        push_mark(&mut chunk, i + 1, total);
        chunk.append(segments[i].as_str());
        proof {
            assert(chunk@ =~= part_mark((i + 1) as nat, total as nat) + segments@[i as int]@);
        }
        push_text(&mut out, chunk.as_str());
        proof {
            assert(text::texts(out@).len() == out@.len());
            assert(before.len() == i);
        }
        i = i + 1;
    }
    proof {
        assert(text::texts(out@) =~= marked(text::texts(segments@)));
        lemma_texts_fit(out@, max_chars as int);
    }
    out
}

// ---------------------------------------------------------------------------
// Laws of splitting
// ---------------------------------------------------------------------------

proof fn lemma_refined_concat(reply: Seq<char>, max_chars: int, segments: Seq<Seq<char>>, fuel: nat)
    ensures
        refined(reply, max_chars, segments, fuel) == segments || concat(
            refined(reply, max_chars, segments, fuel),
        ) == reply,
    decreases fuel,
{
    let budget = max_chars - mark_room(segments.len());
    if fuel > 0 && budget > 0 {
        let next = pieces(reply, budget);
        lemma_pieces_concat(reply, budget);
        if next.len() != segments.len() {
            lemma_refined_concat(reply, max_chars, next, (fuel - 1) as nat);
        }
    }
}

/// Nothing of a reply is lost or repeated: the chunks, without their marks where they have
/// any, make up the reply.
pub proof fn lemma_chunks_keep_reply(reply: Seq<char>, max_chars: int)
    requires
        0 <= max_chars,
    ensures
        ({
            let chunks = reply_chunks(reply, max_chars);
            ||| concat(chunks) == reply
            ||| exists|segments: Seq<Seq<char>>|
                chunks == #[trigger] marked(segments) && concat(segments) == reply
        }),
{
    if reply.len() <= max_chars {
        let one = seq![reply];
        assert(one.drop_first() =~= Seq::<Seq<char>>::empty());
        assert(concat(one.drop_first()) =~= Seq::<char>::empty());
        assert(concat(one) =~= reply);
    } else if settles(reply, max_chars, Seq::empty(), 5) {
        let segments = numbered_segments(reply, max_chars);
        lemma_refined_concat(reply, max_chars, Seq::empty(), 5);
        lemma_settled(reply, max_chars, Seq::empty(), 5);
        lemma_pieces_count(reply, max_chars - mark_room(segments.len()));
        assert(reply_chunks(reply, max_chars) == marked(segments));
    } else {
        lemma_pieces_concat(reply, max_chars);
    }
}

/// A reply that fits is one message.
pub proof fn lemma_short_reply_is_one_chunk(reply: Seq<char>, max_chars: int)
    requires
        reply.len() <= max_chars,
    ensures
        reply_chunks(reply, max_chars) == seq![reply],
{
}

proof fn lemma_settled(reply: Seq<char>, max_chars: int, segments: Seq<Seq<char>>, fuel: nat)
    requires
        settles(reply, max_chars, segments, fuel),
    ensures
        ({
            let r = refined(reply, max_chars, segments, fuel);
            &&& max_chars > mark_room(r.len())
            &&& r == pieces(reply, max_chars - mark_room(r.len()))
        }),
    decreases fuel,
{
    let budget = max_chars - mark_room(segments.len());
    if pieces(reply, budget).len() != segments.len() {
        lemma_settled(reply, max_chars, pieces(reply, budget), (fuel - 1) as nat);
    }
}

/// No chunk is longer than the limit.
pub proof fn lemma_chunks_fit(reply: Seq<char>, max_chars: int, i: int)
    requires
        max_chars >= 1,
        0 <= i < reply_chunks(reply, max_chars).len(),
    ensures
        reply_chunks(reply, max_chars)[i].len() <= max_chars,
{
    if reply.len() <= max_chars {
    } else if settles(reply, max_chars, Seq::empty(), 5) {
        let segments = numbered_segments(reply, max_chars);
        lemma_settled(reply, max_chars, Seq::empty(), 5);
        let n = segments.len();
        let budget = max_chars - mark_room(n);
        lemma_pieces_count(reply, budget);
        assert(n > 0);
        lemma_pieces_fit(reply, budget, i);
        lemma_mark_len((i + 1) as nat, n);
        lemma_mark_len(n, n);
        lemma_decimal_monotone((i + 1) as nat, n);
    } else {
        lemma_pieces_fit(reply, max_chars, i);
    }
}

proof fn lemma_all_chunks_fit(reply: Seq<char>, max_chars: int)
    ensures
        max_chars >= 1 ==> forall|i: int|
            0 <= i < reply_chunks(reply, max_chars).len() ==> (#[trigger] reply_chunks(
                reply,
                max_chars,
            )[i]).len() <= max_chars,
{
    if max_chars >= 1 {
        assert forall|i: int| 0 <= i < reply_chunks(reply, max_chars).len() implies (
        #[trigger] reply_chunks(reply, max_chars)[i]).len() <= max_chars by {
            lemma_chunks_fit(reply, max_chars, i);
        }
    }
}

proof fn lemma_texts_fit(v: Seq<String>, max_chars: int)
    ensures
        (forall|i: int|
            0 <= i < text::texts(v).len() ==> (#[trigger] text::texts(v)[i]).len() <= max_chars) ==> forall|
            i: int,
        |
            0 <= i < v.len() ==> (#[trigger] v[i])@.len() <= max_chars,
{
    assert forall|i: int| 0 <= i < v.len() && (forall|k: int|
        0 <= k < text::texts(v).len() ==> (#[trigger] text::texts(v)[k]).len() <= max_chars) implies (
    #[trigger] v[i])@.len() <= max_chars by {
        assert(text::texts(v)[i] == v[i]@);
    }
}

/// Fewer characters per piece make more pieces.
proof fn lemma_pieces_more(s: Seq<char>, a: int, b: int)
    requires
        0 < a <= b,
        s.len() > 0,
    ensures
        pieces(s, b).len() <= pieces(s, a).len(),
{
    lemma_pieces_count(s, a);
    lemma_pieces_count(s, b);
    let x = pieces(s, a).len() as int;
    let y = pieces(s, b).len() as int;
    if y > x {
        assert(x * a <= (y - 1) * b) by (nonlinear_arith)
            requires
                x <= y - 1,
                0 < a <= b,
                0 <= x,
        ;
    }
}

/// With a budget of at least a tenth there are at most ten times as many pieces.
proof fn lemma_pieces_tenfold(s: Seq<char>, a: int, b: int)
    requires
        0 < a <= b <= 10 * a,
        s.len() > 0,
    ensures
        pieces(s, a).len() <= 10 * pieces(s, b).len(),
{
    lemma_pieces_count(s, a);
    lemma_pieces_count(s, b);
    let x = pieces(s, a).len() as int;
    let y = pieces(s, b).len() as int;
    if x > 10 * y {
        assert(y * b <= (x - 1) * a) by (nonlinear_arith)
            requires
                10 * y <= x - 1,
                0 < a,
                b <= 10 * a,
                0 <= y,
        ;
    }
}

/// From a limit of 48 characters on the cutting always settles, so that the parts of a reply
/// are numbered.
pub proof fn lemma_settles(reply: Seq<char>, max_chars: int)
    requires
        48 <= max_chars < reply.len() <= 0xffff_ffff_ffff_ffff,
    ensures
        settles(reply, max_chars, Seq::empty(), 5),
{
    reveal_with_fuel(settles, 6);
    lemma_mark_len(1, 2);
    lemma_decimal_small(1);
    lemma_decimal_small(2);
    let b1 = max_chars - 5;
    let s1 = pieces(reply, b1);
    let n1 = s1.len();
    lemma_piece_marks(reply, max_chars, n1);
    lemma_pieces_count(reply, b1);
    assert(n1 <= reply.len()) by {
        let x = n1 as int;
        assert((x - 1) * b1 >= x - 1) by (nonlinear_arith)
            requires
                x >= 1,
                b1 >= 1,
        ;
    }
    lemma_marks_bounded(n1);
    let b2 = max_chars - mark_room(n1);
    let s2 = pieces(reply, b2);
    let n2 = s2.len();
    lemma_step(reply, max_chars, n1, b1, b2);
    lemma_marks_bounded(n2);
    let b3 = max_chars - mark_room(n2);
    let s3 = pieces(reply, b3);
    let n3 = s3.len();
    lemma_step(reply, max_chars, n1, b1, b3);
    lemma_marks_bounded(n3);
    let b4 = max_chars - mark_room(n3);
    let n4 = pieces(reply, b4).len();
    lemma_digits_step(n1, n2);
    lemma_digits_step(n1, n3);
    lemma_pieces_more(reply, b2, b1);
    lemma_decimal_monotone(n1, n2);
    lemma_mark_len(n1, n1);
    lemma_mark_len(n2, n2);
    lemma_mark_len(n3, n3);
    if text::decimal(n1).len() == text::decimal(n2).len() {
        assert(b3 == b2);
        assert(n3 == n2);
    } else {
        lemma_pieces_more(reply, b3, b2);
        lemma_decimal_monotone(n2, n3);
        assert(text::decimal(n3).len() == text::decimal(n2).len());
        assert(b4 == b3);
        assert(n4 == n3);
    }
}

proof fn lemma_piece_marks(reply: Seq<char>, max_chars: int, n1: nat)
    requires
        48 <= max_chars < reply.len(),
        n1 == pieces(reply, max_chars - 5).len(),
    ensures
        n1 > 0,
{
    lemma_pieces_count(reply, max_chars - 5);
}

proof fn lemma_marks_bounded(n: nat)
    requires
        0 < n <= 0xffff_ffff_ffff_ffff,
    ensures
        5 <= mark_room(n) <= 43,
{
    lemma_decimal_bound(n);
    lemma_decimal_small(n);
    lemma_mark_len(n, n);
}

/// The number of pieces for a later budget, against that for the first one.
proof fn lemma_step(reply: Seq<char>, max_chars: int, n1: nat, b1: int, b: int)
    requires
        48 <= max_chars < reply.len() <= 0xffff_ffff_ffff_ffff,
        b1 == max_chars - 5,
        max_chars - 43 <= b <= b1,
        n1 == pieces(reply, b1).len(),
    ensures
        n1 <= pieces(reply, b).len() <= 10 * n1,
        0 < pieces(reply, b).len() <= 0xffff_ffff_ffff_ffff,
{
    lemma_pieces_more(reply, b, b1);
    lemma_pieces_tenfold(reply, b, b1);
    lemma_pieces_count(reply, b);
    lemma_pieces_count(reply, b1);
    let n = pieces(reply, b).len() as int;
    assert((n - 1) * b >= n - 1) by (nonlinear_arith)
        requires
            n >= 1,
            b >= 1,
    ;
}

proof fn lemma_digits_step(n1: nat, n: nat)
    requires
        0 < n1 <= n <= 10 * n1,
    ensures
        text::decimal(n1).len() <= text::decimal(n).len() <= text::decimal(n1).len() + 1,
{
    lemma_decimal_monotone(n1, n);
    lemma_decimal_monotone(n, 10 * n1);
    lemma_decimal_times_ten(n1);
}

// ---------------------------------------------------------------------------
// Sending
// ---------------------------------------------------------------------------

/// The parts that are still to be sent after part `failed_idx` failed, with their
/// one-based indices and the total.
pub open spec fn remaining(chunks: Seq<Seq<char>>, failed_idx: int) -> Seq<(int, int, Seq<char>)> {
    Seq::new(
        (chunks.len() - failed_idx) as nat,
        |k: int| (failed_idx + k + 1, chunks.len() as int, chunks[failed_idx + k]),
    )
}

pub open spec fn part_data(parts: Seq<(usize, usize, String)>) -> Seq<(int, int, Seq<char>)> {
    Seq::new(parts.len(), |k: int| (parts[k].0 as int, parts[k].1 as int, parts[k].2@))
}

pub fn remaining_chunks_after_failure(chunks: &[String], failed_idx: usize) -> (r: Vec<
    (usize, usize, String),
>)
    requires
        failed_idx <= chunks@.len(),
    ensures
        part_data(r@) == remaining(text::texts(chunks@), failed_idx as int),
{
    let total: usize = chunks.len();
    let mut out: Vec<(usize, usize, String)> = Vec::new();
    let mut i: usize = failed_idx;
    while i < total
        invariant
            failed_idx <= i <= total,
            total == chunks@.len(),
            out@.len() == i - failed_idx,
            forall|k: int|
                0 <= k < out@.len() ==> part_data(out@)[k] == remaining(
                    text::texts(chunks@),
                    failed_idx as int,
                )[k],
        decreases total - i,
    {
        let ghost before = out@;
        let text = owned(chunks[i].as_str());
        out.push((i + 1, total, text));
        proof {
            assert forall|k: int| 0 <= k < out@.len() implies part_data(out@)[k] == remaining(
                text::texts(chunks@),
                failed_idx as int,
            )[k] by {
                if k < before.len() {
                    assert(part_data(out@)[k] == part_data(before)[k]);
                }
            }
        }
        i = i + 1;
    }
    proof {
        assert(part_data(out@) =~= remaining(text::texts(chunks@), failed_idx as int));
    }
    out
}

/// What was sent and what is kept for later make up all parts, in order.
pub proof fn lemma_no_part_is_lost(chunks: Seq<Seq<char>>, failed_idx: int)
    requires
        0 <= failed_idx <= chunks.len(),
    ensures
        chunks.take(failed_idx) + remaining(chunks, failed_idx).map_values(
            |p: (int, int, Seq<char>)| p.2,
        ) == chunks,
{
    assert(chunks.take(failed_idx) + remaining(chunks, failed_idx).map_values(
        |p: (int, int, Seq<char>)| p.2,
    ) =~= chunks);
}

/// The state of sending the parts of a reply in order. The first failure ends it.
#[derive(Debug, Clone)]
pub struct ReplyDelivery {
    pub chunks: Vec<String>,
    pub sent: usize,
    pub failed: bool,
}

impl ReplyDelivery {
    pub open spec fn wf(&self) -> bool {
        self.sent <= self.chunks@.len() && (self.failed ==> self.sent < self.chunks@.len())
    }

    /// Starts the delivery of a reply.
    pub fn start(reply: &str) -> (r: Self)
        ensures
            r.wf(),
            text::texts(r.chunks@) == reply_chunks(reply@, WECHAT_REPLY_CHUNK_MAX_CHARS as int),
            forall|i: int|
                0 <= i < r.chunks@.len() ==> (#[trigger] r.chunks@[i])@.len()
                    <= WECHAT_REPLY_CHUNK_MAX_CHARS,
            r.sent == 0,
            !r.failed,
    {
        ReplyDelivery {
            chunks: split_reply_into_chunks(reply, WECHAT_REPLY_CHUNK_MAX_CHARS),
            sent: 0,
            failed: false,
        }
    }

    /// The part to send next; none after the last one and after a failure.
    pub fn next_chunk(&self) -> (r: Option<String>)
        requires
            self.wf(),
        ensures
            match r {
                Some(s) => !self.failed && self.sent < self.chunks@.len() && s@
                    == self.chunks@[self.sent as int]@,
                None => self.failed || self.sent == self.chunks@.len(),
            },
    {
        if self.failed || self.sent >= self.chunks.len() {
            None
        } else {
            Some(self.chunks[self.sent].clone())
        }
    }

    /// Takes note of how sending the next part went.
    pub fn report(&mut self, ok: bool)
        requires
            old(self).wf(),
            !old(self).failed,
            old(self).sent < old(self).chunks@.len(),
        ensures
            final(self).wf(),
            final(self).chunks == old(self).chunks,
            final(self).sent == old(self).sent + (if ok {
                1int
            } else {
                0
            }),
            final(self).failed == !ok,
    {
        let total: usize = self.chunks.len();
        if ok && self.sent < total {
            self.sent = self.sent + 1;
        } else {
            self.failed = true;
        }
    }

    pub fn all_sent(&self) -> (r: bool)
        ensures
            r == (!self.failed && self.sent == self.chunks@.len()),
    {
        !self.failed && self.sent == self.chunks.len()
    }

    /// The parts to keep for later: after a failure those that were not sent, else none.
    pub fn unsent(&self) -> (r: Vec<(usize, usize, String)>)
        requires
            self.wf(),
        ensures
            part_data(r@) == (if self.failed {
                remaining(text::texts(self.chunks@), self.sent as int)
            } else {
                Seq::empty()
            }),
    {
        if self.failed {
            remaining_chunks_after_failure(self.chunks.as_slice(), self.sent)
        } else {
            let none: Vec<(usize, usize, String)> = Vec::new();
            proof {
                assert(part_data(none@) =~= Seq::empty());
            }
            none
        }
    }
}

/// Long inputs get a note that they are being processed.
pub fn should_send_processing_ack(user_text: &str) -> (r: bool)
    ensures
        r == (text::trim(user_text@).len() >= PROCESSING_ACK_MIN_INPUT_CHARS),
{
    let core = trimmed(user_text);
    char_count(core.as_str()) >= PROCESSING_ACK_MIN_INPUT_CHARS
}

/// How long to wait for messages: until the next buffer times out, within the limits.
pub fn next_poll_timeout(next_flush: Option<u128>) -> (r: u128)
    ensures
        r == (match next_flush {
            Some(d) => if d < MIN_GET_UPDATES_TIMEOUT {
                MIN_GET_UPDATES_TIMEOUT
            } else if d > DEFAULT_GET_UPDATES_TIMEOUT {
                DEFAULT_GET_UPDATES_TIMEOUT
            } else {
                d
            },
            None => DEFAULT_GET_UPDATES_TIMEOUT,
        }),
{
    match next_flush {
        Some(d) => if d < MIN_GET_UPDATES_TIMEOUT {
            MIN_GET_UPDATES_TIMEOUT
        } else if d > DEFAULT_GET_UPDATES_TIMEOUT {
            DEFAULT_GET_UPDATES_TIMEOUT
        } else {
            d
        },
        None => DEFAULT_GET_UPDATES_TIMEOUT,
    }
}

/// The two kinds of scheduled reports.
#[derive(Debug, Clone, Copy, PartialEq, Eq, Structural)]
pub enum ReportPushKind {
    Daily,
    Weekly,
}

impl ReportPushKind {
    pub fn as_str(self) -> (r: &'static str)
        ensures
            r@ == (match self {
                ReportPushKind::Daily => "daily"@,
                ReportPushKind::Weekly => "weekly"@,
            }),
    {
        match self {
            ReportPushKind::Daily => "daily",
            ReportPushKind::Weekly => "weekly",
        }
    }

    /// The name of the period in logs.
    pub fn period_field(self) -> (r: &'static str)
        ensures
            r@ == (match self {
                ReportPushKind::Daily => "day"@,
                ReportPushKind::Weekly => "week"@,
            }),
    {
        match self {
            ReportPushKind::Daily => "day",
            ReportPushKind::Weekly => "week",
        }
    }
}

/// The parts that are left are the one that failed and all behind it, each with its own text
/// and its place in the whole, counted from one.
pub proof fn lemma_what_is_left(chunks: Seq<Seq<char>>, failed_idx: int, k: int)
    requires
        0 <= failed_idx <= chunks.len(),
        0 <= k < chunks.len() - failed_idx,
    ensures
        ({
            let left = remaining(chunks, failed_idx);
            &&& left.len() == chunks.len() - failed_idx
            &&& 1 <= left[k].0 <= left[k].1
            &&& left[k].1 == chunks.len()
            &&& left[k].2 == chunks[left[k].0 - 1]
            &&& left[0].0 == failed_idx + 1
            &&& left.last().0 == chunks.len()
            &&& k > 0 ==> left[k].0 == left[k - 1].0 + 1
        }),
{
}

/// The mark of a part tells its number and how many there are.
pub proof fn lemma_part_mark(i: nat, n: nat)
    ensures
        part_mark(i, n) == seq!['（'] + text::decimal(i) + seq!['/'] + text::decimal(n) + seq!['）'],
        forall|segments: Seq<Seq<char>>, k: int|
            0 <= k < segments.len() ==> text::starts_with(
                #[trigger] marked(segments)[k],
                part_mark((k + 1) as nat, segments.len()),
            ) && text::ends_with(marked(segments)[k], segments[k]),
{
    reveal_strlit("（");
    reveal_strlit("/");
    reveal_strlit("）");
    assert("（"@ =~= seq!['（']);
    assert("/"@ =~= seq!['/']);
    assert("）"@ =~= seq!['）']);
    assert forall|segments: Seq<Seq<char>>, k: int| 0 <= k < segments.len() implies text::starts_with(
        #[trigger] marked(segments)[k],
        part_mark((k + 1) as nat, segments.len()),
    ) && text::ends_with(marked(segments)[k], segments[k]) by {
        let m = part_mark((k + 1) as nat, segments.len());
        let r = m + segments[k];
        assert(r.subrange(0, m.len() as int) =~= m);
        assert(r.subrange(m.len() as int, r.len() as int) =~= segments[k]);
    }
}

} // verus!
