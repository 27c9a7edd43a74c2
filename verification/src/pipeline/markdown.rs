//! Markdown from fragments of HTML.

use crate::text;
use crate::text::{
    CharClass, blank, cat3, char_count, chars_of, chars_range, find_chars, join_strings, owned,
    parse_unsigned, push_chars, push_chars_range, push_decimal, push_text, replaced, same,
    split_lines, string_of, string_of_range, strip_prefix, to_lower, trimmed, usize_text,
    whitespace,
};
use vstd::prelude::*;

verus! {

/// `char::from_u32`: the character of a code point. Every number up to `0x10FFFF` but for
/// the surrogates is one.
pub assume_specification[ char::from_u32 ](i: u32) -> (r: Option<char>)
    ensures
        match r {
            Some(c) => is_scalar(i as nat) && c as int == i as int,
            None => !is_scalar(i as nat),
        },
;

/// The number of a character.
pub open spec fn is_scalar(n: nat) -> bool {
    n < 0xD800 || (0xE000 <= n && n <= 0x10FFFF)
}

// ---------------------------------------------------------------------------
// Tags
// ---------------------------------------------------------------------------

/// The text outside of tags so far, and whether a tag is open.
pub open spec fn strip_state(s: Seq<char>) -> (Seq<char>, bool)
    decreases s.len(),
{
    if s.len() == 0 {
        (Seq::empty(), false)
    } else {
        let (out, in_tag) = strip_state(s.drop_last());
        let c = s.last();
        if c == '<' {
            (out, true)
        } else if c == '>' {
            (out, false)
        } else if in_tag {
            (out, in_tag)
        } else {
            (out.push(c), in_tag)
        }
    }
}

/// The text without its tags.
pub open spec fn stripped(s: Seq<char>) -> Seq<char> {
    strip_state(s).0
}

pub fn strip_html_tags(text: &str) -> (r: String)
    ensures
        r@ == stripped(text@),
{
    let v = chars_of(text);
    let mut out = String::new();
    let mut in_tag = false;
    let mut i: usize = 0;
    proof {
        assert(v@.take(0) =~= Seq::empty());
        assert(out@ =~= Seq::<char>::empty());
    }
    while i < v.len()
        invariant
            i <= v@.len(),
            strip_state(v@.take(i as int)) == (out@, in_tag),
        decreases v.len() - i,
    {
        proof {
            assert(v@.take(i + 1).drop_last() =~= v@.take(i as int));
        }
        let c = v[i];
        if c == '<' {
            in_tag = true;
        } else if c == '>' {
            in_tag = false;
        } else if !in_tag {
            out.push(c);
        }
        i = i + 1;
    }
    proof {
        assert(v@.take(i as int) =~= v@);
    }
    out
}

/// No angle bracket is left of a text when its tags are stripped.
pub proof fn lemma_stripped_has_no_tags(s: Seq<char>)
    ensures
        forall|i: int|
            0 <= i < stripped(s).len() ==> #[trigger] stripped(s)[i] != '<' && stripped(s)[i] != '>',
    decreases s.len(),
{
    if s.len() > 0 {
        lemma_stripped_has_no_tags(s.drop_last());
        let t = stripped(s.drop_last());
        assert forall|i: int| 0 <= i < stripped(s).len() implies #[trigger] stripped(s)[i] != '<'
            && stripped(s)[i] != '>' by {
            if i < t.len() {
                assert(stripped(s)[i] == t[i]);
            }
        }
    }
}

/// A text without angle brackets is not changed when tags are stripped.
pub proof fn lemma_stripped_plain(s: Seq<char>)
    requires
        forall|i: int| 0 <= i < s.len() ==> #[trigger] s[i] != '<' && s[i] != '>',
    ensures
        stripped(s) == s,
{
    lemma_strip_state_plain(s);
}

proof fn lemma_strip_state_plain(s: Seq<char>)
    requires
        forall|i: int| 0 <= i < s.len() ==> #[trigger] s[i] != '<' && s[i] != '>',
    ensures
        strip_state(s) == (s, false),
    decreases s.len(),
{
    if s.len() > 0 {
        let t = s.drop_last();
        assert forall|i: int| 0 <= i < t.len() implies #[trigger] t[i] != '<' && t[i] != '>' by {
            assert(t[i] == s[i]);
        }
        lemma_strip_state_plain(t);
        assert(t.push(s.last()) =~= s);
    } else {
        assert(s =~= Seq::<char>::empty());
    }
}

// ---------------------------------------------------------------------------
// Entities
// ---------------------------------------------------------------------------

/// An entity that stays as it is written.
pub open spec fn raw_entity(e: Seq<char>) -> Seq<char> {
    "&"@ + e + ";"@
}

/// The character of a numeric entity, or the entity as it is written.
pub open spec fn numeric_entity(e: Seq<char>, n: Option<nat>) -> Seq<char> {
    match n {
        Some(code) if is_scalar(code) => seq![code as char],
        _ => raw_entity(e),
    }
}

/// The text of an entity, given without `&` and `;`.
pub open spec fn entity_text(e: Seq<char>) -> Seq<char> {
    if e == "nbsp"@ {
        " "@
    } else if e == "amp"@ {
        "&"@
    } else if e == "lt"@ {
        "<"@
    } else if e == "gt"@ {
        ">"@
    } else if e == "quot"@ {
        "\""@
    } else if e == "apos"@ || e == "#39"@ {
        "'"@
    } else {
        match text::after_prefix(e, "#x"@) {
            Some(hex) => numeric_entity(e, text::unsigned_value(hex, 16)),
            None => match text::after_prefix(e, "#"@) {
                Some(dec) => numeric_entity(e, text::unsigned_value(dec, 10)),
                None => raw_entity(e),
            },
        }
    }
}

fn numeric_text(entity: &str, code: Option<u32>) -> (r: String)
    ensures
        r@ == numeric_entity(
            entity@,
            match code {
                Some(n) => Some(n as nat),
                None => None,
            },
        ),
{
    if let Some(n) = code {
        if let Some(c) = char::from_u32(n) {
            let mut out = String::new();
            out.push(c);
            proof {
                assert((n as nat) as char == c);
                assert(out@ =~= seq![(n as nat) as char]);
            }
            return out;
        }
    }
    cat3("&", entity, ";")
}

pub fn decode_html_entity(entity: &str) -> (r: String)
    ensures
        r@ == entity_text(entity@),
{
    if same(entity, "nbsp") {
        return owned(" ");
    }
    if same(entity, "amp") {
        return owned("&");
    }
    if same(entity, "lt") {
        return owned("<");
    }
    if same(entity, "gt") {
        return owned(">");
    }
    if same(entity, "quot") {
        return owned("\"");
    }
    if same(entity, "apos") || same(entity, "#39") {
        return owned("'");
    }
    if let Some(hex) = strip_prefix(entity, "#x") {
        return numeric_text(entity, parse_unsigned(hex.as_str(), 16));
    }
    if let Some(dec) = strip_prefix(entity, "#") {
        return numeric_text(entity, parse_unsigned(dec.as_str(), 10));
    }
    cat3("&", entity, ";")
}

/// The text so far and the entity that is open.
pub struct Decoding {
    pub out: Seq<char>,
    pub entity: Option<Seq<char>>,
}

pub open spec fn decode_step(d: Decoding, c: char) -> Decoding {
    if c == '&' {
        Decoding { out: d.out, entity: Some(Seq::empty()) }
    } else {
        match d.entity {
            Some(e) => if c == ';' {
                Decoding { out: d.out + entity_text(e), entity: None }
            } else {
                Decoding { out: d.out, entity: Some(e.push(c)) }
            },
            None => Decoding { out: d.out.push(c), entity: None },
        }
    }
}

pub open spec fn decode_state(s: Seq<char>) -> Decoding
    decreases s.len(),
{
    if s.len() == 0 {
        Decoding { out: Seq::empty(), entity: None }
    } else {
        decode_step(decode_state(s.drop_last()), s.last())
    }
}

/// The text with its entities decoded. An entity that is not closed stays.
pub open spec fn decoded(s: Seq<char>) -> Seq<char> {
    let d = decode_state(s);
    match d.entity {
        Some(e) => d.out + "&"@ + e,
        None => d.out,
    }
}

pub fn decode_entities_in_text(text: &str) -> (r: String)
    ensures
        r@ == decoded(text@),
{
    let v = chars_of(text);
    let mut out = String::new();
    let mut in_entity = false;
    let mut entity = String::new();
    let mut i: usize = 0;
    proof {
        assert(v@.take(0) =~= Seq::empty());
        assert(out@ =~= Seq::<char>::empty());
    }
    while i < v.len()
        invariant
            i <= v@.len(),
            decode_state(v@.take(i as int)).out == out@,
            decode_state(v@.take(i as int)).entity == (if in_entity {
                Some(entity@)
            } else {
                None
            }),
        decreases v.len() - i,
    {
        proof {
            assert(v@.take(i + 1).drop_last() =~= v@.take(i as int));
        }
        let c = v[i];
        if c == '&' {
            in_entity = true;
            entity = String::new();
            proof {
                assert(entity@ =~= Seq::<char>::empty());
            }
        } else if in_entity {
            if c == ';' {
                let t = decode_html_entity(entity.as_str());
                out.append(t.as_str());
                in_entity = false;
            } else {
                entity.push(c);
            }
        } else {
            out.push(c);
        }
        i = i + 1;
    }
    proof {
        assert(v@.take(i as int) =~= v@);
    }
    if in_entity {
        out.append("&");
        out.append(entity.as_str());
    }
    out
}

proof fn lemma_decode_state_plain(s: Seq<char>)
    requires
        forall|i: int| 0 <= i < s.len() ==> #[trigger] s[i] != '&',
    ensures
        decode_state(s).out == s,
        decode_state(s).entity is None,
    decreases s.len(),
{
    if s.len() > 0 {
        let t = s.drop_last();
        assert forall|i: int| 0 <= i < t.len() implies #[trigger] t[i] != '&' by {
            assert(t[i] == s[i]);
        }
        lemma_decode_state_plain(t);
        assert(t.push(s.last()) =~= s);
        assert(s.last() == s[s.len() - 1]);
    } else {
        assert(s =~= Seq::<char>::empty());
    }
}

/// A text without `&` is not changed when entities are decoded.
pub proof fn lemma_decoded_plain(s: Seq<char>)
    requires
        forall|i: int| 0 <= i < s.len() ==> #[trigger] s[i] != '&',
    ensures
        decoded(s) == s,
{
    lemma_decode_state_plain(s);
}

proof fn lemma_open_entity(a: Seq<char>, e: Seq<char>)
    requires
        forall|i: int| 0 <= i < a.len() ==> #[trigger] a[i] != '&',
        forall|i: int| 0 <= i < e.len() ==> #[trigger] e[i] != '&' && e[i] != ';',
    ensures
        decode_state(a.push('&') + e).out == a,
        decode_state(a.push('&') + e).entity == Some(e),
    decreases e.len(),
{
    let s = a.push('&') + e;
    if e.len() == 0 {
        assert(s =~= a.push('&'));
        assert(s.drop_last() =~= a);
        lemma_decode_state_plain(a);
        assert(e =~= Seq::<char>::empty());
    } else {
        let f = e.drop_last();
        assert forall|i: int| 0 <= i < f.len() implies #[trigger] f[i] != '&' && f[i] != ';' by {
            assert(f[i] == e[i]);
        }
        lemma_open_entity(a, f);
        assert(s.drop_last() =~= a.push('&') + f);
        assert(s.last() == e[e.len() - 1]);
        assert(f.push(e.last()) =~= e);
    }
}

/// An entity that is not closed at the end of a text stays as it is written.
pub proof fn lemma_unclosed_entity_stays(a: Seq<char>, e: Seq<char>)
    requires
        forall|i: int| 0 <= i < a.len() ==> #[trigger] a[i] != '&',
        forall|i: int| 0 <= i < e.len() ==> #[trigger] e[i] != '&' && e[i] != ';',
    ensures
        decoded(a.push('&') + e) == a.push('&') + e,
{
    lemma_open_entity(a, e);
    reveal_strlit("&");
    assert(a + "&"@ + e =~= a.push('&') + e);
}

// ---------------------------------------------------------------------------
// Lines
// ---------------------------------------------------------------------------

/// The lines without space around them, and without blank ones.
pub open spec fn kept_lines(ls: Seq<Seq<char>>) -> Seq<Seq<char>>
    decreases ls.len(),
{
    if ls.len() == 0 {
        Seq::empty()
    } else {
        let before = kept_lines(ls.drop_last());
        let last = text::trim(ls.last());
        if last.len() == 0 {
            before
        } else {
            before.push(last)
        }
    }
}

/// The lines of a text without space around them, and without blank ones.
pub fn nonblank_lines(s: &str) -> (r: Vec<String>)
    ensures
        text::texts(r@) == kept_lines(text::lines(s@)),
{
    let all = split_lines(s);
    let ghost ls = text::lines(s@);
    let mut out: Vec<String> = Vec::new();
    let mut i: usize = 0;
    proof {
        assert(text::texts(out@) =~= Seq::<Seq<char>>::empty());
        assert(ls.take(0) =~= Seq::empty());
    }
    while i < all.len()
        invariant
            i <= all@.len(),
            text::texts(all@) == ls,
            text::texts(out@) == kept_lines(ls.take(i as int)),
        decreases all.len() - i,
    {
        proof {
            assert(text::texts(all@).len() == all@.len());
            assert(ls.take(i + 1).drop_last() =~= ls.take(i as int));
            assert(ls[i as int] == all@[i as int]@);
        }
        let t = trimmed(all[i].as_str());
        if char_count(t.as_str()) > 0 {
            push_text(&mut out, t.as_str());
        }
        i = i + 1;
    }
    proof {
        assert(text::texts(all@).len() == all@.len());
        assert(ls.take(i as int) =~= ls);
    }
    out
}

// ---------------------------------------------------------------------------
// The text of a fragment
// ---------------------------------------------------------------------------

/// The text so far, whether a tag is open, and the entity that is open.
pub struct Reading {
    pub out: Seq<char>,
    pub in_tag: bool,
    pub entity: Option<Seq<char>>,
}

pub open spec fn read_step(d: Reading, c: char) -> Reading {
    if d.in_tag {
        if c == '>' {
            Reading { out: d.out.push('\n'), in_tag: false, ..d }
        } else {
            d
        }
    } else {
        match d.entity {
            Some(e) => if c == ';' {
                Reading { out: d.out + entity_text(e), entity: None, ..d }
            } else {
                Reading { entity: Some(e.push(c)), ..d }
            },
            None => if c == '<' {
                Reading { in_tag: true, ..d }
            } else if c == '&' {
                Reading { entity: Some(Seq::empty()), ..d }
            } else {
                Reading { out: d.out.push(c), ..d }
            },
        }
    }
}

pub open spec fn read_state(s: Seq<char>) -> Reading
    decreases s.len(),
{
    if s.len() == 0 {
        Reading { out: Seq::empty(), in_tag: false, entity: None }
    } else {
        read_step(read_state(s.drop_last()), s.last())
    }
}

/// The text of a fragment: tags end lines, entities are decoded, and a blank line stands
/// between lines.
pub open spec fn fragment_text(s: Seq<char>) -> Seq<char> {
    text::join(kept_lines(text::lines(read_state(s).out)), "\n\n"@)
}

pub fn normalize_fragment_text(fragment: &str) -> (r: String)
    ensures
        r@ == fragment_text(fragment@),
{
    let v = chars_of(fragment);
    let mut out = String::new();
    let mut in_tag = false;
    let mut in_entity = false;
    let mut entity = String::new();
    let mut i: usize = 0;
    proof {
        assert(v@.take(0) =~= Seq::empty());
        assert(out@ =~= Seq::<char>::empty());
    }
    while i < v.len()
        invariant
            i <= v@.len(),
            read_state(v@.take(i as int)).out == out@,
            read_state(v@.take(i as int)).in_tag == in_tag,
            read_state(v@.take(i as int)).entity == (if in_entity {
                Some(entity@)
            } else {
                None
            }),
        decreases v.len() - i,
    {
        proof {
            assert(v@.take(i + 1).drop_last() =~= v@.take(i as int));
        }
        let c = v[i];
        if in_tag {
            if c == '>' {
                in_tag = false;
                out.push('\n');
            }
        } else if in_entity {
            if c == ';' {
                let t = decode_html_entity(entity.as_str());
                out.append(t.as_str());
                in_entity = false;
            } else {
                entity.push(c);
            }
        } else if c == '<' {
            in_tag = true;
        } else if c == '&' {
            in_entity = true;
            entity = String::new();
            proof {
                assert(entity@ =~= Seq::<char>::empty());
            }
        } else {
            out.push(c);
        }
        i = i + 1;
    }
    proof {
        assert(v@.take(i as int) =~= v@);
    }
    let kept = nonblank_lines(out.as_str());
    join_strings(kept.as_slice(), "\n\n")
}

// ---------------------------------------------------------------------------
// Code blocks
// ---------------------------------------------------------------------------

/// The code in a `<pre>` element: every `<code>` ends a line; tags, space around lines
/// and blank lines are left out.
pub open spec fn code_text(inner: Seq<char>) -> Seq<char> {
    text::join(kept_lines(text::lines(decoded(stripped(text::replace(inner, "</code>"@, "\n"@))))), "\n"@)
}

pub open spec fn code_fence(code: Seq<char>) -> Seq<char> {
    "\n\n```\n"@ + code + "\n```\n\n"@
}

/// What stands for code block `k` while the rest is read.
pub open spec fn code_mark(nonce: Seq<char>, k: nat) -> Seq<char> {
    "__AMCLAW_CODE_"@ + nonce + "_"@ + text::decimal(k) + "__"@
}

pub fn code_of(inner: &str) -> (r: String)
    ensures
        r@ == code_text(inner@),
{
    proof {
        reveal_strlit("</code>");
    }
    let broken = replaced(inner, "</code>", "\n");
    let plain = strip_html_tags(broken.as_str());
    let text = decode_entities_in_text(plain.as_str());
    let kept = nonblank_lines(text.as_str());
    join_strings(kept.as_slice(), "\n")
}

fn mark_text(nonce: &str, k: usize) -> (r: String)
    ensures
        r@ == code_mark(nonce@, k as nat),
{
    let n = usize_text(k);
    let start = cat3("__AMCLAW_CODE_", nonce, "_");
    cat3(start.as_str(), n.as_str(), "__")
}

/// A `<pre` at `start` opens an element.
pub open spec fn opens_pre(f: Seq<char>, start: int) -> bool {
    start + 4 < f.len() && (f[start + 4] == '>' || text::is_whitespace(f[start + 4]))
}

/// The fragment from `cursor` on with its code blocks taken out, and these blocks. The
/// first one has number `k`.
pub open spec fn pre_from(f: Seq<char>, cursor: int, nonce: Seq<char>, k: nat) -> (
    Seq<char>,
    Seq<Seq<char>>,
)
    decreases f.len() - cursor,
{
    match text::find_from(text::lower(f), "<pre"@, cursor) {
        None => (f.skip(cursor), Seq::empty()),
        Some(start) => if cursor < 0 || start < cursor || start + 4 > f.len() {
            (f.skip(cursor), Seq::empty())
        } else if !opens_pre(f, start) {
            let rest = pre_from(f, start + 4, nonce, k);
            (f.subrange(cursor, start + 4) + rest.0, rest.1)
        } else {
            match text::find_from(f, ">"@, start) {
                None => (f.skip(cursor), Seq::empty()),
                Some(tag_end) => match text::find_from(text::lower(f), "</pre>"@, tag_end + 1) {
                    None => (f.skip(cursor), Seq::empty()),
                    Some(close) => if close + 6 <= start || close + 6 > f.len() {
                        (f.skip(cursor), Seq::empty())
                    } else {
                        let code = code_text(f.subrange(tag_end + 1, close));
                        if code.len() == 0 {
                            let rest = pre_from(f, close + 6, nonce, k);
                            (f.subrange(cursor, start) + rest.0, rest.1)
                        } else {
                            let rest = pre_from(f, close + 6, nonce, k + 1);
                            (
                                f.subrange(cursor, start) + code_mark(nonce, k) + rest.0,
                                seq![code_fence(code)] + rest.1,
                            )
                        }
                    },
                },
            }
        },
    }
}

/// The code blocks that were taken out of a fragment, and the text that their marks have
/// in common.
#[derive(Debug, Clone, PartialEq, Eq)]
pub struct CodeBlocks {
    pub nonce: String,
    pub blocks: Vec<String>,
}

/// Takes the code blocks out of a fragment and leaves marks in their places.
pub fn replace_pre_blocks_with(fragment: &str, nonce: &str) -> (r: (String, CodeBlocks))
    ensures
        r.0@ == pre_from(fragment@, 0, nonce@, 0).0,
        text::texts(r.1.blocks@) == pre_from(fragment@, 0, nonce@, 0).1,
        r.1.nonce@ == nonce@,
{
    let f = chars_of(fragment);
    let lowered = to_lower(fragment);
    let low = chars_of(lowered.as_str());
    let open = chars_of("<pre");
    let gt = chars_of(">");
    let close_tag = chars_of("</pre>");
    let ghost goal = pre_from(fragment@, 0, nonce@, 0);
    let mut out: Vec<char> = Vec::new();
    let mut blocks: Vec<String> = Vec::new();
    let mut cursor: usize = 0;
    let mut done = false;
    proof {
        reveal_strlit("<pre");
        reveal_strlit(">");
        reveal_strlit("</pre>");
        assert(text::texts(blocks@) =~= Seq::<Seq<char>>::empty());
        assert(goal.0 =~= out@ + pre_from(f@, 0, nonce@, 0).0);
        assert(goal.1 =~= text::texts(blocks@) + pre_from(f@, 0, nonce@, 0).1);
    }
    while !done
        invariant
            f@ == fragment@,
            low@ == text::lower(f@),
            low@.len() == f@.len(),
            open@ == "<pre"@,
            open@.len() == 4,
            gt@ == ">"@,
            gt@.len() == 1,
            close_tag@ == "</pre>"@,
            close_tag@.len() == 6,
            cursor <= f@.len(),
            text::texts(blocks@).len() == blocks@.len(),
            if done {
                goal == (out@, text::texts(blocks@))
            } else {
                goal.0 == out@ + pre_from(f@, cursor as int, nonce@, blocks@.len()).0 && goal.1
                    == text::texts(blocks@) + pre_from(f@, cursor as int, nonce@, blocks@.len()).1
            },
        decreases f.len() - cursor, if done { 0int } else { 1 },
    {
        let ghost before = out@;
        let ghost k = blocks@.len();
        let ghost here = pre_from(f@, cursor as int, nonce@, k);
        proof {
            text::lemma_find_from(low@, "<pre"@, cursor as int);
        }
        match find_chars(&low, &open, cursor) {
            None => {
                push_chars_range(&mut out, &f, cursor, f.len());
                proof {
                    assert(f@.subrange(cursor as int, f@.len() as int) =~= f@.skip(cursor as int));
                    assert(goal.1 =~= text::texts(blocks@));
                    assert(goal.0 =~= out@);
                }
                done = true;
            },
            Some(start) => {
                let opens = start + 4 < f.len() && (f[start + 4] == '>' || whitespace(f[start + 4]));
                if !opens {
                    push_chars_range(&mut out, &f, cursor, start + 4);
                    proof {
                        let rest = pre_from(f@, start + 4, nonce@, k);
                        assert(here.0 =~= f@.subrange(cursor as int, start + 4) + rest.0);
                        assert(goal.0 =~= out@ + rest.0);
                    }
                    cursor = start + 4;
                } else {
                    proof {
                        text::lemma_find_from(f@, ">"@, start as int);
                    }
                    let tag_end = find_chars(&f, &gt, start);
                    let close = match tag_end {
                        Some(e) => {
                            proof {
                                text::lemma_find_from(low@, "</pre>"@, e + 1);
                            }
                            find_chars(&low, &close_tag, e + 1)
                        },
                        None => None,
                    };
                    match (tag_end, close) {
                        (Some(e), Some(c)) => {
                            push_chars_range(&mut out, &f, cursor, start);
                            let inner = string_of_range(&f, e + 1, c);
                            let code = code_of(inner.as_str());
                            if char_count(code.as_str()) == 0 {
                                proof {
                                    let rest = pre_from(f@, c + 6, nonce@, k);
                                    assert(here.0 =~= f@.subrange(cursor as int, start as int) + rest.0);
                                    assert(goal.0 =~= out@ + rest.0);
                                }
                            } else {
                                let mark = mark_text(nonce, blocks.len());
                                let mark_chars = chars_of(mark.as_str());
                                push_chars(&mut out, &mark_chars);
                                let fence = cat3("\n\n```\n", code.as_str(), "\n```\n\n");
                                let ghost old_blocks = text::texts(blocks@);
                                push_text(&mut blocks, fence.as_str());
                                proof {
                                    let rest = pre_from(f@, c + 6, nonce@, k + 1);
                                    assert(here.0 =~= f@.subrange(cursor as int, start as int)
                                        + code_mark(nonce@, k) + rest.0);
                                    assert(here.1 =~= seq![code_fence(code@)] + rest.1);
                                    assert(goal.0 =~= out@ + rest.0);
                                    assert(text::texts(blocks@) =~= old_blocks.push(code_fence(code@)));
                                    assert(goal.1 =~= text::texts(blocks@) + rest.1);
                                    assert(text::texts(blocks@).len() == blocks@.len());
                                }
                            }
                            cursor = c + 6;
                        },
                        _ => {
                            push_chars_range(&mut out, &f, cursor, f.len());
                            proof {
                                assert(f@.subrange(cursor as int, f@.len() as int) =~= f@.skip(
                                    cursor as int,
                                ));
                                assert(goal.1 =~= text::texts(blocks@));
                                assert(goal.0 =~= out@);
                            }
                            done = true;
                        },
                    }
                }
            },
        }
    }
    (string_of(&out), CodeBlocks { nonce: owned(nonce), blocks })
}

/// The text with the first `n` code blocks back in the places of their marks.
pub open spec fn restored_code(s: Seq<char>, blocks: Seq<Seq<char>>, nonce: Seq<char>, n: nat) -> Seq<char>
    decreases n,
{
    if n == 0 {
        s
    } else {
        text::replace(
            restored_code(s, blocks, nonce, (n - 1) as nat),
            code_mark(nonce, (n - 1) as nat),
            blocks[n - 1],
        )
    }
}

/// Puts the code blocks back in the places of their marks.
pub fn restore_code_placeholders(text: &str, blocks: &CodeBlocks) -> (r: String)
    ensures
        r@ == restored_code(text@, text::texts(blocks.blocks@), blocks.nonce@, blocks.blocks@.len()),
{
    let mut out = owned(text);
    let mut i: usize = 0;
    while i < blocks.blocks.len()
        invariant
            i <= blocks.blocks@.len(),
            out@ == restored_code(text@, text::texts(blocks.blocks@), blocks.nonce@, i as nat),
        decreases blocks.blocks.len() - i,
    {
        let mark = mark_text(blocks.nonce.as_str(), i);
        proof {
            reveal_strlit("__AMCLAW_CODE_");
            assert(mark@.len() > 0);
        }
        out = replaced(out.as_str(), mark.as_str(), blocks.blocks[i].as_str());
        i = i + 1;
    }
    out
}

/// The parts of a text with something in each gap between two of them.
pub open spec fn with_gaps(parts: Seq<Seq<char>>, gaps: Seq<Seq<char>>) -> Seq<char>
    decreases gaps.len(),
{
    if gaps.len() == 0 {
        parts[0]
    } else {
        with_gaps(parts.drop_last(), gaps.drop_last()) + gaps.last() + parts.last()
    }
}

/// The marks of the first `n` code blocks.
pub open spec fn marks(nonce: Seq<char>, n: nat) -> Seq<Seq<char>> {
    Seq::new(n, |i: int| code_mark(nonce, i as nat))
}

/// The first `k` blocks, and behind them the marks of the others.
pub open spec fn partly_restored(blocks: Seq<Seq<char>>, nonce: Seq<char>, k: int) -> Seq<Seq<char>> {
    Seq::new(
        blocks.len(),
        |i: int|
            if i < k {
                blocks[i]
            } else {
                code_mark(nonce, i as nat)
            },
    )
}

proof fn lemma_gaps_apart(parts: Seq<Seq<char>>, gaps: Seq<Seq<char>>, k: int)
    requires
        0 <= k < gaps.len(),
        parts.len() == gaps.len() + 1,
    ensures
        with_gaps(parts, gaps) == with_gaps(parts.take(k + 1), gaps.take(k)) + gaps[k] + with_gaps(
            parts.skip(k + 1),
            gaps.skip(k + 1),
        ),
    decreases gaps.len(),
{
    let n = gaps.len() as int;
    if k == n - 1 {
        assert(parts.take(k + 1) =~= parts.drop_last());
        assert(gaps.take(k) =~= gaps.drop_last());
        assert(parts.skip(k + 1)[0] == parts.last());
        assert(gaps.skip(k + 1).len() == 0);
    } else {
        let p = parts.drop_last();
        let g = gaps.drop_last();
        lemma_gaps_apart(p, g, k);
        assert(p.take(k + 1) =~= parts.take(k + 1));
        assert(g.take(k) =~= gaps.take(k));
        assert(p.skip(k + 1) =~= parts.skip(k + 1).drop_last());
        assert(g.skip(k + 1) =~= gaps.skip(k + 1).drop_last());
        let a = with_gaps(parts.take(k + 1), gaps.take(k));
        let b = with_gaps(p.skip(k + 1), g.skip(k + 1));
        assert(a + gaps[k] + b + gaps.last() + parts.last() =~= a + gaps[k] + (b + gaps.last()
            + parts.last()));
    }
}

proof fn lemma_mark_is_not_empty(nonce: Seq<char>, k: nat)
    ensures
        code_mark(nonce, k).len() > 0,
{
    reveal_strlit("__AMCLAW_CODE_");
}

/// Code blocks come back in their own places. In a text whose parts stand around the marks of
/// the blocks, each mark is replaced by its own block and the parts stay as they are. Whenever
/// it is the turn of a block, its mark may stand nowhere else.
pub proof fn lemma_blocks_come_back(
    parts: Seq<Seq<char>>,
    blocks: Seq<Seq<char>>,
    nonce: Seq<char>,
)
    requires
        parts.len() == blocks.len() + 1,
        forall|k: int, p: int|
            0 <= k < blocks.len() && #[trigger] text::occurs_at(
                with_gaps(parts, partly_restored(blocks, nonce, k)),
                code_mark(nonce, k as nat),
                p,
            ) ==> p == with_gaps(parts.take(k + 1), blocks.take(k)).len(),
    ensures
        restored_code(with_gaps(parts, marks(nonce, blocks.len())), blocks, nonce, blocks.len())
            == with_gaps(parts, blocks),
{
    let n = blocks.len();
    assert(partly_restored(blocks, nonce, 0) =~= marks(nonce, n));
    assert(partly_restored(blocks, nonce, n as int) =~= blocks);
    lemma_restored_so_far(parts, blocks, nonce, n);
}

proof fn lemma_restored_so_far(
    parts: Seq<Seq<char>>,
    blocks: Seq<Seq<char>>,
    nonce: Seq<char>,
    n: nat,
)
    requires
        parts.len() == blocks.len() + 1,
        n <= blocks.len(),
        forall|k: int, p: int|
            0 <= k < blocks.len() && #[trigger] text::occurs_at(
                with_gaps(parts, partly_restored(blocks, nonce, k)),
                code_mark(nonce, k as nat),
                p,
            ) ==> p == with_gaps(parts.take(k + 1), blocks.take(k)).len(),
    ensures
        restored_code(with_gaps(parts, partly_restored(blocks, nonce, 0)), blocks, nonce, n)
            == with_gaps(parts, partly_restored(blocks, nonce, n as int)),
    decreases n,
{
    if n > 0 {
        let k = n - 1;
        lemma_restored_so_far(parts, blocks, nonce, k as nat);
        let mark = code_mark(nonce, k as nat);
        let before = partly_restored(blocks, nonce, k);
        let after = partly_restored(blocks, nonce, n as int);
        lemma_mark_is_not_empty(nonce, k as nat);
        lemma_gaps_apart(parts, before, k);
        lemma_gaps_apart(parts, after, k);
        assert(before.take(k) =~= blocks.take(k));
        assert(after.take(k) =~= blocks.take(k));
        assert(before.skip(k + 1) =~= after.skip(k + 1));
        let a = with_gaps(parts.take(k + 1), blocks.take(k));
        let b = with_gaps(parts.skip(k + 1), before.skip(k + 1));
        let s = with_gaps(parts, before);
        assert(s == a + mark + b);
        assert forall|p: int| 0 <= p < a.len() implies !#[trigger] text::occurs_at(s, mark, p) by {
            if text::occurs_at(s, mark, p) {
                assert(p == a.len());
            }
        }
        text::lemma_replace_first(a, mark, b, blocks[k]);
        if text::contains(b, mark) {
            let p = choose|p: int| text::occurs_at(b, mark, p);
            let at = (a.len() + mark.len()) as int;
            assert(s.skip(at) =~= b);
            text::lemma_occurs_shift(s, mark, at, p);
            assert(text::occurs_at(s, mark, at + p));
            assert(false);
        }
        text::lemma_replace_none(b, mark, blocks[k]);
    }
}

proof fn lemma_mark_is_one_line(nonce: Seq<char>, k: nat)
    requires
        !nonce.contains('\n'),
    ensures
        code_mark(nonce, k).len() > 0,
        !code_mark(nonce, k).contains('\n'),
{
    reveal_strlit("__AMCLAW_CODE_");
    reveal_strlit("_");
    reveal_strlit("__");
    text::lemma_decimal_is_digits(k);
    let m = code_mark(nonce, k);
    if m.contains('\n') {
        let i = choose|i: int| 0 <= i < m.len() && m[i] == '\n';
        let a = "__AMCLAW_CODE_"@.len();
        let b = a + nonce.len();
        if i < a {
            assert(m[i] == "__AMCLAW_CODE_"@[i]);
        } else if i < b {
            assert(m[i] == nonce[i - a]);
            assert(nonce.contains('\n'));
        } else if i < b + 1 {
            assert(m[i] == '_');
        } else if i < b + 1 + text::decimal(k).len() {
            assert(m[i] == text::decimal(k)[i - b - 1]);
        } else {
            assert(m[i] == '_');
        }
    }
}

/// What is written on one line does not reach over the end of a line.
proof fn lemma_line_end_parts(a: Seq<char>, b: Seq<char>, m: Seq<char>)
    requires
        m.len() > 0,
        !m.contains('\n'),
        (a.len() > 0 && a.last() == '\n') || (b.len() > 0 && b[0] == '\n') || a.len() == 0,
        !text::contains(a, m),
        !text::contains(b, m),
    ensures
        !text::contains(a + b, m),
{
    let s = a + b;
    if text::contains(s, m) {
        let p = choose|p: int| text::occurs_at(s, m, p);
        let n = a.len() as int;
        if p + m.len() <= n {
            assert(a.subrange(p, p + m.len()) =~= s.subrange(p, p + m.len()));
            assert(text::occurs_at(a, m, p));
        } else if p >= n {
            assert(s.skip(n) =~= b);
            text::lemma_occurs_shift(s, m, n, p - n);
        } else if a.last() == '\n' {
            assert(s.subrange(p, p + m.len())[n - 1 - p] == '\n');
            assert(m[n - 1 - p] == '\n');
        } else {
            assert(s.subrange(p, p + m.len())[n - p] == '\n');
            assert(m[n - p] == '\n');
        }
    }
}

/// A block that begins and ends with the end of a line, as code in a fence does.
pub open spec fn fenced(block: Seq<char>) -> bool {
    block.len() > 0 && block[0] == '\n' && block.last() == '\n'
}

proof fn lemma_no_mark_before(
    parts: Seq<Seq<char>>,
    blocks: Seq<Seq<char>>,
    m: Seq<char>,
    j: int,
)
    requires
        0 <= j <= blocks.len(),
        parts.len() == blocks.len() + 1,
        m.len() > 0,
        !m.contains('\n'),
        forall|i: int| 0 <= i < j ==> fenced(#[trigger] blocks[i]),
        forall|i: int| 0 <= i < j ==> !text::contains(#[trigger] blocks[i], m),
        forall|i: int| 0 <= i <= j ==> !text::contains(#[trigger] parts[i], m),
    ensures
        !text::contains(with_gaps(parts.take(j + 1), blocks.take(j)), m),
    decreases j,
{
    if j == 0 {
        assert(parts.take(1)[0] == parts[0]);
    } else {
        lemma_no_mark_before(parts, blocks, m, j - 1);
        assert(parts.take(j + 1).drop_last() =~= parts.take(j));
        assert(blocks.take(j).drop_last() =~= blocks.take(j - 1));
        let a = with_gaps(parts.take(j), blocks.take(j - 1));
        assert(fenced(blocks[j - 1]));
        lemma_line_end_parts(a, blocks[j - 1], m);
        lemma_line_end_parts(a + blocks[j - 1], parts[j], m);
    }
}

/// Code in fences comes back in its own places. Where each mark stands once in the text, and
/// no block holds one, every mark is replaced by its own block and the parts around the marks
/// stay as they are.
pub proof fn lemma_fenced_code_comes_back(
    parts: Seq<Seq<char>>,
    blocks: Seq<Seq<char>>,
    nonce: Seq<char>,
)
    requires
        parts.len() == blocks.len() + 1,
        !nonce.contains('\n'),
        forall|i: int| 0 <= i < blocks.len() ==> fenced(#[trigger] blocks[i]),
        forall|i: int, k: int|
            0 <= i < blocks.len() && 0 <= k < blocks.len() ==> !#[trigger] text::contains(
                blocks[i],
                code_mark(nonce, k as nat),
            ),
        forall|k: int, p: int|
            0 <= k < blocks.len() && #[trigger] text::occurs_at(
                with_gaps(parts, marks(nonce, blocks.len())),
                code_mark(nonce, k as nat),
                p,
            ) ==> p == with_gaps(parts.take(k + 1), marks(nonce, k as nat)).len(),
    ensures
        restored_code(with_gaps(parts, marks(nonce, blocks.len())), blocks, nonce, blocks.len())
            == with_gaps(parts, blocks),
{
    assert forall|k: int, p: int|
        0 <= k < blocks.len() && #[trigger] text::occurs_at(
            with_gaps(parts, partly_restored(blocks, nonce, k)),
            code_mark(nonce, k as nat),
            p,
        ) implies p == with_gaps(parts.take(k + 1), blocks.take(k)).len() by {
        lemma_mark_stands_once(parts, blocks, nonce, k, p);
    }
    lemma_blocks_come_back(parts, blocks, nonce);
}

proof fn lemma_mark_stands_once(
    parts: Seq<Seq<char>>,
    blocks: Seq<Seq<char>>,
    nonce: Seq<char>,
    k: int,
    p: int,
)
    requires
        parts.len() == blocks.len() + 1,
        !nonce.contains('\n'),
        0 <= k < blocks.len(),
        forall|i: int| 0 <= i < blocks.len() ==> fenced(#[trigger] blocks[i]),
        forall|i: int|
            0 <= i < blocks.len() ==> !text::contains(
                #[trigger] blocks[i],
                code_mark(nonce, k as nat),
            ),
        forall|q: int| #[trigger]
            text::occurs_at(
                with_gaps(parts, marks(nonce, blocks.len())),
                code_mark(nonce, k as nat),
                q,
            ) ==> q == with_gaps(parts.take(k + 1), marks(nonce, k as nat)).len(),
        text::occurs_at(
            with_gaps(parts, partly_restored(blocks, nonce, k)),
            code_mark(nonce, k as nat),
            p,
        ),
    ensures
        p == with_gaps(parts.take(k + 1), blocks.take(k)).len(),
{
    let n = blocks.len();
    let m = code_mark(nonce, k as nat);
    let ms = marks(nonce, n);
    let gaps = partly_restored(blocks, nonce, k);
    let s = with_gaps(parts, gaps);
    let o = with_gaps(parts, ms);
    lemma_mark_is_one_line(nonce, k as nat);
    lemma_gaps_apart(parts, gaps, k);
    lemma_gaps_apart(parts, ms, k);
    assert(gaps.take(k) =~= blocks.take(k));
    assert(ms.take(k) =~= marks(nonce, k as nat));
    assert(gaps.skip(k + 1) =~= ms.skip(k + 1));
    let a = with_gaps(parts.take(k + 1), blocks.take(k));
    let a0 = with_gaps(parts.take(k + 1), ms.take(k));
    let b = with_gaps(parts.skip(k + 1), ms.skip(k + 1));
    assert(s == a + m + b);
    assert(o == a0 + m + b);
    // The part before mark k, which both texts have in common.
    let part = parts[k];
    let h: Seq<char> = if k == 0 {
        Seq::empty()
    } else {
        with_gaps(parts.take(k), blocks.take(k - 1)) + blocks[k - 1]
    };
    let h0: Seq<char> = if k == 0 {
        Seq::empty()
    } else {
        with_gaps(parts.take(k), ms.take(k - 1)) + ms[k - 1]
    };
    if k > 0 {
        assert(parts.take(k + 1).drop_last() =~= parts.take(k));
        assert(blocks.take(k).drop_last() =~= blocks.take(k - 1));
        assert(ms.take(k).drop_last() =~= ms.take(k - 1));
    } else {
        assert(parts.take(1)[0] == part);
    }
    assert(a =~= h + part);
    assert(a0 =~= h0 + part);
    assert forall|i: int| 0 <= i <= k implies !text::contains(#[trigger] parts[i], m) by {
        if text::contains(parts[i], m) {
            let q = choose|q: int| text::occurs_at(parts[i], m, q);
            lemma_part_place(parts, ms, i);
            let at = if i == 0 {
                0int
            } else {
                (with_gaps(parts.take(i), ms.take(i - 1)) + ms[i - 1]).len() as int
            };
            assert(o.subrange(at, at + parts[i].len()) == parts[i]);
            assert(o.subrange(at + q, at + q + m.len()) =~= parts[i].subrange(q, q + m.len()));
            assert(text::occurs_at(o, m, at + q));
            assert(at + q == a0.len());
            lemma_gap_lens(parts, ms, i, k);
        }
    }
    let r = part + m + b;
    assert(s =~= h + r);
    assert(o =~= h0 + r);
    if p >= h.len() {
        assert(s.skip(h.len() as int) =~= r);
        assert(o.skip(h0.len() as int) =~= r);
        text::lemma_occurs_shift(s, m, h.len() as int, p - h.len());
        text::lemma_occurs_shift(o, m, h0.len() as int, p - h.len());
        assert(text::occurs_at(o, m, h0.len() + (p - h.len())));
    } else {
        assert(fenced(blocks[k - 1]));
        assert(h.last() == '\n');
        if p + m.len() <= h.len() {
            lemma_no_mark_before(parts, blocks, m, k - 1);
            lemma_line_end_parts(with_gaps(parts.take(k), blocks.take(k - 1)), blocks[k - 1], m);
            assert(h.subrange(p, p + m.len()) =~= s.subrange(p, p + m.len()));
            assert(text::occurs_at(h, m, p));
        } else {
            assert(s.subrange(p, p + m.len())[h.len() - 1 - p] == '\n');
            assert(m[h.len() - 1 - p] == '\n');
        }
        assert(false);
    }
}

proof fn lemma_part_place(parts: Seq<Seq<char>>, gaps: Seq<Seq<char>>, i: int)
    requires
        parts.len() == gaps.len() + 1,
        0 <= i <= gaps.len(),
    ensures
        ({
            let s = with_gaps(parts, gaps);
            let at = if i == 0 {
                0int
            } else {
                (with_gaps(parts.take(i), gaps.take(i - 1)) + gaps[i - 1]).len() as int
            };
            &&& at + parts[i].len() <= s.len()
            &&& s.subrange(at, at + parts[i].len()) == parts[i]
        }),
    decreases gaps.len(),
{
    let s = with_gaps(parts, gaps);
    let n = gaps.len() as int;
    let at = if i == 0 {
        0int
    } else {
        (with_gaps(parts.take(i), gaps.take(i - 1)) + gaps[i - 1]).len() as int
    };
    if n == 0 {
        assert(s.subrange(at, at + parts[i].len()) =~= parts[i]);
    } else if i == n {
        assert(parts.take(i) =~= parts.drop_last());
        assert(gaps.take(i - 1) =~= gaps.drop_last());
        assert(s.subrange(at, at + parts[i].len()) =~= parts[i]);
    } else {
        let ps = parts.drop_last();
        let gs = gaps.drop_last();
        lemma_part_place(ps, gs, i);
        if i > 0 {
            assert(ps.take(i) =~= parts.take(i));
            assert(gs.take(i - 1) =~= gaps.take(i - 1));
        }
        let t = with_gaps(ps, gs);
        assert(s.subrange(at, at + parts[i].len()) =~= t.subrange(at, at + parts[i].len()));
    }
}

proof fn lemma_gap_lens(parts: Seq<Seq<char>>, gaps: Seq<Seq<char>>, i: int, k: int)
    requires
        parts.len() == gaps.len() + 1,
        0 <= i <= k < gaps.len(),
    ensures
        (if i == 0 {
            0int
        } else {
            (with_gaps(parts.take(i), gaps.take(i - 1)) + gaps[i - 1]).len() as int
        }) + parts[i].len() <= with_gaps(parts.take(k + 1), gaps.take(k)).len(),
    decreases k,
{
    lemma_part_place(parts.take(k + 1), gaps.take(k), i);
    if i > 0 {
        assert(parts.take(k + 1).take(i) =~= parts.take(i));
        assert(gaps.take(k).take(i - 1) =~= gaps.take(i - 1));
    }
}

/// What stands for a code element is a block in a fence, which begins and ends a line.
pub proof fn lemma_fence_is_fenced(code: Seq<char>)
    ensures
        fenced(code_fence(code)),
        text::contains(code_fence(code), "\n```\n"@ + code + "\n```\n"@),
{
    reveal_strlit("\n\n```\n");
    reveal_strlit("\n```\n\n");
    reveal_strlit("\n```\n");
    let f = code_fence(code);
    let c = "\n```\n"@ + code + "\n```\n"@;
    assert(f.subrange(1, 1 + c.len() as int) =~= c);
    assert(text::occurs_at(f, c, 1));
}

// ---------------------------------------------------------------------------
// Links and images
// ---------------------------------------------------------------------------

/// The value behind `attr=` in one kind of quotes.
pub open spec fn quoted_value(tag: Seq<char>, attr: Seq<char>, quote: Seq<char>) -> Option<Seq<char>> {
    match text::find(tag, attr + "="@ + quote) {
        None => None,
        Some(at) => {
            let start = at + attr.len() + 1 + quote.len();
            match text::find_from(tag, quote, start) {
                None => None,
                Some(end) => Some(tag.subrange(start, end)),
            }
        },
    }
}

/// The value of an attribute of a tag.
pub open spec fn attribute(tag: Seq<char>, attr: Seq<char>) -> Option<Seq<char>> {
    match quoted_value(tag, attr, "\""@) {
        Some(v) => Some(v),
        None => quoted_value(tag, attr, "'"@),
    }
}

fn quoted_attribute(tag: &Vec<char>, attr: &str, quote: &str) -> (r: Option<String>)
    requires
        quote@.len() == 1,
    ensures
        text::opt_text(r) == quoted_value(tag@, attr@, quote@),
{
    let pattern = cat3(attr, "=", quote);
    let p = chars_of(pattern.as_str());
    let q = chars_of(quote);
    proof {
        reveal_strlit("=");
        text::lemma_find_from(tag@, p@, 0);
    }
    match find_chars(tag, &p, 0) {
        None => None,
        Some(at) => {
            let total: usize = tag.len();
            proof {
                assert(text::occurs_at(tag@, p@, at as int));
                assert(at + p@.len() <= total);
            }
            let start: usize = at + p.len();
            proof {
                text::lemma_find_from(tag@, q@, start as int);
            }
            match find_chars(tag, &q, start) {
                None => None,
                Some(end) => Some(string_of_range(tag, start, end)),
            }
        },
    }
}

fn extract_attribute_value(tag: &Vec<char>, attr: &str) -> (r: Option<String>)
    ensures
        text::opt_text(r) == attribute(tag@, attr@),
{
    proof {
        reveal_strlit("\"");
        reveal_strlit("'");
    }
    match quoted_attribute(tag, attr, "\"") {
        Some(v) => Some(v),
        None => quoted_attribute(tag, attr, "'"),
    }
}

/// What stands for a link: its text with the address behind it. Without an address the
/// element stays as it is inside.
pub open spec fn anchor_text(tag: Seq<char>, inner: Seq<char>) -> Seq<char> {
    match attribute(tag, "href"@) {
        Some(href) if !text::is_blank(href) => if fragment_text(inner).len() == 0 {
            "\n\n"@ + href + "\n\n"@
        } else {
            "\n\n"@ + fragment_text(inner) + " ("@ + href + ")\n\n"@
        },
        _ => inner,
    }
}

/// The fragment from `cursor` on with its links written out.
pub open spec fn anchors_from(f: Seq<char>, cursor: int) -> Seq<char>
    decreases f.len() - cursor,
{
    match text::find_from(f, "<a"@, cursor) {
        None => f.skip(cursor),
        Some(start) => match text::find_from(f, ">"@, start) {
            None => f.skip(cursor),
            Some(tag_end) => match text::find_from(f, "</a>"@, tag_end + 1) {
                None => f.skip(cursor),
                Some(close) => if close + 4 <= cursor || close + 4 > f.len() {
                    f.skip(cursor)
                } else {
                    f.subrange(cursor, start) + anchor_text(
                        f.subrange(start, tag_end + 1),
                        f.subrange(tag_end + 1, close),
                    ) + anchors_from(f, close + 4)
                },
            },
        },
    }
}

fn anchor_string(tag: &Vec<char>, inner: &str) -> (r: String)
    ensures
        r@ == anchor_text(tag@, inner@),
{
    if let Some(href) = extract_attribute_value(tag, "href") {
        if !blank(href.as_str()) {
            let text = normalize_fragment_text(inner);
            if char_count(text.as_str()) == 0 {
                return cat3("\n\n", href.as_str(), "\n\n");
            }
            let start = cat3("\n\n", text.as_str(), " (");
            return cat3(start.as_str(), href.as_str(), ")\n\n");
        }
    }
    owned(inner)
}

pub fn replace_anchor_blocks(fragment: &str) -> (r: String)
    ensures
        r@ == anchors_from(fragment@, 0),
{
    let f = chars_of(fragment);
    let open = chars_of("<a");
    let gt = chars_of(">");
    let close_tag = chars_of("</a>");
    let ghost goal = anchors_from(f@, 0);
    let mut out: Vec<char> = Vec::new();
    let mut cursor: usize = 0;
    let mut done = false;
    proof {
        reveal_strlit("<a");
        reveal_strlit(">");
        reveal_strlit("</a>");
        assert(goal =~= out@ + anchors_from(f@, 0));
    }
    while !done
        invariant
            open@ == "<a"@,
            open@.len() == 2,
            gt@ == ">"@,
            gt@.len() == 1,
            close_tag@ == "</a>"@,
            close_tag@.len() == 4,
            cursor <= f@.len(),
            if done {
                goal == out@
            } else {
                goal == out@ + anchors_from(f@, cursor as int)
            },
        decreases f.len() - cursor, if done { 0int } else { 1 },
    {
        proof {
            text::lemma_find_from(f@, "<a"@, cursor as int);
        }
        let start = find_chars(&f, &open, cursor);
        let tag_end = match start {
            Some(s) => {
                proof {
                    text::lemma_find_from(f@, ">"@, s as int);
                }
                find_chars(&f, &gt, s)
            },
            None => None,
        };
        let close = match tag_end {
            Some(e) => {
                proof {
                    text::lemma_find_from(f@, "</a>"@, e + 1);
                }
                find_chars(&f, &close_tag, e + 1)
            },
            None => None,
        };
        match (start, tag_end, close) {
            (Some(s), Some(e), Some(c)) => {
                let ghost before = out@;
                push_chars_range(&mut out, &f, cursor, s);
                let tag = chars_range(&f, s, e + 1);
                let inner = string_of_range(&f, e + 1, c);
                let text = anchor_string(&tag, inner.as_str());
                let text_chars = chars_of(text.as_str());
                push_chars(&mut out, &text_chars);
                proof {
                    assert(anchors_from(f@, cursor as int) =~= f@.subrange(cursor as int, s as int)
                        + text@ + anchors_from(f@, c + 4));
                    assert(goal =~= out@ + anchors_from(f@, c + 4));
                }
                cursor = c + 4;
            },
            _ => {
                push_chars_range(&mut out, &f, cursor, f.len());
                proof {
                    assert(f@.subrange(cursor as int, f@.len() as int) =~= f@.skip(cursor as int));
                    assert(goal =~= out@);
                }
                done = true;
            },
        }
    }
    string_of(&out)
}

/// What stands for an image: its address.
pub open spec fn image_text(tag: Seq<char>) -> Seq<char> {
    let src = match attribute(tag, "data-src"@) {
        Some(v) => Some(v),
        None => attribute(tag, "src"@),
    };
    match src {
        Some(v) if !text::is_blank(v) => "\n\n![image]("@ + v + ")\n\n"@,
        _ => Seq::empty(),
    }
}

/// The fragment from `cursor` on with its images written out.
pub open spec fn images_from(f: Seq<char>, cursor: int) -> Seq<char>
    decreases f.len() - cursor,
{
    match text::find_from(f, "<img"@, cursor) {
        None => f.skip(cursor),
        Some(start) => match text::find_from(f, ">"@, start) {
            None => f.skip(cursor),
            Some(end) => if end + 1 <= cursor || end + 1 > f.len() {
                f.skip(cursor)
            } else {
                f.subrange(cursor, start) + image_text(f.subrange(start, end + 1)) + images_from(
                    f,
                    end + 1,
                )
            },
        },
    }
}

fn image_string(tag: &Vec<char>) -> (r: String)
    ensures
        r@ == image_text(tag@),
{
    let src = match extract_attribute_value(tag, "data-src") {
        Some(v) => Some(v),
        None => extract_attribute_value(tag, "src"),
    };
    if let Some(v) = src {
        if !blank(v.as_str()) {
            return cat3("\n\n![image](", v.as_str(), ")\n\n");
        }
    }
    let none = String::new();
    proof {
        assert(none@ =~= Seq::<char>::empty());
    }
    none
}

pub fn replace_img_tags(fragment: &str) -> (r: String)
    ensures
        r@ == images_from(fragment@, 0),
{
    let f = chars_of(fragment);
    let open = chars_of("<img");
    let gt = chars_of(">");
    let ghost goal = images_from(f@, 0);
    let mut out: Vec<char> = Vec::new();
    let mut cursor: usize = 0;
    let mut done = false;
    proof {
        reveal_strlit("<img");
        reveal_strlit(">");
        assert(goal =~= out@ + images_from(f@, 0));
    }
    while !done
        invariant
            open@ == "<img"@,
            open@.len() == 4,
            gt@ == ">"@,
            gt@.len() == 1,
            cursor <= f@.len(),
            if done {
                goal == out@
            } else {
                goal == out@ + images_from(f@, cursor as int)
            },
        decreases f.len() - cursor, if done { 0int } else { 1 },
    {
        proof {
            text::lemma_find_from(f@, "<img"@, cursor as int);
        }
        let start = find_chars(&f, &open, cursor);
        let end = match start {
            Some(s) => {
                proof {
                    text::lemma_find_from(f@, ">"@, s as int);
                }
                find_chars(&f, &gt, s)
            },
            None => None,
        };
        match (start, end) {
            (Some(s), Some(e)) => {
                push_chars_range(&mut out, &f, cursor, s);
                let tag = chars_range(&f, s, e + 1);
                let text = image_string(&tag);
                let text_chars = chars_of(text.as_str());
                push_chars(&mut out, &text_chars);
                proof {
                    assert(images_from(f@, cursor as int) =~= f@.subrange(cursor as int, s as int)
                        + text@ + images_from(f@, e + 1));
                    assert(goal =~= out@ + images_from(f@, e + 1));
                }
                cursor = e + 1;
            },
            _ => {
                push_chars_range(&mut out, &f, cursor, f.len());
                proof {
                    assert(f@.subrange(cursor as int, f@.len() as int) =~= f@.skip(cursor as int));
                    assert(goal =~= out@);
                }
                done = true;
            },
        }
    }
    string_of(&out)
}

// ---------------------------------------------------------------------------
// Markdown
// ---------------------------------------------------------------------------

/// The Markdown of a fragment, where `nonce` marks the code blocks on the way.
pub open spec fn markdown_of(fragment: Seq<char>, nonce: Seq<char>) -> Seq<char> {
    let (rest, blocks) = pre_from(fragment, 0, nonce, 0);
    restored_code(
        fragment_text(images_from(anchors_from(rest, 0), 0)),
        blocks,
        nonce,
        blocks.len(),
    )
}

/// Without a `<pre` the marks for code blocks play no part.
pub proof fn lemma_markdown_without_code(fragment: Seq<char>, nonce: Seq<char>)
    requires
        !text::contains(text::lower(fragment), "<pre"@),
    ensures
        markdown_of(fragment, nonce) == fragment_text(images_from(anchors_from(fragment, 0), 0)),
{
    text::lemma_contains_find(text::lower(fragment), "<pre"@);
    assert(fragment.skip(0) =~= fragment);
}

pub fn html_fragment_to_markdown_with(fragment: &str, nonce: &str) -> (r: String)
    ensures
        r@ == markdown_of(fragment@, nonce@),
{
    let (rest, blocks) = replace_pre_blocks_with(fragment, nonce);
    proof {
        assert(text::texts(blocks.blocks@).len() == blocks.blocks@.len());
    }
    let linked = replace_anchor_blocks(rest.as_str());
    let shown = replace_img_tags(linked.as_str());
    let text = normalize_fragment_text(shown.as_str());
    restore_code_placeholders(text.as_str(), &blocks)
}

/// `std::time::SystemTime::now`, as nanoseconds since 1970. Nothing is known of the
/// result.
#[verifier::external_body]
pub(crate) fn clock_nanos() -> (r: u128) {
    std::time::SystemTime::now()
        .duration_since(std::time::UNIX_EPOCH)
        .unwrap_or_default()
        .as_nanos()
}

/// A text of digits that no page can know.
pub fn fresh_nonce() -> (r: String)
    ensures
        exists|n: nat| r@ == #[trigger] text::decimal(n),
{
    let n: u128 = clock_nanos();
    let mut out = String::new();
    push_decimal(&mut out, n);
    proof {
        assert(out@ =~= text::decimal(n as nat));
    }
    out
}

/// Takes the code blocks out of a fragment and leaves marks in their places.
pub fn replace_pre_blocks(fragment: &str) -> (r: (String, CodeBlocks))
    ensures
        r.0@ == pre_from(fragment@, 0, r.1.nonce@, 0).0,
        text::texts(r.1.blocks@) == pre_from(fragment@, 0, r.1.nonce@, 0).1,
        exists|n: nat| r.1.nonce@ == #[trigger] text::decimal(n),
{
    let nonce = fresh_nonce();
    replace_pre_blocks_with(fragment, nonce.as_str())
}

pub fn html_fragment_to_markdown(fragment: &str) -> (r: String)
    ensures
        exists|n: nat| r@ == markdown_of(fragment@, #[trigger] text::decimal(n)),
{
    let nonce = fresh_nonce();
    html_fragment_to_markdown_with(fragment, nonce.as_str())
}

// ---------------------------------------------------------------------------
// Laws
// ---------------------------------------------------------------------------

proof fn lemma_strip_goes_on(a: Seq<char>, b: Seq<char>)
    requires
        !strip_state(a).1,
    ensures
        strip_state(a + b) == (stripped(a) + stripped(b), strip_state(b).1),
    decreases b.len(),
{
    if b.len() == 0 {
        assert(a + b =~= a);
        assert(stripped(a) + stripped(b) =~= stripped(a));
    } else {
        let init = b.drop_last();
        assert((a + b).drop_last() =~= a + init);
        assert((a + b).last() == b.last());
        lemma_strip_goes_on(a, init);
        assert(stripped(a) + stripped(init).push(b.last()) =~= (stripped(a) + stripped(init)).push(
            b.last(),
        ));
    }
}

proof fn lemma_strip_in_tag(a: Seq<char>, b: Seq<char>)
    requires
        strip_state(a).1,
        !b.contains('>'),
    ensures
        strip_state(a + b) == (stripped(a), true),
    decreases b.len(),
{
    if b.len() == 0 {
        assert(a + b =~= a);
    } else {
        let init = b.drop_last();
        assert forall|i: int| 0 <= i < init.len() implies init[i] != '>' by {
            assert(b.contains(b[i]));
        }
        assert(b.contains(b.last()));
        assert((a + b).drop_last() =~= a + init);
        assert((a + b).last() == b.last());
        lemma_strip_in_tag(a, init);
    }
}

/// A tag goes and leaves nothing behind; the text before it stays, and what follows it is
/// stripped as a text of its own.
pub proof fn lemma_tag_is_stripped(a: Seq<char>, tag: Seq<char>, b: Seq<char>)
    requires
        forall|i: int| 0 <= i < a.len() ==> #[trigger] a[i] != '<' && a[i] != '>',
        !tag.contains('>'),
    ensures
        stripped(a + seq!['<'] + tag + seq!['>'] + b) == a + stripped(b),
{
    lemma_strip_state_plain(a);
    let s1 = a + seq!['<'];
    assert(s1.drop_last() =~= a);
    assert(strip_state(s1) == (a, true));
    lemma_strip_in_tag(s1, tag);
    let s2 = s1 + tag + seq!['>'];
    assert(s2.drop_last() =~= s1 + tag);
    assert(strip_state(s2) == (a, false));
    lemma_strip_goes_on(s2, b);
}

/// The names of the entities that are known, and what each stands for.
pub proof fn lemma_named_entities()
    ensures
        entity_text("nbsp"@) == seq![' '],
        entity_text("amp"@) == seq!['&'],
        entity_text("lt"@) == seq!['<'],
        entity_text("gt"@) == seq!['>'],
        entity_text("quot"@) == seq!['"'],
        entity_text("apos"@) == seq!['\''],
{
    reveal_strlit("nbsp");
    reveal_strlit("amp");
    reveal_strlit("lt");
    reveal_strlit("gt");
    reveal_strlit("quot");
    reveal_strlit("apos");
    reveal_strlit(" ");
    reveal_strlit("&");
    reveal_strlit("<");
    reveal_strlit(">");
    reveal_strlit("\"");
    reveal_strlit("'");
    assert("nbsp"@[0] == 'n');
    assert("amp"@.len() == 3 && "amp"@[0] == 'a');
    assert("lt"@.len() == 2 && "lt"@[0] == 'l');
    assert("gt"@.len() == 2 && "gt"@[0] == 'g');
    assert("quot"@.len() == 4 && "quot"@[0] == 'q');
    assert("apos"@.len() == 4 && "apos"@[0] == 'a');
    assert(" "@ =~= seq![' ']);
    assert("&"@ =~= seq!['&']);
    assert("<"@ =~= seq!['<']);
    assert(">"@ =~= seq!['>']);
    assert("\""@ =~= seq!['"']);
    assert("'"@ =~= seq!['\'']);
}

proof fn lemma_hash_is_no_name(e: Seq<char>)
    requires
        e.len() > 0,
        e[0] == '#',
    ensures
        e != "nbsp"@,
        e != "amp"@,
        e != "lt"@,
        e != "gt"@,
        e != "quot"@,
        e != "apos"@,
{
    reveal_strlit("nbsp");
    reveal_strlit("amp");
    reveal_strlit("lt");
    reveal_strlit("gt");
    reveal_strlit("quot");
    reveal_strlit("apos");
}

/// A numeric entity in base ten stands for the character with that number.
pub proof fn lemma_decimal_entity(n: nat)
    requires
        is_scalar(n),
    ensures
        entity_text(seq!['#'] + text::decimal(n)) == seq![n as char],
{
    let d = text::decimal(n);
    let e = seq!['#'] + d;
    text::lemma_decimal_is_digits(n);
    text::lemma_decimal_value(n);
    lemma_hash_is_no_name(e);
    reveal_strlit("#x");
    reveal_strlit("#");
    reveal_strlit("#39");
    reveal_strlit("'");
    assert(d[0] == e[1]);
    assert(text::is_ascii_digit(d[0]));
    if e == "#39"@ {
        assert(d =~= e.skip(1));
        assert("#39"@.skip(1) =~= seq!['3', '9']);
        assert(seq!['3', '9'].drop_last() =~= seq!['3']);
        assert(seq!['3'].drop_last() =~= Seq::<char>::empty());
        assert(text::digits_value(Seq::<char>::empty(), 10) == 0);
        assert(text::digits_value(seq!['3'], 10) == 3);
        assert(text::digits_value(seq!['3', '9'], 10) == 39);
        assert(n == 39);
        assert("'"@ =~= seq!['\'']);
        assert(39nat as char == '\'');
    } else {
        if text::after_prefix(e, "#x"@) is Some {
            assert(e.subrange(0, 2)[1] == e[1]);
            assert("#x"@[1] == 'x');
        }
        assert("#"@ =~= seq!['#']);
        text::lemma_after_prefix("#"@, d);
        assert(d[0] != '+');
    }
}

/// A numeric entity in base sixteen stands for the character with that number.
pub proof fn lemma_hex_entity(h: Seq<char>)
    requires
        h.len() > 0,
        text::all_digits(h, 16),
        is_scalar(text::digits_value(h, 16)),
    ensures
        entity_text("#x"@ + h) == seq![text::digits_value(h, 16) as char],
{
    let e = "#x"@ + h;
    reveal_strlit("#x");
    reveal_strlit("#39");
    assert(e[0] == '#' && e[1] == 'x');
    lemma_hash_is_no_name(e);
    assert("#39"@[1] == '3');
    text::lemma_after_prefix("#x"@, h);
    assert(text::digit_value(h[0]) < 16);
    assert(h[0] != '+');
}

proof fn lemma_decode_goes_on(a: Seq<char>, b: Seq<char>)
    requires
        decode_state(a).entity is None,
    ensures
        decode_state(a + b) == (Decoding {
            out: decode_state(a).out + decode_state(b).out,
            entity: decode_state(b).entity,
        }),
    decreases b.len(),
{
    let x = decode_state(a).out;
    if b.len() == 0 {
        assert(a + b =~= a);
        assert(x + decode_state(b).out =~= x);
    } else {
        let init = b.drop_last();
        let c = b.last();
        assert((a + b).drop_last() =~= a + init);
        assert((a + b).last() == c);
        lemma_decode_goes_on(a, init);
        let d = decode_state(init);
        assert(x + d.out.push(c) =~= (x + d.out).push(c));
        match d.entity {
            Some(e) => {
                assert(x + (d.out + entity_text(e)) =~= (x + d.out) + entity_text(e));
            },
            None => {},
        }
    }
}

/// An entity is replaced by what it stands for; the text before it stays, and what follows
/// it is decoded as a text of its own.
pub proof fn lemma_entity_is_decoded(a: Seq<char>, e: Seq<char>, b: Seq<char>)
    requires
        !a.contains('&'),
        !e.contains('&'),
        !e.contains(';'),
    ensures
        decoded(a + seq!['&'] + e + seq![';'] + b) == a + entity_text(e) + decoded(b),
{
    assert forall|i: int| 0 <= i < a.len() implies #[trigger] a[i] != '&' by {
        assert(a.contains(a[i]));
    }
    lemma_decode_state_plain(a);
    let s1 = a + seq!['&'];
    assert(s1.drop_last() =~= a);
    assert(s1.last() == '&');
    lemma_decode_in_entity(s1, e);
    let s2 = s1 + e + seq![';'];
    assert(s2.drop_last() =~= s1 + e);
    assert(s2.last() == ';');
    assert(Seq::<char>::empty() + e =~= e);
    assert(decode_state(s2).out == a + entity_text(e));
    lemma_decode_goes_on(s2, b);
    let d = decode_state(b);
    match d.entity {
        Some(o) => {
            assert(a + entity_text(e) + (d.out + "&"@ + o) =~= a + entity_text(e) + d.out + "&"@ + o);
        },
        None => {},
    }
}

proof fn lemma_decode_in_entity(a: Seq<char>, e: Seq<char>)
    requires
        decode_state(a).entity is Some,
        !e.contains('&'),
        !e.contains(';'),
    ensures
        decode_state(a + e) == (Decoding {
            out: decode_state(a).out,
            entity: Some(decode_state(a).entity->0 + e),
        }),
    decreases e.len(),
{
    let x = decode_state(a).entity->0;
    if e.len() == 0 {
        assert(a + e =~= a);
        assert(x + e =~= x);
    } else {
        let init = e.drop_last();
        assert forall|i: int| 0 <= i < init.len() implies init[i] != '&' && init[i] != ';' by {
            assert(e.contains(e[i]));
        }
        assert(e.contains(e.last()));
        assert((a + e).drop_last() =~= a + init);
        assert((a + e).last() == e.last());
        lemma_decode_in_entity(a, init);
        assert((x + init).push(e.last()) =~= x + e);
    }
}

proof fn lemma_read_goes_on(a: Seq<char>, b: Seq<char>)
    requires
        read_state(a).entity is None,
        !read_state(a).in_tag,
    ensures
        read_state(a + b) == (Reading {
            out: read_state(a).out + read_state(b).out,
            in_tag: read_state(b).in_tag,
            entity: read_state(b).entity,
        }),
    decreases b.len(),
{
    let x = read_state(a).out;
    if b.len() == 0 {
        assert(a + b =~= a);
        assert(x + read_state(b).out =~= x);
    } else {
        let init = b.drop_last();
        let c = b.last();
        assert((a + b).drop_last() =~= a + init);
        assert((a + b).last() == c);
        lemma_read_goes_on(a, init);
        let d = read_state(init);
        assert(x + d.out.push(c) =~= (x + d.out).push(c));
        assert(x + d.out.push('\n') =~= (x + d.out).push('\n'));
        match d.entity {
            Some(e) => {
                assert(x + (d.out + entity_text(e)) =~= (x + d.out) + entity_text(e));
            },
            None => {},
        }
    }
}

/// No character that opens a tag or an entity.
pub open spec fn plain(s: Seq<char>) -> bool {
    !s.contains('<') && !s.contains('&')
}

proof fn lemma_read_plain(s: Seq<char>)
    requires
        plain(s),
    ensures
        read_state(s) == (Reading { out: s, in_tag: false, entity: None }),
    decreases s.len(),
{
    if s.len() == 0 {
        assert(s =~= Seq::empty());
    } else {
        let init = s.drop_last();
        assert forall|i: int| 0 <= i < init.len() implies init[i] != '<' && init[i] != '&' by {
            assert(s.contains(s[i]));
        }
        assert(s.contains(s.last()));
        lemma_read_plain(init);
        assert(init.push(s.last()) =~= s);
    }
}

proof fn lemma_read_in_tag(a: Seq<char>, tag: Seq<char>)
    requires
        read_state(a).in_tag,
        !tag.contains('>'),
    ensures
        read_state(a + tag) == read_state(a),
    decreases tag.len(),
{
    if tag.len() == 0 {
        assert(a + tag =~= a);
    } else {
        let init = tag.drop_last();
        assert forall|i: int| 0 <= i < init.len() implies init[i] != '>' by {
            assert(tag.contains(tag[i]));
        }
        assert(tag.contains(tag.last()));
        assert((a + tag).drop_last() =~= a + init);
        assert((a + tag).last() == tag.last());
        lemma_read_in_tag(a, init);
    }
}

proof fn lemma_read_in_entity(a: Seq<char>, e: Seq<char>)
    requires
        !read_state(a).in_tag,
        read_state(a).entity is Some,
        !e.contains(';'),
    ensures
        read_state(a + e) == (Reading {
            out: read_state(a).out,
            in_tag: false,
            entity: Some(read_state(a).entity->0 + e),
        }),
    decreases e.len(),
{
    let x = read_state(a).entity->0;
    if e.len() == 0 {
        assert(a + e =~= a);
        assert(x + e =~= x);
    } else {
        let init = e.drop_last();
        assert forall|i: int| 0 <= i < init.len() implies init[i] != ';' by {
            assert(e.contains(e[i]));
        }
        assert(e.contains(e.last()));
        assert((a + e).drop_last() =~= a + init);
        assert((a + e).last() == e.last());
        lemma_read_in_entity(a, init);
        assert((x + init).push(e.last()) =~= x + e);
    }
}

/// In the text of a fragment a tag ends the line, an entity is replaced by what it stands
/// for, and what follows either is read as a fragment of its own.
pub proof fn lemma_fragment_is_read(a: Seq<char>, inside: Seq<char>, b: Seq<char>)
    requires
        plain(a),
    ensures
        read_state(a).out == a,
        !inside.contains('>') ==> read_state(a + seq!['<'] + inside + seq!['>'] + b).out == a
            + seq!['\n'] + read_state(b).out,
        !inside.contains(';') ==> read_state(a + seq!['&'] + inside + seq![';'] + b).out == a
            + entity_text(inside) + read_state(b).out,
{
    lemma_read_plain(a);
    if !inside.contains('>') {
        let s1 = a + seq!['<'];
        assert(s1.drop_last() =~= a);
        assert(s1.last() == '<');
        lemma_read_in_tag(s1, inside);
        let s2 = s1 + inside + seq!['>'];
        assert(s2.drop_last() =~= s1 + inside);
        assert(s2.last() == '>');
        assert(a.push('\n') =~= a + seq!['\n']);
        lemma_read_goes_on(s2, b);
    }
    if !inside.contains(';') {
        let s1 = a + seq!['&'];
        assert(s1.drop_last() =~= a);
        assert(s1.last() == '&');
        lemma_read_in_entity(s1, inside);
        let s2 = s1 + inside + seq![';'];
        assert(s2.drop_last() =~= s1 + inside);
        assert(s2.last() == ';');
        assert(Seq::<char>::empty() + inside =~= inside);
        lemma_read_goes_on(s2, b);
    }
}

/// Lines are kept one by one: a line keeps what stands between the white space around it, in
/// its place, and a blank line goes.
pub proof fn lemma_lines_kept(a: Seq<Seq<char>>, l: Seq<char>, b: Seq<Seq<char>>)
    ensures
        kept_lines(a + seq![l] + b) == kept_lines(a) + (if text::is_blank(l) {
            Seq::empty()
        } else {
            seq![text::trim(l)]
        }) + kept_lines(b),
    decreases b.len(),
{
    let s = a + seq![l] + b;
    let here: Seq<Seq<char>> = if text::is_blank(l) {
        Seq::empty()
    } else {
        seq![text::trim(l)]
    };
    if b.len() == 0 {
        assert(s.drop_last() =~= a);
        assert(s.last() == l);
        assert(kept_lines(s) =~= kept_lines(a) + here + kept_lines(b));
    } else {
        let init = b.drop_last();
        assert(s.drop_last() =~= a + seq![l] + init);
        assert(s.last() == b.last());
        lemma_lines_kept(a, l, init);
        assert(kept_lines(s) =~= kept_lines(a) + here + kept_lines(b));
    }
}

/// Paragraphs stand apart by a blank line: the text before the first tag of a fragment, and
/// then the text of what follows the tag.
pub proof fn lemma_paragraphs(a: Seq<char>, tag: Seq<char>, b: Seq<char>)
    requires
        plain(a),
        !a.contains('\n'),
        !text::is_blank(a),
        !tag.contains('>'),
        fragment_text(b).len() > 0,
    ensures
        fragment_text(a + seq!['<'] + tag + seq!['>'] + b) == text::trim(a) + seq!['\n', '\n']
            + fragment_text(b),
{
    lemma_fragment_is_read(a, tag, b);
    let rest = read_state(b).out;
    text::lemma_lines_apart(a, rest);
    let ls = text::lines(rest);
    let w = text::without_return(a);
    lemma_lines_kept(Seq::empty(), w, ls);
    assert(Seq::empty() + seq![w] + ls =~= seq![w] + ls);
    lemma_trim_return(a);
    let k = kept_lines(ls);
    reveal_strlit("\n\n");
    assert("\n\n"@ =~= seq!['\n', '\n']);
    assert(kept_lines(Seq::<Seq<char>>::empty()) =~= Seq::empty());
    assert(Seq::<Seq<char>>::empty() + seq![text::trim(a)] + k =~= seq![text::trim(a)] + k);
    assert(k.len() > 0);
    text::lemma_join_concat(seq![text::trim(a)], k, "\n\n"@);
    assert(text::join(seq![text::trim(a)], "\n\n"@) == text::trim(a));
}

proof fn lemma_trim_return(a: Seq<char>)
    ensures
        text::trim(text::without_return(a)) == text::trim(a),
{
    let w = text::without_return(a);
    if w != a {
        assert(text::is_whitespace('\r'));
        lemma_trim_push(w, '\r');
        assert(w.push('\r') =~= a);
    }
}

proof fn lemma_drop_leading_push(s: Seq<char>, c: char)
    requires
        text::is_whitespace(c),
    ensures
        text::drop_leading(s.push(c), CharClass::Space) == (if text::drop_leading(
            s,
            CharClass::Space,
        ).len() == 0 {
            Seq::empty()
        } else {
            text::drop_leading(s, CharClass::Space).push(c)
        }),
    decreases s.len(),
{
    let t = s.push(c);
    if s.len() == 0 {
        assert(t.skip(1) =~= Seq::empty());
        assert(text::drop_leading(t.skip(1), CharClass::Space) =~= Seq::empty());
    } else {
        assert(t[0] == s[0]);
        if text::in_class(s[0], CharClass::Space) {
            lemma_drop_leading_push(s.skip(1), c);
            assert(t.skip(1) =~= s.skip(1).push(c));
        }
    }
}

proof fn lemma_trim_push(s: Seq<char>, c: char)
    requires
        text::is_whitespace(c),
    ensures
        text::trim(s.push(c)) == text::trim(s),
{
    lemma_drop_leading_push(s, c);
    let d = text::drop_leading(s, CharClass::Space);
    if d.len() > 0 {
        assert(d.push(c).drop_last() =~= d);
    }
}

/// The value of an attribute is what stands between the quotes behind its name.
pub proof fn lemma_attribute_is_read(
    x: Seq<char>,
    attr: Seq<char>,
    v: Seq<char>,
    y: Seq<char>,
)
    requires
        !v.contains('"'),
        forall|k: int|
            0 <= k < x.len() ==> !#[trigger] text::occurs_at(
                x + (attr + "=\""@) + v + "\""@ + y,
                attr + "=\""@,
                k,
            ),
    ensures
        attribute(x + (attr + "=\""@) + v + "\""@ + y, attr) == Some(v),
{
    let q = "\""@;
    let pat = attr + "=\""@;
    let tag = x + pat + v + q + y;
    reveal_strlit("\"");
    reveal_strlit("=");
    reveal_strlit("=\"");
    assert("\""@ =~= seq!['"']);
    assert(attr + "="@ + "\""@ =~= pat);
    let at = x.len() as int;
    assert(tag.subrange(at, at + pat.len()) =~= pat);
    text::lemma_find_is(tag, pat, 0, at);
    let start = at + pat.len();
    let end = start + v.len();
    text::lemma_occurs_char(tag, '"', end);
    assert(tag[end] == '"');
    assert forall|k: int| start <= k < end implies !#[trigger] text::occurs_at(tag, q, k) by {
        text::lemma_occurs_char(tag, '"', k);
        assert(tag[k] == v[k - start]);
        assert(v.contains(v[k - start]));
    }
    text::lemma_find_is(tag, q, start, end);
    assert(tag.subrange(start, end) =~= v);
}

/// Single quotes serve as well, where no value stands in double ones.
pub proof fn lemma_attribute_in_single_quotes(
    x: Seq<char>,
    attr: Seq<char>,
    v: Seq<char>,
    y: Seq<char>,
)
    requires
        !v.contains('\''),
        !text::contains(
            x + (attr + "='"@) + v + "'"@ + y,
            attr + "=\""@,
        ),
        forall|k: int|
            0 <= k < x.len() ==> !#[trigger] text::occurs_at(
                x + (attr + "='"@) + v + "'"@ + y,
                attr + "='"@,
                k,
            ),
    ensures
        attribute(x + (attr + "='"@) + v + "'"@ + y, attr) == Some(v),
{
    let q = "'"@;
    let pat = attr + "='"@;
    let tag = x + pat + v + q + y;
    reveal_strlit("\"");
    reveal_strlit("'");
    reveal_strlit("=");
    reveal_strlit("=\"");
    reveal_strlit("='");
    assert("'"@ =~= seq!['\'']);
    assert(attr + "="@ + "\""@ =~= attr + "=\""@);
    assert(attr + "="@ + "'"@ =~= pat);
    text::lemma_contains_find(tag, attr + "=\""@);
    let at = x.len() as int;
    assert(tag.subrange(at, at + pat.len()) =~= pat);
    text::lemma_find_is(tag, pat, 0, at);
    let start = at + pat.len();
    let end = start + v.len();
    text::lemma_occurs_char(tag, '\'', end);
    assert(tag[end] == '\'');
    assert forall|k: int| start <= k < end implies !#[trigger] text::occurs_at(tag, q, k) by {
        text::lemma_occurs_char(tag, '\'', k);
        assert(tag[k] == v[k - start]);
        assert(v.contains(v[k - start]));
    }
    text::lemma_find_is(tag, q, start, end);
    assert(tag.subrange(start, end) =~= v);
}

proof fn lemma_anchors_shift(f: Seq<char>, c: int)
    requires
        0 <= c <= f.len(),
    ensures
        anchors_from(f, c) == anchors_from(f.skip(c), 0),
    decreases f.len() - c,
{
    let t = f.skip(c);
    reveal_strlit("<a");
    reveal_strlit(">");
    reveal_strlit("</a>");
    text::lemma_find_in_rest(f, "<a"@, c, c);
    text::lemma_find_from(f, "<a"@, c);
    text::lemma_find_from(t, "<a"@, 0);
    assert(t.skip(0) =~= t);
    if let Some(s) = text::find_from(f, "<a"@, c) {
        text::lemma_find_in_rest(f, ">"@, c, s);
        text::lemma_find_from(f, ">"@, s);
        if let Some(e) = text::find_from(f, ">"@, s) {
            text::lemma_find_in_rest(f, "</a>"@, c, e + 1);
            text::lemma_find_from(f, "</a>"@, e + 1);
            if let Some(k) = text::find_from(f, "</a>"@, e + 1) {
                lemma_anchors_shift(f, k + 4);
                lemma_anchors_shift(t, k + 4 - c);
                assert(t.skip(k + 4 - c) =~= f.skip(k + 4));
                assert(t.subrange(0, s - c) =~= f.subrange(c, s));
                assert(t.subrange(s - c, e - c + 1) =~= f.subrange(s, e + 1));
                assert(t.subrange(e - c + 1, k - c) =~= f.subrange(e + 1, k));
            }
        }
    }
}

proof fn lemma_link_at(a: Seq<char>, tag: Seq<char>, inner: Seq<char>, b: Seq<char>)
    requires
        tag.len() > 2,
        tag[0] == '<',
        tag[1] == 'a',
        tag.last() == '>',
        !tag.drop_last().contains('>'),
        forall|k: int|
            0 <= k < a.len() ==> !#[trigger] text::occurs_at(
                a + tag + inner + "</a>"@ + b,
                "<a"@,
                k,
            ),
        forall|k: int|
            0 <= k < inner.len() ==> !#[trigger] text::occurs_at(inner + "</a>"@, "</a>"@, k),
    ensures
        anchors_from(a + tag + inner + "</a>"@ + b, 0) == a + anchor_text(tag, inner)
            + anchors_from(b, 0),
{
    let close = "</a>"@;
    let f = a + tag + inner + close + b;
    reveal_strlit("<a");
    reveal_strlit(">");
    reveal_strlit("</a>");
    let s = a.len() as int;
    let e = s + tag.len() - 1;
    let k = e + 1 + inner.len();
    assert(f[s] == tag[0]);
    assert(f[s + 1] == tag[1]);
    text::lemma_occurs_chars(f, "<a"@, s);
    text::lemma_find_is(f, "<a"@, 0, s);
    assert(">"@ =~= seq!['>']);
    assert(f[e] == tag.last());
    text::lemma_occurs_char(f, '>', e);
    assert forall|i: int| s <= i < e implies !#[trigger] text::occurs_at(f, ">"@, i) by {
        text::lemma_occurs_char(f, '>', i);
        assert(f[i] == tag.drop_last()[i - s]);
        assert(tag.drop_last().contains(tag.drop_last()[i - s]));
    }
    text::lemma_find_is(f, ">"@, s, e);
    assert(f.subrange(k, k + 4) =~= close);
    assert forall|i: int| e + 1 <= i < k implies !#[trigger] text::occurs_at(f, close, i) by {
        if text::occurs_at(f, close, i) {
            let j = i - (e + 1);
            assert forall|m: int| 0 <= m < 4 implies #[trigger] (inner + close)[j + m] == f[i
                + m] by {}
            text::lemma_occurs_agree(f, inner + close, close, i, j);
            assert(text::occurs_at(inner + close, close, j));
        }
    }
    text::lemma_find_is(f, close, e + 1, k);
    lemma_anchors_shift(f, k + 4);
    assert(f.skip(k + 4) =~= b);
    assert(f.subrange(0, s) =~= a);
    assert(f.subrange(s, e + 1) =~= tag);
    assert(f.subrange(e + 1, k) =~= inner);
}

/// A link is written out as its text with its address in brackets behind it, in a paragraph
/// of its own. What stands before it stays, and what follows it is treated as a fragment of
/// its own. A link without text leaves its address alone.
pub proof fn lemma_link_is_written_out(
    a: Seq<char>,
    tag: Seq<char>,
    href: Seq<char>,
    inner: Seq<char>,
    b: Seq<char>,
)
    requires
        tag.len() > 2,
        tag[0] == '<',
        tag[1] == 'a',
        tag.last() == '>',
        !tag.drop_last().contains('>'),
        attribute(tag, "href"@) == Some(href),
        !text::is_blank(href),
        forall|k: int|
            0 <= k < a.len() ==> !#[trigger] text::occurs_at(
                a + tag + inner + "</a>"@ + b,
                "<a"@,
                k,
            ),
        forall|k: int|
            0 <= k < inner.len() ==> !#[trigger] text::occurs_at(inner + "</a>"@, "</a>"@, k),
    ensures
        fragment_text(inner).len() > 0 ==> anchors_from(a + tag + inner + "</a>"@ + b, 0) == a
            + seq!['\n', '\n'] + fragment_text(inner) + seq![' ', '('] + href + seq![
            ')',
            '\n',
            '\n',
        ] + anchors_from(b, 0),
        fragment_text(inner).len() == 0 ==> anchors_from(a + tag + inner + "</a>"@ + b, 0) == a
            + seq!['\n', '\n'] + href + seq!['\n', '\n'] + anchors_from(b, 0),
{
    lemma_link_at(a, tag, inner, b);
    reveal_strlit("\n\n");
    reveal_strlit(" (");
    reveal_strlit(")\n\n");
    let t = fragment_text(inner);
    let r = anchors_from(b, 0);
    assert("\n\n"@ =~= seq!['\n', '\n']);
    assert(" ("@ =~= seq![' ', '(']);
    assert(")\n\n"@ =~= seq![')', '\n', '\n']);
    assert(a + ("\n\n"@ + t + " ("@ + href + ")\n\n"@) + r =~= a + "\n\n"@ + t + " ("@ + href
        + ")\n\n"@ + r);
    assert(a + ("\n\n"@ + href + "\n\n"@) + r =~= a + "\n\n"@ + href + "\n\n"@ + r);
}

/// An element without an address stays as it is inside.
pub proof fn lemma_no_address(a: Seq<char>, tag: Seq<char>, inner: Seq<char>, b: Seq<char>)
    requires
        tag.len() > 2,
        tag[0] == '<',
        tag[1] == 'a',
        tag.last() == '>',
        !tag.drop_last().contains('>'),
        attribute(tag, "href"@) is None || text::is_blank(attribute(tag, "href"@)->0),
        forall|k: int|
            0 <= k < a.len() ==> !#[trigger] text::occurs_at(
                a + tag + inner + "</a>"@ + b,
                "<a"@,
                k,
            ),
        forall|k: int|
            0 <= k < inner.len() ==> !#[trigger] text::occurs_at(inner + "</a>"@, "</a>"@, k),
    ensures
        anchors_from(a + tag + inner + "</a>"@ + b, 0) == a + inner + anchors_from(b, 0),
{
    lemma_link_at(a, tag, inner, b);
}

proof fn lemma_images_shift(f: Seq<char>, c: int)
    requires
        0 <= c <= f.len(),
    ensures
        images_from(f, c) == images_from(f.skip(c), 0),
    decreases f.len() - c,
{
    let t = f.skip(c);
    reveal_strlit("<img");
    reveal_strlit(">");
    text::lemma_find_in_rest(f, "<img"@, c, c);
    text::lemma_find_from(f, "<img"@, c);
    assert(t.skip(0) =~= t);
    if let Some(s) = text::find_from(f, "<img"@, c) {
        text::lemma_find_in_rest(f, ">"@, c, s);
        text::lemma_find_from(f, ">"@, s);
        if let Some(e) = text::find_from(f, ">"@, s) {
            lemma_images_shift(f, e + 1);
            lemma_images_shift(t, e + 1 - c);
            assert(t.skip(e + 1 - c) =~= f.skip(e + 1));
            assert(t.subrange(0, s - c) =~= f.subrange(c, s));
            assert(t.subrange(s - c, e - c + 1) =~= f.subrange(s, e + 1));
        }
    }
}

/// An image is written out with its address, in a paragraph of its own; the address of a
/// picture that is loaded late goes before the other one. An image without an address goes.
/// What stands before the image stays, and what follows it is treated as a fragment of its
/// own.
pub proof fn lemma_image_is_written_out(
    a: Seq<char>,
    tag: Seq<char>,
    src: Option<Seq<char>>,
    b: Seq<char>,
)
    requires
        tag.len() > 4,
        tag.take(4) == "<img"@,
        tag.last() == '>',
        !tag.drop_last().contains('>'),
        src == (if attribute(tag, "data-src"@) is Some {
            attribute(tag, "data-src"@)
        } else {
            attribute(tag, "src"@)
        }),
        forall|k: int|
            0 <= k < a.len() ==> !#[trigger] text::occurs_at(a + tag + b, "<img"@, k),
    ensures
        src is Some && !text::is_blank(src->0) ==> images_from(a + tag + b, 0) == a + seq![
            '\n',
            '\n',
        ] + "![image]("@ + src->0 + seq![')', '\n', '\n'] + images_from(b, 0),
        src is None || text::is_blank(src->0) ==> images_from(a + tag + b, 0) == a + images_from(
            b,
            0,
        ),
{
    let f = a + tag + b;
    reveal_strlit("<img");
    reveal_strlit(">");
    reveal_strlit("\n\n![image](");
    reveal_strlit("![image](");
    reveal_strlit(")\n\n");
    let s = a.len() as int;
    let e = s + tag.len() - 1;
    assert(f.subrange(s, s + 4) =~= tag.take(4));
    text::lemma_find_is(f, "<img"@, 0, s);
    assert(">"@ =~= seq!['>']);
    assert(f[e] == tag.last());
    text::lemma_occurs_char(f, '>', e);
    assert forall|i: int| s <= i < e implies !#[trigger] text::occurs_at(f, ">"@, i) by {
        text::lemma_occurs_char(f, '>', i);
        assert(f[i] == tag.drop_last()[i - s]);
        assert(tag.drop_last().contains(tag.drop_last()[i - s]));
    }
    text::lemma_find_is(f, ">"@, s, e);
    lemma_images_shift(f, e + 1);
    assert(f.skip(e + 1) =~= b);
    assert(f.subrange(0, s) =~= a);
    assert(f.subrange(s, e + 1) =~= tag);
    let r = images_from(b, 0);
    if src is Some && !text::is_blank(src->0) {
        assert("\n\n![image]("@ =~= seq!['\n', '\n'] + "![image]("@);
        assert(")\n\n"@ =~= seq![')', '\n', '\n']);
        assert(a + ("\n\n![image]("@ + src->0 + ")\n\n"@) + r =~= a + seq!['\n', '\n']
            + "![image]("@ + src->0 + seq![')', '\n', '\n'] + r);
    } else {
        assert(a + Seq::<char>::empty() + r =~= a + r);
    }
}

proof fn lemma_lower_skip(f: Seq<char>, c: int)
    requires
        0 <= c <= f.len(),
    ensures
        text::lower(f).skip(c) == text::lower(f.skip(c)),
        text::lower(f).len() == f.len(),
{
    assert(text::lower(f).skip(c) =~= text::lower(f.skip(c)));
}

#[verifier::rlimit(80)]
proof fn lemma_pre_shift(f: Seq<char>, c: int, nonce: Seq<char>, k: nat)
    requires
        0 <= c <= f.len(),
    ensures
        pre_from(f, c, nonce, k) == pre_from(f.skip(c), 0, nonce, k),
    decreases f.len() - c,
{
    let t = f.skip(c);
    let low = text::lower(f);
    lemma_lower_skip(f, c);
    reveal_strlit("<pre");
    reveal_strlit(">");
    reveal_strlit("</pre>");
    text::lemma_find_in_rest(low, "<pre"@, c, c);
    text::lemma_find_from(low, "<pre"@, c);
    assert(t.skip(0) =~= t);
    if let Some(s) = text::find_from(low, "<pre"@, c) {
        assert(opens_pre(t, s - c) == opens_pre(f, s));
        if !opens_pre(f, s) {
            lemma_pre_shift(f, s + 4, nonce, k);
            lemma_pre_shift(t, s + 4 - c, nonce, k);
            assert(t.skip(s + 4 - c) =~= f.skip(s + 4));
            assert(t.subrange(0, s + 4 - c) =~= f.subrange(c, s + 4));
        } else {
            text::lemma_find_in_rest(f, ">"@, c, s);
            text::lemma_find_from(f, ">"@, s);
            if let Some(e) = text::find_from(f, ">"@, s) {
                text::lemma_find_in_rest(low, "</pre>"@, c, e + 1);
                text::lemma_find_from(low, "</pre>"@, e + 1);
                if let Some(z) = text::find_from(low, "</pre>"@, e + 1) {
                    let code = code_text(f.subrange(e + 1, z));
                    let next = if code.len() == 0 {
                        k
                    } else {
                        k + 1
                    };
                    lemma_pre_shift(f, z + 6, nonce, next);
                    lemma_pre_shift(t, z + 6 - c, nonce, next);
                    assert(t.skip(z + 6 - c) =~= f.skip(z + 6));
                    assert(t.subrange(0, s - c) =~= f.subrange(c, s));
                    assert(t.subrange(e - c + 1, z - c) =~= f.subrange(e + 1, z));
                }
            }
        }
    }
}

/// A code element is taken out: its number marks its place, and its code is kept in a fence,
/// before the blocks of what follows, which is treated as a fragment of its own. An element
/// without code goes and takes no number.
pub proof fn lemma_code_is_taken_out(
    a: Seq<char>,
    tag: Seq<char>,
    inner: Seq<char>,
    close: Seq<char>,
    b: Seq<char>,
    nonce: Seq<char>,
    k: nat,
)
    requires
        tag.len() > 4,
        text::lower(tag.take(4)) == "<pre"@,
        tag[4] == '>' || text::is_whitespace(tag[4]),
        tag.last() == '>',
        !tag.drop_last().contains('>'),
        text::lower(close) == "</pre>"@,
        forall|i: int|
            0 <= i < a.len() ==> !#[trigger] text::occurs_at(
                text::lower(a + tag + inner + close + b),
                "<pre"@,
                i,
            ),
        forall|i: int|
            0 <= i < inner.len() ==> !#[trigger] text::occurs_at(
                text::lower(inner + close),
                "</pre>"@,
                i,
            ),
    ensures
        code_text(inner).len() > 0 ==> pre_from(a + tag + inner + close + b, 0, nonce, k) == (
            a + code_mark(nonce, k) + pre_from(b, 0, nonce, k + 1).0,
            seq![code_fence(code_text(inner))] + pre_from(b, 0, nonce, k + 1).1,
        ),
        code_text(inner).len() == 0 ==> pre_from(a + tag + inner + close + b, 0, nonce, k) == (
            a + pre_from(b, 0, nonce, k).0,
            pre_from(b, 0, nonce, k).1,
        ),
{
    let f = a + tag + inner + close + b;
    let low = text::lower(f);
    reveal_strlit("<pre");
    reveal_strlit(">");
    reveal_strlit("</pre>");
    assert(text::lower(close).len() == close.len());
    let s = a.len() as int;
    let e = s + tag.len() - 1;
    let z = e + 1 + inner.len();
    assert(low.subrange(s, s + 4) =~= text::lower(tag.take(4)));
    text::lemma_find_is(low, "<pre"@, 0, s);
    assert(f[s + 4] == tag[4]);
    assert(opens_pre(f, s)) by {
        assert(s + 4 < f.len());
    }
    assert(">"@ =~= seq!['>']);
    assert(f[e] == tag.last());
    text::lemma_occurs_char(f, '>', e);
    assert forall|i: int| s <= i < e implies !#[trigger] text::occurs_at(f, ">"@, i) by {
        text::lemma_occurs_char(f, '>', i);
        assert(f[i] == tag.drop_last()[i - s]);
        assert(tag.drop_last().contains(tag.drop_last()[i - s]));
    }
    text::lemma_find_is(f, ">"@, s, e);
    assert(low.subrange(z, z + 6) =~= text::lower(close));
    let ic = text::lower(inner + close);
    assert forall|i: int| e + 1 <= i < z implies !#[trigger] text::occurs_at(low, "</pre>"@, i) by {
        if text::occurs_at(low, "</pre>"@, i) {
            let j = i - (e + 1);
            assert forall|m: int| 0 <= m < 6 implies #[trigger] ic[j + m] == low[i + m] by {
                assert((inner + close)[j + m] == f[i + m]);
            }
            text::lemma_occurs_agree(low, ic, "</pre>"@, i, j);
            assert(text::occurs_at(ic, "</pre>"@, j));
        }
    }
    text::lemma_find_is(low, "</pre>"@, e + 1, z);
    lemma_pre_shift(f, z + 6, nonce, k);
    lemma_pre_shift(f, z + 6, nonce, k + 1);
    assert(f.skip(z + 6) =~= b);
    assert(f.subrange(0, s) =~= a);
    assert(f.subrange(e + 1, z) =~= inner);
}

/// Without code, links and images these steps leave a fragment as it is.
pub proof fn lemma_nothing_to_write_out(f: Seq<char>, nonce: Seq<char>, k: nat)
    ensures
        !text::contains(text::lower(f), "<pre"@) ==> pre_from(f, 0, nonce, k) == (
            f,
            Seq::<Seq<char>>::empty(),
        ),
        !text::contains(f, "<a"@) ==> anchors_from(f, 0) == f,
        !text::contains(f, "<img"@) ==> images_from(f, 0) == f,
{
    text::lemma_contains_find(text::lower(f), "<pre"@);
    text::lemma_contains_find(f, "<a"@);
    text::lemma_contains_find(f, "<img"@);
    assert(f.skip(0) =~= f);
}

/// Two code blocks have two marks.
pub proof fn lemma_marks_differ(nonce: Seq<char>, i: nat, j: nat)
    requires
        i != j,
    ensures
        code_mark(nonce, i) != code_mark(nonce, j),
        text::contains(code_mark(nonce, i), nonce),
{
    reveal_strlit("__AMCLAW_CODE_");
    reveal_strlit("_");
    reveal_strlit("__");
    let a = "__AMCLAW_CODE_"@ + nonce + "_"@;
    let m = code_mark(nonce, i);
    let o = code_mark(nonce, j);
    if m == o {
        let n = a.len() as int;
        assert(m.subrange(n, m.len() - 2) =~= text::decimal(i));
        assert(o.subrange(n, o.len() - 2) =~= text::decimal(j));
        text::lemma_decimal_value(i);
        text::lemma_decimal_value(j);
    }
    let at = "__AMCLAW_CODE_"@.len() as int;
    assert(m.subrange(at, at + nonce.len()) =~= nonce);
    assert(text::occurs_at(m, nonce, at));
}

/// Two code blocks come back in their own places.
pub proof fn lemma_two_blocks_come_back(
    a: Seq<char>,
    b: Seq<char>,
    c: Seq<char>,
    x: Seq<char>,
    y: Seq<char>,
    nonce: Seq<char>,
)
    requires
        !nonce.contains('\n'),
        fenced(x),
        fenced(y),
        forall|k: nat| k < 2 ==> !text::contains(x, #[trigger] code_mark(nonce, k)),
        forall|k: nat| k < 2 ==> !text::contains(y, #[trigger] code_mark(nonce, k)),
        forall|p: int| #[trigger]
            text::occurs_at(
                a + code_mark(nonce, 0) + b + code_mark(nonce, 1) + c,
                code_mark(nonce, 0),
                p,
            ) ==> p == a.len(),
        forall|p: int| #[trigger]
            text::occurs_at(
                a + code_mark(nonce, 0) + b + code_mark(nonce, 1) + c,
                code_mark(nonce, 1),
                p,
            ) ==> p == (a + code_mark(nonce, 0) + b).len(),
    ensures
        restored_code(a + code_mark(nonce, 0) + b + code_mark(nonce, 1) + c, seq![x, y], nonce, 2)
            == a + x + b + y + c,
{
    let parts = seq![a, b, c];
    let blocks = seq![x, y];
    let ms = marks(nonce, 2);
    lemma_three_parts(parts, ms);
    lemma_three_parts(parts, blocks);
    assert(parts.take(2).drop_last() =~= parts.take(1));
    assert(parts.take(1)[0] == a);
    assert(marks(nonce, 1).drop_last() =~= marks(nonce, 0));
    assert(with_gaps(parts.take(1), marks(nonce, 0)) == a);
    assert(with_gaps(parts.take(2), marks(nonce, 1)) == a + code_mark(nonce, 0) + b);
    lemma_fenced_code_comes_back(parts, blocks, nonce);
}

proof fn lemma_three_parts(parts: Seq<Seq<char>>, gaps: Seq<Seq<char>>)
    requires
        parts.len() == 3,
        gaps.len() == 2,
    ensures
        with_gaps(parts, gaps) == parts[0] + gaps[0] + parts[1] + gaps[1] + parts[2],
{
    let p = parts.drop_last();
    let g = gaps.drop_last();
    assert(with_gaps(p.drop_last(), g.drop_last()) == parts[0]);
    assert(with_gaps(p, g) == parts[0] + gaps[0] + parts[1]);
}

} // verus!
