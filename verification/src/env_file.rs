//! Files that hold settings of the environment, one `NAME=value` on a line.

use crate::retriever::metadata;
use crate::text;
use crate::text::{
    CharClass, chars_of, split_lines, split_once, string_of, trim_chars, trim_leading_chars,
    trim_trailing_chars, trimmed,
};
use vstd::prelude::*;

verus! {

/// A text without one character at both ends.
pub open spec fn without_quotes(s: Seq<char>, c: char) -> Seq<char> {
    text::drop_trailing(text::drop_leading(s, CharClass::Only(c)), CharClass::Only(c))
}

/// A value without the white space and the quotes around it.
pub open spec fn clean_value(value: Seq<char>) -> Seq<char> {
    text::trim(without_quotes(without_quotes(without_quotes(text::trim(value), '"'), '\''), '`'))
}

fn strip_quotes(v: &Vec<char>, c: char) -> (r: Vec<char>)
    ensures
        r@ == without_quotes(v@, c),
{
    let start = trim_leading_chars(v, CharClass::Only(c));
    trim_trailing_chars(&start, CharClass::Only(c))
}

pub fn clean_env_value(value: &str) -> (r: String)
    ensures
        r@ == clean_value(value@),
{
    let v = trim_chars(&chars_of(value));
    let v = strip_quotes(&v, '"');
    let v = strip_quotes(&v, '\'');
    let v = strip_quotes(&v, '`');
    string_of(&trim_chars(&v))
}

/// The setting on a line. Blank lines, comments and lines without an equals sign hold none.
pub open spec fn setting(line: Seq<char>) -> Option<(Seq<char>, Seq<char>)> {
    let t = text::trim(line);
    if t.len() == 0 || t[0] == '#' {
        None
    } else {
        match text::split_at_first(t, "="@) {
            Some((key, value)) => Some((text::trim(key), clean_value(value))),
            None => None,
        }
    }
}

fn read_setting(line: &str) -> (r: Option<(String, String)>)
    ensures
        match r {
            Some((key, value)) => setting(line@) == Some((key@, value@)),
            None => setting(line@) is None,
        },
{
    let t = trimmed(line);
    let v = chars_of(t.as_str());
    if v.len() == 0 || v[0] == '#' {
        return None;
    }
    match split_once(t.as_str(), "=") {
        Some((key, value)) => Some((trimmed(key.as_str()), clean_env_value(value.as_str()))),
        None => None,
    }
}

/// The settings on lines, in order.
pub open spec fn settings(lines: Seq<Seq<char>>) -> Seq<(Seq<char>, Seq<char>)>
    decreases lines.len(),
{
    if lines.len() == 0 {
        Seq::empty()
    } else {
        match setting(lines.last()) {
            Some(s) => settings(lines.drop_last()).push(s),
            None => settings(lines.drop_last()),
        }
    }
}

/// The settings of a file, in order.
pub fn parse_env_file(content: &str) -> (r: Vec<(String, String)>)
    ensures
        metadata::pairs(r@) == settings(text::lines(content@)),
{
    let rows = split_lines(content);
    let ghost all = text::lines(content@);
    let mut out: Vec<(String, String)> = Vec::new();
    let mut i: usize = 0;
    proof {
        assert(all.take(0) =~= Seq::empty());
        assert(metadata::pairs(out@) =~= Seq::empty());
    }
    while i < rows.len()
        invariant
            i <= rows.len(),
            text::texts(rows@) == all,
            metadata::pairs(out@) == settings(all.take(i as int)),
        decreases rows.len() - i,
    {
        let ghost before = metadata::pairs(out@);
        proof {
            assert(all.take(i + 1).drop_last() =~= all.take(i as int));
            assert(all.take(i + 1).last() == rows@[i as int]@);
        }
        match read_setting(rows[i].as_str()) {
            Some((key, value)) => {
                let ghost s = (key@, value@);
                out.push((key, value));
                proof {
                    assert(metadata::pairs(out@) =~= before.push(s));
                }
            },
            None => {},
        }
        i = i + 1;
    }
    proof {
        assert(all.take(i as int) =~= all);
    }
    out
}

// ---------------------------------------------------------------------------
// Laws
// ---------------------------------------------------------------------------

proof fn lemma_unquoted(v: Seq<char>, c: char)
    requires
        v.len() > 0,
        v[0] != c,
        v.last() != c,
    ensures
        without_quotes(v, c) == v,
        without_quotes(seq![c] + v + seq![c], c) == v,
{
    let k = CharClass::Only(c);
    let none = Seq::<char>::empty();
    text::lemma_drop_leading_exact(none, v, k);
    assert(none + v =~= v);
    text::lemma_drop_trailing_exact(v, none, k);
    assert(v + none =~= v);
    text::lemma_drop_leading_exact(seq![c], v + seq![c], k);
    assert(seq![c] + (v + seq![c]) =~= seq![c] + v + seq![c]);
    text::lemma_drop_trailing_exact(v, seq![c], k);
}

/// A value that neither begins nor ends with white space or a quote.
pub open spec fn bare(v: Seq<char>) -> bool {
    &&& v.len() > 0
    &&& !text::is_whitespace(v[0])
    &&& !text::is_whitespace(v.last())
    &&& v[0] != '"' && v[0] != '\'' && v[0] != '`'
    &&& v.last() != '"' && v.last() != '\'' && v.last() != '`'
}

/// A value is what stands between the white space and the quotes around it.
pub proof fn lemma_value_is_read(a: Seq<char>, v: Seq<char>, b: Seq<char>)
    requires
        bare(v),
        forall|i: int| 0 <= i < a.len() ==> text::is_whitespace(#[trigger] a[i]),
        forall|i: int| 0 <= i < b.len() ==> text::is_whitespace(#[trigger] b[i]),
    ensures
        clean_value(a + v + b) == v,
        clean_value(a + (seq!['"'] + v + seq!['"']) + b) == v,
        clean_value(a + (seq!['\''] + v + seq!['\'']) + b) == v,
        clean_value(a + (seq!['`'] + v + seq!['`']) + b) == v,
{
    lemma_unquoted(v, '"');
    lemma_unquoted(v, '\'');
    lemma_unquoted(v, '`');
    let none = Seq::<char>::empty();
    text::lemma_trim_exact(none, v, none);
    assert(none + v + none =~= v);
    text::lemma_trim_exact(a, v, b);
    let d = seq!['"'] + v + seq!['"'];
    let s = seq!['\''] + v + seq!['\''];
    let t = seq!['`'] + v + seq!['`'];
    text::lemma_trim_exact(a, d, b);
    text::lemma_trim_exact(a, s, b);
    text::lemma_trim_exact(a, t, b);
    lemma_other_quote(s, '"');
    lemma_other_quote(t, '"');
    lemma_other_quote(t, '\'');
}

proof fn lemma_other_quote(s: Seq<char>, c: char)
    requires
        s.len() > 0,
        s[0] != c,
        s.last() != c,
    ensures
        without_quotes(s, c) == s,
{
    lemma_unquoted(s, c);
}

/// A setting is read from its line: the name before the first equals sign, and the value
/// behind it, whatever white space stands around the two.
pub proof fn lemma_setting_is_read(
    a: Seq<char>,
    key: Seq<char>,
    b: Seq<char>,
    value: Seq<char>,
    c: Seq<char>,
)
    requires
        key.len() > 0,
        !key.contains('='),
        key[0] != '#',
        !text::is_whitespace(key[0]),
        !text::is_whitespace(key.last()),
        value.len() > 0,
        !text::is_whitespace(value.last()),
        forall|i: int| 0 <= i < a.len() ==> text::is_whitespace(#[trigger] a[i]),
        forall|i: int| 0 <= i < b.len() ==> text::is_whitespace(#[trigger] b[i]),
        forall|i: int| 0 <= i < c.len() ==> text::is_whitespace(#[trigger] c[i]),
    ensures
        setting(a + (key + b + seq!['='] + value) + c) == Some((key, clean_value(value))),
{
    let core = key + b + seq!['='] + value;
    let line = a + core + c;
    text::lemma_trim_exact(a, core, c);
    let n = (key + b).len() as int;
    reveal_strlit("=");
    assert("="@ =~= seq!['=']);
    assert(!text::is_whitespace('='));
    text::lemma_occurs_char(core, '=', n);
    assert(core[n] == '=');
    assert forall|k: int| 0 <= k < n implies !#[trigger] text::occurs_at(core, seq!['='], k) by {
        text::lemma_occurs_char(core, '=', k);
        if k < key.len() {
            assert(core[k] == key[k]);
            assert(key.contains(key[k]));
        } else {
            assert(core[k] == b[k - key.len()]);
        }
    }
    text::lemma_find_is(core, seq!['='], 0, n);
    assert(core.subrange(0, n) =~= key + b);
    assert(core.take(n) =~= key + b);
    assert(core.skip(n + 1) =~= value);
    let none = Seq::<char>::empty();
    text::lemma_trim_exact(none, key, b);
    assert(none + key + b =~= key + b);
}

/// A comment holds no setting, and neither does a blank line.
pub proof fn lemma_comment_holds_nothing(a: Seq<char>, rest: Seq<char>)
    requires
        forall|i: int| 0 <= i < a.len() ==> text::is_whitespace(#[trigger] a[i]),
    ensures
        setting(a + seq!['#'] + rest) is None,
        forall|line: Seq<char>| text::is_blank(line) ==> #[trigger] setting(line) is None,
{
    let s = a + seq!['#'] + rest;
    assert(!text::is_whitespace('#'));
    text::lemma_drop_leading_exact(a, seq!['#'] + rest, CharClass::Space);
    assert(a + (seq!['#'] + rest) =~= s);
    let d = seq!['#'] + rest;
    lemma_drop_trailing_keeps_first(d);
}

proof fn lemma_drop_trailing_keeps_first(d: Seq<char>)
    requires
        d.len() > 0,
        !text::is_whitespace(d[0]),
    ensures
        text::drop_trailing(d, CharClass::Space).len() > 0,
        text::drop_trailing(d, CharClass::Space)[0] == d[0],
    decreases d.len(),
{
    if text::in_class(d.last(), CharClass::Space) {
        assert(d.len() > 1);
        lemma_drop_trailing_keeps_first(d.drop_last());
    }
}

/// Every line counts: the settings of lines are those of the first ones and then those of
/// the others.
pub proof fn lemma_settings_in_order(a: Seq<Seq<char>>, line: Seq<char>, b: Seq<Seq<char>>)
    ensures
        settings(a + seq![line] + b) == settings(a) + (match setting(line) {
            Some(s) => seq![s],
            None => Seq::empty(),
        }) + settings(b),
    decreases b.len(),
{
    let all = a + seq![line] + b;
    let here: Seq<(Seq<char>, Seq<char>)> = match setting(line) {
        Some(s) => seq![s],
        None => Seq::empty(),
    };
    if b.len() == 0 {
        assert(all.drop_last() =~= a);
        assert(all.last() == line);
        assert(settings(all) =~= settings(a) + here + settings(b));
    } else {
        assert(all.drop_last() =~= a + seq![line] + b.drop_last());
        assert(all.last() == b.last());
        lemma_settings_in_order(a, line, b.drop_last());
        assert(settings(all) =~= settings(a) + here + settings(b));
    }
}

} // verus!
