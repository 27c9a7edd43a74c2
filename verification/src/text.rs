//! Text primitives on sequences of characters.
//!
//! The view of a string is its sequence of characters. Each executable function
//! here is specified by a function on such sequences, so that the other modules
//! can state what they produce character by character.

use vstd::prelude::*;

verus! {

/// `String::push` of std: appends one character at the end of the string.
pub assume_specification[ String::push ](s: &mut String, ch: char)
    ensures
        final(s)@ == old(s)@.push(ch),
;

// ---------------------------------------------------------------------------
// Views of compound values
// ---------------------------------------------------------------------------

/// The texts of a sequence of strings.
pub open spec fn texts(v: Seq<String>) -> Seq<Seq<char>> {
    Seq::new(v.len(), |i: int| v[i]@)
}

/// The text of an optional string.
pub open spec fn opt_text(o: Option<String>) -> Option<Seq<char>> {
    match o {
        Some(s) => Some(s@),
        None => None,
    }
}

/// The text of an optional string slice.
pub open spec fn opt_str(o: Option<&str>) -> Option<Seq<char>> {
    match o {
        Some(s) => Some(s@),
        None => None,
    }
}

pub proof fn lemma_texts_push(v: Seq<String>, s: String)
    ensures
        texts(v.push(s)) == texts(v).push(s@),
{
    assert(texts(v.push(s)) =~= texts(v).push(s@));
}

pub proof fn lemma_texts_take_next(v: Seq<String>, i: int)
    requires
        0 <= i < v.len(),
    ensures
        texts(v).take(i + 1) == texts(v).take(i).push(v[i]@),
        texts(v).take(i + 1).drop_last() == texts(v).take(i),
        texts(v).take(i + 1).last() == v[i]@,
{
    assert(texts(v).take(i + 1) =~= texts(v).take(i).push(v[i]@));
    assert(texts(v).take(i + 1).drop_last() =~= texts(v).take(i));
}

// ---------------------------------------------------------------------------
// Characters
// ---------------------------------------------------------------------------

/// The characters with the Unicode property `White_Space`.
pub open spec fn is_whitespace(c: char) -> bool {
    ||| '\u{9}' <= c && c <= '\u{d}'
    ||| c == ' '
    ||| c == '\u{85}'
    ||| c == '\u{a0}'
    ||| c == '\u{1680}'
    ||| '\u{2000}' <= c && c <= '\u{200a}'
    ||| c == '\u{2028}'
    ||| c == '\u{2029}'
    ||| c == '\u{202f}'
    ||| c == '\u{205f}'
    ||| c == '\u{3000}'
}

pub fn whitespace(c: char) -> (r: bool)
    ensures
        r == is_whitespace(c),
{
    ('\u{9}' <= c && c <= '\u{d}') || c == ' ' || c == '\u{85}' || c == '\u{a0}' || c == '\u{1680}'
        || ('\u{2000}' <= c && c <= '\u{200a}') || c == '\u{2028}' || c == '\u{2029}'
        || c == '\u{202f}' || c == '\u{205f}' || c == '\u{3000}'
}

pub open spec fn is_ascii_digit(c: char) -> bool {
    '0' <= c && c <= '9'
}

pub open spec fn is_ascii_upper(c: char) -> bool {
    'A' <= c && c <= 'Z'
}

pub open spec fn is_ascii_lower(c: char) -> bool {
    'a' <= c && c <= 'z'
}

pub open spec fn is_ascii_alphabetic(c: char) -> bool {
    is_ascii_upper(c) || is_ascii_lower(c)
}

pub open spec fn is_ascii_alphanumeric(c: char) -> bool {
    is_ascii_alphabetic(c) || is_ascii_digit(c)
}

pub fn ascii_digit(c: char) -> (r: bool)
    ensures
        r == is_ascii_digit(c),
{
    '0' <= c && c <= '9'
}

pub fn ascii_alphabetic(c: char) -> (r: bool)
    ensures
        r == is_ascii_alphabetic(c),
{
    ('A' <= c && c <= 'Z') || ('a' <= c && c <= 'z')
}

pub fn ascii_alphanumeric(c: char) -> (r: bool)
    ensures
        r == is_ascii_alphanumeric(c),
{
    ascii_alphabetic(c) || ascii_digit(c)
}

/// `c` with an ASCII capital letter replaced by its small letter.
pub open spec fn lower_char(c: char) -> char {
    if is_ascii_upper(c) {
        (c as u32 + 32) as char
    } else {
        c
    }
}

pub fn ascii_lower_char(c: char) -> (r: char)
    ensures
        r == lower_char(c),
{
    if 'A' <= c && c <= 'Z' {
        let code: u8 = c as u8 + 32;
        code as char
    } else {
        c
    }
}

/// The text with every ASCII capital letter replaced by its small letter.
pub open spec fn lower(s: Seq<char>) -> Seq<char> {
    s.map_values(|c: char| lower_char(c))
}

// ---------------------------------------------------------------------------
// Conversions
// ---------------------------------------------------------------------------

pub fn chars_of(s: &str) -> (v: Vec<char>)
    ensures
        v@ == s@,
{
    let mut v: Vec<char> = Vec::new();
    for c in it: s.chars()
        invariant
            v@ == s@.take(it.index()),
            it.seq() == s@,
    {
        proof {
            assert(s@.take(it.index() + 1) =~= s@.take(it.index()).push(c));
        }
        v.push(c);
    }
    proof {
        assert(s@.take(s@.len() as int) =~= s@);
    }
    v
}

pub fn string_of(v: &Vec<char>) -> (s: String)
    ensures
        s@ == v@,
{
    string_of_range(v, 0, v.len())
}

/// The string of the characters `from..to`.
pub fn string_of_range(v: &Vec<char>, from: usize, to: usize) -> (s: String)
    requires
        from <= to <= v.len(),
    ensures
        s@ == v@.subrange(from as int, to as int),
{
    let mut s = String::new();
    let mut i: usize = from;
    while i < to
        invariant
            from <= i <= to <= v.len(),
            s@ == v@.subrange(from as int, i as int),
        decreases to - i,
    {
        s.push(v[i]);
        i = i + 1;
        proof {
            assert(v@.subrange(from as int, i as int) =~= v@.subrange(from as int, i - 1).push(
                v@[i - 1],
            ));
        }
    }
    s
}

pub fn chars_range(v: &Vec<char>, from: usize, to: usize) -> (r: Vec<char>)
    requires
        from <= to <= v.len(),
    ensures
        r@ == v@.subrange(from as int, to as int),
{
    let mut r: Vec<char> = Vec::new();
    let mut i: usize = from;
    while i < to
        invariant
            from <= i <= to <= v.len(),
            r@ == v@.subrange(from as int, i as int),
        decreases to - i,
    {
        r.push(v[i]);
        i = i + 1;
        proof {
            assert(v@.subrange(from as int, i as int) =~= v@.subrange(from as int, i - 1).push(
                v@[i - 1],
            ));
        }
    }
    r
}

/// Appends the characters of `other` to `v`.
pub fn push_chars(v: &mut Vec<char>, other: &Vec<char>)
    ensures
        final(v)@ == old(v)@ + other@,
{
    push_chars_range(v, other, 0, other.len());
    proof {
        assert(other@.subrange(0, other@.len() as int) =~= other@);
    }
}

/// Appends the characters `from..to` of `other` to `v`.
pub fn push_chars_range(v: &mut Vec<char>, other: &Vec<char>, from: usize, to: usize)
    requires
        from <= to <= other.len(),
    ensures
        final(v)@ == old(v)@ + other@.subrange(from as int, to as int),
{
    let ghost before = v@;
    let mut i: usize = from;
    while i < to
        invariant
            from <= i <= to <= other.len(),
            v@ == before + other@.subrange(from as int, i as int),
        decreases to - i,
    {
        v.push(other[i]);
        i = i + 1;
        proof {
            assert(other@.subrange(from as int, i as int) =~= other@.subrange(
                from as int,
                i - 1,
            ).push(other@[i - 1]));
        }
    }
}

/// The number of characters.
pub fn char_count(s: &str) -> (n: usize)
    ensures
        n == s@.len(),
{
    chars_of(s).len()
}

pub fn owned(s: &str) -> (r: String)
    ensures
        r@ == s@,
{
    s.to_owned()
}

pub fn to_lower(s: &str) -> (r: String)
    ensures
        r@ == lower(s@),
{
    let v = chars_of(s);
    let mut out = String::new();
    let mut i: usize = 0;
    while i < v.len()
        invariant
            i <= v.len(),
            v@ == s@,
            out@ == lower(v@).take(i as int),
        decreases v.len() - i,
    {
        out.push(ascii_lower_char(v[i]));
        i = i + 1;
        proof {
            assert(lower(v@).take(i as int) =~= lower(v@).take(i - 1).push(lower_char(v@[i - 1])));
        }
    }
    proof {
        assert(lower(v@).take(v@.len() as int) =~= lower(v@));
    }
    out
}

/// The first `n` characters, or all of them where there are fewer.
pub open spec fn head(s: Seq<char>, n: int) -> Seq<char> {
    if n < s.len() {
        s.take(n)
    } else {
        s
    }
}

pub fn head_string(s: &str, n: usize) -> (r: String)
    ensures
        r@ == head(s@, n as int),
{
    let v = chars_of(s);
    if n < v.len() {
        string_of_range(&v, 0, n)
    } else {
        owned(s)
    }
}

/// The first `n` characters, with `...` after them where something was left out.
pub open spec fn clipped(s: Seq<char>, n: int) -> Seq<char> {
    if s.len() <= n {
        s
    } else {
        s.take(n) + "..."@
    }
}

pub fn clip(s: &str, n: usize) -> (r: String)
    ensures
        r@ == clipped(s@, n as int),
{
    let v = chars_of(s);
    if v.len() <= n {
        owned(s)
    } else {
        let mut r = string_of_range(&v, 0, n);
        r.append("...");
        r
    }
}

// ---------------------------------------------------------------------------
// Comparison and search
// ---------------------------------------------------------------------------

pub fn same_chars(a: &Vec<char>, b: &Vec<char>) -> (r: bool)
    ensures
        r == (a@ == b@),
{
    if a.len() != b.len() {
        return false;
    }
    let mut i: usize = 0;
    while i < a.len()
        invariant
            i <= a.len(),
            a.len() == b.len(),
            forall|k: int| 0 <= k < i ==> a@[k] == b@[k],
        decreases a.len() - i,
    {
        if a[i] != b[i] {
            return false;
        }
        i = i + 1;
    }
    proof {
        assert(a@ =~= b@);
    }
    true
}

pub fn same(a: &str, b: &str) -> (r: bool)
    ensures
        r == (a@ == b@),
{
    let x = chars_of(a);
    let y = chars_of(b);
    same_chars(&x, &y)
}

/// `n` stands in `h` from position `i` on.
pub open spec fn occurs_at(h: Seq<char>, n: Seq<char>, i: int) -> bool {
    &&& 0 <= i
    &&& i + n.len() <= h.len()
    &&& h.subrange(i, i + n.len()) == n
}

/// The first position from `i` on at which `n` stands in `h`.
pub open spec fn find_from(h: Seq<char>, n: Seq<char>, i: int) -> Option<int>
    decreases h.len() + 1 - i,
{
    if i < 0 || i + n.len() > h.len() {
        None
    } else if occurs_at(h, n, i) {
        Some(i)
    } else {
        find_from(h, n, i + 1)
    }
}

pub open spec fn find(h: Seq<char>, n: Seq<char>) -> Option<int> {
    find_from(h, n, 0)
}

pub open spec fn contains(h: Seq<char>, n: Seq<char>) -> bool {
    exists|i: int| occurs_at(h, n, i)
}

pub open spec fn starts_with(h: Seq<char>, n: Seq<char>) -> bool {
    occurs_at(h, n, 0)
}

pub open spec fn ends_with(h: Seq<char>, n: Seq<char>) -> bool {
    occurs_at(h, n, h.len() - n.len())
}

/// `find_from` gives the least position: `n` stands there and at no earlier one
/// from `i` on; without a position it stands nowhere from `i` on.
pub proof fn lemma_find_from(h: Seq<char>, n: Seq<char>, i: int)
    requires
        0 <= i,
    ensures
        match find_from(h, n, i) {
            Some(j) => i <= j && occurs_at(h, n, j) && forall|k: int|
                i <= k < j ==> !occurs_at(h, n, k),
            None => forall|k: int| i <= k ==> !occurs_at(h, n, k),
        },
    decreases h.len() + 1 - i,
{
    if i + n.len() > h.len() {
    } else if occurs_at(h, n, i) {
    } else {
        lemma_find_from(h, n, i + 1);
    }
}

pub proof fn lemma_contains_find(h: Seq<char>, n: Seq<char>)
    ensures
        contains(h, n) == (find(h, n) is Some),
{
    lemma_find_from(h, n, 0);
}

pub fn matches_at(h: &Vec<char>, n: &Vec<char>, i: usize) -> (r: bool)
    ensures
        r == occurs_at(h@, n@, i as int),
{
    if n.len() > h.len() || i > h.len() - n.len() {
        return false;
    }
    let mut k: usize = 0;
    while k < n.len()
        invariant
            k <= n.len(),
            i + n.len() <= h.len(),
            forall|j: int| 0 <= j < k ==> h@[i + j] == n@[j],
        decreases n.len() - k,
    {
        if h[i + k] != n[k] {
            proof {
                assert(h@.subrange(i as int, i + n@.len())[k as int] != n@[k as int]);
            }
            return false;
        }
        k = k + 1;
    }
    proof {
        assert(h@.subrange(i as int, i + n@.len()) =~= n@);
    }
    true
}

pub fn find_chars(h: &Vec<char>, n: &Vec<char>, from: usize) -> (r: Option<usize>)
    ensures
        match r {
            Some(j) => find_from(h@, n@, from as int) == Some(j as int),
            None => find_from(h@, n@, from as int) is None,
        },
{
    if n.len() > h.len() {
        return None;
    }
    let mut i: usize = from;
    while i <= h.len() - n.len()
        invariant
            n.len() <= h.len(),
            from <= i,
            i <= h.len() - n.len() + 1 || i == from,
            find_from(h@, n@, from as int) == find_from(h@, n@, i as int),
        decreases h.len() - i,
    {
        if matches_at(h, n, i) {
            return Some(i);
        }
        if i == h.len() - n.len() {
            proof {
                assert(find_from(h@, n@, i + 1) is None);
            }
            return None;
        }
        i = i + 1;
    }
    None
}

pub fn has(h: &str, n: &str) -> (r: bool)
    ensures
        r == contains(h@, n@),
{
    let x = chars_of(h);
    let y = chars_of(n);
    proof {
        lemma_contains_find(h@, n@);
    }
    find_chars(&x, &y, 0).is_some()
}

pub fn has_prefix(h: &str, n: &str) -> (r: bool)
    ensures
        r == starts_with(h@, n@),
{
    let x = chars_of(h);
    let y = chars_of(n);
    matches_at(&x, &y, 0)
}

pub fn has_suffix(h: &str, n: &str) -> (r: bool)
    ensures
        r == ends_with(h@, n@),
{
    let x = chars_of(h);
    let y = chars_of(n);
    if y.len() > x.len() {
        return false;
    }
    matches_at(&x, &y, x.len() - y.len())
}

/// The rest of the text after the prefix `p`.
pub open spec fn after_prefix(s: Seq<char>, p: Seq<char>) -> Option<Seq<char>> {
    if starts_with(s, p) {
        Some(s.skip(p.len() as int))
    } else {
        None
    }
}

pub fn strip_prefix(s: &str, p: &str) -> (r: Option<String>)
    ensures
        opt_text(r) == after_prefix(s@, p@),
{
    let x = chars_of(s);
    let y = chars_of(p);
    if matches_at(&x, &y, 0) {
        let rest = string_of_range(&x, y.len(), x.len());
        proof {
            assert(rest@ =~= s@.skip(p@.len() as int));
        }
        Some(rest)
    } else {
        None
    }
}

/// The text before the suffix `p`.
pub open spec fn before_suffix(s: Seq<char>, p: Seq<char>) -> Option<Seq<char>> {
    if ends_with(s, p) {
        Some(s.take(s.len() - p.len()))
    } else {
        None
    }
}

pub fn strip_suffix(s: &str, p: &str) -> (r: Option<String>)
    ensures
        opt_text(r) == before_suffix(s@, p@),
{
    let x = chars_of(s);
    let y = chars_of(p);
    if y.len() <= x.len() && matches_at(&x, &y, x.len() - y.len()) {
        let rest = string_of_range(&x, 0, x.len() - y.len());
        Some(rest)
    } else {
        None
    }
}

/// The two sides of the first `d` in the text.
pub open spec fn split_at_first(s: Seq<char>, d: Seq<char>) -> Option<(Seq<char>, Seq<char>)> {
    match find(s, d) {
        Some(i) => Some((s.take(i), s.skip(i + d.len()))),
        None => None,
    }
}

pub fn split_once(s: &str, d: &str) -> (r: Option<(String, String)>)
    ensures
        match r {
            Some(p) => split_at_first(s@, d@) == Some((p.0@, p.1@)),
            None => split_at_first(s@, d@) is None,
        },
{
    let x = chars_of(s);
    let y = chars_of(d);
    match find_chars(&x, &y, 0) {
        Some(i) => {
            proof {
                lemma_find_from(s@, d@, 0);
                assert(occurs_at(x@, y@, i as int));
            }
            let left = string_of_range(&x, 0, i);
            let total: usize = x.len();
            let right = string_of_range(&x, i + y.len(), total);
            proof {
                assert(right@ =~= s@.skip(i + d@.len()));
            }
            Some((left, right))
        },
        None => None,
    }
}

pub fn has_char(s: &str, c: char) -> (r: bool)
    ensures
        r == s@.contains(c),
{
    let v = chars_of(s);
    let mut i: usize = 0;
    while i < v.len()
        invariant
            i <= v.len(),
            v@ == s@,
            forall|k: int| 0 <= k < i ==> v@[k] != c,
        decreases v.len() - i,
    {
        if v[i] == c {
            return true;
        }
        i = i + 1;
    }
    false
}

// ---------------------------------------------------------------------------
// Trimming
// ---------------------------------------------------------------------------

/// A set of characters to trim.
#[derive(Clone, Copy)]
pub enum CharClass {
    /// White space.
    Space,
    /// Quotes and brackets that open a quotation.
    Opening,
    /// Quotes, brackets and punctuation that end a phrase.
    Closing,
    /// One character.
    Only(char),
}

pub open spec fn in_class(c: char, k: CharClass) -> bool {
    match k {
        CharClass::Space => is_whitespace(c),
        CharClass::Opening => opening_wrapper(c),
        CharClass::Closing => closing_wrapper(c),
        CharClass::Only(x) => c == x,
    }
}

pub open spec fn opening_wrapper(c: char) -> bool {
    c == '"' || c == '\'' || c == '<' || c == '(' || c == '[' || c == '{' || c == '“' || c == '‘'
        || c == '（' || c == '【' || c == '《'
}

pub open spec fn closing_wrapper(c: char) -> bool {
    c == '"' || c == '\'' || c == '>' || c == ')' || c == ']' || c == '}' || c == ',' || c == '.'
        || c == '!' || c == '?' || c == ';' || c == ':' || c == '”' || c == '’' || c == '）'
        || c == '】' || c == '》' || c == '，' || c == '。' || c == '！' || c == '？' || c == '；'
        || c == '：'
}

pub fn is_opening_wrapper(c: char) -> (r: bool)
    ensures
        r == opening_wrapper(c),
{
    c == '"' || c == '\'' || c == '<' || c == '(' || c == '[' || c == '{' || c == '“' || c == '‘'
        || c == '（' || c == '【' || c == '《'
}

pub fn is_trailing_wrapper_or_punct(c: char) -> (r: bool)
    ensures
        r == closing_wrapper(c),
{
    c == '"' || c == '\'' || c == '>' || c == ')' || c == ']' || c == '}' || c == ',' || c == '.'
        || c == '!' || c == '?' || c == ';' || c == ':' || c == '”' || c == '’' || c == '）'
        || c == '】' || c == '》' || c == '，' || c == '。' || c == '！' || c == '？' || c == '；'
        || c == '：'
}

pub fn class_has(k: CharClass, c: char) -> (r: bool)
    ensures
        r == in_class(c, k),
{
    match k {
        CharClass::Space => whitespace(c),
        CharClass::Opening => is_opening_wrapper(c),
        CharClass::Closing => is_trailing_wrapper_or_punct(c),
        CharClass::Only(x) => c == x,
    }
}

/// The text without the leading characters of the class.
pub open spec fn drop_leading(s: Seq<char>, k: CharClass) -> Seq<char>
    decreases s.len(),
{
    if s.len() > 0 && in_class(s[0], k) {
        drop_leading(s.drop_first(), k)
    } else {
        s
    }
}

/// The text without the trailing characters of the class.
pub open spec fn drop_trailing(s: Seq<char>, k: CharClass) -> Seq<char>
    decreases s.len(),
{
    if s.len() > 0 && in_class(s.last(), k) {
        drop_trailing(s.drop_last(), k)
    } else {
        s
    }
}

/// The text without white space at both ends.
pub open spec fn trim(s: Seq<char>) -> Seq<char> {
    drop_trailing(drop_leading(s, CharClass::Space), CharClass::Space)
}

pub open spec fn trim_end(s: Seq<char>) -> Seq<char> {
    drop_trailing(s, CharClass::Space)
}

pub open spec fn trim_start(s: Seq<char>) -> Seq<char> {
    drop_leading(s, CharClass::Space)
}

pub proof fn lemma_drop_leading_len(s: Seq<char>, k: CharClass)
    ensures
        drop_leading(s, k).len() <= s.len(),
        drop_leading(s, k).len() > 0 ==> !in_class(drop_leading(s, k)[0], k),
        drop_leading(s, k) == s.skip(s.len() - drop_leading(s, k).len()),
    decreases s.len(),
{
    if s.len() > 0 && in_class(s[0], k) {
        lemma_drop_leading_len(s.drop_first(), k);
        let r = drop_leading(s, k);
        assert(s.skip(s.len() - r.len()) =~= s.drop_first().skip(s.drop_first().len() - r.len()));
    } else {
        assert(s.skip(0) =~= s);
    }
}

pub proof fn lemma_drop_trailing_len(s: Seq<char>, k: CharClass)
    ensures
        drop_trailing(s, k).len() <= s.len(),
        drop_trailing(s, k).len() > 0 ==> !in_class(drop_trailing(s, k).last(), k),
        drop_trailing(s, k) == s.take(drop_trailing(s, k).len() as int),
    decreases s.len(),
{
    if s.len() > 0 && in_class(s.last(), k) {
        lemma_drop_trailing_len(s.drop_last(), k);
        let r = drop_trailing(s, k);
        assert(s.take(r.len() as int) =~= s.drop_last().take(r.len() as int));
    } else {
        assert(s.take(s.len() as int) =~= s);
    }
}

/// A trimmed text begins and ends with a character that is not white space.
pub proof fn lemma_trim_ends(s: Seq<char>)
    ensures
        trim(s).len() > 0 ==> !is_whitespace(trim(s)[0]) && !is_whitespace(trim(s).last()),
{
    lemma_drop_leading_len(s, CharClass::Space);
    lemma_drop_trailing_len(drop_leading(s, CharClass::Space), CharClass::Space);
}

/// A text that trims to nothing consists of white space.
pub proof fn lemma_trim_blank(s: Seq<char>)
    requires
        trim(s).len() == 0,
    ensures
        forall|i: int| 0 <= i < s.len() ==> is_whitespace(s[i]),
    decreases s.len(),
{
    if s.len() > 0 {
        if is_whitespace(s[0]) {
            lemma_trim_blank(s.drop_first());
            assert forall|i: int| 0 <= i < s.len() implies is_whitespace(s[i]) by {
                if i > 0 {
                    assert(s.drop_first()[i - 1] == s[i]);
                }
            }
        } else {
            lemma_drop_trailing_keeps(s, 0);
        }
    }
}

proof fn lemma_drop_trailing_keeps(s: Seq<char>, i: int)
    requires
        0 <= i < s.len(),
        !is_whitespace(s[i]),
    ensures
        trim_end(s).len() > i,
    decreases s.len(),
{
    if is_whitespace(s.last()) {
        lemma_drop_trailing_keeps(s.drop_last(), i);
    }
}

/// Trimming a trimmed text changes nothing.
pub proof fn lemma_trim_idempotent(s: Seq<char>)
    ensures
        trim(trim(s)) == trim(s),
{
    lemma_trim_ends(s);
}

pub fn trim_leading_chars(v: &Vec<char>, k: CharClass) -> (r: Vec<char>)
    ensures
        r@ == drop_leading(v@, k),
{
    let mut i: usize = 0;
    proof {
        assert(v@.skip(0) =~= v@);
    }
    while i < v.len() && class_has(k, v[i])
        invariant
            i <= v.len(),
            drop_leading(v@, k) == drop_leading(v@.skip(i as int), k),
        decreases v.len() - i,
    {
        proof {
            assert(v@.skip(i as int).drop_first() =~= v@.skip(i + 1));
        }
        i = i + 1;
    }
    let r = chars_range(v, i, v.len());
    proof {
        assert(r@ =~= v@.skip(i as int));
    }
    r
}

pub fn trim_trailing_chars(v: &Vec<char>, k: CharClass) -> (r: Vec<char>)
    ensures
        r@ == drop_trailing(v@, k),
{
    let mut i: usize = v.len();
    proof {
        assert(v@.take(v@.len() as int) =~= v@);
    }
    while i > 0 && class_has(k, v[i - 1])
        invariant
            i <= v.len(),
            drop_trailing(v@, k) == drop_trailing(v@.take(i as int), k),
        decreases i,
    {
        proof {
            assert(v@.take(i as int).drop_last() =~= v@.take(i - 1));
        }
        i = i - 1;
    }
    chars_range(v, 0, i)
}

pub fn trim_chars(v: &Vec<char>) -> (r: Vec<char>)
    ensures
        r@ == trim(v@),
{
    let left = trim_leading_chars(v, CharClass::Space);
    trim_trailing_chars(&left, CharClass::Space)
}

pub fn trimmed(s: &str) -> (r: String)
    ensures
        r@ == trim(s@),
{
    let v = chars_of(s);
    let t = trim_chars(&v);
    string_of(&t)
}

// ---------------------------------------------------------------------------
// Splitting and joining
// ---------------------------------------------------------------------------

/// The pieces of a text between the occurrences of the character `c`.
pub open spec fn split_char(s: Seq<char>, c: char) -> Seq<Seq<char>>
    decreases s.len(),
{
    if s.len() == 0 {
        seq![Seq::empty()]
    } else {
        let before = split_char(s.drop_last(), c);
        if s.last() == c {
            before.push(Seq::empty())
        } else {
            before.drop_last().push(before.last().push(s.last()))
        }
    }
}

pub proof fn lemma_split_char_nonempty(s: Seq<char>, c: char)
    ensures
        split_char(s, c).len() >= 1,
    decreases s.len(),
{
    if s.len() > 0 {
        lemma_split_char_nonempty(s.drop_last(), c);
    }
}

pub fn split_by_char(s: &str, c: char) -> (r: Vec<String>)
    ensures
        texts(r@) == split_char(s@, c),
{
    let v = chars_of(s);
    let mut done: Vec<String> = Vec::new();
    let mut current = String::new();
    let mut i: usize = 0;
    proof {
        assert(texts(done@).push(current@) =~= split_char(v@.take(0), c));
    }
    while i < v.len()
        invariant
            i <= v.len(),
            v@ == s@,
            texts(done@).push(current@) == split_char(v@.take(i as int), c),
        decreases v.len() - i,
    {
        let ghost before = texts(done@).push(current@);
        let ghost prefix = v@.take(i + 1);
        proof {
            assert(prefix.drop_last() =~= v@.take(i as int));
            assert(before.drop_last() =~= texts(done@));
        }
        if v[i] == c {
            let ghost old_done = done@;
            let piece = current;
            proof {
                lemma_texts_push(old_done, piece);
            }
            done.push(piece);
            current = String::new();
            proof {
                assert(texts(done@).push(current@) =~= before.push(Seq::empty()));
            }
        } else {
            current.push(v[i]);
            proof {
                assert(texts(done@).push(current@) =~= before.drop_last().push(
                    before.last().push(v@[i as int]),
                ));
            }
        }
        i = i + 1;
    }
    proof {
        assert(v@.take(v@.len() as int) =~= v@);
        lemma_texts_push(done@, current);
    }
    done.push(current);
    done
}

/// A line without the carriage return that ends it.
pub open spec fn without_return(s: Seq<char>) -> Seq<char> {
    if s.len() > 0 && s.last() == '\r' {
        s.drop_last()
    } else {
        s
    }
}

/// The first `n` lines among the pieces of `split_char(.., '\n')`.
pub open spec fn line_pieces(pieces: Seq<Seq<char>>) -> Seq<Seq<char>> {
    Seq::new(pieces.len(), |i: int| without_return(pieces[i]))
}

/// The lines of a text: `\n` or `\r\n` ends a line; nothing after the last line
/// end is no line.
pub open spec fn lines(s: Seq<char>) -> Seq<Seq<char>> {
    let pieces = split_char(s, '\n');
    let ended = line_pieces(pieces.drop_last());
    if pieces.last().len() == 0 {
        ended
    } else {
        ended.push(pieces.last())
    }
}

fn drop_return(s: String) -> (r: String)
    ensures
        r@ == without_return(s@),
{
    let v = chars_of(s.as_str());
    if v.len() > 0 && v[v.len() - 1] == '\r' {
        let r = string_of_range(&v, 0, v.len() - 1);
        proof {
            assert(r@ =~= s@.drop_last());
        }
        r
    } else {
        s
    }
}

pub fn split_lines(s: &str) -> (r: Vec<String>)
    ensures
        texts(r@) == lines(s@),
{
    let pieces = split_by_char(s, '\n');
    proof {
        lemma_split_char_nonempty(s@, '\n');
        assert(texts(pieces@).len() == pieces@.len());
    }
    let n: usize = pieces.len() - 1;
    let ghost all = split_char(s@, '\n');
    let mut out: Vec<String> = Vec::new();
    let mut i: usize = 0;
    proof {
        assert(texts(out@) =~= line_pieces(all.drop_last()).take(0));
    }
    while i < n
        invariant
            i <= n,
            n + 1 == pieces.len(),
            texts(pieces@) == all,
            texts(out@) == line_pieces(all.drop_last()).take(i as int),
        decreases n - i,
    {
        let line = drop_return(pieces[i].clone());
        let ghost old_out = out@;
        proof {
            assert(pieces@[i as int]@ == all[i as int]);
            lemma_texts_push(old_out, line);
        }
        out.push(line);
        i = i + 1;
        proof {
            assert(line_pieces(all.drop_last()).take(i as int) =~= line_pieces(
                all.drop_last(),
            ).take(i - 1).push(without_return(all[i - 1])));
        }
    }
    proof {
        assert(line_pieces(all.drop_last()).take(n as int) =~= line_pieces(all.drop_last()));
        assert(pieces@[n as int]@ == all.last());
    }
    let last = pieces[n].clone();
    if !last.as_str().is_empty() {
        proof {
            lemma_texts_push(out@, last);
        }
        out.push(last);
    }
    out
}

/// The maximal runs of characters that are not white space.
pub open spec fn words(s: Seq<char>) -> Seq<Seq<char>>
    decreases s.len(),
{
    if s.len() == 0 {
        Seq::empty()
    } else {
        let before = words(s.drop_last());
        let c = s.last();
        if is_whitespace(c) {
            before
        } else if s.len() >= 2 && !is_whitespace(s[s.len() - 2]) {
            before.drop_last().push(before.last().push(c))
        } else {
            before.push(seq![c])
        }
    }
}

pub fn split_words(s: &str) -> (r: Vec<String>)
    ensures
        texts(r@) == words(s@),
{
    let v = chars_of(s);
    let mut done: Vec<String> = Vec::new();
    let mut current = String::new();
    let mut open = false;
    let mut i: usize = 0;
    proof {
        assert(texts(done@) =~= words(v@.take(0)));
    }
    while i < v.len()
        invariant
            i <= v.len(),
            v@ == s@,
            open == (i > 0 && !is_whitespace(v@[i - 1])),
            !open ==> current@.len() == 0,
            words(v@.take(i as int)) == if open {
                texts(done@).push(current@)
            } else {
                texts(done@)
            },
        decreases v.len() - i,
    {
        let ghost prefix = v@.take(i + 1);
        let ghost old_done = done@;
        let ghost old_current = current@;
        proof {
            assert(prefix.drop_last() =~= v@.take(i as int));
        }
        if whitespace(v[i]) {
            if open {
                let piece = current;
                proof {
                    lemma_texts_push(old_done, piece);
                }
                done.push(piece);
                current = String::new();
                open = false;
            }
        } else {
            current.push(v[i]);
            proof {
                if open {
                    assert(texts(old_done).push(old_current).drop_last() =~= texts(old_done));
                } else {
                    assert(current@ =~= seq![v@[i as int]]);
                }
            }
            open = true;
        }
        i = i + 1;
    }
    proof {
        assert(v@.take(v@.len() as int) =~= v@);
    }
    if open {
        proof {
            lemma_texts_push(done@, current);
        }
        done.push(current);
    }
    done
}

/// The parts with `sep` between each two of them.
pub open spec fn join(parts: Seq<Seq<char>>, sep: Seq<char>) -> Seq<char>
    decreases parts.len(),
{
    if parts.len() == 0 {
        Seq::empty()
    } else if parts.len() == 1 {
        parts[0]
    } else {
        join(parts.drop_last(), sep) + sep + parts.last()
    }
}

/// The joined text as a string.
pub fn join_strings(parts: &[String], sep: &str) -> (r: String)
    ensures
        r@ == join(texts(parts@), sep@),
{
    let mut out = String::new();
    let mut i: usize = 0;
    proof {
        assert(texts(parts@).take(0) =~= Seq::empty());
    }
    while i < parts.len()
        invariant
            i <= parts.len(),
            out@ == join(texts(parts@).take(i as int), sep@),
        decreases parts.len() - i,
    {
        proof {
            lemma_texts_take_next(parts@, i as int);
        }
        if i > 0 {
            out.append(sep);
        }
        out.append(parts[i].as_str());
        proof {
            if i == 0 {
                assert(out@ =~= parts@[0]@);
            }
        }
        i = i + 1;
    }
    proof {
        assert(texts(parts@).take(parts@.len() as int) =~= texts(parts@));
    }
    out
}

/// Joining one part more appends the separator and the part.
pub proof fn lemma_join_push(parts: Seq<Seq<char>>, last: Seq<char>, sep: Seq<char>)
    ensures
        parts.len() > 0 ==> join(parts.push(last), sep) == join(parts, sep) + sep + last,
        parts.len() == 0 ==> join(parts.push(last), sep) == last,
{
    assert(parts.push(last).drop_last() =~= parts);
}

/// Copies an optional string.
pub fn copy_opt(o: &Option<String>) -> (r: Option<String>)
    ensures
        opt_text(r) == opt_text(*o),
{
    match o {
        Some(s) => Some(s.clone()),
        None => None,
    }
}

/// The string of an optional string slice.
pub fn owned_opt(o: Option<&str>) -> (r: Option<String>)
    ensures
        opt_text(r) == opt_str(o),
{
    match o {
        Some(s) => Some(owned(s)),
        None => None,
    }
}

/// Whether two optional strings hold the same text.
pub fn same_opt(a: &Option<String>, b: &Option<String>) -> (r: bool)
    ensures
        r == (opt_text(*a) == opt_text(*b)),
{
    match (a, b) {
        (Some(x), Some(y)) => same(x.as_str(), y.as_str()),
        (None, None) => true,
        _ => false,
    }
}

/// Copies the strings `from..to`.
pub fn copy_strings(v: &[String], from: usize, to: usize) -> (r: Vec<String>)
    requires
        from <= to <= v.len(),
    ensures
        r@ == v@.subrange(from as int, to as int),
{
    let mut r: Vec<String> = Vec::new();
    let mut i: usize = from;
    while i < to
        invariant
            from <= i <= to <= v.len(),
            r@ == v@.subrange(from as int, i as int),
        decreases to - i,
    {
        r.push(v[i].clone());
        i = i + 1;
        proof {
            assert(v@.subrange(from as int, i as int) =~= v@.subrange(from as int, i - 1).push(
                v@[i - 1],
            ));
        }
    }
    r
}

/// Appends a copy of `s` to the list.
pub fn push_text(v: &mut Vec<String>, s: &str)
    ensures
        texts(final(v)@) == texts(old(v)@).push(s@),
{
    let t = owned(s);
    proof {
        lemma_texts_push(v@, t);
    }
    v.push(t);
}

// ---------------------------------------------------------------------------
// Replacing
// ---------------------------------------------------------------------------

/// The text from position `i` on with every `from` replaced by `to`, left to right.
pub open spec fn replace_from(s: Seq<char>, from: Seq<char>, to: Seq<char>, i: int) -> Seq<char>
    decreases s.len() - i,
    when 0 <= i && from.len() > 0
    via replace_from_decreases
{
    match find_from(s, from, i) {
        None => s.skip(i),
        Some(j) => s.subrange(i, j) + to + replace_from(s, from, to, j + from.len()),
    }
}

#[via_fn]
proof fn replace_from_decreases(s: Seq<char>, from: Seq<char>, to: Seq<char>, i: int) {
    lemma_find_from(s, from, i);
}

/// The text with every `from` replaced by `to`, left to right.
pub open spec fn replace(s: Seq<char>, from: Seq<char>, to: Seq<char>) -> Seq<char> {
    replace_from(s, from, to, 0)
}

pub fn replace_chars(v: &Vec<char>, from: &Vec<char>, to: &Vec<char>) -> (r: Vec<char>)
    requires
        from@.len() > 0,
    ensures
        r@ == replace(v@, from@, to@),
{
    let mut out: Vec<char> = Vec::new();
    let mut i: usize = 0;
    proof {
        assert(out@ + replace_from(v@, from@, to@, 0) =~= replace(v@, from@, to@));
    }
    loop
        invariant
            i <= v.len(),
            from@.len() > 0,
            out@ + replace_from(v@, from@, to@, i as int) == replace(v@, from@, to@),
        decreases v.len() - i,
    {
        match find_chars(v, from, i) {
            None => {
                push_chars_range(&mut out, v, i, v.len());
                proof {
                    assert(v@.subrange(i as int, v@.len() as int) =~= v@.skip(i as int));
                }
                return out;
            },
            Some(j) => {
                proof {
                    lemma_find_from(v@, from@, i as int);
                }
                let ghost before = out@;
                push_chars_range(&mut out, v, i, j);
                push_chars(&mut out, to);
                proof {
                    let rest = replace_from(v@, from@, to@, j + from@.len());
                    assert(before + (v@.subrange(i as int, j as int) + to@ + rest) =~= out@ + rest);
                }
                i = j + from.len();
            },
        }
    }
}

pub fn replaced(s: &str, from: &str, to: &str) -> (r: String)
    requires
        from@.len() > 0,
    ensures
        r@ == replace(s@, from@, to@),
{
    let v = chars_of(s);
    let f = chars_of(from);
    let t = chars_of(to);
    let r = replace_chars(&v, &f, &t);
    string_of(&r)
}

// ---------------------------------------------------------------------------
// Numbers
// ---------------------------------------------------------------------------

pub open spec fn digit_char(d: nat) -> char {
    (48 + d) as char
}

/// The decimal digits of a number.
pub open spec fn decimal(n: nat) -> Seq<char>
    decreases n,
{
    if n < 10 {
        seq![digit_char(n)]
    } else {
        decimal(n / 10).push(digit_char(n % 10))
    }
}

pub fn push_decimal(out: &mut String, n: u128)
    ensures
        final(out)@ == old(out)@ + decimal(n as nat),
    decreases n,
{
    if n >= 10 {
        push_decimal(out, n / 10);
    }
    let d: u8 = 48 + (n % 10) as u8;
    out.push(d as char);
}

pub fn push_usize(out: &mut String, n: usize)
    ensures
        final(out)@ == old(out)@ + decimal(n as nat),
{
    push_decimal(out, n as u128)
}

/// The decimal form of an integer, with a minus sign before a negative one.
pub open spec fn signed_decimal(n: int) -> Seq<char> {
    if n < 0 {
        "-"@ + decimal((-n) as nat)
    } else {
        decimal(n as nat)
    }
}

pub fn push_i64(out: &mut String, n: i64)
    ensures
        final(out)@ == old(out)@ + signed_decimal(n as int),
{
    let ghost before = out@;
    if n < 0 {
        out.append("-");
        let m: u128 = (-(n as i128)) as u128;
        push_decimal(out, m);
        proof {
            assert(out@ =~= before + ("-"@ + decimal((-n) as nat)));
        }
    } else {
        push_decimal(out, n as u128);
    }
}

/// The value of a digit in bases up to sixteen.
pub open spec fn digit_value(c: char) -> nat {
    if is_ascii_digit(c) {
        (c as nat - 48) as nat
    } else if 'a' <= c && c <= 'f' {
        (c as nat - 87) as nat
    } else if 'A' <= c && c <= 'F' {
        (c as nat - 55) as nat
    } else {
        16
    }
}

pub open spec fn all_digits(s: Seq<char>, radix: nat) -> bool {
    forall|i: int| 0 <= i < s.len() ==> digit_value(#[trigger] s[i]) < radix
}

/// The number that the digits of a text stand for.
pub open spec fn digits_value(s: Seq<char>, radix: nat) -> nat
    decreases s.len(),
{
    if s.len() == 0 {
        0
    } else {
        digits_value(s.drop_last(), radix) * radix + digit_value(s.last())
    }
}

/// The number that a text of digits stands for, with an optional plus sign before
/// it, where it fits 32 bits.
pub open spec fn unsigned_value(s: Seq<char>, radix: nat) -> Option<nat> {
    let t = if s.len() > 0 && s[0] == '+' {
        s.skip(1)
    } else {
        s
    };
    if t.len() > 0 && all_digits(t, radix) && digits_value(t, radix) <= u32::MAX {
        Some(digits_value(t, radix))
    } else {
        None
    }
}

proof fn lemma_digits_grow(s: Seq<char>, radix: nat, k: int)
    requires
        0 <= k <= s.len(),
        radix >= 1,
    ensures
        digits_value(s.take(k), radix) <= digits_value(s, radix),
    decreases s.len() - k,
{
    if k == s.len() {
        assert(s.take(k) =~= s);
    } else {
        lemma_digits_grow(s, radix, k + 1);
        assert(s.take(k + 1).drop_last() =~= s.take(k));
        let v = digits_value(s.take(k), radix);
        assert(v <= v * radix) by (nonlinear_arith)
            requires
                radix >= 1,
                v >= 0,
        ;
    }
}

fn digit_of(c: char) -> (d: u64)
    ensures
        d == digit_value(c),
        d <= 16,
{
    if ascii_digit(c) {
        (c as u32 - 48) as u64
    } else if 'a' <= c && c <= 'f' {
        (c as u32 - 87) as u64
    } else if 'A' <= c && c <= 'F' {
        (c as u32 - 55) as u64
    } else {
        16
    }
}

/// Reads an unsigned number in base `radix`.
pub fn parse_unsigned(s: &str, radix: u32) -> (r: Option<u32>)
    requires
        2 <= radix <= 16,
    ensures
        match r {
            Some(n) => unsigned_value(s@, radix as nat) == Some(n as nat),
            None => unsigned_value(s@, radix as nat) is None,
        },
{
    let all = chars_of(s);
    let v = if all.len() > 0 && all[0] == '+' {
        let rest = chars_range(&all, 1, all.len());
        proof {
            assert(rest@ =~= s@.skip(1));
        }
        rest
    } else {
        all
    };
    let base: u64 = radix as u64;
    if v.len() == 0 {
        return None;
    }
    let mut acc: u64 = 0;
    let mut i: usize = 0;
    while i < v.len()
        invariant
            i <= v.len(),
            2 <= base <= 16,
            base == radix,
            acc <= u32::MAX,
            acc == digits_value(v@.take(i as int), radix as nat),
            all_digits(v@.take(i as int), radix as nat),
            v@ == (if s@.len() > 0 && s@[0] == '+' {
                s@.skip(1)
            } else {
                s@
            }),
            v@.len() > 0,
        decreases v.len() - i,
    {
        let d: u64 = digit_of(v[i]);
        if d >= base {
            proof {
                assert(digit_value(v@[i as int]) >= radix);
            }
            return None;
        }
        let ghost before = v@.take(i as int);
        proof {
            assert(v@.take(i + 1).drop_last() =~= before);
            assert(acc * base <= u32::MAX * 16) by (nonlinear_arith)
                requires
                    acc <= u32::MAX,
                    base <= 16,
            ;
            assert(all_digits(v@.take(i + 1), radix as nat)) by {
                assert forall|k: int| 0 <= k < i + 1 implies digit_value(
                    #[trigger] v@.take(i + 1)[k],
                ) < radix by {
                    if k < i {
                        assert(before[k] == v@[k]);
                    }
                }
            }
        }
        acc = acc * base + d;
        if acc > u32::MAX as u64 {
            proof {
                lemma_digits_grow(v@, radix as nat, i + 1);
            }
            return None;
        }
        i = i + 1;
    }
    proof {
        assert(v@.take(v@.len() as int) =~= v@);
    }
    Some(acc as u32)
}

/// `a` comes before `b` in the order of the code points of their characters.
pub open spec fn text_before(a: Seq<char>, b: Seq<char>) -> bool
    decreases a.len(),
{
    if b.len() == 0 {
        false
    } else if a.len() == 0 {
        true
    } else if a[0] != b[0] {
        a[0] < b[0]
    } else {
        text_before(a.drop_first(), b.drop_first())
    }
}

pub fn is_before(a: &str, b: &str) -> (r: bool)
    ensures
        r == text_before(a@, b@),
{
    let x = chars_of(a);
    let y = chars_of(b);
    let mut i: usize = 0;
    proof {
        assert(x@.skip(0) =~= x@);
        assert(y@.skip(0) =~= y@);
    }
    while i < x.len() && i < y.len()
        invariant
            i <= x.len(),
            i <= y.len(),
            x@ == a@,
            y@ == b@,
            text_before(a@, b@) == text_before(x@.skip(i as int), y@.skip(i as int)),
        decreases x.len() - i,
    {
        if x[i] != y[i] {
            return x[i] < y[i];
        }
        proof {
            assert(x@.skip(i as int).drop_first() =~= x@.skip(i + 1));
            assert(y@.skip(i as int).drop_first() =~= y@.skip(i + 1));
        }
        i = i + 1;
    }
    i < y.len()
}

/// The order of texts is strict, and two texts neither of which comes first are equal.
pub proof fn lemma_text_order(a: Seq<char>, b: Seq<char>)
    ensures
        !(text_before(a, b) && text_before(b, a)),
        !text_before(a, b) && !text_before(b, a) ==> a == b,
        a == b ==> !text_before(a, b),
    decreases a.len(),
{
    if a.len() > 0 && b.len() > 0 && a[0] == b[0] {
        lemma_text_order(a.drop_first(), b.drop_first());
        if !text_before(a, b) && !text_before(b, a) {
            assert(a =~= seq![a[0]] + a.drop_first());
            assert(b =~= seq![b[0]] + b.drop_first());
        }
    } else if a.len() == 0 && b.len() == 0 {
        assert(a =~= b);
    }
}

pub proof fn lemma_text_order_transitive(a: Seq<char>, b: Seq<char>, c: Seq<char>)
    requires
        text_before(a, b),
        text_before(b, c),
    ensures
        text_before(a, c),
    decreases a.len(),
{
    if a.len() > 0 && a[0] == b[0] && b[0] == c[0] {
        lemma_text_order_transitive(a.drop_first(), b.drop_first(), c.drop_first());
    }
}

/// `str::to_lowercase` of std: the text in lower case by the Unicode mapping.
pub uninterp spec fn lowercase(s: Seq<char>) -> Seq<char>;

/// Calls `str::to_lowercase` of std. Claimed: the result depends on the text alone.
#[verifier::external_body]
pub(crate) fn to_lowercase(s: &str) -> (r: String)
    ensures
        r@ == lowercase(s@),
{
    s.to_lowercase()
}

// ---------------------------------------------------------------------------
// Gluing
// ---------------------------------------------------------------------------

pub fn cat2(a: &str, b: &str) -> (r: String)
    ensures
        r@ == a@ + b@,
{
    let mut out = owned(a);
    out.append(b);
    out
}

pub fn cat3(a: &str, b: &str, c: &str) -> (r: String)
    ensures
        r@ == a@ + b@ + c@,
{
    let mut out = cat2(a, b);
    out.append(c);
    out
}

pub fn cat4(a: &str, b: &str, c: &str, d: &str) -> (r: String)
    ensures
        r@ == a@ + b@ + c@ + d@,
{
    let mut out = cat3(a, b, c);
    out.append(d);
    out
}

/// The decimal text of a number.
pub fn i64_text(n: i64) -> (r: String)
    ensures
        r@ == signed_decimal(n as int),
{
    let mut out = String::new();
    push_i64(&mut out, n);
    proof {
        assert(out@ =~= signed_decimal(n as int));
    }
    out
}

pub fn usize_text(n: usize) -> (r: String)
    ensures
        r@ == decimal(n as nat),
{
    let mut out = String::new();
    push_usize(&mut out, n);
    proof {
        assert(out@ =~= decimal(n as nat));
    }
    out
}

/// The text, or another one where there is none.
pub open spec fn text_or(o: Option<Seq<char>>, other: Seq<char>) -> Seq<char> {
    match o {
        Some(s) => s,
        None => other,
    }
}

pub fn string_or(o: &Option<String>, other: &str) -> (r: String)
    ensures
        r@ == text_or(opt_text(*o), other@),
{
    match o {
        Some(s) => owned(s.as_str()),
        None => owned(other),
    }
}

/// Without white space in front.
pub fn trimmed_start(s: &str) -> (r: String)
    ensures
        r@ == trim_start(s@),
{
    let v = chars_of(s);
    string_of(&trim_leading_chars(&v, CharClass::Space))
}

pub open spec fn is_blank(s: Seq<char>) -> bool {
    trim(s).len() == 0
}

pub fn blank(s: &str) -> (r: bool)
    ensures
        r == is_blank(s@),
{
    let t = trimmed(s);
    char_count(t.as_str()) == 0
}

// ---------------------------------------------------------------------------
// Occurrences
// ---------------------------------------------------------------------------

/// How often `n` stands in `h` from `i` on, without overlap.
pub open spec fn count_from(h: Seq<char>, n: Seq<char>, i: int) -> nat
    decreases h.len() - i,
{
    match find_from(h, n, i) {
        None => 0,
        Some(k) => if n.len() == 0 || k + n.len() <= i || k + n.len() > h.len() {
            0
        } else {
            1 + count_from(h, n, k + n.len())
        },
    }
}

pub open spec fn count_of(h: Seq<char>, n: Seq<char>) -> nat {
    count_from(h, n, 0)
}

proof fn lemma_count_bound(h: Seq<char>, n: Seq<char>, i: int)
    requires
        0 <= i <= h.len(),
    ensures
        count_from(h, n, i) <= h.len() - i,
    decreases h.len() - i,
{
    match find_from(h, n, i) {
        None => {},
        Some(k) => {
            if !(n.len() == 0 || k + n.len() <= i || k + n.len() > h.len()) {
                lemma_count_bound(h, n, k + n.len());
            }
        },
    }
}

/// Counts the occurrences of `n` in `h`.
pub fn count_matches(h: &str, n: &str) -> (r: usize)
    requires
        n@.len() > 0,
    ensures
        r == count_of(h@, n@),
{
    let x = chars_of(h);
    let y = chars_of(n);
    let mut count: usize = 0;
    let mut i: usize = 0;
    let total: usize = x.len();
    proof {
        lemma_count_bound(x@, y@, 0);
    }
    loop
        invariant
            i <= total == x@.len(),
            y@.len() > 0,
            count + count_from(x@, y@, i as int) == count_from(x@, y@, 0),
            count_from(x@, y@, 0) <= total,
        ensures
            count == count_from(x@, y@, 0),
        decreases total - i,
    {
        proof {
            lemma_find_from(x@, y@, i as int);
        }
        match find_chars(&x, &y, i) {
            None => {
                break;
            },
            Some(k) => {
                count = count + 1;
                i = k + y.len();
            },
        }
    }
    count
}

/// The pieces of a text between the occurrences of `d`, from `i` on.
pub open spec fn split_text_from(s: Seq<char>, d: Seq<char>, i: int) -> Seq<Seq<char>>
    decreases s.len() - i,
{
    match find_from(s, d, i) {
        None => seq![s.skip(i)],
        Some(k) => if d.len() == 0 || k + d.len() <= i || k + d.len() > s.len() {
            seq![s.skip(i)]
        } else {
            seq![s.subrange(i, k)] + split_text_from(s, d, k + d.len())
        },
    }
}

pub open spec fn split_text(s: Seq<char>, d: Seq<char>) -> Seq<Seq<char>> {
    split_text_from(s, d, 0)
}

pub fn split_by_text(s: &str, d: &str) -> (r: Vec<String>)
    requires
        d@.len() > 0,
    ensures
        texts(r@) == split_text(s@, d@),
        r@.len() > 0,
{
    let x = chars_of(s);
    let y = chars_of(d);
    let ghost goal = split_text(s@, d@);
    let mut out: Vec<String> = Vec::new();
    let mut i: usize = 0;
    let total: usize = x.len();
    proof {
        assert(texts(out@) =~= Seq::<Seq<char>>::empty());
        assert(goal =~= texts(out@) + split_text_from(x@, y@, 0));
    }
    loop
        invariant_except_break
            goal == texts(out@) + split_text_from(x@, y@, i as int),
        invariant
            i <= total == x@.len(),
            y@.len() > 0,
        ensures
            goal == texts(out@),
            out@.len() > 0,
        decreases total - i,
    {
        proof {
            lemma_find_from(x@, y@, i as int);
        }
        let ghost before = texts(out@);
        match find_chars(&x, &y, i) {
            None => {
                let last = string_of_range(&x, i, total);
                push_text(&mut out, last.as_str());
                proof {
                    assert(last@ =~= x@.skip(i as int));
                    assert(before.push(last@) =~= before + seq![last@]);
                    assert(texts(out@).len() == out@.len());
                }
                break;
            },
            Some(k) => {
                let piece = string_of_range(&x, i, k);
                push_text(&mut out, piece.as_str());
                proof {
                    let rest = split_text_from(x@, y@, k + y@.len());
                    assert(before + (seq![piece@] + rest) =~= before.push(piece@) + rest);
                }
                i = k + y.len();
            },
        }
    }
    out
}

/// One of the texts stands in `s`.
pub open spec fn contains_any(s: Seq<char>, keys: Seq<Seq<char>>) -> bool {
    exists|i: int| 0 <= i < keys.len() && contains(s, #[trigger] keys[i])
}

pub fn has_any(s: &str, keys: &Vec<String>) -> (r: bool)
    ensures
        r == contains_any(s@, texts(keys@)),
{
    let mut i: usize = 0;
    while i < keys.len()
        invariant
            i <= keys@.len(),
            forall|k: int| 0 <= k < i ==> !contains(s@, #[trigger] texts(keys@)[k]),
        decreases keys.len() - i,
    {
        if has(s, keys[i].as_str()) {
            proof {
                assert(contains(s@, texts(keys@)[i as int]));
            }
            return true;
        }
        i = i + 1;
    }
    false
}

// ---------------------------------------------------------------------------
// Laws
// ---------------------------------------------------------------------------

/// Where a text first stands from a position on.
pub proof fn lemma_find_is(h: Seq<char>, n: Seq<char>, i: int, j: int)
    requires
        0 <= i <= j,
        occurs_at(h, n, j),
        forall|k: int| i <= k < j ==> !#[trigger] occurs_at(h, n, k),
    ensures
        find_from(h, n, i) == Some(j),
{
    lemma_find_from(h, n, i);
}

/// A text that stands nowhere from a position on is not found there.
pub proof fn lemma_find_none(h: Seq<char>, n: Seq<char>, i: int)
    requires
        0 <= i,
        forall|k: int| i <= k ==> !#[trigger] occurs_at(h, n, k),
    ensures
        find_from(h, n, i) is None,
{
    lemma_find_from(h, n, i);
}

/// A text stands behind a part just where it stands in what follows that part.
pub proof fn lemma_occurs_shift(h: Seq<char>, n: Seq<char>, i: int, k: int)
    requires
        0 <= i <= h.len(),
        0 <= k,
    ensures
        occurs_at(h, n, i + k) == occurs_at(h.skip(i), n, k),
{
    if i + k + n.len() <= h.len() {
        assert(h.skip(i).subrange(k, k + n.len()) =~= h.subrange(i + k, i + k + n.len()));
    }
}

/// What is found from a position on is what is found in the rest from there.
pub proof fn lemma_find_shift(h: Seq<char>, n: Seq<char>, i: int)
    requires
        0 <= i <= h.len(),
    ensures
        find_from(h, n, i) == (match find_from(h.skip(i), n, 0) {
            Some(j) => Some(i + j),
            None => None,
        }),
{
    let t = h.skip(i);
    lemma_find_from(h, n, i);
    lemma_find_from(t, n, 0);
    match find_from(t, n, 0) {
        Some(j) => {
            lemma_occurs_shift(h, n, i, j);
            assert forall|k: int| i <= k < i + j implies !#[trigger] occurs_at(h, n, k) by {
                lemma_occurs_shift(h, n, i, k - i);
            }
            lemma_find_is(h, n, i, i + j);
        },
        None => {
            assert forall|k: int| i <= k implies !#[trigger] occurs_at(h, n, k) by {
                lemma_occurs_shift(h, n, i, k - i);
            }
            lemma_find_none(h, n, i);
        },
    }
}

proof fn lemma_replace_shift(s: Seq<char>, from: Seq<char>, to: Seq<char>, i: int)
    requires
        0 <= i <= s.len(),
        from.len() > 0,
    ensures
        replace_from(s, from, to, i) == replace(s.skip(i), from, to),
    decreases s.len() - i,
{
    let t = s.skip(i);
    lemma_find_shift(s, from, i);
    lemma_find_from(t, from, 0);
    match find_from(t, from, 0) {
        None => {
            assert(t.skip(0) =~= t);
        },
        Some(j) => {
            let next = j + from.len();
            lemma_replace_shift(s, from, to, i + next);
            lemma_replace_shift(t, from, to, next);
            assert(s.skip(i + next) =~= t.skip(next));
            assert(s.subrange(i, i + j) =~= t.subrange(0, j));
        },
    }
}

/// A text without what is to be replaced stays as it is.
pub proof fn lemma_replace_none(s: Seq<char>, from: Seq<char>, to: Seq<char>)
    requires
        from.len() > 0,
        !contains(s, from),
    ensures
        replace(s, from, to) == s,
{
    lemma_contains_find(s, from);
    assert(s.skip(0) =~= s);
}

/// The first place of what is to be replaced holds the new text afterwards; what stands
/// before it stays, and what stands behind it is treated as a text of its own.
pub proof fn lemma_replace_first(a: Seq<char>, from: Seq<char>, b: Seq<char>, to: Seq<char>)
    requires
        from.len() > 0,
        forall|k: int| 0 <= k < a.len() ==> !#[trigger] occurs_at(a + from + b, from, k),
    ensures
        replace(a + from + b, from, to) == a + to + replace(b, from, to),
{
    let s = a + from + b;
    let n = a.len() as int;
    assert(s.subrange(n, n + from.len()) =~= from);
    lemma_find_is(s, from, 0, n);
    lemma_replace_shift(s, from, to, n + from.len());
    assert(s.skip(n + from.len()) =~= b);
    assert(s.subrange(0, n) =~= a);
}

/// The parts of two lists, joined, with the separator between the lists.
pub proof fn lemma_join_concat(a: Seq<Seq<char>>, b: Seq<Seq<char>>, sep: Seq<char>)
    requires
        a.len() > 0,
        b.len() > 0,
    ensures
        join(a + b, sep) == join(a, sep) + sep + join(b, sep),
    decreases b.len(),
{
    let last = b.last();
    if b.len() == 1 {
        lemma_join_push(a, last, sep);
        assert(a + b =~= a.push(last));
        assert(join(b, sep) == last);
    } else {
        let init = b.drop_last();
        lemma_join_concat(a, init, sep);
        lemma_join_push(a + init, last, sep);
        lemma_join_push(init, last, sep);
        assert(a + b =~= (a + init).push(last));
        assert(init.push(last) =~= b);
        assert(join(a, sep) + sep + join(init, sep) + sep + last =~= join(a, sep) + sep + (join(
            init,
            sep,
        ) + sep + last));
    }
}

/// Where part `i` stands in the joined text.
pub open spec fn place_in_join(parts: Seq<Seq<char>>, sep: Seq<char>, i: int) -> int {
    if i <= 0 {
        0
    } else {
        (join(parts.take(i), sep).len() + sep.len()) as int
    }
}

/// Every part stands in the joined text, and the parts stand in their order, one behind the
/// other.
pub proof fn lemma_join_places(parts: Seq<Seq<char>>, sep: Seq<char>, i: int)
    requires
        0 <= i < parts.len(),
    ensures
        occurs_at(join(parts, sep), parts[i], place_in_join(parts, sep, i)),
        i + 1 < parts.len() ==> place_in_join(parts, sep, i + 1) == place_in_join(parts, sep, i)
            + parts[i].len() + sep.len(),
{
    let a = parts.take(i);
    let b = parts.skip(i);
    let whole = join(parts, sep);
    let p = place_in_join(parts, sep, i);
    assert(a + b =~= parts);
    assert(a.push(parts[i]) =~= parts.take(i + 1));
    lemma_join_push(a, parts[i], sep);
    if b.len() > 1 {
        let rest = b.skip(1);
        assert(seq![parts[i]] + rest =~= b);
        lemma_join_concat(seq![parts[i]], rest, sep);
        assert(join(seq![parts[i]], sep) == parts[i]);
    } else {
        assert(b =~= seq![parts[i]]);
    }
    if i > 0 {
        lemma_join_concat(a, b, sep);
        assert(whole.subrange(p, p + parts[i].len()) =~= parts[i]);
    } else {
        assert(b =~= parts);
        assert(whole.subrange(p, p + parts[i].len()) =~= parts[i]);
    }
}

/// Part `j` stands behind part `i` in the joined text.
pub proof fn lemma_join_order(parts: Seq<Seq<char>>, sep: Seq<char>, i: int, j: int)
    requires
        0 <= i < j < parts.len(),
    ensures
        place_in_join(parts, sep, i) + parts[i].len() + sep.len() <= place_in_join(parts, sep, j),
    decreases j - i,
{
    lemma_join_places(parts, sep, i);
    if i + 1 < j {
        lemma_join_order(parts, sep, i + 1, j);
    }
}

/// A text without white space is one word.
pub proof fn lemma_one_word(w: Seq<char>)
    requires
        w.len() > 0,
        forall|i: int| 0 <= i < w.len() ==> !is_whitespace(#[trigger] w[i]),
    ensures
        words(w) == seq![w],
    decreases w.len(),
{
    let init = w.drop_last();
    if w.len() == 1 {
        assert(words(init) =~= Seq::empty());
        assert(!is_whitespace(w[0]));
        assert(seq![w.last()] =~= w);
        assert(words(w) =~= seq![w]);
    } else {
        assert forall|i: int| 0 <= i < init.len() implies !is_whitespace(#[trigger] init[i]) by {
            assert(init[i] == w[i]);
        }
        lemma_one_word(init);
        assert(!is_whitespace(w[w.len() - 2]));
        assert(init.push(w.last()) =~= w);
        assert(words(w) =~= seq![w]);
    }
}

proof fn lemma_some_word(s: Seq<char>)
    requires
        s.len() > 0,
        !is_whitespace(s.last()),
    ensures
        words(s).len() > 0,
{
}

/// White space parts words: the words of a text are those before it and those behind it.
pub proof fn lemma_words_apart(a: Seq<char>, c: char, b: Seq<char>)
    requires
        is_whitespace(c),
    ensures
        words(a + seq![c] + b) == words(a) + words(b),
    decreases b.len(),
{
    let s = a + seq![c] + b;
    if b.len() == 0 {
        assert(s.drop_last() =~= a);
        assert(words(b) =~= Seq::empty());
        assert(words(a) + words(b) =~= words(a));
    } else {
        let init = b.drop_last();
        lemma_words_apart(a, c, init);
        assert(s.drop_last() =~= a + seq![c] + init);
        let x = words(a);
        let y = words(init);
        if !is_whitespace(b.last()) {
            if b.len() >= 2 && !is_whitespace(b[b.len() - 2]) {
                assert(init.last() == b[b.len() - 2]);
                lemma_some_word(init);
                assert(s[s.len() - 2] == b[b.len() - 2]);
                assert((x + y).drop_last() =~= x + y.drop_last());
            } else if b.len() == 1 {
                assert(s[s.len() - 2] == c);
            } else {
                assert(s[s.len() - 2] == b[b.len() - 2]);
            }
            assert(words(s) =~= x + words(b));
        }
    }
}

/// Leading characters of a class are dropped, up to the first other one.
pub proof fn lemma_drop_leading_exact(a: Seq<char>, b: Seq<char>, k: CharClass)
    requires
        forall|i: int| 0 <= i < a.len() ==> in_class(#[trigger] a[i], k),
        b.len() > 0 ==> !in_class(b[0], k),
    ensures
        drop_leading(a + b, k) == b,
    decreases a.len(),
{
    if a.len() == 0 {
        assert(a + b =~= b);
    } else {
        let rest = a.drop_first();
        assert forall|i: int| 0 <= i < rest.len() implies in_class(#[trigger] rest[i], k) by {
            assert(rest[i] == a[i + 1]);
        }
        lemma_drop_leading_exact(rest, b, k);
        assert((a + b)[0] == a[0]);
        assert((a + b).drop_first() =~= rest + b);
    }
}

/// Trailing characters of a class are dropped, up to the last other one.
pub proof fn lemma_drop_trailing_exact(a: Seq<char>, b: Seq<char>, k: CharClass)
    requires
        forall|i: int| 0 <= i < b.len() ==> in_class(#[trigger] b[i], k),
        a.len() > 0 ==> !in_class(a.last(), k),
    ensures
        drop_trailing(a + b, k) == a,
    decreases b.len(),
{
    if b.len() == 0 {
        assert(a + b =~= a);
    } else {
        let rest = b.drop_last();
        assert forall|i: int| 0 <= i < rest.len() implies in_class(#[trigger] rest[i], k) by {
            assert(rest[i] == b[i]);
        }
        lemma_drop_trailing_exact(a, rest, k);
        assert((a + b).last() == b[b.len() - 1]);
        assert((a + b).drop_last() =~= a + rest);
    }
}

/// White space around a text is cut off, and nothing else.
pub proof fn lemma_trim_exact(a: Seq<char>, core: Seq<char>, b: Seq<char>)
    requires
        forall|i: int| 0 <= i < a.len() ==> is_whitespace(#[trigger] a[i]),
        forall|i: int| 0 <= i < b.len() ==> is_whitespace(#[trigger] b[i]),
        core.len() > 0,
        !is_whitespace(core[0]),
        !is_whitespace(core.last()),
    ensures
        trim(a + core + b) == core,
{
    assert(a + core + b =~= a + (core + b));
    assert((core + b)[0] == core[0]);
    lemma_drop_leading_exact(a, core + b, CharClass::Space);
    lemma_drop_trailing_exact(core, b, CharClass::Space);
}

/// A number is written with digits alone.
pub proof fn lemma_decimal_is_digits(n: nat)
    ensures
        decimal(n).len() > 0,
        forall|i: int| 0 <= i < decimal(n).len() ==> is_ascii_digit(#[trigger] decimal(n)[i]),
    decreases n,
{
    if n >= 10 {
        lemma_decimal_is_digits(n / 10);
        assert forall|i: int| 0 <= i < decimal(n).len() implies is_ascii_digit(
            #[trigger] decimal(n)[i],
        ) by {
            if i < decimal(n / 10).len() {
                assert(decimal(n)[i] == decimal(n / 10)[i]);
            }
        }
    }
}

/// What is written reads back: the digits of a number stand for it.
pub proof fn lemma_decimal_value(n: nat)
    ensures
        all_digits(decimal(n), 10),
        digits_value(decimal(n), 10) == n,
    decreases n,
{
    lemma_decimal_is_digits(n);
    assert forall|i: int| 0 <= i < decimal(n).len() implies digit_value(#[trigger] decimal(n)[i])
        < 10 by {
        assert(is_ascii_digit(decimal(n)[i]));
    }
    if n >= 10 {
        lemma_decimal_value(n / 10);
        assert(decimal(n).drop_last() =~= decimal(n / 10));
    } else {
        assert(decimal(n).drop_last() =~= Seq::empty());
        assert(digits_value(Seq::<char>::empty(), 10) == 0);
    }
}

/// Where a text is found does not depend on what stands before the place to search from.
pub proof fn lemma_find_in_rest(h: Seq<char>, n: Seq<char>, c: int, i: int)
    requires
        0 <= c <= i <= h.len(),
    ensures
        find_from(h, n, i) == (match find_from(h.skip(c), n, i - c) {
            Some(j) => Some(c + j),
            None => None,
        }),
{
    lemma_find_shift(h, n, i);
    lemma_find_shift(h.skip(c), n, i - c);
    assert(h.skip(c).skip(i - c) =~= h.skip(i));
}

/// A single character stands in a text where the text has it.
pub proof fn lemma_occurs_char(h: Seq<char>, c: char, i: int)
    ensures
        occurs_at(h, seq![c], i) == (0 <= i < h.len() && h[i] == c),
{
    if 0 <= i < h.len() {
        assert(h.subrange(i, i + 1) =~= seq![h[i]]);
        assert(seq![h[i]][0] == h[i]);
        assert(seq![c][0] == c);
    }
}

/// What stands at a place is told by the characters there.
pub proof fn lemma_occurs_chars(h: Seq<char>, n: Seq<char>, i: int)
    requires
        0 <= i,
        i + n.len() <= h.len(),
        forall|k: int| 0 <= k < n.len() ==> #[trigger] h[i + k] == n[k],
    ensures
        occurs_at(h, n, i),
{
    assert forall|k: int| 0 <= k < n.len() implies h.subrange(i, i + n.len())[k] == n[k] by {
        assert(h[i + k] == n[k]);
    }
    assert(h.subrange(i, i + n.len()) =~= n);
}

/// A text that two texts have at one place, where they agree.
pub proof fn lemma_occurs_agree(h: Seq<char>, g: Seq<char>, n: Seq<char>, i: int, j: int)
    requires
        occurs_at(h, n, i),
        0 <= j,
        j + n.len() <= g.len(),
        forall|k: int| 0 <= k < n.len() ==> #[trigger] g[j + k] == h[i + k],
    ensures
        occurs_at(g, n, j),
{
    assert forall|k: int| 0 <= k < n.len() implies #[trigger] g[j + k] == n[k] by {
        assert(h.subrange(i, i + n.len())[k] == h[i + k]);
    }
    lemma_occurs_chars(g, n, j);
}

/// A separator parts a text: the pieces are those before it and those behind it.
pub proof fn lemma_split_apart(a: Seq<char>, c: char, b: Seq<char>)
    ensures
        split_char(a + seq![c] + b, c) == split_char(a, c) + split_char(b, c),
    decreases b.len(),
{
    let s = a + seq![c] + b;
    lemma_split_char_nonempty(a, c);
    lemma_split_char_nonempty(b, c);
    if b.len() == 0 {
        assert(s.drop_last() =~= a);
        assert(s.last() == c);
        assert(split_char(a, c).push(Seq::empty()) =~= split_char(a, c) + seq![Seq::empty()]);
    } else {
        let init = b.drop_last();
        assert(s.drop_last() =~= a + seq![c] + init);
        assert(s.last() == b.last());
        lemma_split_apart(a, c, init);
        lemma_split_char_nonempty(init, c);
        let x = split_char(a, c);
        let y = split_char(init, c);
        assert((x + y).last() == y.last());
        assert((x + y).drop_last() =~= x + y.drop_last());
        assert(split_char(s, c) =~= x + split_char(b, c));
    }
}

/// A text without the separator is one piece.
pub proof fn lemma_split_single(s: Seq<char>, c: char)
    requires
        !s.contains(c),
    ensures
        split_char(s, c) == seq![s],
    decreases s.len(),
{
    if s.len() > 0 {
        let init = s.drop_last();
        assert(s.last() != c) by {
            assert(s.contains(s.last()));
        }
        assert forall|i: int| 0 <= i < init.len() implies init[i] != c by {
            assert(s.contains(s[i]));
        }
        lemma_split_single(init, c);
        assert(seq![init].drop_last() =~= Seq::<Seq<char>>::empty());
        assert(init.push(s.last()) =~= s);
        assert(split_char(s, c) =~= seq![s]);
    } else {
        assert(s =~= Seq::empty());
    }
}

/// The end of a line parts a text: its lines are the line before it and the lines behind it.
pub proof fn lemma_lines_apart(a: Seq<char>, b: Seq<char>)
    requires
        !a.contains('\n'),
    ensures
        lines(a + seq!['\n'] + b) == seq![without_return(a)] + lines(b),
{
    lemma_split_apart(a, '\n', b);
    lemma_split_single(a, '\n');
    lemma_split_char_nonempty(b, '\n');
    let p = split_char(b, '\n');
    let q = seq![a] + p;
    assert(q.last() == p.last());
    assert(q.drop_last() =~= seq![a] + p.drop_last());
    assert(line_pieces(q.drop_last()) =~= seq![without_return(a)] + line_pieces(p.drop_last()));
    assert(lines(a + seq!['\n'] + b) =~= seq![without_return(a)] + lines(b));
}

/// A text without the end of a line is one line, or none where it is empty.
pub proof fn lemma_lines_single(s: Seq<char>)
    requires
        !s.contains('\n'),
    ensures
        lines(s) == (if s.len() == 0 {
            Seq::empty()
        } else {
            seq![s]
        }),
{
    lemma_split_single(s, '\n');
    assert(seq![s].drop_last() =~= Seq::<Seq<char>>::empty());
    assert(line_pieces(seq![s].drop_last()) =~= Seq::<Seq<char>>::empty());
    assert(lines(s) =~= (if s.len() == 0 {
        Seq::empty()
    } else {
        seq![s]
    }));
}

proof fn lemma_count_shift(h: Seq<char>, n: Seq<char>, i: int)
    requires
        0 <= i <= h.len(),
    ensures
        count_from(h, n, i) == count_of(h.skip(i), n),
    decreases h.len() - i,
{
    let t = h.skip(i);
    lemma_find_shift(h, n, i);
    lemma_find_from(t, n, 0);
    match find_from(t, n, 0) {
        None => {},
        Some(j) => if n.len() > 0 {
            let next = j + n.len();
            lemma_count_shift(h, n, i + next);
            lemma_count_shift(t, n, next);
            assert(h.skip(i + next) =~= t.skip(next));
        },
    }
}

/// The first place counts once, and what stands behind it counts as a text of its own. A
/// text that stands nowhere is counted no time.
pub proof fn lemma_count_first(a: Seq<char>, n: Seq<char>, b: Seq<char>)
    requires
        n.len() > 0,
        forall|k: int| 0 <= k < a.len() ==> !#[trigger] occurs_at(a + n + b, n, k),
    ensures
        count_of(a + n + b, n) == 1 + count_of(b, n),
        forall|s: Seq<char>| !#[trigger] contains(s, n) ==> count_of(s, n) == 0,
{
    let s = a + n + b;
    let at = a.len() as int;
    assert(s.subrange(at, at + n.len()) =~= n);
    lemma_find_is(s, n, 0, at);
    lemma_count_shift(s, n, at + n.len());
    assert(s.skip(at + n.len()) =~= b);
    assert forall|t: Seq<char>| !#[trigger] contains(t, n) implies count_of(t, n) == 0 by {
        lemma_contains_find(t, n);
    }
}

proof fn lemma_split_text_shift(s: Seq<char>, d: Seq<char>, i: int)
    requires
        0 <= i <= s.len(),
    ensures
        split_text_from(s, d, i) == split_text(s.skip(i), d),
    decreases s.len() - i,
{
    let t = s.skip(i);
    lemma_find_shift(s, d, i);
    lemma_find_from(t, d, 0);
    assert(t.skip(0) =~= t);
    match find_from(t, d, 0) {
        None => {},
        Some(j) => if d.len() > 0 {
            let next = j + d.len();
            lemma_split_text_shift(s, d, i + next);
            lemma_split_text_shift(t, d, next);
            assert(s.skip(i + next) =~= t.skip(next));
            assert(s.subrange(i, i + j) =~= t.subrange(0, j));
        },
    }
}

/// The first place of the delimiter ends the first piece, and the other pieces are those of
/// what stands behind it.
pub proof fn lemma_split_text_first(a: Seq<char>, d: Seq<char>, b: Seq<char>)
    requires
        d.len() > 0,
        forall|k: int| 0 <= k < a.len() ==> !#[trigger] occurs_at(a + d + b, d, k),
    ensures
        split_text(a + d + b, d) == seq![a] + split_text(b, d),
        forall|s: Seq<char>| !#[trigger] contains(s, d) ==> split_text(s, d) == seq![s],
{
    let s = a + d + b;
    let at = a.len() as int;
    assert(s.subrange(at, at + d.len()) =~= d);
    assert(s.subrange(0, at) =~= a);
    lemma_find_is(s, d, 0, at);
    lemma_split_text_shift(s, d, at + d.len());
    assert(s.skip(at + d.len()) =~= b);
    assert forall|t: Seq<char>| !#[trigger] contains(t, d) implies split_text(t, d) == seq![t] by {
        lemma_contains_find(t, d);
        assert(t.skip(0) =~= t);
    }
}

/// A prefix is cut off just where the text has it.
pub proof fn lemma_after_prefix(p: Seq<char>, rest: Seq<char>)
    ensures
        after_prefix(p + rest, p) == Some(rest),
        forall|s: Seq<char>|
            (#[trigger] after_prefix(s, p) is Some) == (s.len() >= p.len() && s.take(p.len() as int)
                == p),
{
    assert((p + rest).subrange(0, p.len() as int) =~= p);
    assert((p + rest).skip(p.len() as int) =~= rest);
    assert forall|s: Seq<char>| (#[trigger] after_prefix(s, p) is Some) == (s.len() >= p.len()
        && s.take(p.len() as int) == p) by {
        if s.len() >= p.len() {
            assert(s.subrange(0, p.len() as int) =~= s.take(p.len() as int));
        }
    }
}

/// A text holds each of its parts.
pub proof fn lemma_holds(a: Seq<char>, n: Seq<char>, b: Seq<char>)
    ensures
        contains(a + n + b, n),
        occurs_at(a + n + b, n, a.len() as int),
{
    let at = a.len() as int;
    assert((a + n + b).subrange(at, at + n.len()) =~= n);
    assert(occurs_at(a + n + b, n, at));
}

/// What a part of a text holds, the text holds.
pub proof fn lemma_holds_within(a: Seq<char>, b: Seq<char>, n: Seq<char>)
    requires
        contains(a, b),
        contains(b, n),
    ensures
        contains(a, n),
{
    let i = choose|i: int| occurs_at(a, b, i);
    let j = choose|j: int| occurs_at(b, n, j);
    assert(a.subrange(i + j, i + j + n.len()) =~= b.subrange(j, j + n.len()));
    assert(occurs_at(a, n, i + j));
}

/// A joined text holds each part.
pub proof fn lemma_join_holds(parts: Seq<Seq<char>>, sep: Seq<char>, i: int)
    requires
        0 <= i < parts.len(),
    ensures
        contains(join(parts, sep), parts[i]),
{
    lemma_join_places(parts, sep, i);
}

/// A number of several digits does not begin with a zero.
pub proof fn lemma_decimal_head(n: nat)
    ensures
        n > 0 ==> decimal(n)[0] != '0',
        decimal(n).len() > 1 ==> n >= 10,
    decreases n,
{
    lemma_decimal_is_digits(n);
    if n >= 10 {
        lemma_decimal_is_digits(n / 10);
        lemma_decimal_head(n / 10);
        assert(decimal(n)[0] == decimal(n / 10)[0]);
    }
}

/// Lower case changes capital letters of ASCII alone, one by one, and changes nothing twice.
pub proof fn lemma_lower(s: Seq<char>, i: int)
    requires
        0 <= i < s.len(),
    ensures
        lower(s).len() == s.len(),
        lower(lower(s)) == lower(s),
        'A' <= s[i] && s[i] <= 'Z' ==> lower(s)[i] as int == s[i] as int + 32,
        !('A' <= s[i] && s[i] <= 'Z') ==> lower(s)[i] == s[i],
{
    assert forall|k: int| 0 <= k < s.len() implies lower(lower(s))[k] == lower(s)[k] by {
        lemma_lower_char(s[k]);
    }
    assert(lower(lower(s)) =~= lower(s));
    lemma_lower_char(s[i]);
}

proof fn lemma_lower_char(c: char)
    ensures
        lower_char(lower_char(c)) == lower_char(c),
        is_ascii_upper(c) ==> lower_char(c) as int == c as int + 32,
{
}

/// A written number reads back, with or without a plus sign before it, as long as it fits
/// 32 bits; anything that is no digit spoils it.
pub proof fn lemma_number_is_read(n: nat, s: Seq<char>)
    ensures
        n <= u32::MAX ==> unsigned_value(decimal(n), 10) == Some(n) && unsigned_value(
            seq!['+'] + decimal(n),
            10,
        ) == Some(n),
        n > u32::MAX ==> unsigned_value(decimal(n), 10) is None,
        unsigned_value(s, 10) is Some && s[0] != '+' ==> all_digits(s, 10),
        unsigned_value(Seq::<char>::empty(), 10) is None,
{
    let d = decimal(n);
    lemma_decimal_is_digits(n);
    lemma_decimal_value(n);
    assert(is_ascii_digit(d[0]));
    assert((seq!['+'] + d).skip(1) =~= d);
}

/// The start of a text has the length that is asked for, or is the text.
pub proof fn lemma_head(s: Seq<char>, n: int)
    requires
        0 <= n,
    ensures
        s.len() <= n ==> head(s, n) == s && clipped(s, n) == s,
        s.len() > n ==> head(s, n).len() == n && head(s, n) == s.take(n) && clipped(s, n) == s.take(
            n,
        ) + seq!['.', '.', '.'],
{
    reveal_strlit("...");
    assert("..."@ =~= seq!['.', '.', '.']);
}

/// One of several texts stands in a text just where one of the first ones, a given one or one
/// of the others does.
pub proof fn lemma_contains_any(s: Seq<char>, a: Seq<Seq<char>>, k: Seq<char>, b: Seq<Seq<char>>)
    ensures
        contains_any(s, a + seq![k] + b) == (contains_any(s, a) || contains(s, k) || contains_any(
            s,
            b,
        )),
{
    let all = a + seq![k] + b;
    if contains_any(s, a) {
        let i = choose|i: int| 0 <= i < a.len() && contains(s, #[trigger] a[i]);
        assert(all[i] == a[i]);
    }
    if contains(s, k) {
        assert(all[a.len() as int] == k);
    }
    if contains_any(s, b) {
        let i = choose|i: int| 0 <= i < b.len() && contains(s, #[trigger] b[i]);
        assert(all[a.len() + 1 + i] == b[i]);
    }
    if contains_any(s, all) {
        let i = choose|i: int| 0 <= i < all.len() && contains(s, #[trigger] all[i]);
        if i < a.len() {
            assert(all[i] == a[i]);
        } else if i > a.len() {
            assert(all[i] == b[i - a.len() - 1]);
        }
    }
}

} // verus!
