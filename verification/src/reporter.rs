//! Daily and weekly reports of what was archived.

use crate::clock;
use crate::clock::{day_start, is_zone, local_time, week_start};
use crate::config::AppConfig;
use crate::paths;
use crate::paths::join_path;
use crate::task_store::store;
use crate::task_store::store::{ArticleData, Stamp, StoreData, TaskData, TaskStore};
use crate::task_store::tasks;
use crate::task_store::tasks::{FilterData, TaskOrder};
use crate::task_store::types::ArchivedTaskRecord;
use crate::text;
use crate::text::{
    cat2, cat3, cat4, char_count, chars_of, join_strings, owned, parse_unsigned, push_decimal,
    push_text, split_once, split_words, string_or, trimmed, usize_text,
};
use vstd::prelude::*;

verus! {

#[derive(Debug, Clone, PartialEq, Eq)]
pub struct DailyReportOutput {
    pub day: String,
    pub markdown_path: String,
    pub item_count: usize,
    pub summary: String,
}

#[derive(Debug, Clone, PartialEq, Eq)]
pub struct WeeklyReportOutput {
    pub week: String,
    pub markdown_path: String,
    pub item_count: usize,
    pub summary: String,
}

/// Writes the reports of one store, by the calendar of one zone.
#[derive(Debug, Clone)]
pub struct DailyReporter {
    pub root_dir: String,
    pub db_path: String,
    pub timezone: String,
}

/// How many tasks a daily and a weekly report hold at most.
pub const DAILY_LIMIT: usize = 500;

pub const WEEKLY_LIMIT: usize = 2000;

pub const SECS_PER_DAY: i64 = 86400;

pub open spec fn unknown_zone(raw: Seq<char>) -> Seq<char> {
    "无效 timezone: "@ + raw
}

/// A zone by its name.
pub fn parse_timezone(raw: &str) -> (r: Result<String, String>)
    ensures
        match r {
            Ok(zone) => clock::zone_known(raw@) && zone@ == raw@,
            Err(e) => !clock::zone_known(raw@) && e@ == unknown_zone(raw@),
        },
{
    if is_zone(raw) {
        Ok(owned(raw))
    } else {
        Err(cat2("无效 timezone: ", raw))
    }
}

// ---------------------------------------------------------------------------
// Week keys
// ---------------------------------------------------------------------------

/// As many zeros as a text lacks to a width.
pub open spec fn zeros(n: int) -> Seq<char> {
    Seq::new(
        if n > 0 {
            n as nat
        } else {
            0
        },
        |i: int| '0',
    )
}

/// A number with zeros before it up to a width, its sign counted in.
pub open spec fn zero_padded(n: int, width: int) -> Seq<char> {
    if n < 0 {
        "-"@ + zeros(width - 1 - text::decimal((-n) as nat).len()) + text::decimal((-n) as nat)
    } else {
        zeros(width - text::decimal(n as nat).len()) + text::decimal(n as nat)
    }
}

fn push_zero_padded(out: &mut String, n: u32, width: usize)
    ensures
        final(out)@ == old(out)@ + zeros(width - text::decimal(n as nat).len()) + text::decimal(n as nat),
{
    let mut digits = String::new();
    push_decimal(&mut digits, n as u128);
    proof {
        assert(digits@ =~= text::decimal(n as nat));
    }
    let len: usize = char_count(digits.as_str());
    let ghost before = out@;
    let mut k: usize = len;
    proof {
        assert(before + zeros(0) =~= before);
    }
    while k < width
        invariant
            len <= k,
            k <= width || k == len,
            out@ == before + zeros(k - len),
        decreases width - k,
    {
        out.push('0');
        proof {
            assert(before + zeros(k + 1 - len) =~= (before + zeros(k - len)).push('0'));
        }
        k = k + 1;
    }
    proof {
        assert(zeros(k - len) =~= zeros(width - len));
    }
    out.append(digits.as_str());
}

/// The key of a calendar week, `YYYY-WW`.
pub open spec fn week_key(year: int, week: int) -> Seq<char> {
    zero_padded(year, 4) + "-"@ + zero_padded(week, 2)
}

pub fn format_week_key(year: i32, week: u32) -> (r: String)
    ensures
        r@ == week_key(year as int, week as int),
{
    let mut out = String::new();
    if year < 0 {
        let size: u32 = (-(year as i64)) as u32;
        out.append("-");
        push_zero_padded(&mut out, size, 3);
    } else {
        push_zero_padded(&mut out, year as u32, 4);
    }
    proof {
        assert(out@ =~= zero_padded(year as int, 4));
    }
    out.append("-");
    push_zero_padded(&mut out, week, 2);
    proof {
        assert(out@ =~= week_key(year as int, week as int));
    }
    out
}

/// How many bytes a character takes.
pub open spec fn char_bytes(c: char) -> nat {
    if (c as u32) < 0x80 {
        1
    } else if (c as u32) < 0x800 {
        2
    } else if (c as u32) < 0x10000 {
        3
    } else {
        4
    }
}

/// How many bytes a text takes.
pub open spec fn text_bytes(s: Seq<char>) -> nat
    decreases s.len(),
{
    if s.len() == 0 {
        0
    } else {
        text_bytes(s.drop_last()) + char_bytes(s.last())
    }
}

fn byte_count(s: &str) -> (r: u128)
    ensures
        r == text_bytes(s@),
{
    let v = chars_of(s);
    let mut total: u128 = 0;
    let mut i: usize = 0;
    proof {
        assert(v@.take(0) =~= Seq::empty());
    }
    while i < v.len()
        invariant
            i <= v.len(),
            total == text_bytes(v@.take(i as int)),
            total <= 4 * i,
        decreases v.len() - i,
    {
        let code: u32 = v[i] as u32;
        let n: u128 = if code < 0x80 {
            1
        } else if code < 0x800 {
            2
        } else if code < 0x10000 {
            3
        } else {
            4
        };
        proof {
            assert(v@.take(i + 1).drop_last() =~= v@.take(i as int));
            assert(v@.take(i + 1).last() == v@[i as int]);
        }
        total = total + n;
        i = i + 1;
    }
    proof {
        assert(v@.take(i as int) =~= v@);
    }
    total
}

/// The year and the week that a text asks for, or what is wrong with it.
pub open spec fn asked_week(raw: Seq<char>) -> Result<(int, int), Seq<char>> {
    let t = text::trim(raw);
    match text::split_at_first(t, "-"@) {
        None => Err("周报 week 格式应为 YYYY-WW"@),
        Some((y, w)) => if text_bytes(y) != 4 || text_bytes(w) != 2 {
            Err("周报 week 格式应为 YYYY-WW: "@ + t)
        } else {
            match text::unsigned_value(y, 10) {
                None => Err("解析周报年份失败"@),
                Some(year) => match text::unsigned_value(w, 10) {
                    None => Err("解析周报周数失败"@),
                    Some(week) => if 1 <= week <= 53 {
                        Ok((year as int, week as int))
                    } else {
                        Err("周报周数超出范围: "@ + t)
                    },
                },
            }
        },
    }
}

proof fn lemma_bytes_bound(s: Seq<char>)
    ensures
        s.len() <= text_bytes(s),
    decreases s.len(),
{
    if s.len() > 0 {
        lemma_bytes_bound(s.drop_last());
    }
}

/// A text of up to four decimal digits stands for a number below ten thousand.
proof fn lemma_four_digits(s: Seq<char>)
    requires
        s.len() <= 4,
        text::all_digits(s, 10),
    ensures
        text::digits_value(s, 10) <= 9999,
{
    reveal_with_fuel(text::digits_value, 5);
    assert forall|i: int| 0 <= i < s.len() implies text::digit_value(#[trigger] s[i]) < 10 by {}
    if s.len() > 0 {
        let a = s.drop_last();
        assert(s.last() == s[s.len() - 1]);
        if a.len() > 0 {
            let b = a.drop_last();
            assert(a.last() == s[s.len() - 2]);
            if b.len() > 0 {
                let c = b.drop_last();
                assert(b.last() == s[s.len() - 3]);
                if c.len() > 0 {
                    assert(c.last() == s[s.len() - 4]);
                }
            }
        }
    }
}

fn split_week_key(raw: &str) -> (r: Result<(i32, u32), String>)
    ensures
        match r {
            Ok((year, week)) => asked_week(raw@) == Ok::<(int, int), Seq<char>>(
                (year as int, week as int),
            ) && 0 <= year <= 9999,
            Err(e) => asked_week(raw@) == Err::<(int, int), Seq<char>>(e@),
        },
{
    let t = trimmed(raw);
    match split_once(t.as_str(), "-") {
        None => Err(owned("周报 week 格式应为 YYYY-WW")),
        Some((y, w)) => {
            if byte_count(y.as_str()) != 4 || byte_count(w.as_str()) != 2 {
                return Err(cat2("周报 week 格式应为 YYYY-WW: ", t.as_str()));
            }
            match parse_unsigned(y.as_str(), 10) {
                None => Err(owned("解析周报年份失败")),
                Some(year) => {
                    proof {
                        lemma_bytes_bound(y@);
                        if y@[0] == '+' {
                            lemma_four_digits(y@.skip(1));
                        } else {
                            lemma_four_digits(y@);
                        }
                    }
                    match parse_unsigned(w.as_str(), 10) {
                        None => Err(owned("解析周报周数失败")),
                        Some(week) => if 1 <= week && week <= 53 {
                            Ok((year as i32, week))
                        } else {
                            Err(cat2("周报周数超出范围: ", t.as_str()))
                        },
                    }
                },
            }
        },
    }
}

/// The key of the week that a text asks for.
pub open spec fn normal_week(raw: Seq<char>) -> Result<Seq<char>, Seq<char>> {
    match asked_week(raw) {
        Ok((year, week)) => Ok(week_key(year, week)),
        Err(e) => Err(e),
    }
}

pub fn normalize_week_key(raw: &str) -> (r: Result<String, String>)
    ensures
        match r {
            Ok(key) => normal_week(raw@) == Ok::<Seq<char>, Seq<char>>(key@),
            Err(e) => normal_week(raw@) == Err::<Seq<char>, Seq<char>>(e@),
        },
{
    match split_week_key(raw) {
        Ok((year, week)) => Ok(format_week_key(year, week)),
        Err(e) => Err(e),
    }
}

proof fn lemma_decimal_digits(n: nat)
    requires
        n <= 9999,
    ensures
        n < 10 ==> text::decimal(n) == seq![text::digit_char(n)],
        10 <= n < 100 ==> text::decimal(n) == seq![
            text::digit_char(n / 10),
            text::digit_char(n % 10),
        ],
        100 <= n < 1000 ==> text::decimal(n) == seq![
            text::digit_char(n / 100),
            text::digit_char(n / 10 % 10),
            text::digit_char(n % 10),
        ],
        1000 <= n ==> text::decimal(n) == seq![
            text::digit_char(n / 1000),
            text::digit_char(n / 100 % 10),
            text::digit_char(n / 10 % 10),
            text::digit_char(n % 10),
        ],
{
    reveal_with_fuel(text::decimal, 4);
    assert(n / 10 / 10 == n / 100);
    assert(n / 100 / 10 == n / 1000);
    if n < 10 {
    } else if n < 100 {
        assert(text::decimal(n) =~= seq![text::digit_char(n / 10), text::digit_char(n % 10)]);
    } else if n < 1000 {
        assert(text::decimal(n) =~= seq![
            text::digit_char(n / 100),
            text::digit_char(n / 10 % 10),
            text::digit_char(n % 10),
        ]);
    } else {
        assert(text::decimal(n) =~= seq![
            text::digit_char(n / 1000),
            text::digit_char(n / 100 % 10),
            text::digit_char(n / 10 % 10),
            text::digit_char(n % 10),
        ]);
    }
}

/// The four digits of a year, leading zeros counted in.
proof fn lemma_year_text(y: nat)
    requires
        y <= 9999,
    ensures
        zero_padded(y as int, 4) == seq![
            text::digit_char(y / 1000),
            text::digit_char(y / 100 % 10),
            text::digit_char(y / 10 % 10),
            text::digit_char(y % 10),
        ],
{
    lemma_decimal_digits(y);
    assert(text::digit_char(0) == '0');
    assert(zero_padded(y as int, 4) =~= seq![
        text::digit_char(y / 1000),
        text::digit_char(y / 100 % 10),
        text::digit_char(y / 10 % 10),
        text::digit_char(y % 10),
    ]);
}

proof fn lemma_week_text(w: nat)
    requires
        w <= 99,
    ensures
        zero_padded(w as int, 2) == seq![text::digit_char(w / 10), text::digit_char(w % 10)],
{
    lemma_decimal_digits(w);
    assert(text::digit_char(0) == '0');
    assert(zero_padded(w as int, 2) =~= seq![
        text::digit_char(w / 10),
        text::digit_char(w % 10),
    ]);
}

proof fn lemma_digit(d: nat)
    requires
        d < 10,
    ensures
        text::digit_value(text::digit_char(d)) == d,
        char_bytes(text::digit_char(d)) == 1,
        !text::is_whitespace(text::digit_char(d)),
        text::digit_char(d) != '-',
        text::digit_char(d) != '+',
{
}

proof fn lemma_two_digits(a: char, b: char)
    requires
        text::digit_value(a) < 10,
        text::digit_value(b) < 10,
        char_bytes(a) == 1,
        char_bytes(b) == 1,
        a != '+',
    ensures
        text_bytes(seq![a, b]) == 2,
        text::unsigned_value(seq![a, b], 10) == Some(
            text::digit_value(a) * 10 + text::digit_value(b),
        ),
{
    let s = seq![a, b];
    assert(s.drop_last() =~= seq![a]);
    assert(seq![a].drop_last() =~= Seq::<char>::empty());
    assert(text_bytes(Seq::<char>::empty()) == 0);
    assert(text_bytes(seq![a]) == 1);
    assert(text::digits_value(Seq::<char>::empty(), 10) == 0);
    assert(text::digits_value(seq![a], 10) == text::digit_value(a));
    assert(text::digits_value(s, 10) == text::digit_value(a) * 10 + text::digit_value(b));
    assert(text::all_digits(s, 10));
}

proof fn lemma_year_digits(a: char, b: char, c: char, d: char)
    requires
        text::digit_value(a) < 10,
        text::digit_value(b) < 10,
        text::digit_value(c) < 10,
        text::digit_value(d) < 10,
        char_bytes(a) == 1,
        char_bytes(b) == 1,
        char_bytes(c) == 1,
        char_bytes(d) == 1,
        a != '+',
    ensures
        text_bytes(seq![a, b, c, d]) == 4,
        text::unsigned_value(seq![a, b, c, d], 10) == Some(
            text::digit_value(a) * 1000 + text::digit_value(b) * 100 + text::digit_value(c) * 10
                + text::digit_value(d),
        ),
{
    let s = seq![a, b, c, d];
    let t = seq![a, b, c];
    let u = seq![a, b];
    lemma_two_digits(a, b);
    assert(s.drop_last() =~= t);
    assert(t.drop_last() =~= u);
    assert(text_bytes(t) == 3);
    assert(text::digits_value(u, 10) == text::digit_value(a) * 10 + text::digit_value(b));
    assert(text::digits_value(t, 10) == text::digits_value(u, 10) * 10 + text::digit_value(c));
    assert(text::digits_value(s, 10) == text::digits_value(t, 10) * 10 + text::digit_value(d));
    assert(text::all_digits(s, 10));
}

/// The first hyphen of a key parts the year from the week.
proof fn lemma_key_parts(ys: Seq<char>, ws: Seq<char>)
    requires
        ys.len() == 4,
        ws.len() == 2,
        forall|i: int| 0 <= i < 4 ==> #[trigger] ys[i] != '-',
        !text::is_whitespace(ys[0]),
        !text::is_whitespace(ws[1]),
    ensures
        text::trim(ys + "-"@ + ws) == ys + "-"@ + ws,
        text::split_at_first(ys + "-"@ + ws, "-"@) == Some((ys, ws)),
{
    reveal_strlit("-");
    let key = ys + "-"@ + ws;
    assert(key[0] == ys[0]);
    assert(key.last() == ws[1]);
    assert(text::drop_leading(key, text::CharClass::Space) == key);
    assert(text::drop_trailing(key, text::CharClass::Space) == key);
    assert(key.subrange(4, 5) =~= "-"@);
    assert forall|i: int| 0 <= i < 4 implies !#[trigger] text::occurs_at(key, "-"@, i) by {
        assert(key[i] == ys[i]);
        if text::occurs_at(key, "-"@, i) {
            assert(key.subrange(i, i + 1)[0] == '-');
        }
    }
    assert(text::find_from(key, "-"@, 4) == Some(4int));
    assert(text::find_from(key, "-"@, 3) == Some(4int));
    assert(text::find_from(key, "-"@, 2) == Some(4int));
    assert(text::find_from(key, "-"@, 1) == Some(4int));
    assert(text::find_from(key, "-"@, 0) == Some(4int));
    assert(key.take(4) =~= ys);
    assert(key.skip(5) =~= ws);
}

proof fn lemma_digit_sum(n: nat)
    requires
        n <= 9999,
    ensures
        n == n / 1000 * 1000 + n / 100 % 10 * 100 + n / 10 % 10 * 10 + n % 10,
        n / 1000 < 10,
{
    let a = n / 10;
    let b = a / 10;
    assert(a / 10 == n / 100);
    assert(b / 10 == n / 1000);
    assert(n == a * 10 + n % 10);
    assert(a == b * 10 + a % 10);
    assert(b == b / 10 * 10 + b % 10);
}

/// The key of a week asks for that week.
pub proof fn lemma_week_key_asks(year: int, week: int)
    requires
        0 <= year <= 9999,
        1 <= week <= 53,
    ensures
        asked_week(week_key(year, week)) == Ok::<(int, int), Seq<char>>((year, week)),
{
    let y = year as nat;
    let w = week as nat;
    let ys = zero_padded(year, 4);
    let ws = zero_padded(week, 2);
    assert(text_bytes(ys) == 4 && text::unsigned_value(ys, 10) == Some(y) && ys.len() == 4
        && !text::is_whitespace(ys[0]) && forall|i: int| 0 <= i < 4 ==> #[trigger] ys[i] != '-')
        by {
        lemma_year_value(y);
    }
    assert(text_bytes(ws) == 2 && text::unsigned_value(ws, 10) == Some(w) && ws.len() == 2
        && !text::is_whitespace(ws[1])) by {
        lemma_week_value(w);
    }
    lemma_key_parts(ys, ws);
}

proof fn lemma_week_value(w: nat)
    requires
        w <= 99,
    ensures
        ({
            let ws = zero_padded(w as int, 2);
            &&& text_bytes(ws) == 2
            &&& text::unsigned_value(ws, 10) == Some(w)
            &&& ws.len() == 2
            &&& !text::is_whitespace(ws[1])
        }),
{
    lemma_week_text(w);
    lemma_digit(w / 10);
    lemma_digit(w % 10);
    lemma_two_digits(text::digit_char(w / 10), text::digit_char(w % 10));
    assert(w == w / 10 * 10 + w % 10);
}

proof fn lemma_year_value(y: nat)
    requires
        y <= 9999,
    ensures
        ({
            let ys = zero_padded(y as int, 4);
            &&& text_bytes(ys) == 4
            &&& text::unsigned_value(ys, 10) == Some(y)
            &&& ys.len() == 4
            &&& !text::is_whitespace(ys[0])
            &&& forall|i: int| 0 <= i < 4 ==> #[trigger] ys[i] != '-'
        }),
{
    lemma_year_text(y);
    lemma_digit_sum(y);
    lemma_digit(y / 1000);
    lemma_digit(y / 100 % 10);
    lemma_digit(y / 10 % 10);
    lemma_digit(y % 10);
    lemma_year_digits(
        text::digit_char(y / 1000),
        text::digit_char(y / 100 % 10),
        text::digit_char(y / 10 % 10),
        text::digit_char(y % 10),
    );
}

proof fn lemma_asked_year(raw: Seq<char>)
    ensures
        asked_week(raw) matches Ok((y, w)) ==> 0 <= y <= 9999 && 1 <= w <= 53,
{
    match asked_week(raw) {
        Ok((year, week)) => {
            let (y, w) = text::split_at_first(text::trim(raw), "-"@).unwrap();
            lemma_bytes_bound(y);
            if y[0] == '+' {
                lemma_four_digits(y.skip(1));
            } else {
                lemma_four_digits(y);
            }
        },
        Err(_) => {},
    }
}

/// A key that was made normal is left as it is.
pub proof fn lemma_normal_week_idempotent(raw: Seq<char>)
    ensures
        normal_week(raw) matches Ok(key) ==> normal_week(key) == Ok::<Seq<char>, Seq<char>>(key),
{
    lemma_asked_year(raw);
    match asked_week(raw) {
        Ok((y, w)) => lemma_week_key_asks(y, w),
        Err(_) => {},
    }
}

// ---------------------------------------------------------------------------
// Ranges of time
// ---------------------------------------------------------------------------

/// So many days from a second on.
pub open spec fn days_from(start: Option<int>, days: int) -> Option<(int, int)> {
    match start {
        Some(s) => if s + days * 86400 <= i64::MAX {
            Some((s, s + days * 86400))
        } else {
            None
        },
        None => None,
    }
}

fn range_of(start: Option<i64>, days: i64) -> (r: Option<(Stamp, Stamp)>)
    requires
        0 <= days <= 7,
    ensures
        match r {
            Some((a, b)) => days_from(clock::opt_secs(start), days as int) matches Some((x, y)) && a@
                == store::moment(x) && b@ == store::moment(y),
            None => days_from(clock::opt_secs(start), days as int) is None,
        },
{
    match start {
        None => None,
        Some(s) => {
            let length: i64 = days * SECS_PER_DAY;
            if s > i64::MAX - length {
                None
            } else {
                Some((Stamp::at(s), Stamp::at(s + length)))
            }
        },
    }
}

/// The seconds of a day in a zone.
pub open spec fn day_secs(day: Seq<char>, zone: Seq<char>) -> Option<(int, int)> {
    days_from(clock::midnight_of(day, zone), 1)
}

pub fn day_range(day: &str, zone: &str) -> (r: Option<(Stamp, Stamp)>)
    ensures
        match r {
            Some((a, b)) => day_secs(day@, zone@) matches Some((x, y)) && a@ == store::moment(x) && b@
                == store::moment(y),
            None => day_secs(day@, zone@) is None,
        },
{
    range_of(day_start(day, zone), 1)
}

/// The seconds of a calendar week in a zone.
pub open spec fn week_secs(year: int, week: int, zone: Seq<char>) -> Option<(int, int)> {
    days_from(clock::monday_of(year, week, zone), 7)
}

pub fn week_range(year: i32, week: u32, zone: &str) -> (r: Option<(Stamp, Stamp)>)
    requires
        -9999 <= year <= 9999,
    ensures
        match r {
            Some((a, b)) => week_secs(year as int, week as int, zone@) matches Some((x, y)) && a@
                == store::moment(x) && b@ == store::moment(y),
            None => week_secs(year as int, week as int, zone@) is None,
        },
{
    range_of(week_start(year, week, zone), 7)
}

// ---------------------------------------------------------------------------
// Texts
// ---------------------------------------------------------------------------

/// A summary on one line.
pub open spec fn flat(summary: Seq<char>) -> Seq<char> {
    text::join(text::words(summary), " "@)
}

pub fn flatten_summary(summary: &str) -> (r: String)
    ensures
        r@ == flat(summary@),
{
    let parts = split_words(summary);
    join_strings(parts.as_slice(), " ")
}

/// The line of a task in a summary.
pub open spec fn summary_line(e: ArchivedTaskRecord) -> Seq<char> {
    let label = text::text_or(text::opt_text(e.title), e.normalized_url@);
    match e.summary {
        Some(s) => "- "@ + label + " | "@ + flat(s@),
        None => "- "@ + e.task_id@ + " | "@ + label,
    }
}

fn make_summary_line(e: &ArchivedTaskRecord) -> (r: String)
    ensures
        r@ == summary_line(*e),
{
    let label = string_or(&e.title, e.normalized_url.as_str());
    match &e.summary {
        Some(s) => cat4("- ", label.as_str(), " | ", flatten_summary(s.as_str()).as_str()),
        None => cat4("- ", e.task_id.as_str(), " | ", label.as_str()),
    }
}

/// The lines of the first tasks.
pub open spec fn summary_lines(entries: Seq<ArchivedTaskRecord>, shown: int) -> Seq<Seq<char>> {
    Seq::new(
        if shown < entries.len() {
            shown as nat
        } else {
            entries.len()
        },
        |i: int| summary_line(entries[i]),
    )
}

/// A short account of a report: its name, how many tasks it holds, and the first of them.
pub open spec fn report_summary(
    title: Seq<char>,
    nothing: Seq<char>,
    entries: Seq<ArchivedTaskRecord>,
    shown: int,
) -> Seq<char> {
    if entries.len() == 0 {
        title + "\n"@ + nothing
    } else {
        text::join(
            seq![title, "- archived_count: "@ + text::decimal(entries.len())] + summary_lines(
                entries,
                shown,
            ),
            "\n"@,
        )
    }
}

fn build_summary(title: &str, nothing: &str, entries: &Vec<ArchivedTaskRecord>, shown: usize) -> (r:
    String)
    ensures
        r@ == report_summary(title@, nothing@, entries@, shown as int),
{
    if entries.len() == 0 {
        return cat3(title, "\n", nothing);
    }
    let mut lines: Vec<String> = Vec::new();
    push_text(&mut lines, title);
    push_text(&mut lines, cat2("- archived_count: ", usize_text(entries.len()).as_str()).as_str());
    let ghost start = seq![title@, "- archived_count: "@ + text::decimal(entries@.len())];
    let ghost told = summary_lines(entries@, shown as int);
    let n: usize = if shown < entries.len() {
        shown
    } else {
        entries.len()
    };
    proof {
        assert(text::texts(lines@) =~= start + told.take(0));
    }
    let mut i: usize = 0;
    while i < n
        invariant
            i <= n <= entries.len(),
            told == summary_lines(entries@, shown as int),
            told.len() == n,
            text::texts(lines@) == start + told.take(i as int),
        decreases n - i,
    {
        push_text(&mut lines, make_summary_line(&entries[i]).as_str());
        proof {
            assert((start + told.take(i as int)).push(told[i as int]) =~= start + told.take(i + 1));
        }
        i = i + 1;
    }
    proof {
        assert(told.take(i as int) =~= told);
    }
    join_strings(lines.as_slice(), "\n")
}

pub open spec fn daily_summary(day: Seq<char>, entries: Seq<ArchivedTaskRecord>) -> Seq<char> {
    report_summary("日报 "@ + day, "- 当天没有新的 archived 任务"@, entries, 5)
}

pub fn build_daily_summary(day: &str, entries: &Vec<ArchivedTaskRecord>) -> (r: String)
    ensures
        r@ == daily_summary(day@, entries@),
{
    build_summary(cat2("日报 ", day).as_str(), "- 当天没有新的 archived 任务", entries, 5)
}

pub open spec fn weekly_summary(week: Seq<char>, entries: Seq<ArchivedTaskRecord>) -> Seq<char> {
    report_summary("周报 "@ + week, "- 当周没有新的 archived 任务"@, entries, 8)
}

pub fn build_weekly_summary(week: &str, entries: &Vec<ArchivedTaskRecord>) -> (r: String)
    ensures
        r@ == weekly_summary(week@, entries@),
{
    build_summary(cat2("周报 ", week).as_str(), "- 当周没有新的 archived 任务", entries, 8)
}

/// The lines of a task in a report.
pub open spec fn entry_lines(e: ArchivedTaskRecord) -> Seq<Seq<char>> {
    let first = seq![
        "### "@ + text::text_or(text::opt_text(e.title), e.task_id@),
        ""@,
        "- task_id: "@ + e.task_id@,
        "- article_id: "@ + e.article_id@,
        "- url: "@ + e.normalized_url@,
        "- content_source: "@ + text::text_or(text::opt_text(e.content_source), "(none)"@),
        "- page_kind: "@ + text::text_or(text::opt_text(e.page_kind), "(none)"@),
    ];
    let told = match e.summary {
        Some(s) => first.push("- summary: "@ + flat(s@)),
        None => first,
    };
    told.push("- output_path: "@ + text::text_or(text::opt_text(e.output_path), "(none)"@)).push(
        "- updated_at: "@ + e.updated_at@,
    ).push(""@)
}

fn push_entry(lines: &mut Vec<String>, e: &ArchivedTaskRecord)
    ensures
        text::texts(final(lines)@) == text::texts(old(lines)@) + entry_lines(*e),
{
    let ghost before = text::texts(lines@);
    push_text(
        lines,
        cat2("### ", string_or(&e.title, e.task_id.as_str()).as_str()).as_str(),
    );
    push_text(lines, "");
    push_text(lines, cat2("- task_id: ", e.task_id.as_str()).as_str());
    push_text(lines, cat2("- article_id: ", e.article_id.as_str()).as_str());
    push_text(lines, cat2("- url: ", e.normalized_url.as_str()).as_str());
    push_text(
        lines,
        cat2("- content_source: ", string_or(&e.content_source, "(none)").as_str()).as_str(),
    );
    push_text(
        lines,
        cat2("- page_kind: ", string_or(&e.page_kind, "(none)").as_str()).as_str(),
    );
    match &e.summary {
        Some(s) => {
            push_text(lines, cat2("- summary: ", flatten_summary(s.as_str()).as_str()).as_str());
        },
        None => {},
    }
    push_text(
        lines,
        cat2("- output_path: ", string_or(&e.output_path, "(none)").as_str()).as_str(),
    );
    push_text(lines, cat2("- updated_at: ", e.updated_at.as_str()).as_str());
    push_text(lines, "");
    proof {
        assert(text::texts(lines@) =~= before + entry_lines(*e));
    }
}

/// The lines of all tasks, one task after the other.
pub open spec fn all_entry_lines(entries: Seq<ArchivedTaskRecord>) -> Seq<Seq<char>>
    decreases entries.len(),
{
    if entries.len() == 0 {
        Seq::empty()
    } else {
        all_entry_lines(entries.drop_last()) + entry_lines(entries.last())
    }
}

/// The text of a report.
pub open spec fn report_markdown(title: Seq<char>, entries: Seq<ArchivedTaskRecord>) -> Seq<char> {
    let start = seq![
        title,
        ""@,
        "- archived_count: "@ + text::decimal(entries.len()),
        ""@,
        "## Archived Tasks"@,
        ""@,
    ];
    text::join(
        start + if entries.len() == 0 {
            seq!["- (none)"@, ""@]
        } else {
            all_entry_lines(entries)
        },
        "\n"@,
    )
}

fn render_report(title: &str, entries: &Vec<ArchivedTaskRecord>) -> (r: String)
    ensures
        r@ == report_markdown(title@, entries@),
{
    let mut lines: Vec<String> = Vec::new();
    push_text(&mut lines, title);
    push_text(&mut lines, "");
    push_text(&mut lines, cat2("- archived_count: ", usize_text(entries.len()).as_str()).as_str());
    push_text(&mut lines, "");
    push_text(&mut lines, "## Archived Tasks");
    push_text(&mut lines, "");
    let ghost start = seq![
        title@,
        ""@,
        "- archived_count: "@ + text::decimal(entries@.len()),
        ""@,
        "## Archived Tasks"@,
        ""@,
    ];
    proof {
        assert(text::texts(lines@) =~= start);
    }
    if entries.len() == 0 {
        push_text(&mut lines, "- (none)");
        push_text(&mut lines, "");
        proof {
            assert(text::texts(lines@) =~= start + seq!["- (none)"@, ""@]);
        }
        return join_strings(lines.as_slice(), "\n");
    }
    let mut i: usize = 0;
    proof {
        assert(start + all_entry_lines(entries@.take(0)) =~= start);
    }
    while i < entries.len()
        invariant
            i <= entries.len(),
            text::texts(lines@) == start + all_entry_lines(entries@.take(i as int)),
        decreases entries.len() - i,
    {
        push_entry(&mut lines, &entries[i]);
        proof {
            let before = all_entry_lines(entries@.take(i as int));
            let more = entry_lines(entries@[i as int]);
            assert(entries@.take(i + 1).drop_last() =~= entries@.take(i as int));
            assert(start + before + more =~= start + (before + more));
        }
        i = i + 1;
    }
    proof {
        assert(entries@.take(i as int) =~= entries@);
    }
    join_strings(lines.as_slice(), "\n")
}

pub fn render_daily_report_markdown(day: &str, entries: &Vec<ArchivedTaskRecord>) -> (r: String)
    ensures
        r@ == report_markdown("# AMClaw Daily Report "@ + day@, entries@),
{
    render_report(cat2("# AMClaw Daily Report ", day).as_str(), entries)
}

pub fn render_weekly_report_markdown(week: &str, entries: &Vec<ArchivedTaskRecord>) -> (r: String)
    ensures
        r@ == report_markdown("# AMClaw Weekly Report "@ + week@, entries@),
{
    render_report(cat2("# AMClaw Weekly Report ", week).as_str(), entries)
}

// ---------------------------------------------------------------------------
// Reports
// ---------------------------------------------------------------------------

/// The tasks that were archived in a range of seconds, the latest first.
pub open spec fn archived_between(s: StoreData, range: (int, int), limit: int) -> Seq<
    (TaskData, ArticleData),
> {
    tasks::listing(
        s,
        FilterData::ArchivedBetween(store::moment(range.0), store::moment(range.1)),
        TaskOrder::LatestSecondFirst,
        limit,
    )
}

/// A report holds only tasks that were archived in its range; and where they are no more
/// than its limit, all of those whose article is there.
pub proof fn lemma_report_covers_range(s: StoreData, range: (int, int), limit: int)
    requires
        0 <= limit,
        i64::MIN <= range.0 <= i64::MAX,
        i64::MIN <= range.1 <= i64::MAX,
    ensures
        forall|i: int|
            0 <= i < archived_between(s, range, limit).len() ==> {
                let t = (#[trigger] archived_between(s, range, limit)[i]).0;
                t.status == "archived"@ && (t.updated_at.secs matches Some(x) && range.0 <= x
                    < range.1)
            },
        tasks::selected(
            s.tasks,
            s.articles,
            FilterData::ArchivedBetween(store::moment(range.0), store::moment(range.1)),
        ).len() <= limit ==> forall|k: int|
            #![trigger s.tasks[k]]
            0 <= k < s.tasks.len() && s.tasks[k].status == "archived"@ && (
            s.tasks[k].updated_at.secs matches Some(x) && range.0 <= x < range.1)
                && tasks::article_of(s.articles, s.tasks[k].article_id) is Some
                ==> archived_between(s, range, limit).contains(
                (
                    s.tasks[k],
                    tasks::article_of(s.articles, s.tasks[k].article_id).unwrap(),
                ),
            ),
{
    let f = FilterData::ArchivedBetween(store::moment(range.0), store::moment(range.1));
    let o = TaskOrder::LatestSecondFirst;
    let rows = archived_between(s, range, limit);
    assert forall|i: int| 0 <= i < rows.len() implies {
        let t = (#[trigger] rows[i]).0;
        t.status == "archived"@ && (t.updated_at.secs matches Some(x) && range.0 <= x < range.1)
    } by {
        tasks::lemma_listing_passes(s, f, o, limit, i);
    }
    if tasks::selected(s.tasks, s.articles, f).len() <= limit {
        assert forall|k: int|
            #![trigger s.tasks[k]]
            0 <= k < s.tasks.len() && s.tasks[k].status == "archived"@ && (
            s.tasks[k].updated_at.secs matches Some(x) && range.0 <= x < range.1)
                && tasks::article_of(s.articles, s.tasks[k].article_id) is Some implies rows.contains(
            (s.tasks[k], tasks::article_of(s.articles, s.tasks[k].article_id).unwrap()),
        ) by {
            tasks::lemma_listing_complete(s, f, o, limit, k);
        }
    }
}

/// What an entry tells of its task: each of these is a line of it.
pub proof fn lemma_entry_tells_all(e: ArchivedTaskRecord)
    ensures
        entry_lines(e)[0] == "### "@ + text::text_or(text::opt_text(e.title), e.task_id@),
        entry_lines(e).contains("- task_id: "@ + e.task_id@),
        entry_lines(e).contains("- article_id: "@ + e.article_id@),
        entry_lines(e).contains("- url: "@ + e.normalized_url@),
        entry_lines(e).contains(
            "- content_source: "@ + text::text_or(text::opt_text(e.content_source), "(none)"@),
        ),
        entry_lines(e).contains(
            "- page_kind: "@ + text::text_or(text::opt_text(e.page_kind), "(none)"@),
        ),
        e.summary matches Some(s) ==> entry_lines(e).contains(
            "- summary: "@ + text::join(text::words(s@), " "@),
        ),
        entry_lines(e).contains(
            "- output_path: "@ + text::text_or(text::opt_text(e.output_path), "(none)"@),
        ),
        entry_lines(e).contains("- updated_at: "@ + e.updated_at@),
{
    let l = entry_lines(e);
    assert(l[2] == "- task_id: "@ + e.task_id@);
    assert(l[3] == "- article_id: "@ + e.article_id@);
    assert(l[4] == "- url: "@ + e.normalized_url@);
    assert(l[5] == "- content_source: "@ + text::text_or(
        text::opt_text(e.content_source),
        "(none)"@,
    ));
    assert(l[6] == "- page_kind: "@ + text::text_or(text::opt_text(e.page_kind), "(none)"@));
    let path = "- output_path: "@ + text::text_or(text::opt_text(e.output_path), "(none)"@);
    let time = "- updated_at: "@ + e.updated_at@;
    match e.summary {
        Some(s) => {
            assert(l[7] == "- summary: "@ + flat(s@));
            assert(l[8] == path);
            assert(l[9] == time);
        },
        None => {
            assert(l[7] == path);
            assert(l[8] == time);
        },
    }
}

/// Where the lines of entry `i` begin among those of all entries.
pub open spec fn entry_start(entries: Seq<ArchivedTaskRecord>, i: int) -> int
    decreases i,
{
    if i <= 0 {
        0
    } else {
        entry_start(entries, i - 1) + entry_lines(entries[i - 1]).len()
    }
}

proof fn lemma_entry_places(entries: Seq<ArchivedTaskRecord>, i: int)
    requires
        0 <= i < entries.len(),
    ensures
        ({
            let all = all_entry_lines(entries);
            let at = entry_start(entries, i);
            &&& 0 <= at
            &&& at + entry_lines(entries[i]).len() <= all.len()
            &&& all.subrange(at, at + entry_lines(entries[i]).len()) == entry_lines(entries[i])
            &&& all.len() == entry_start(entries, entries.len() as int)
        }),
    decreases entries.len(),
{
    let n = entries.len() as int;
    let init = entries.drop_last();
    let all = all_entry_lines(entries);
    let before = all_entry_lines(init);
    lemma_starts_agree(entries, init, n - 1);
    if n > 1 {
        lemma_entry_places(init, if i < n - 1 { i } else { 0 });
    } else {
        assert(before =~= Seq::empty());
    }
    assert(all == before + entry_lines(entries.last()));
    assert(before.len() == entry_start(entries, n - 1));
    if i < n - 1 {
        lemma_starts_agree(entries, init, i);
        let at = entry_start(entries, i);
        let m = entry_lines(entries[i]).len();
        assert(all.subrange(at, at + m) =~= before.subrange(at, at + m));
    } else {
        let at = entry_start(entries, i);
        assert(all.subrange(at, at + entry_lines(entries[i]).len()) =~= entry_lines(entries[i]));
    }
}

proof fn lemma_starts_agree(a: Seq<ArchivedTaskRecord>, b: Seq<ArchivedTaskRecord>, i: int)
    requires
        0 <= i <= b.len() <= a.len(),
        forall|k: int| 0 <= k < b.len() ==> a[k] == b[k],
    ensures
        entry_start(a, i) == entry_start(b, i) >= 0,
    decreases i,
{
    if i > 0 {
        lemma_starts_agree(a, b, i - 1);
    }
}

/// A report is a list of lines that holds its title first, the number of its entries, and the
/// lines of every entry, one entry behind the other in their order.
pub proof fn lemma_report_holds_every_entry(title: Seq<char>, entries: Seq<ArchivedTaskRecord>)
    ensures
        exists|lines: Seq<Seq<char>>|
            {
                &&& report_markdown(title, entries) == #[trigger] text::join(lines, "\n"@)
                &&& lines.len() > 2
                &&& lines[0] == title
                &&& lines.contains("- archived_count: "@ + text::decimal(entries.len()))
                &&& forall|i: int|
                    0 <= i < entries.len() ==> {
                        let e = #[trigger] entries[i];
                        let at = 6 + entry_start(entries, i);
                        &&& at + entry_lines(e).len() <= lines.len()
                        &&& lines.subrange(at, at + entry_lines(e).len()) == entry_lines(e)
                    }
            },
        forall|i: int, j: int|
            0 <= i < j < entries.len() ==> entry_start(entries, i) + entry_lines(
                #[trigger] entries[i],
            ).len() <= #[trigger] entry_start(entries, j),
{
    let start = seq![
        title,
        ""@,
        "- archived_count: "@ + text::decimal(entries.len()),
        ""@,
        "## Archived Tasks"@,
        ""@,
    ];
    let lines = start + if entries.len() == 0 {
        seq!["- (none)"@, ""@]
    } else {
        all_entry_lines(entries)
    };
    assert(lines[2] == "- archived_count: "@ + text::decimal(entries.len()));
    assert forall|i: int| 0 <= i < entries.len() implies {
        let e = #[trigger] entries[i];
        let at = 6 + entry_start(entries, i);
        &&& at + entry_lines(e).len() <= lines.len()
        &&& lines.subrange(at, at + entry_lines(e).len()) == entry_lines(e)
    } by {
        lemma_entry_places(entries, i);
        let at = entry_start(entries, i);
        let m = entry_lines(entries[i]).len();
        assert(lines.subrange(6 + at, 6 + at + m) =~= all_entry_lines(entries).subrange(
            at,
            at + m,
        ));
    }
    assert(report_markdown(title, entries) == text::join(lines, "\n"@));
    assert forall|i: int, j: int| 0 <= i < j < entries.len() implies entry_start(entries, i)
        + entry_lines(#[trigger] entries[i]).len() <= #[trigger] entry_start(entries, j) by {
        lemma_starts_grow(entries, i, j);
    }
}

proof fn lemma_starts_grow(entries: Seq<ArchivedTaskRecord>, i: int, j: int)
    requires
        0 <= i < j,
    ensures
        entry_start(entries, i) + entry_lines(entries[i]).len() <= entry_start(entries, j),
    decreases j,
{
    if i + 1 < j {
        lemma_starts_grow(entries, i, j - 1);
    }
}

/// Every line of every entry stands in the text of the report.
pub proof fn lemma_report_text_holds(
    title: Seq<char>,
    entries: Seq<ArchivedTaskRecord>,
    i: int,
    line: Seq<char>,
)
    requires
        0 <= i < entries.len(),
        entry_lines(entries[i]).contains(line),
    ensures
        text::contains(report_markdown(title, entries), line),
{
    lemma_report_holds_every_entry(title, entries);
    let lines = choose|lines: Seq<Seq<char>>|
        {
            &&& report_markdown(title, entries) == #[trigger] text::join(lines, "\n"@)
            &&& forall|i: int|
                0 <= i < entries.len() ==> {
                    let e = #[trigger] entries[i];
                    let at = 6 + entry_start(entries, i);
                    &&& at + entry_lines(e).len() <= lines.len()
                    &&& lines.subrange(at, at + entry_lines(e).len()) == entry_lines(e)
                }
        };
    let e = entries[i];
    let k = choose|k: int| 0 <= k < entry_lines(e).len() && entry_lines(e)[k] == line;
    let at = 6 + entry_start(entries, i);
    lemma_starts_agree(entries, entries, i);
    assert(lines.subrange(at, at + entry_lines(e).len())[k] == lines[at + k]);
    text::lemma_join_places(lines, "\n"@, at + k);
}

/// The report of a day tells of every task that was archived on it: where these are no more
/// than the limit, the id and the address of each of them stand in the text, and the count
/// is theirs.
pub proof fn lemma_daily_report_tells_of_every_task(
    out: DailyReportOutput,
    content: String,
    root: Seq<char>,
    zone: Seq<char>,
    s: StoreData,
    day: Seq<char>,
    range: (int, int),
    k: int,
)
    requires
        daily_report_is(Ok((out, content)), root, zone, s, day),
        day_secs(day, zone) == Some(range),
        i64::MIN <= range.0 <= i64::MAX,
        i64::MIN <= range.1 <= i64::MAX,
        tasks::selected(
            s.tasks,
            s.articles,
            FilterData::ArchivedBetween(store::moment(range.0), store::moment(range.1)),
        ).len() <= DAILY_LIMIT,
        0 <= k < s.tasks.len(),
        s.tasks[k].status == "archived"@,
        s.tasks[k].updated_at.secs matches Some(x) && range.0 <= x < range.1,
        tasks::article_of(s.articles, s.tasks[k].article_id) is Some,
    ensures
        text::contains(content@, "- task_id: "@ + s.tasks[k].id),
        text::contains(
            content@,
            "- url: "@ + tasks::article_of(s.articles, s.tasks[k].article_id).unwrap().normalized_url,
        ),
        out.item_count > 0,
{
    let rows = archived_between(s, range, DAILY_LIMIT as int);
    lemma_report_covers_range(s, range, DAILY_LIMIT as int);
    let row = (s.tasks[k], tasks::article_of(s.articles, s.tasks[k].article_id).unwrap());
    assert(rows.contains(row));
    let entries = choose|entries: Seq<ArchivedTaskRecord>|
        {
            &&& #[trigger] tasks::archived_list(entries, rows)
            &&& out.item_count == entries.len()
            &&& content@ == report_markdown("# AMClaw Daily Report "@ + day, entries)
        };
    let i = choose|i: int| 0 <= i < rows.len() && rows[i] == row;
    assert(tasks::archived_record(entries[i], rows[i].0, rows[i].1));
    lemma_entry_tells_all(entries[i]);
    let title = "# AMClaw Daily Report "@ + day;
    lemma_report_text_holds(title, entries, i, "- task_id: "@ + entries[i].task_id@);
    lemma_report_text_holds(title, entries, i, "- url: "@ + entries[i].normalized_url@);
}

/// The short account of a report begins with its name and the number of its entries, and
/// tells of the first entries, as many as are shown, each on a line of its own.
pub proof fn lemma_summary_tells_of_the_first(
    title: Seq<char>,
    nothing: Seq<char>,
    entries: Seq<ArchivedTaskRecord>,
    shown: int,
)
    requires
        0 <= shown,
    ensures
        entries.len() == 0 ==> report_summary(title, nothing, entries, shown) == title + "\n"@
            + nothing,
        entries.len() > 0 ==> exists|lines: Seq<Seq<char>>|
            {
                &&& report_summary(title, nothing, entries, shown) == #[trigger] text::join(
                    lines,
                    "\n"@,
                )
                &&& lines.len() == 2 + (if shown < entries.len() {
                    shown
                } else {
                    entries.len() as int
                })
                &&& lines[0] == title
                &&& lines[1] == "- archived_count: "@ + text::decimal(entries.len())
                &&& forall|i: int|
                    0 <= i < lines.len() - 2 ==> {
                        let e = entries[i];
                        let label = match e.title {
                            Some(t) => t@,
                            None => e.normalized_url@,
                        };
                        #[trigger] lines[2 + i] == (match e.summary {
                            Some(s) => "- "@ + label + " | "@ + text::join(
                                text::words(s@),
                                " "@,
                            ),
                            None => "- "@ + e.task_id@ + " | "@ + label,
                        })
                    }
            },
{
    if entries.len() > 0 {
        let lines = seq![title, "- archived_count: "@ + text::decimal(entries.len())]
            + summary_lines(entries, shown);
        assert forall|i: int| 0 <= i < lines.len() - 2 implies #[trigger] lines[2 + i]
            == summary_line(entries[i]) by {}
        assert(report_summary(title, nothing, entries, shown) == text::join(lines, "\n"@));
    }
}

/// Where a report is written.
pub open spec fn report_path(root: Seq<char>, name: Seq<char>) -> Seq<char> {
    paths::joined(paths::joined(root, "reports"@), name + ".md"@)
}

/// What the report of a day is: every task that was archived on it, as far as the limit
/// allows.
pub open spec fn daily_report_is(
    r: Result<(DailyReportOutput, String), String>,
    root: Seq<char>,
    zone: Seq<char>,
    s: StoreData,
    day: Seq<char>,
) -> bool {
    match r {
        Ok((out, content)) => day_secs(day, zone) matches Some(range) && exists|
            entries: Seq<ArchivedTaskRecord>,
        |
            {
                &&& #[trigger] tasks::archived_list(entries, archived_between(s, range, DAILY_LIMIT as int))
                &&& out.day@ == day
                &&& out.markdown_path@ == report_path(root, "daily-"@ + day)
                &&& out.item_count == entries.len()
                &&& out.summary@ == daily_summary(day, entries)
                &&& content@ == report_markdown("# AMClaw Daily Report "@ + day, entries)
            },
        Err(e) => day_secs(day, zone) is None && e@ == "无法计算日期范围: "@ + day,
    }
}

/// What the report of a week is: every task that was archived in it, as far as the limit
/// allows.
pub open spec fn weekly_report_is(
    r: Result<(WeeklyReportOutput, String), String>,
    root: Seq<char>,
    zone: Seq<char>,
    s: StoreData,
    week: Seq<char>,
) -> bool {
    match (asked_week(week), r) {
        (Err(e), Err(f)) => f@ == e,
        (Ok((y, w)), Err(f)) => week_secs(y, w, zone) is None && f@ == "无法计算周范围: "@ + week_key(
            y,
            w,
        ),
        (Ok((y, w)), Ok((out, content))) => week_secs(y, w, zone) matches Some(range) && exists|
            entries: Seq<ArchivedTaskRecord>,
        |
            {
                &&& #[trigger] tasks::archived_list(
                    entries,
                    archived_between(s, range, WEEKLY_LIMIT as int),
                )
                &&& out.week@ == week_key(y, w)
                &&& out.markdown_path@ == report_path(root, "weekly-"@ + week_key(y, w))
                &&& out.item_count == entries.len()
                &&& out.summary@ == weekly_summary(week_key(y, w), entries)
                &&& content@ == report_markdown("# AMClaw Weekly Report "@ + week_key(y, w), entries)
            },
        _ => false,
    }
}

impl DailyReporter {
    pub fn new(root_dir: String, db_path: String, timezone: String) -> (r: Self)
        ensures
            r.root_dir == root_dir,
            r.db_path == db_path,
            r.timezone == timezone,
    {
        DailyReporter { root_dir, db_path, timezone }
    }

    pub fn from_config(config: &AppConfig) -> (r: Result<Self, String>)
        ensures
            match r {
                Ok(d) => {
                    &&& clock::zone_known(config.agent.timezone@)
                    &&& d.root_dir@ == config.root()
                    &&& d.db_path@ == paths::joined(config.root(), "amclaw.db"@)
                    &&& d.timezone@ == config.agent.timezone@
                },
                Err(e) => !clock::zone_known(config.agent.timezone@) && e@ == unknown_zone(
                    config.agent.timezone@,
                ),
            },
    {
        match parse_timezone(config.agent.timezone.as_str()) {
            Ok(zone) => Ok(DailyReporter::new(config.resolved_root_dir(), config.db_path(), zone)),
            Err(e) => Err(e),
        }
    }

    /// The day at a second, where the zone has one.
    pub fn current_day(&self, now_secs: i64) -> (r: Option<String>)
        ensures
            match clock::local_clock(self.timezone@, now_secs as int) {
                Some(t) => text::opt_text(r) == Some(t.day),
                None => r is None,
            },
    {
        match local_time(self.timezone.as_str(), now_secs) {
            Some(t) => Some(t.day),
            None => None,
        }
    }

    /// The key of the week at a second, where the zone has one.
    pub fn current_week(&self, now_secs: i64) -> (r: Option<String>)
        ensures
            match clock::local_clock(self.timezone@, now_secs as int) {
                Some(t) => text::opt_text(r) == Some(week_key(t.iso_year, t.iso_week)),
                None => r is None,
            },
    {
        match local_time(self.timezone.as_str(), now_secs) {
            Some(t) => Some(format_week_key(t.iso_year, t.iso_week)),
            None => None,
        }
    }

    /// The report of the tasks that are listed for a day.
    pub fn daily_report(&self, day: &str, entries: &Vec<ArchivedTaskRecord>) -> (r: (
        DailyReportOutput,
        String,
    ))
        ensures
            r.0.day@ == day@,
            r.0.markdown_path@ == report_path(self.root_dir@, "daily-"@ + day@),
            r.0.item_count == entries@.len(),
            r.0.summary@ == daily_summary(day@, entries@),
            r.1@ == report_markdown("# AMClaw Daily Report "@ + day@, entries@),
    {
        let reports = join_path(self.root_dir.as_str(), "reports");
        let path = join_path(reports.as_str(), cat3("daily-", day, ".md").as_str());
        (
            DailyReportOutput {
                day: owned(day),
                markdown_path: path,
                item_count: entries.len(),
                summary: build_daily_summary(day, entries),
            },
            render_daily_report_markdown(day, entries),
        )
    }

    /// The report of what was archived on a day, and the text of its file.
    pub fn generate_for_day(&self, store: &TaskStore, day: &str) -> (r: Result<
        (DailyReportOutput, String),
        String,
    >)
        ensures
            daily_report_is(r, self.root_dir@, self.timezone@, store@, day@),
    {
        match day_range(day, self.timezone.as_str()) {
            None => Err(cat2("无法计算日期范围: ", day)),
            Some((start, end)) => {
                match store.list_archived_tasks_in_range(&start, &end, DAILY_LIMIT) {
                    Ok(entries) => {
                        let ghost range = day_secs(day@, self.timezone@).unwrap();
                        proof {
                            assert(tasks::archived_list(
                                entries@,
                                archived_between(store@, range, DAILY_LIMIT as int),
                            ));
                        }
                        Ok(self.daily_report(day, &entries))
                    },
                    Err(_) => Err(cat2("无法计算日期范围: ", day)),
                }
            },
        }
    }

    /// The report of the tasks that are listed for a week.
    pub fn weekly_report(&self, week: String, entries: &Vec<ArchivedTaskRecord>) -> (r: (
        WeeklyReportOutput,
        String,
    ))
        ensures
            r.0.week@ == week@,
            r.0.markdown_path@ == report_path(self.root_dir@, "weekly-"@ + week@),
            r.0.item_count == entries@.len(),
            r.0.summary@ == weekly_summary(week@, entries@),
            r.1@ == report_markdown("# AMClaw Weekly Report "@ + week@, entries@),
    {
        let reports = join_path(self.root_dir.as_str(), "reports");
        let path = join_path(reports.as_str(), cat3("weekly-", week.as_str(), ".md").as_str());
        let summary = build_weekly_summary(week.as_str(), entries);
        let content = render_weekly_report_markdown(week.as_str(), entries);
        (
            WeeklyReportOutput { week, markdown_path: path, item_count: entries.len(), summary },
            content,
        )
    }

    /// The report of what was archived in a calendar week, and the text of its file.
    pub fn generate_weekly_for_week(&self, store: &TaskStore, week: &str) -> (r: Result<
        (WeeklyReportOutput, String),
        String,
    >)
        ensures
            weekly_report_is(r, self.root_dir@, self.timezone@, store@, week@),
    {
        match split_week_key(week) {
            Err(e) => Err(e),
            Ok((y, w)) => {
                let key = format_week_key(y, w);
                match week_range(y, w, self.timezone.as_str()) {
                    None => Err(cat2("无法计算周范围: ", key.as_str())),
                    Some((start, end)) => {
                        match store.list_archived_tasks_in_range(&start, &end, WEEKLY_LIMIT) {
                            Ok(entries) => {
                                let ghost range = week_secs(
                                    y as int,
                                    w as int,
                                    self.timezone@,
                                ).unwrap();
                                proof {
                                    assert(tasks::archived_list(
                                        entries@,
                                        archived_between(store@, range, WEEKLY_LIMIT as int),
                                    ));
                                }
                                Ok(self.weekly_report(key, &entries))
                            },
                            Err(_) => Err(cat2("无法计算周范围: ", key.as_str())),
                        }
                    },
                }
            },
        }
    }
}

/// A day has as many seconds as a day has, and a week seven times as many.
pub proof fn lemma_range_lengths(day: Seq<char>, year: int, week: int, zone: Seq<char>)
    ensures
        day_secs(day, zone) matches Some((a, b)) ==> b - a == 24 * 60 * 60
            && clock::midnight_of(day, zone) == Some(a),
        week_secs(year, week, zone) matches Some((a, b)) ==> b - a == 7 * 24 * 60 * 60
            && clock::monday_of(year, week, zone) == Some(a),
{
}

proof fn lemma_zeros_value(z: nat, s: Seq<char>)
    requires
        text::all_digits(s, 10),
    ensures
        text::all_digits(zeros(z as int) + s, 10),
        text::digits_value(zeros(z as int) + s, 10) == text::digits_value(s, 10),
    decreases s.len(), z,
{
    let all = zeros(z as int) + s;
    assert forall|i: int| 0 <= i < all.len() implies text::digit_value(#[trigger] all[i]) < 10 by {
        if i >= z {
            assert(all[i] == s[i - z]);
        }
    }
    if s.len() > 0 {
        assert(all.drop_last() =~= zeros(z as int) + s.drop_last());
        assert(all.last() == s.last());
        assert forall|i: int| 0 <= i < s.drop_last().len() implies text::digit_value(
            #[trigger] s.drop_last()[i],
        ) < 10 by {
            assert(s.drop_last()[i] == s[i]);
        }
        lemma_zeros_value(z, s.drop_last());
    } else if z > 0 {
        let less = (z - 1) as nat;
        assert(all.drop_last() =~= zeros(less as int) + s);
        assert(all.last() == '0');
        lemma_zeros_value(less, s);
    } else {
        assert(all =~= s);
    }
}

/// A number with zeros before it is as wide as it is asked for, where it fits, and still
/// stands for the number.
pub proof fn lemma_padding_keeps_the_number(n: nat, width: int)
    ensures
        text::all_digits(zero_padded(n as int, width), 10),
        text::digits_value(zero_padded(n as int, width), 10) == n,
        text::decimal(n).len() <= width ==> zero_padded(n as int, width).len() == width,
        text::decimal(n).len() > width ==> zero_padded(n as int, width) == text::decimal(n),
{
    let d = text::decimal(n);
    text::lemma_decimal_value(n);
    let z = width - d.len();
    if z > 0 {
        lemma_zeros_value(z as nat, d);
    } else {
        lemma_zeros_value(0, d);
        assert(zeros(z) =~= zeros(0));
        assert(zeros(0) + d =~= d);
    }
}

/// Every character counts its bytes.
pub proof fn lemma_bytes_add_up(a: Seq<char>, b: Seq<char>)
    ensures
        text_bytes(a + b) == text_bytes(a) + text_bytes(b),
        text_bytes(a) >= a.len(),
    decreases b.len(), a.len(),
{
    if b.len() > 0 {
        assert((a + b).drop_last() =~= a + b.drop_last());
        assert((a + b).last() == b.last());
        lemma_bytes_add_up(a, b.drop_last());
    } else {
        assert(a + b =~= a);
        if a.len() > 0 {
            lemma_bytes_add_up(a.drop_last(), b);
        }
    }
}

/// A week is read from four digits of the year and two of the week, and only weeks that a
/// year can have are taken.
pub proof fn lemma_week_is_read(y: Seq<char>, w: Seq<char>, a: Seq<char>, b: Seq<char>)
    requires
        y.len() == 4,
        w.len() == 2,
        text::all_digits(y, 10),
        text::all_digits(w, 10),
        forall|i: int| 0 <= i < a.len() ==> text::is_whitespace(#[trigger] a[i]),
        forall|i: int| 0 <= i < b.len() ==> text::is_whitespace(#[trigger] b[i]),
    ensures
        1 <= text::digits_value(w, 10) <= 53 ==> asked_week(a + (y + seq!['-'] + w) + b) == Ok::<
            (int, int),
            Seq<char>,
        >((text::digits_value(y, 10) as int, text::digits_value(w, 10) as int)),
        text::digits_value(w, 10) == 0 || text::digits_value(w, 10) > 53 ==> asked_week(
            a + (y + seq!['-'] + w) + b,
        ) is Err,
{
    let core = y + seq!['-'] + w;
    assert forall|i: int| 0 <= i < 4 implies text::is_ascii_digit(#[trigger] y[i]) by {
        assert(text::digit_value(y[i]) < 10);
    }
    assert forall|i: int| 0 <= i < 2 implies text::is_ascii_digit(#[trigger] w[i]) by {
        assert(text::digit_value(w[i]) < 10);
    }
    assert(text::is_ascii_digit(y[0]) && text::is_ascii_digit(w[0]) && text::is_ascii_digit(w[1]));
    text::lemma_trim_exact(a, core, b);
    reveal_strlit("-");
    assert("-"@ =~= seq!['-']);
    text::lemma_occurs_char(core, '-', 4);
    assert(core[4] == '-');
    assert forall|k: int| 0 <= k < 4 implies !#[trigger] text::occurs_at(core, seq!['-'], k) by {
        text::lemma_occurs_char(core, '-', k);
        assert(core[k] == y[k]);
        assert(text::is_ascii_digit(y[k]));
    }
    text::lemma_find_is(core, seq!['-'], 0, 4);
    assert(core.take(4) =~= y);
    assert(core.skip(5) =~= w);
    lemma_digit_bytes(y);
    lemma_digit_bytes(w);
    lemma_short_value(y);
    lemma_short_value(w);
}

proof fn lemma_digit_bytes(s: Seq<char>)
    requires
        text::all_digits(s, 10),
    ensures
        text_bytes(s) == s.len(),
    decreases s.len(),
{
    if s.len() > 0 {
        let init = s.drop_last();
        assert(text::digit_value(s[s.len() - 1]) < 10);
        assert forall|i: int| 0 <= i < init.len() implies text::digit_value(#[trigger] init[i])
            < 10 by {
            assert(init[i] == s[i]);
        }
        lemma_digit_bytes(init);
    }
}

proof fn lemma_short_value(s: Seq<char>)
    requires
        text::all_digits(s, 10),
        s.len() <= 4,
    ensures
        text::digits_value(s, 10) <= 9999,
{
    reveal_with_fuel(text::digits_value, 5);
    assert forall|i: int| 0 <= i < s.len() implies text::digit_value(#[trigger] s[i]) < 10 by {}
    let a = s.drop_last();
    let b = a.drop_last();
    let c = b.drop_last();
    if s.len() > 0 {
        assert(text::digit_value(s[s.len() - 1]) < 10);
    }
    if s.len() > 1 {
        assert(text::digit_value(s[s.len() - 2]) < 10);
    }
    if s.len() > 2 {
        assert(text::digit_value(s[s.len() - 3]) < 10);
    }
    if s.len() > 3 {
        assert(text::digit_value(s[s.len() - 4]) < 10);
    }
}

} // verus!
