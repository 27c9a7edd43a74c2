//! Link normalization and the guard against private network addresses.

use vstd::arithmetic::div_mod::lemma_fundamental_div_mod_converse;
use crate::task_store::types::TaskStoreError;
use crate::text;
use crate::text::{
    CharClass, chars_of, has_prefix, has_suffix, owned, parse_unsigned, same, split_by_char,
    split_once, string_of, strip_prefix, strip_suffix, to_lower, trim_chars, trim_leading_chars,
    trim_trailing_chars,
};
use crate::url;
use crate::url::{UrlParts, parse_url, serialize_with_pairs, serialize_without_query, url_host};
use vstd::prelude::*;

verus! {

/// An IP address.
#[derive(Debug, Clone, Copy, PartialEq, Eq)]
pub enum IpAddress {
    V4(u8, u8, u8, u8),
    V6([u16; 8]),
}

// ---------------------------------------------------------------------------
// Private ranges
// ---------------------------------------------------------------------------

/// The private, local, reserved and multicast IPv4 ranges.
pub open spec fn private_ipv4(a: int, b: int, c: int) -> bool {
    ||| a == 0
    ||| a == 10
    ||| a == 100 && 64 <= b <= 127
    ||| a == 127
    ||| a == 169 && b == 254
    ||| a == 172 && 16 <= b <= 31
    ||| a == 192 && b == 0 && c == 0
    ||| a == 192 && b == 168
    ||| a == 198 && b == 51 && c == 100
    ||| a == 203 && b == 0 && c == 113
    ||| a >= 224
}

/// All segments from `from` up to `to` are zero.
pub open spec fn zero_segments(s: Seq<u16>, to: int) -> bool {
    forall|i: int| 0 <= i < to ==> #[trigger] s[i] == 0
}

/// Unspecified, loopback, multicast, unique local and link-local addresses, and those
/// that stand for a private IPv4 address.
pub open spec fn private_ipv6(s: Seq<u16>) -> bool {
    ||| zero_segments(s, 7) && s[7] <= 1
    ||| s[0] >= 0xff00
    ||| 0xfc00 <= s[0] <= 0xfdff
    ||| 0xfe80 <= s[0] <= 0xfebf
    ||| zero_segments(s, 5) && s[5] == 0xffff && private_ipv4(
        s[6] as int / 256,
        s[6] as int % 256,
        s[7] as int / 256,
    )
}

pub open spec fn private_ip(ip: IpAddress) -> bool {
    match ip {
        IpAddress::V4(a, b, c, _d) => private_ipv4(a as int, b as int, c as int),
        IpAddress::V6(s) => private_ipv6(s@),
    }
}

pub fn is_private_ipv4(a: u8, b: u8, c: u8) -> (r: bool)
    ensures
        r == private_ipv4(a as int, b as int, c as int),
{
    a == 0 || a == 10 || (a == 100 && 64 <= b && b <= 127) || a == 127 || (a == 169 && b == 254)
        || (a == 172 && 16 <= b && b <= 31) || (a == 192 && b == 0 && c == 0) || (a == 192 && b
        == 168) || (a == 198 && b == 51 && c == 100) || (a == 203 && b == 0 && c == 113) || a
        >= 224
}

fn leading_zeros(s: &[u16; 8], to: usize) -> (r: bool)
    requires
        to <= 8,
    ensures
        r == zero_segments(s@, to as int),
{
    let mut i: usize = 0;
    while i < to
        invariant
            i <= to <= 8,
            zero_segments(s@, i as int),
        decreases to - i,
    {
        if s[i] != 0 {
            return false;
        }
        i = i + 1;
    }
    true
}

pub fn is_private_ipv6(s: &[u16; 8]) -> (r: bool)
    ensures
        r == private_ipv6(s@),
{
    if leading_zeros(s, 7) && s[7] <= 1 {
        return true;
    }
    if s[0] >= 0xff00 || (0xfc00 <= s[0] && s[0] <= 0xfdff) || (0xfe80 <= s[0] && s[0] <= 0xfebf) {
        return true;
    }
    leading_zeros(s, 5) && s[5] == 0xffff && is_private_ipv4(
        (s[6] / 256) as u8,
        (s[6] % 256) as u8,
        (s[7] / 256) as u8,
    )
}

pub fn is_private_ip(ip: IpAddress) -> (r: bool)
    ensures
        r == private_ip(ip),
{
    match ip {
        IpAddress::V4(a, b, c, _d) => is_private_ipv4(a, b, c),
        IpAddress::V6(s) => is_private_ipv6(&s),
    }
}

/// An IPv4-mapped IPv6 address is as private as the IPv4 address that it holds.
pub proof fn lemma_mapped_address(a: u8, b: u8, c: u8, d: u8, s: Seq<u16>)
    requires
        s.len() == 8,
        zero_segments(s, 5),
        s[5] == 0xffff,
        s[6] == a * 256 + b,
        s[7] == c * 256 + d,
    ensures
        private_ipv6(s) == private_ipv4(a as int, b as int, c as int),
{
    assert(s[0] == 0);
    assert(!zero_segments(s, 7)) by {
        assert(s[5] != 0);
    }
}

// ---------------------------------------------------------------------------
// IPv4 literals
// ---------------------------------------------------------------------------

/// A number of an IPv4 literal: hexadecimal after `0x`, octal after `0`, else decimal.
pub open spec fn ip_number(s: Seq<char>) -> Option<nat> {
    if s.len() == 0 {
        None
    } else if text::starts_with(s, "0x"@) {
        text::unsigned_value(s.skip("0x"@.len() as int), 16)
    } else if text::starts_with(s, "0X"@) {
        text::unsigned_value(s.skip("0X"@.len() as int), 16)
    } else if s.len() > 1 && s[0] == '0' {
        text::unsigned_value(s, 8)
    } else {
        text::unsigned_value(s, 10)
    }
}

pub fn parse_ip_number(s: &str) -> (r: Option<u32>)
    ensures
        match r {
            Some(n) => ip_number(s@) == Some(n as nat),
            None => ip_number(s@) is None,
        },
{
    if s.is_empty() {
        return None;
    }
    match strip_prefix(s, "0x") {
        Some(hex) => {
            return parse_unsigned(hex.as_str(), 16);
        },
        None => {},
    }
    match strip_prefix(s, "0X") {
        Some(hex) => {
            return parse_unsigned(hex.as_str(), 16);
        },
        None => {},
    }
    let v = chars_of(s);
    if v.len() > 1 && v[0] == '0' {
        parse_unsigned(s, 8)
    } else {
        parse_unsigned(s, 10)
    }
}

/// The IPv4 address with this 32-bit number.
pub open spec fn address_of(n: nat) -> (nat, nat, nat, nat) {
    (n / 0x100_0000, n / 0x1_0000 % 0x100, n / 0x100 % 0x100, n % 0x100)
}

/// The 32-bit number of an IPv4 literal in one to four parts, each of which is
/// decimal, octal or hexadecimal; the last part fills the bytes that are left.
pub open spec fn ipv4_number(s: Seq<char>) -> Option<nat> {
    let parts = text::split_char(s, '.');
    if parts.len() == 1 {
        ip_number(parts[0])
    } else if parts.len() == 2 {
        match (ip_number(parts[0]), ip_number(parts[1])) {
            (Some(a), Some(b)) => if a > 0xff || b > 0xff_ffff {
                None
            } else {
                Some(a * 0x100_0000 + b)
            },
            _ => None,
        }
    } else if parts.len() == 3 {
        match (ip_number(parts[0]), ip_number(parts[1]), ip_number(parts[2])) {
            (Some(a), Some(b), Some(c)) => if a > 0xff || b > 0xff || c > 0xffff {
                None
            } else {
                Some(a * 0x100_0000 + b * 0x1_0000 + c)
            },
            _ => None,
        }
    } else if parts.len() == 4 {
        match (
            ip_number(parts[0]),
            ip_number(parts[1]),
            ip_number(parts[2]),
            ip_number(parts[3]),
        ) {
            (Some(a), Some(b), Some(c), Some(d)) => if a > 0xff || b > 0xff || c > 0xff || d
                > 0xff {
                None
            } else {
                Some(a * 0x100_0000 + b * 0x1_0000 + c * 0x100 + d)
            },
            _ => None,
        }
    } else {
        None
    }
}

/// Every IPv4 literal stands for a 32-bit number.
pub proof fn lemma_ipv4_number_fits(s: Seq<char>)
    ensures
        ipv4_number(s) matches Some(n) ==> n <= u32::MAX,
{
}

/// Reads an IPv4 literal in the styles `a`, `a.b`, `a.b.c` and `a.b.c.d`.
pub fn parse_ipv4_address(host: &str) -> (r: Option<u32>)
    ensures
        match r {
            Some(n) => ipv4_number(host@) == Some(n as nat),
            None => ipv4_number(host@) is None,
        },
{
    let parts = split_by_char(host, '.');
    let ghost pieces = text::split_char(host@, '.');
    proof {
        assert(pieces.len() == parts@.len());
        assert(forall|i: int| 0 <= i < parts@.len() ==> pieces[i] == #[trigger] parts@[i]@);
    }
    let n: usize = parts.len();
    if n == 0 || n > 4 {
        return None;
    }
    let a: u32 = match parse_ip_number(parts[0].as_str()) {
        Some(x) => x,
        None => {
            return None;
        },
    };
    if n == 1 {
        return Some(a);
    }
    let b: u32 = match parse_ip_number(parts[1].as_str()) {
        Some(x) => x,
        None => {
            return None;
        },
    };
    if n == 2 {
        if a > 0xff || b > 0xff_ffff {
            return None;
        }
        return Some(a * 0x100_0000 + b);
    }
    let c: u32 = match parse_ip_number(parts[2].as_str()) {
        Some(x) => x,
        None => {
            return None;
        },
    };
    if n == 3 {
        if a > 0xff || b > 0xff || c > 0xffff {
            return None;
        }
        return Some(a * 0x100_0000 + b * 0x1_0000 + c);
    }
    let d: u32 = match parse_ip_number(parts[3].as_str()) {
        Some(x) => x,
        None => {
            return None;
        },
    };
    if a > 0xff || b > 0xff || c > 0xff || d > 0xff {
        return None;
    }
    Some(a * 0x100_0000 + b * 0x1_0000 + c * 0x100 + d)
}

// ---------------------------------------------------------------------------
// IPv6 literals
// ---------------------------------------------------------------------------

/// One to four hexadecimal digits.
pub open spec fn hex_group(s: Seq<char>) -> bool {
    1 <= s.len() <= 4 && text::all_digits(s, 16)
}

/// One to three decimal digits without a leading zero, at most 255.
pub open spec fn strict_octet(s: Seq<char>) -> bool {
    1 <= s.len() <= 3 && text::all_digits(s, 10) && (s.len() > 1 ==> s[0] != '0') && text::digits_value(s, 10)
        <= 255
}

/// Four strict octets with dots between them.
pub open spec fn dotted_quad(s: Seq<char>) -> bool {
    let parts = text::split_char(s, '.');
    parts.len() == 4 && strict_octet(parts[0]) && strict_octet(parts[1]) && strict_octet(parts[2])
        && strict_octet(parts[3])
}

/// The two segments that a dotted quad fills.
pub open spec fn quad_segments(s: Seq<char>) -> Seq<int> {
    let parts = text::split_char(s, '.');
    seq![
        text::digits_value(parts[0], 10) * 256 + text::digits_value(parts[1], 10) as int,
        text::digits_value(parts[2], 10) * 256 + text::digits_value(parts[3], 10) as int,
    ]
}

/// The segments of groups with colons between them; the last group may be a dotted
/// quad where `quad` says so.
pub open spec fn group_segments(pieces: Seq<Seq<char>>, quad: bool) -> Option<Seq<int>>
    decreases pieces.len(),
{
    if pieces.len() == 0 {
        Some(Seq::empty())
    } else {
        match group_segments(pieces.drop_last(), false) {
            None => None,
            Some(before) => if hex_group(pieces.last()) {
                Some(before.push(text::digits_value(pieces.last(), 16) as int))
            } else if quad && dotted_quad(pieces.last()) {
                Some(before + quad_segments(pieces.last()))
            } else {
                None
            },
        }
    }
}

/// The segments on one side of the double colon.
pub open spec fn side_segments(s: Seq<char>, quad: bool) -> Option<Seq<int>> {
    if s.len() == 0 {
        Some(Seq::empty())
    } else {
        group_segments(text::split_char(s, ':'), quad)
    }
}

pub open spec fn zeros(n: int) -> Seq<int> {
    Seq::new(n as nat, |i: int| 0int)
}

/// The eight segments of an IPv6 literal: eight groups, or fewer with a double colon
/// for at least one zero segment.
pub open spec fn ipv6_segments(s: Seq<char>) -> Option<Seq<int>> {
    match text::split_at_first(s, "::"@) {
        None => match side_segments(s, true) {
            Some(all) => if all.len() == 8 {
                Some(all)
            } else {
                None
            },
            None => None,
        },
        Some((left, right)) => match (side_segments(left, false), side_segments(right, true)) {
            (Some(head), Some(tail)) => if head.len() + tail.len() <= 7 {
                Some(head + zeros(8 - head.len() - tail.len()) + tail)
            } else {
                None
            },
            _ => None,
        },
    }
}

spec fn ints(v: Seq<u16>) -> Seq<int> {
    Seq::new(v.len(), |i: int| v[i] as int)
}

proof fn lemma_small_value(s: Seq<char>, radix: nat)
    requires
        text::all_digits(s, radix),
        radix == 10 && s.len() <= 3 || radix == 16 && s.len() <= 4,
    ensures
        text::digits_value(s, radix) <= 0xffff,
{
    reveal_with_fuel(text::digits_value, 5);
    if s.len() > 0 {
        assert(text::digit_value(s[s.len() - 1]) < radix);
    }
    if s.len() > 1 {
        assert(text::digit_value(s[s.len() - 2]) < radix);
    }
    if s.len() > 2 {
        assert(text::digit_value(s[s.len() - 3]) < radix);
    }
    if s.len() > 3 {
        assert(text::digit_value(s[s.len() - 4]) < radix);
    }
}

/// The value of a short group of digits without a sign.
fn small_number(s: &str, radix: u32, most: usize) -> (r: Option<u16>)
    requires
        radix == 10 && most == 3 || radix == 16 && most == 4,
    ensures
        match r {
            Some(n) => 1 <= s@.len() <= most && text::all_digits(s@, radix as nat) && n == text::digits_value(
                s@,
                radix as nat,
            ),
            None => !(1 <= s@.len() <= most && text::all_digits(s@, radix as nat)),
        },
{
    let v = chars_of(s);
    if v.len() == 0 || v.len() > most {
        return None;
    }
    if v[0] == '+' {
        proof {
            assert(text::digit_value(s@[0]) == 16);
        }
        return None;
    }
    match parse_unsigned(s, radix) {
        Some(n) => {
            proof {
                lemma_small_value(s@, radix as nat);
            }
            Some(n as u16)
        },
        None => {
            proof {
                if text::all_digits(s@, radix as nat) {
                    lemma_small_value(s@, radix as nat);
                }
            }
            None
        },
    }
}

fn parse_strict_octet(s: &str) -> (r: Option<u16>)
    ensures
        match r {
            Some(n) => strict_octet(s@) && n == text::digits_value(s@, 10) && n <= 255,
            None => !strict_octet(s@),
        },
{
    let v = chars_of(s);
    if v.len() > 1 && v[0] == '0' {
        return None;
    }
    match small_number(s, 10, 3) {
        Some(n) => if n <= 255 {
            Some(n)
        } else {
            None
        },
        None => None,
    }
}

fn parse_quad(s: &str) -> (r: Option<(u16, u16)>)
    ensures
        match r {
            Some(p) => dotted_quad(s@) && quad_segments(s@) == seq![p.0 as int, p.1 as int],
            None => !dotted_quad(s@),
        },
{
    let parts = split_by_char(s, '.');
    let ghost pieces = text::split_char(s@, '.');
    proof {
        assert(pieces.len() == parts@.len());
        assert(forall|i: int| 0 <= i < parts@.len() ==> pieces[i] == #[trigger] parts@[i]@);
    }
    if parts.len() != 4 {
        return None;
    }
    match (
        parse_strict_octet(parts[0].as_str()),
        parse_strict_octet(parts[1].as_str()),
        parse_strict_octet(parts[2].as_str()),
        parse_strict_octet(parts[3].as_str()),
    ) {
        (Some(a), Some(b), Some(c), Some(d)) => {
            let p: (u16, u16) = (a * 256 + b, c * 256 + d);
            proof {
                assert(quad_segments(s@) =~= seq![p.0 as int, p.1 as int]);
            }
            Some(p)
        },
        _ => None,
    }
}

proof fn lemma_group_none(pieces: Seq<Seq<char>>, quad: bool, k: int)
    requires
        0 < k < pieces.len(),
        group_segments(pieces.take(k), false) is None,
    ensures
        group_segments(pieces, quad) is None,
    decreases pieces.len(),
{
    if k == pieces.len() - 1 {
        assert(pieces.drop_last() =~= pieces.take(k));
    } else {
        assert(pieces.drop_last().take(k) =~= pieces.take(k));
        lemma_group_none(pieces.drop_last(), false, k);
    }
}

fn parse_side(s: &str, quad: bool) -> (r: Option<Vec<u16>>)
    ensures
        match r {
            Some(v) => side_segments(s@, quad) == Some(ints(v@)),
            None => side_segments(s@, quad) is None,
        },
{
    let mut out: Vec<u16> = Vec::new();
    proof {
        assert(ints(out@) =~= Seq::empty());
    }
    if s.is_empty() {
        return Some(out);
    }
    let parts = split_by_char(s, ':');
    let ghost pieces = text::split_char(s@, ':');
    let n: usize = parts.len();
    let mut i: usize = 0;
    while i < n
        invariant
            i <= n == parts.len(),
            s@.len() > 0,
            pieces == text::split_char(s@, ':'),
            text::texts(parts@) == pieces,
            group_segments(pieces.take(i as int), quad && i == n) == Some(ints(out@)),
        decreases n - i,
    {
        let ghost prefix = pieces.take(i + 1);
        let ghost before = out@;
        proof {
            assert(prefix.drop_last() =~= pieces.take(i as int));
            assert(prefix.last() == parts@[i as int]@);
            assert(pieces.take(n as int) =~= pieces);
        }
        let last = i == n - 1;
        match small_number(parts[i].as_str(), 16, 4) {
            Some(g) => {
                out.push(g);
                proof {
                    assert(ints(out@) =~= ints(before).push(g as int));
                }
            },
            None => {
                if !(quad && last) {
                    proof {
                        assert(group_segments(prefix, false) is None);
                        if i + 1 < n {
                            lemma_group_none(pieces, quad, i + 1);
                        }
                    }
                    return None;
                }
                match parse_quad(parts[i].as_str()) {
                    Some(p) => {
                        out.push(p.0);
                        out.push(p.1);
                        proof {
                            assert(ints(out@) =~= ints(before) + seq![p.0 as int, p.1 as int]);
                        }
                    },
                    None => {
                        return None;
                    },
                }
            },
        }
        i = i + 1;
    }
    proof {
        assert(pieces.take(n as int) =~= pieces);
        text::lemma_split_char_nonempty(s@, ':');
    }
    Some(out)
}

/// Reads an IPv6 literal.
pub fn parse_ipv6_address(host: &str) -> (r: Option<[u16; 8]>)
    ensures
        match r {
            Some(a) => ipv6_segments(host@) == Some(Seq::new(8, |i: int| a@[i] as int)),
            None => ipv6_segments(host@) is None,
        },
{
    let segments: Vec<u16> = match split_once(host, "::") {
        None => match parse_side(host, true) {
            Some(all) => {
                if all.len() != 8 {
                    return None;
                }
                all
            },
            None => {
                return None;
            },
        },
        Some((left, right)) => match (
            parse_side(left.as_str(), false),
            parse_side(right.as_str(), true),
        ) {
            (Some(head), Some(tail)) => {
                let h: usize = head.len();
                let t: usize = tail.len();
                if h > 7 || t > 7 || h + t > 7 {
                    return None;
                }
                let mut all: Vec<u16> = Vec::new();
                let mut i: usize = 0;
                while i < 8
                    invariant
                        i <= 8,
                        h == head@.len(),
                        t == tail@.len(),
                        h + t <= 7,
                        all@.len() == i,
                        forall|k: int|
                            0 <= k < i ==> all@[k] == (if k < h {
                                head@[k]
                            } else if k < 8 - t {
                                0
                            } else {
                                tail@[k - (8 - t)]
                            }),
                    decreases 8 - i,
                {
                    if i < h {
                        all.push(head[i]);
                    } else if i < 8 - t {
                        all.push(0);
                    } else {
                        all.push(tail[i - (8 - t)]);
                    }
                    i = i + 1;
                }
                proof {
                    assert(ints(all@) =~= ints(head@) + zeros(8 - h - t) + ints(tail@));
                }
                all
            },
            _ => {
                return None;
            },
        },
    };
    let a: [u16; 8] = [
        segments[0],
        segments[1],
        segments[2],
        segments[3],
        segments[4],
        segments[5],
        segments[6],
        segments[7],
    ];
    proof {
        assert(Seq::new(8, |i: int| a@[i] as int) =~= ints(segments@));
    }
    Some(a)
}

// ---------------------------------------------------------------------------
// Hosts
// ---------------------------------------------------------------------------

/// A host without white space, brackets and trailing dots, in lower case.
pub open spec fn cleaned_host(host: Seq<char>) -> Seq<char> {
    text::lower(
        text::drop_trailing(
            text::drop_trailing(text::drop_leading(text::trim(host), CharClass::Only('[')), CharClass::Only(']')),
            CharClass::Only('.'),
        ),
    )
}

/// Names that always stand for this machine or the local network.
pub open spec fn local_name(host: Seq<char>) -> bool {
    host == "localhost"@ || host == "0.0.0.0"@ || text::ends_with(host, ".local"@) || text::ends_with(
        host,
        ".internal"@,
    ) || text::ends_with(host, ".localhost"@) || host == "metadata.google.internal"@
}

/// What can be said of a host without asking a name server.
pub enum Verdict {
    /// The host is known to be private, or known not to be.
    Known(bool),
    /// The addresses of this name decide.
    Lookup(Seq<char>),
}

pub open spec fn host_verdict(host: Seq<char>) -> Verdict {
    let h = cleaned_host(host);
    if h.len() == 0 || local_name(h) {
        Verdict::Known(true)
    } else if let Some(s) = ipv6_segments(h) {
        Verdict::Known(private_ipv6(Seq::new(8, |i: int| s[i] as u16)))
    } else if let Some(n) = ipv4_number(h) {
        let (a, b, c, _d) = address_of(n);
        Verdict::Known(private_ipv4(a as int, b as int, c as int))
    } else {
        Verdict::Lookup(h)
    }
}

/// What is known of a host: whether it is private, or the name to look up.
#[derive(Debug, Clone, PartialEq, Eq)]
pub enum HostVerdict {
    Known(bool),
    Lookup(String),
}

impl View for HostVerdict {
    type V = Verdict;

    open spec fn view(&self) -> Verdict {
        match *self {
            HostVerdict::Known(b) => Verdict::Known(b),
            HostVerdict::Lookup(name) => Verdict::Lookup(name@),
        }
    }
}

fn clean_host(host: &str) -> (r: String)
    ensures
        r@ == cleaned_host(host@),
{
    let v = chars_of(host);
    let t = trim_chars(&v);
    let a = trim_leading_chars(&t, CharClass::Only('['));
    let b = trim_trailing_chars(&a, CharClass::Only(']'));
    let c = trim_trailing_chars(&b, CharClass::Only('.'));
    let s = string_of(&c);
    to_lower(s.as_str())
}

/// Decides on a host by its name or its address literal.
pub fn judge_host(host: &str) -> (r: HostVerdict)
    ensures
        r@ == host_verdict(host@),
{
    let cleaned = clean_host(host);
    let h = cleaned.as_str();
    if h.is_empty() || same(h, "localhost") || same(h, "0.0.0.0") || has_suffix(h, ".local")
        || has_suffix(h, ".internal") || has_suffix(h, ".localhost") || same(
        h,
        "metadata.google.internal",
    ) {
        return HostVerdict::Known(true);
    }
    match parse_ipv6_address(h) {
        Some(a) => {
            proof {
                let s = ipv6_segments(h@)->0;
                assert(Seq::new(8, |i: int| s[i] as u16) =~= a@);
            }
            return HostVerdict::Known(is_private_ipv6(&a));
        },
        None => {},
    }
    match parse_ipv4_address(h) {
        Some(n) => {
            return HostVerdict::Known(
                is_private_ipv4(
                    (n / 0x100_0000) as u8,
                    (n / 0x1_0000 % 0x100) as u8,
                    (n / 0x100 % 0x100) as u8,
                ),
            );
        },
        None => {},
    }
    HostVerdict::Lookup(cleaned)
}

pub open spec fn any_private(found: Seq<IpAddress>) -> bool {
    exists|i: int| 0 <= i < found.len() && private_ip(#[trigger] found[i])
}

/// Whether one of the addresses is private.
pub fn has_private_address(found: &Vec<IpAddress>) -> (r: bool)
    ensures
        r == any_private(found@),
{
    let mut i: usize = 0;
    while i < found.len()
        invariant
            i <= found.len(),
            forall|k: int| 0 <= k < i ==> !private_ip(#[trigger] found@[k]),
        decreases found.len() - i,
    {
        if is_private_ip(found[i]) {
            return true;
        }
        i = i + 1;
    }
    false
}

/// `answer` is a judgement of the host, given what the resolver can return.
pub open spec fn host_judged<F: Fn(&str) -> Vec<IpAddress>>(
    host: Seq<char>,
    resolver: F,
    answer: bool,
) -> bool {
    match host_verdict(host) {
        Verdict::Known(b) => answer == b,
        Verdict::Lookup(name) => exists|h: &str, found: Vec<IpAddress>|
            h@ == name && #[trigger] call_ensures(resolver, (h,), found) && answer == any_private(
                found@,
            ),
    }
}

/// The resolver accepts every name.
pub open spec fn resolves_all<F: Fn(&str) -> Vec<IpAddress>>(resolver: F) -> bool {
    forall|h: &str| #[trigger] call_requires(resolver, (h,))
}

/// Whether a host is private. A name that is no literal is private where one of the
/// addresses that `resolver` finds for it is.
pub fn is_private_host_with<F: Fn(&str) -> Vec<IpAddress>>(host: &str, resolver: F) -> (r: bool)
    requires
        resolves_all(resolver),
    ensures
        host_judged(host@, resolver, r),
{
    match judge_host(host) {
        HostVerdict::Known(b) => b,
        HostVerdict::Lookup(name) => {
            let found = resolver(name.as_str());
            has_private_address(&found)
        },
    }
}

/// `answer` is a judgement of the URL: that of its host, and `false` without one.
pub open spec fn url_judged<F: Fn(&str) -> Vec<IpAddress>>(
    url: Seq<char>,
    resolver: F,
    answer: bool,
) -> bool {
    match url::host_of(url) {
        Some(host) => host_judged(host, resolver, answer),
        None => !answer,
    }
}

/// Whether a URL points to a private, local or metadata address. A text that is no
/// URL, or has no host, does not.
pub fn is_private_url<F: Fn(&str) -> Vec<IpAddress>>(url: &str, resolver: F) -> (r: bool)
    requires
        resolves_all(resolver),
    ensures
        url_judged(url@, resolver, r),
{
    match url_host(url) {
        Some(host) => is_private_host_with(host.as_str(), resolver),
        None => false,
    }
}

// ---------------------------------------------------------------------------
// Normalization
// ---------------------------------------------------------------------------

/// The keys of query pairs that only serve tracking.
pub open spec fn tracking_key(key: Seq<char>) -> bool {
    text::starts_with(key, "utm_"@) || key == "fbclid"@ || key == "gclid"@ || key == "mc_cid"@ || key
        == "mc_eid"@ || key == "mkt_tok"@ || key == "spm"@ || key == "si"@
}

pub fn is_tracking_key(key: &str) -> (r: bool)
    ensures
        r == tracking_key(key@),
{
    has_prefix(key, "utm_") || same(key, "fbclid") || same(key, "gclid") || same(key, "mc_cid")
        || same(key, "mc_eid") || same(key, "mkt_tok") || same(key, "spm") || same(key, "si")
}

/// The query pairs without those for tracking.
pub open spec fn kept_pairs(pairs: Seq<(Seq<char>, Seq<char>)>) -> Seq<(Seq<char>, Seq<char>)> {
    pairs.filter(|p: (Seq<char>, Seq<char>)| !tracking_key(p.0))
}

pub fn strip_tracking_query_pairs(pairs: &Vec<(String, String)>) -> (r: Vec<(String, String)>)
    ensures
        url::pair_texts(r@) == kept_pairs(url::pair_texts(pairs@)),
{
    let mut out: Vec<(String, String)> = Vec::new();
    let mut i: usize = 0;
    let ghost all = url::pair_texts(pairs@);
    proof {
        reveal(Seq::filter);
        assert(url::pair_texts(out@) =~= kept_pairs(all.take(0)));
    }
    while i < pairs.len()
        invariant
            i <= pairs.len(),
            all == url::pair_texts(pairs@),
            url::pair_texts(out@) == kept_pairs(all.take(i as int)),
        decreases pairs.len() - i,
    {
        let ghost before = out@;
        proof {
            reveal(Seq::filter);
            assert(all.take(i + 1).drop_last() =~= all.take(i as int));
        }
        if !is_tracking_key(pairs[i].0.as_str()) {
            let kept = (pairs[i].0.clone(), pairs[i].1.clone());
            out.push(kept);
            proof {
                assert(url::pair_texts(out@) =~= url::pair_texts(before).push(all[i as int]));
            }
        }
        i = i + 1;
    }
    proof {
        assert(all.take(i as int) =~= all);
    }
    out
}

/// The serialized URL, without the slash of an empty path where no query follows.
pub open spec fn without_root_slash(path: Seq<char>, serialized: Seq<char>) -> Seq<char> {
    if path == "/"@ && text::ends_with(serialized, "/"@) {
        serialized.take(serialized.len() - "/"@.len())
    } else {
        serialized
    }
}

/// Removes the slash of an empty path from a URL that has no query.
pub fn drop_root_slash(path: &str, serialized: String) -> (r: String)
    ensures
        r@ == without_root_slash(path@, serialized@),
{
    if same(path, "/") {
        match strip_suffix(serialized.as_str(), "/") {
            Some(s) => s,
            None => serialized,
        }
    } else {
        serialized
    }
}

/// The normal form of a URL with these parts: no fragment, no tracking pairs.
pub open spec fn normalized_form(input: Seq<char>, parts: UrlParts) -> Seq<char> {
    let kept = kept_pairs(parts.pairs);
    if kept.len() == 0 {
        without_root_slash(parts.path, url::url_without_query(input)->0)
    } else {
        url::url_with_pairs(input, kept)->0
    }
}

pub open spec fn web_scheme(scheme: Seq<char>) -> bool {
    scheme == "http"@ || scheme == "https"@
}

/// The normal form of a link. A text that is no URL, a scheme other than `http` and
/// `https`, and a private host are errors, in this order.
pub fn normalize_url<F: Fn(&str) -> Vec<IpAddress>>(input: &str, resolver: F) -> (r: Result<
    String,
    TaskStoreError,
>)
    requires
        resolves_all(resolver),
    ensures
        match r {
            Ok(url) => url::parsed_url(input@) matches Some(parts) && web_scheme(parts.scheme) && (
            parts.host matches Some(host) ==> host_judged(host, resolver, false)) && url@
                == normalized_form(input@, parts),
            Err(TaskStoreError::InvalidUrl(text)) => url::parsed_url(input@) is None && text@ == input@,
            Err(TaskStoreError::UnsupportedScheme(text)) => url::parsed_url(input@) matches Some(parts)
                && !web_scheme(parts.scheme) && text@ == input@,
            Err(TaskStoreError::PrivateNetworkUrl(text)) => url::parsed_url(input@) matches Some(parts)
                && web_scheme(parts.scheme) && (parts.host matches Some(host) && host_judged(
                host,
                resolver,
                true,
            )) && text@ == input@,
            Err(_) => false,
        },
{
    let url = match parse_url(input) {
        Some(u) => u,
        None => {
            return Err(TaskStoreError::InvalidUrl(owned(input)));
        },
    };
    if !(same(url.scheme.as_str(), "http") || same(url.scheme.as_str(), "https")) {
        return Err(TaskStoreError::UnsupportedScheme(owned(input)));
    }
    if let Some(host) = &url.host {
        if is_private_host_with(host.as_str(), resolver) {
            return Err(TaskStoreError::PrivateNetworkUrl(owned(input)));
        }
    }
    let kept = strip_tracking_query_pairs(&url.pairs);
    proof {
        assert(url::pair_texts(kept@).len() == kept@.len());
    }
    if kept.is_empty() {
        match serialize_without_query(input) {
            Some(serialized) => Ok(drop_root_slash(url.path.as_str(), serialized)),
            None => Err(TaskStoreError::InvalidUrl(owned(input))),
        }
    } else {
        match serialize_with_pairs(input, &kept) {
            Some(serialized) => Ok(serialized),
            None => Err(TaskStoreError::InvalidUrl(owned(input))),
        }
    }
}

/// The host of a stored link.
pub fn source_domain(normalized_url: &str) -> (r: Option<String>)
    ensures
        text::opt_text(r) == url::host_of(normalized_url@),
{
    url_host(normalized_url)
}

// ---------------------------------------------------------------------------
// Laws
// ---------------------------------------------------------------------------

/// The number of an IPv4 address.
pub open spec fn number_of(a: u8, b: u8, c: u8, d: u8) -> nat {
    (a * 0x100_0000 + b * 0x1_0000 + c * 0x100 + d) as nat
}

/// The addresses that are refused, as ranges of their numbers: the networks 0/8, 10/8,
/// 100.64/10, 127/8, 169.254/16, 172.16/12, 192.0.0/24, 192.168/16, 198.51.100/24,
/// 203.0.113/24 and all from 224 on.
pub proof fn lemma_refused_ranges(a: u8, b: u8, c: u8, d: u8)
    ensures
        ({
            let n = number_of(a, b, c, d);
            private_ipv4(a as int, b as int, c as int) == (n <= 0x00ff_ffff || 0x0a00_0000 <= n
                <= 0x0aff_ffff || 0x6440_0000 <= n <= 0x647f_ffff || 0x7f00_0000 <= n
                <= 0x7fff_ffff || 0xa9fe_0000 <= n <= 0xa9fe_ffff || 0xac10_0000 <= n
                <= 0xac1f_ffff || 0xc000_0000 <= n <= 0xc000_00ff || 0xc0a8_0000 <= n
                <= 0xc0a8_ffff || 0xc633_6400 <= n <= 0xc633_64ff || 0xcb00_7100 <= n
                <= 0xcb00_71ff || 0xe000_0000 <= n)
        }),
{
}

/// The parts of an address are read back from its number.
pub proof fn lemma_address_of(a: u8, b: u8, c: u8, d: u8)
    ensures
        address_of(number_of(a, b, c, d)) == (a as nat, b as nat, c as nat, d as nat),
{
    let n = number_of(a, b, c, d) as int;
    let low = b * 0x1_0000 + c * 0x100 + d;
    lemma_fundamental_div_mod_converse(n, 0x100_0000, a as int, low);
    lemma_fundamental_div_mod_converse(n, 0x1_0000, a * 0x100 + b, c * 0x100 + d);
    lemma_fundamental_div_mod_converse(a * 0x100 + b, 0x100, a as int, b as int);
    lemma_fundamental_div_mod_converse(n, 0x100, a * 0x1_0000 + b * 0x100 + c, d as int);
    lemma_fundamental_div_mod_converse(
        a * 0x1_0000 + b * 0x100 + c,
        0x100,
        a * 0x100 + b,
        c as int,
    );
}

proof fn lemma_written_number(n: nat)
    requires
        n <= u32::MAX,
    ensures
        ip_number(text::decimal(n)) == Some(n),
        !text::decimal(n).contains('.'),
{
    let s = text::decimal(n);
    text::lemma_decimal_is_digits(n);
    text::lemma_decimal_value(n);
    text::lemma_decimal_head(n);
    reveal_strlit("0x");
    reveal_strlit("0X");
    if s.len() >= 2 {
        assert(text::is_ascii_digit(s[1]));
        assert(s.subrange(0, 2)[1] == s[1]);
        assert("0x"@[1] == 'x');
        assert("0X"@[1] == 'X');
    }
    assert(text::is_ascii_digit(s[0]));
    assert(s[0] != '+');
    assert forall|i: int| 0 <= i < s.len() implies s[i] != '.' by {
        assert(text::is_ascii_digit(s[i]));
    }
}

/// An address reads the same however it is written: as four numbers with dots between them,
/// as three or two of which the last one fills the rest, or as one number.
pub proof fn lemma_address_is_read(a: u8, b: u8, c: u8, d: u8)
    ensures
        ({
            let n = number_of(a, b, c, d);
            let x = text::decimal(a as nat);
            let y = text::decimal(b as nat);
            let z = text::decimal(c as nat);
            let w = text::decimal(d as nat);
            let rest3 = text::decimal((b * 0x1_0000 + c * 0x100 + d) as nat);
            let rest2 = text::decimal((c * 0x100 + d) as nat);
            &&& ipv4_number(x + seq!['.'] + (y + seq!['.'] + (z + seq!['.'] + w))) == Some(n)
            &&& ipv4_number(x + seq!['.'] + (y + seq!['.'] + rest2)) == Some(n)
            &&& ipv4_number(x + seq!['.'] + rest3) == Some(n)
            &&& ipv4_number(text::decimal(n)) == Some(n)
        }),
{
    lemma_four_numbers(a as nat, b as nat, c as nat, d as nat);
    lemma_three_numbers(a as nat, b as nat, (c * 0x100 + d) as nat);
    lemma_two_numbers(a as nat, (b * 0x1_0000 + c * 0x100 + d) as nat);
    let n = number_of(a, b, c, d);
    lemma_written_number(n);
    text::lemma_split_single(text::decimal(n), '.');
}

proof fn lemma_two_numbers(a: nat, b: nat)
    requires
        a <= 0xff,
        b <= 0xff_ffff,
    ensures
        ipv4_number(text::decimal(a) + seq!['.'] + text::decimal(b)) == Some(a * 0x100_0000 + b),
{
    let x = text::decimal(a);
    let y = text::decimal(b);
    lemma_written_number(a);
    lemma_written_number(b);
    text::lemma_split_single(x, '.');
    text::lemma_split_single(y, '.');
    text::lemma_split_apart(x, '.', y);
    assert(text::split_char(x + seq!['.'] + y, '.') =~= seq![x, y]);
}

proof fn lemma_three_numbers(a: nat, b: nat, c: nat)
    requires
        a <= 0xff,
        b <= 0xff,
        c <= 0xffff,
    ensures
        ipv4_number(
            text::decimal(a) + seq!['.'] + (text::decimal(b) + seq!['.'] + text::decimal(c)),
        ) == Some(a * 0x100_0000 + b * 0x1_0000 + c),
{
    let x = text::decimal(a);
    let y = text::decimal(b);
    let z = text::decimal(c);
    lemma_written_number(a);
    lemma_written_number(b);
    lemma_written_number(c);
    text::lemma_split_single(x, '.');
    text::lemma_split_single(y, '.');
    text::lemma_split_single(z, '.');
    text::lemma_split_apart(y, '.', z);
    text::lemma_split_apart(x, '.', y + seq!['.'] + z);
    assert(text::split_char(x + seq!['.'] + (y + seq!['.'] + z), '.') =~= seq![x, y, z]);
}

proof fn lemma_four_numbers(a: nat, b: nat, c: nat, d: nat)
    requires
        a <= 0xff,
        b <= 0xff,
        c <= 0xff,
        d <= 0xff,
    ensures
        ipv4_number(
            text::decimal(a) + seq!['.'] + (text::decimal(b) + seq!['.'] + (text::decimal(c)
                + seq!['.'] + text::decimal(d))),
        ) == Some(a * 0x100_0000 + b * 0x1_0000 + c * 0x100 + d),
{
    let x = text::decimal(a);
    let y = text::decimal(b);
    let z = text::decimal(c);
    let w = text::decimal(d);
    lemma_written_number(a);
    lemma_written_number(b);
    lemma_written_number(c);
    lemma_written_number(d);
    let s = x + seq!['.'] + (y + seq!['.'] + (z + seq!['.'] + w));
    assert(text::split_char(s, '.') == seq![x, y, z, w]) by {
        text::lemma_split_single(x, '.');
        text::lemma_split_single(y, '.');
        text::lemma_split_single(z, '.');
        text::lemma_split_single(w, '.');
        text::lemma_split_apart(z, '.', w);
        text::lemma_split_apart(y, '.', z + seq!['.'] + w);
        text::lemma_split_apart(x, '.', y + seq!['.'] + (z + seq!['.'] + w));
        assert(text::split_char(s, '.') =~= seq![x, y, z, w]);
    }
}

/// A number behind `0x` is read in base sixteen, and one behind a zero in base eight.
pub proof fn lemma_other_bases(h: Seq<char>)
    requires
        h.len() > 0,
        h[0] != '+',
    ensures
        text::all_digits(h, 16) && text::digits_value(h, 16) <= u32::MAX ==> ip_number("0x"@ + h)
            == Some(text::digits_value(h, 16)) && ip_number("0X"@ + h) == Some(
            text::digits_value(h, 16),
        ),
        h[0] != 'x' && h[0] != 'X' && text::all_digits(seq!['0'] + h, 8) && text::digits_value(
            seq!['0'] + h,
            8,
        ) <= u32::MAX ==> ip_number(seq!['0'] + h) == Some(
            text::digits_value(seq!['0'] + h, 8),
        ),
{
    reveal_strlit("0x");
    reveal_strlit("0X");
    let x = "0x"@ + h;
    let y = "0X"@ + h;
    assert(x.subrange(0, 2) =~= "0x"@);
    assert(y.subrange(0, 2) =~= "0X"@);
    assert(x.skip(2) =~= h);
    assert(y.skip(2) =~= h);
    assert("0x"@[1] == 'x');
    assert("0X"@[1] == 'X');
    let z = seq!['0'] + h;
    assert(z[1] == h[0]);
    assert(z.subrange(0, 2)[1] == h[0]);
}

/// Which IPv6 addresses are refused: the unspecified one and the loopback, those of a local
/// network or link, and multicast. One of the networks for the whole world is not.
pub proof fn lemma_refused_ipv6(s: Seq<u16>)
    requires
        s.len() == 8,
    ensures
        zero_segments(s, 8) ==> private_ipv6(s),
        zero_segments(s, 7) && s[7] == 1 ==> private_ipv6(s),
        s[0] / 0x200 == 0x7e ==> private_ipv6(s),
        s[0] / 0x40 == 0x3fa ==> private_ipv6(s),
        s[0] / 0x100 == 0xff ==> private_ipv6(s),
        0x2000 <= s[0] <= 0x3fff ==> !private_ipv6(s),
{
    if zero_segments(s, 8) {
        assert(s[7] == 0);
        assert(zero_segments(s, 7));
    }
    if 0x2000 <= s[0] <= 0x3fff {
        assert(s[0] != 0);
    }
}

/// Groups of hexadecimal digits stand for their values, one segment each and in order.
pub proof fn lemma_groups_are_read(pieces: Seq<Seq<char>>)
    ensures
        (group_segments(pieces, false) is Some) == (forall|i: int|
            0 <= i < pieces.len() ==> hex_group(#[trigger] pieces[i])),
        group_segments(pieces, false) matches Some(v) ==> v.len() == pieces.len() && forall|i: int|
            0 <= i < pieces.len() ==> #[trigger] v[i] == text::digits_value(pieces[i], 16),
    decreases pieces.len(),
{
    if pieces.len() > 0 {
        let init = pieces.drop_last();
        lemma_groups_are_read(init);
        let all = forall|i: int| 0 <= i < pieces.len() ==> hex_group(#[trigger] pieces[i]);
        if group_segments(pieces, false) is Some {
            assert forall|i: int| 0 <= i < pieces.len() implies hex_group(#[trigger] pieces[i]) by {
                if i < init.len() {
                    assert(hex_group(init[i]));
                }
            }
            let v = group_segments(pieces, false)->0;
            assert forall|i: int| 0 <= i < pieces.len() implies #[trigger] v[i]
                == text::digits_value(pieces[i], 16) by {
                if i < init.len() {
                    assert(pieces[i] == init[i]);
                }
            }
        }
        if all {
            assert forall|i: int| 0 <= i < init.len() implies hex_group(#[trigger] init[i]) by {
                assert(hex_group(pieces[i]));
            }
            assert(hex_group(pieces.last()));
        }
    }
}

/// A double colon stands for as many zero segments as are missing, and for one at least.
pub proof fn lemma_double_colon(left: Seq<char>, right: Seq<char>)
    requires
        forall|k: int|
            0 <= k < left.len() ==> !#[trigger] text::occurs_at(left + "::"@ + right, "::"@, k),
        side_segments(left, false) is Some,
        side_segments(right, true) is Some,
    ensures
        ({
            let head = side_segments(left, false)->0;
            let tail = side_segments(right, true)->0;
            match ipv6_segments(left + "::"@ + right) {
                Some(v) => {
                    &&& head.len() + tail.len() < 8
                    &&& v.len() == 8
                    &&& v.take(head.len() as int) == head
                    &&& v.skip(8 - tail.len()) == tail
                    &&& forall|i: int| head.len() <= i < 8 - tail.len() ==> #[trigger] v[i] == 0
                },
                None => head.len() + tail.len() >= 8,
            }
        }),
{
    let s = left + "::"@ + right;
    let n = left.len() as int;
    reveal_strlit("::");
    assert(s.subrange(n, n + 2) =~= "::"@);
    text::lemma_find_is(s, "::"@, 0, n);
    assert(s.take(n) =~= left);
    assert(s.skip(n + 2) =~= right);
    let head = side_segments(left, false)->0;
    let tail = side_segments(right, true)->0;
    if head.len() + tail.len() < 8 {
        let v = head + zeros(8 - head.len() - tail.len()) + tail;
        assert(v.take(head.len() as int) =~= head);
        assert(v.skip(8 - tail.len()) =~= tail);
    }
}

/// A host is judged without the white space, the brackets and the dots around it.
pub proof fn lemma_host_is_cleaned(
    a: Seq<char>,
    host: Seq<char>,
    dots: Seq<char>,
    b: Seq<char>,
)
    requires
        host.len() > 0,
        host[0] != '[',
        host.last() != ']',
        host.last() != '.',
        !text::is_whitespace(host[0]),
        !text::is_whitespace(host.last()),
        forall|i: int| 0 <= i < a.len() ==> text::is_whitespace(#[trigger] a[i]),
        forall|i: int| 0 <= i < b.len() ==> text::is_whitespace(#[trigger] b[i]),
        forall|i: int| 0 <= i < dots.len() ==> #[trigger] dots[i] == '.',
    ensures
        cleaned_host(a + (host + dots) + b) == text::lower(host),
        cleaned_host(a + (seq!['['] + host + seq![']']) + b) == text::lower(host),
{
    let none = Seq::<char>::empty();
    let p = host + dots;
    assert(!text::is_whitespace('.'));
    assert(p.last() == (if dots.len() > 0 {
        '.'
    } else {
        host.last()
    }));
    text::lemma_trim_exact(a, p, b);
    text::lemma_drop_leading_exact(none, p, CharClass::Only('['));
    assert(none + p =~= p);
    text::lemma_drop_trailing_exact(p, none, CharClass::Only(']'));
    assert(p + none =~= p);
    text::lemma_drop_trailing_exact(host, dots, CharClass::Only('.'));
    let q = seq!['['] + host + seq![']'];
    assert(!text::is_whitespace('[') && !text::is_whitespace(']'));
    text::lemma_trim_exact(a, q, b);
    text::lemma_drop_leading_exact(seq!['['], host + seq![']'], CharClass::Only('['));
    assert(seq!['['] + (host + seq![']']) =~= q);
    text::lemma_drop_trailing_exact(host, seq![']'], CharClass::Only(']'));
    text::lemma_drop_trailing_exact(host, none, CharClass::Only('.'));
    assert(host + none =~= host);
}

/// Names of this machine and of the local network, with anything before the ending, are
/// refused without asking the resolver.
pub proof fn lemma_local_names(host: Seq<char>, name: Seq<char>)
    requires
        cleaned_host(host) == name,
    ensures
        name == "localhost"@ || name == "0.0.0.0"@ || name == "metadata.google.internal"@ || name.len()
            == 0 ==> host_verdict(host) == Verdict::Known(true),
        (exists|x: Seq<char>|
            name == #[trigger] (x + ".local"@) || name == x + ".internal"@ || name == x
                + ".localhost"@) ==> host_verdict(host) == Verdict::Known(true),
{
    if exists|x: Seq<char>|
        name == #[trigger] (x + ".local"@) || name == x + ".internal"@ || name == x + ".localhost"@ {
        let x = choose|x: Seq<char>|
            name == #[trigger] (x + ".local"@) || name == x + ".internal"@ || name == x
                + ".localhost"@;
        let n = x.len() as int;
        assert(name.subrange(n, name.len() as int) =~= name.skip(n));
        assert((x + ".local"@).skip(n) =~= ".local"@);
        assert((x + ".internal"@).skip(n) =~= ".internal"@);
        assert((x + ".localhost"@).skip(n) =~= ".localhost"@);
    }
}

/// Query pairs that only serve tracking go, and every other pair stays in its place.
pub proof fn lemma_pairs_are_kept(
    a: Seq<(Seq<char>, Seq<char>)>,
    p: (Seq<char>, Seq<char>),
    b: Seq<(Seq<char>, Seq<char>)>,
)
    ensures
        tracking_key(p.0) ==> kept_pairs(a + seq![p] + b) == kept_pairs(a) + kept_pairs(b),
        !tracking_key(p.0) ==> kept_pairs(a + seq![p] + b) == kept_pairs(a) + seq![p] + kept_pairs(
            b,
        ),
{
    let keep = |q: (Seq<char>, Seq<char>)| !tracking_key(q.0);
    Seq::filter_distributes_over_add(a + seq![p], b, keep);
    Seq::filter_distributes_over_add(a, seq![p], keep);
    reveal(Seq::filter);
    assert(seq![p].drop_last() =~= Seq::empty());
    assert(seq![p].drop_last().filter(keep) =~= Seq::empty());
    assert(seq![p].filter(keep) =~= if keep(p) {
        seq![p]
    } else {
        Seq::empty()
    });
    assert(kept_pairs(a) + Seq::<(Seq<char>, Seq<char>)>::empty() =~= kept_pairs(a));
}

/// The keys that serve tracking.
pub proof fn lemma_tracking_keys(x: Seq<char>, key: Seq<char>)
    ensures
        tracking_key("utm_"@ + x),
        tracking_key("fbclid"@),
        tracking_key("gclid"@),
        tracking_key("mc_cid"@),
        tracking_key("mc_eid"@),
        tracking_key("mkt_tok"@),
        tracking_key("spm"@),
        tracking_key("si"@),
        tracking_key(key) && !text::starts_with(key, "utm_"@) ==> 2 <= key.len() <= 7,
{
    let s = "utm_"@ + x;
    assert(s.subrange(0, "utm_"@.len() as int) =~= "utm_"@);
    reveal_strlit("fbclid");
    reveal_strlit("gclid");
    reveal_strlit("mc_cid");
    reveal_strlit("mc_eid");
    reveal_strlit("mkt_tok");
    reveal_strlit("spm");
    reveal_strlit("si");
}

/// The slash of an empty path goes, and nothing else does.
pub proof fn lemma_root_slash(path: Seq<char>, s: Seq<char>)
    ensures
        without_root_slash(seq!['/'], s + seq!['/']) == s,
        path != seq!['/'] ==> without_root_slash(path, s) == s,
{
    reveal_strlit("/");
    assert("/"@ =~= seq!['/']);
    let t = s + seq!['/'];
    text::lemma_occurs_char(t, '/', s.len() as int);
    assert(t.take(t.len() - 1) =~= s);
}

/// One private address among those that a name stands for is enough to refuse it, wherever
/// it stands among them.
pub proof fn lemma_any_private(a: Seq<IpAddress>, ip: IpAddress, b: Seq<IpAddress>)
    ensures
        any_private(a + seq![ip] + b) == (any_private(a) || private_ip(ip) || any_private(b)),
{
    let all = a + seq![ip] + b;
    if any_private(a) {
        let i = choose|i: int| 0 <= i < a.len() && private_ip(#[trigger] a[i]);
        assert(private_ip(all[i]));
    }
    if private_ip(ip) {
        assert(private_ip(all[a.len() as int]));
    }
    if any_private(b) {
        let i = choose|i: int| 0 <= i < b.len() && private_ip(#[trigger] b[i]);
        assert(private_ip(all[a.len() + 1 + i]));
    }
    if any_private(all) {
        let i = choose|i: int| 0 <= i < all.len() && private_ip(#[trigger] all[i]);
        if i < a.len() {
            assert(private_ip(a[i]));
        } else if i > a.len() {
            assert(private_ip(b[i - a.len() - 1]));
        }
    }
}

/// An address as four numbers with dots between them.
pub open spec fn dotted(a: u8, b: u8, c: u8, d: u8) -> Seq<char> {
    text::decimal(a as nat) + seq!['.'] + (text::decimal(b as nat) + seq!['.'] + (text::decimal(
        c as nat,
    ) + seq!['.'] + text::decimal(d as nat)))
}

proof fn lemma_dotted_chars(a: u8, b: u8, c: u8, d: u8)
    ensures
        ({
            let s = dotted(a, b, c, d);
            &&& s.len() >= 7
            &&& text::is_ascii_digit(s[0]) && text::is_ascii_digit(s.last())
            &&& forall|i: int|
                0 <= i < s.len() ==> text::is_ascii_digit(#[trigger] s[i]) || s[i] == '.'
            &&& s.contains('.')
        }),
{
    let x = text::decimal(a as nat);
    let y = text::decimal(b as nat);
    let z = text::decimal(c as nat);
    let w = text::decimal(d as nat);
    text::lemma_decimal_is_digits(a as nat);
    text::lemma_decimal_is_digits(b as nat);
    text::lemma_decimal_is_digits(c as nat);
    text::lemma_decimal_is_digits(d as nat);
    let zw = z + seq!['.'] + w;
    let yzw = y + seq!['.'] + zw;
    let s = x + seq!['.'] + yzw;
    assert forall|i: int| 0 <= i < zw.len() implies text::is_ascii_digit(#[trigger] zw[i]) || zw[i]
        == '.' by {
        if i < z.len() {
            assert(zw[i] == z[i]);
        } else if i > z.len() {
            assert(zw[i] == w[i - z.len() - 1]);
        }
    }
    assert forall|i: int| 0 <= i < yzw.len() implies text::is_ascii_digit(#[trigger] yzw[i])
        || yzw[i] == '.' by {
        if i < y.len() {
            assert(yzw[i] == y[i]);
        } else if i > y.len() {
            assert(yzw[i] == zw[i - y.len() - 1]);
        }
    }
    assert forall|i: int| 0 <= i < s.len() implies text::is_ascii_digit(#[trigger] s[i]) || s[i]
        == '.' by {
        if i < x.len() {
            assert(s[i] == x[i]);
        } else if i > x.len() {
            assert(s[i] == yzw[i - x.len() - 1]);
        }
    }
    assert(s[0] == x[0]);
    assert(s.last() == w.last());
    assert(text::is_ascii_digit(w[w.len() - 1]));
    assert(text::is_ascii_digit(x[0]));
    assert(s[x.len() as int] == '.');
}

/// A host that is an address of four numbers is judged by that address, without asking the
/// resolver.
pub proof fn lemma_address_is_judged(a: u8, b: u8, c: u8, d: u8)
    ensures
        host_verdict(dotted(a, b, c, d)) == Verdict::Known(
            private_ipv4(a as int, b as int, c as int),
        ),
{
    let s = dotted(a, b, c, d);
    lemma_dotted_chars(a, b, c, d);
    let none = Seq::<char>::empty();
    assert(!text::is_whitespace(s[0]) && !text::is_whitespace(s.last()));
    lemma_host_is_cleaned(none, s, none, none);
    assert(none + (s + none) + none =~= s);
    assert(text::lower(s) =~= s) by {
        assert forall|i: int| 0 <= i < s.len() implies text::lower(s)[i] == s[i] by {
            assert(text::is_ascii_digit(s[i]) || s[i] == '.');
        }
    }
    lemma_dotted_is_no_name(s);
    lemma_dotted_is_no_ipv6(s);
    lemma_address_is_read(a, b, c, d);
    lemma_address_of(a, b, c, d);
    if s == "0.0.0.0"@ {
        lemma_zero_address();
        assert(ipv4_number(s) == Some(0nat));
        assert(number_of(a, b, c, d) == 0);
    }
}

proof fn lemma_zero_address()
    ensures
        ipv4_number("0.0.0.0"@) == Some(0nat),
{
    reveal_strlit("0.0.0.0");
    let z = text::decimal(0);
    assert(z =~= seq!['0']);
    lemma_four_numbers(0, 0, 0, 0);
    assert("0.0.0.0"@ =~= z + seq!['.'] + (z + seq!['.'] + (z + seq!['.'] + z)));
}

proof fn lemma_dotted_is_no_name(s: Seq<char>)
    requires
        s.len() >= 7,
        text::is_ascii_digit(s.last()),
        forall|i: int| 0 <= i < s.len() ==> text::is_ascii_digit(#[trigger] s[i]) || s[i] == '.',
    ensures
        local_name(s) ==> s == "0.0.0.0"@,
{
    reveal_strlit("localhost");
    reveal_strlit(".local");
    reveal_strlit(".internal");
    reveal_strlit(".localhost");
    reveal_strlit("metadata.google.internal");
    assert("localhost"@[0] == 'l');
    assert("metadata.google.internal"@[0] == 'm');
    assert(text::is_ascii_digit(s[0]) || s[0] == '.');
    let n = s.len() as int;
    if text::ends_with(s, ".local"@) {
        assert(s.subrange(n - 6, n)[5] == s[n - 1]);
        assert(".local"@[5] == 'l');
    }
    if text::ends_with(s, ".internal"@) {
        assert(s.subrange(n - 9, n)[8] == s[n - 1]);
        assert(".internal"@[8] == 'l');
    }
    if text::ends_with(s, ".localhost"@) {
        assert(s.subrange(n - 10, n)[9] == s[n - 1]);
        assert(".localhost"@[9] == 't');
    }
}

proof fn lemma_dotted_is_no_ipv6(s: Seq<char>)
    requires
        s.len() >= 7,
        s.contains('.'),
        forall|i: int| 0 <= i < s.len() ==> text::is_ascii_digit(#[trigger] s[i]) || s[i] == '.',
    ensures
        ipv6_segments(s) is None,
{
    reveal_strlit("::");
    assert forall|k: int| 0 <= k implies !#[trigger] text::occurs_at(s, "::"@, k) by {
        if text::occurs_at(s, "::"@, k) {
            assert(s.subrange(k, k + 2)[0] == s[k]);
            assert("::"@[0] == ':');
            assert(text::is_ascii_digit(s[k]) || s[k] == '.');
        }
    }
    text::lemma_find_none(s, "::"@, 0);
    assert forall|i: int| 0 <= i < s.len() implies s[i] != ':' by {
        assert(text::is_ascii_digit(s[i]) || s[i] == '.');
    }
    text::lemma_split_single(s, ':');
    let pieces = seq![s];
    assert(pieces.drop_last() =~= Seq::<Seq<char>>::empty());
    assert(group_segments(Seq::<Seq<char>>::empty(), false) == Some(Seq::<int>::empty()));
    let k = choose|k: int| 0 <= k < s.len() && s[k] == '.';
    assert(text::digit_value(s[k]) == 16);
    assert(!hex_group(s));
    assert((Seq::<int>::empty() + quad_segments(s)).len() == 2);
}

} // verus!
