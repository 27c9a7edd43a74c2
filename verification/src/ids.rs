//! Names that are not given twice.

use crate::text;
use crate::text::{cat2, head_string, parse_unsigned};
use vstd::prelude::*;

verus! {

pub open spec fn is_lower_hex(c: char) -> bool {
    ('0' <= c && c <= '9') || ('a' <= c && c <= 'f')
}

/// The places of the hyphens in a written id.
pub open spec fn hyphen_at(i: int) -> bool {
    i == 8 || i == 13 || i == 18 || i == 23
}

/// Thirty-two hexadecimal digits in five groups, parted by hyphens.
pub open spec fn is_uuid_text(s: Seq<char>) -> bool {
    s.len() == 36 && forall|i: int|
        0 <= i < s.len() ==> if hyphen_at(i) {
            #[trigger] s[i] == '-'
        } else {
            is_lower_hex(s[i])
        }
}

/// `uuid::Uuid::new_v4`, and `to_string`. The id is a random one: claimed is only how it is
/// written. That no two are alike is not claimed.
#[verifier::external_body]
fn random_uuid() -> (r: String)
    ensures
        is_uuid_text(r@),
{
    uuid::Uuid::new_v4().to_string()
}

/// A new id for a row or a worker.
pub fn new_id() -> (r: String)
    ensures
        is_uuid_text(r@),
{
    random_uuid()
}

/// A new id for a message that is sent.
pub fn new_client_id() -> (r: String)
    ensures
        exists|id: Seq<char>| is_uuid_text(id) && r@ == #[trigger] ("amclaw:"@ + id),
{
    let id = random_uuid();
    cat2("amclaw:", id.as_str())
}

/// The number that the first eight hexadecimal digits of an id stand for.
pub open spec fn leading_number(id: Seq<char>) -> nat {
    text::digits_value(id.take(8), 16)
}

proof fn lemma_hex_value(s: Seq<char>)
    requires
        s.len() == 8,
        forall|i: int| 0 <= i < s.len() ==> is_lower_hex(#[trigger] s[i]),
    ensures
        text::all_digits(s, 16),
        text::digits_value(s, 16) <= u32::MAX,
{
    assert forall|i: int| 0 <= i < s.len() implies text::digit_value(#[trigger] s[i]) < 16 by {
        assert(is_lower_hex(s[i]));
    }
    let s7 = s.drop_last();
    let s6 = s7.drop_last();
    let s5 = s6.drop_last();
    let s4 = s5.drop_last();
    let s3 = s4.drop_last();
    let s2 = s3.drop_last();
    let s1 = s2.drop_last();
    let s0 = s1.drop_last();
    assert(text::digits_value(s0, 16) == 0);
    assert(s1.last() == s[0]);
    assert(text::digits_value(s1, 16) < 16);
    assert(s2.last() == s[1]);
    assert(text::digits_value(s2, 16) < 256);
    assert(s3.last() == s[2]);
    assert(text::digits_value(s3, 16) < 4096);
    assert(s4.last() == s[3]);
    assert(text::digits_value(s4, 16) < 65536);
    assert(s5.last() == s[4]);
    assert(text::digits_value(s5, 16) < 1048576);
    assert(s6.last() == s[5]);
    assert(text::digits_value(s6, 16) < 16777216);
    assert(s7.last() == s[6]);
    assert(text::digits_value(s7, 16) < 268435456);
    assert(s.last() == s[7]);
    assert(text::digits_value(s, 16) < 4294967296);
}

/// The number that the first four bytes of an id stand for.
pub fn id_number(id: &str) -> (r: u32)
    requires
        is_uuid_text(id@),
    ensures
        r == leading_number(id@),
{
    let start = head_string(id, 8);
    proof {
        assert(start@ =~= id@.take(8));
        assert forall|i: int| 0 <= i < 8 implies is_lower_hex(#[trigger] start@[i]) by {
            assert(!hyphen_at(i));
        }
        lemma_hex_value(start@);
        assert(start@[0] != '+');
    }
    match parse_unsigned(start.as_str(), 16) {
        Some(n) => n,
        None => 0,
    }
}

} // verus!
