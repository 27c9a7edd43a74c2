//! JSON values.

use crate::text;
use crate::text::{cat3, char_count, i64_text, join_strings, owned, same, trimmed};
use vstd::prelude::*;

verus! {

/// A JSON value. A number that is no 64-bit integer is held by its text.
#[derive(Debug, PartialEq)]
pub enum JsonValue {
    Null,
    Bool(bool),
    Int(i64),
    OtherNumber(String),
    Text(String),
    List(Vec<JsonValue>),
    Object(Vec<(String, JsonValue)>),
}

/// The position of the first entry with this key, from `i` on.
pub open spec fn key_from(fields: Seq<(String, JsonValue)>, key: Seq<char>, i: int) -> Option<int>
    decreases fields.len() - i,
{
    if i < 0 || i >= fields.len() {
        None
    } else if fields[i].0@ == key {
        Some(i)
    } else {
        key_from(fields, key, i + 1)
    }
}

proof fn lemma_key_from(fields: Seq<(String, JsonValue)>, key: Seq<char>, i: int)
    requires
        0 <= i,
    ensures
        key_from(fields, key, i) matches Some(k) ==> i <= k < fields.len() && fields[k].0@ == key,
    decreases fields.len() - i,
{
    if i < fields.len() && fields[i].0@ != key {
        lemma_key_from(fields, key, i + 1);
    }
}

/// The value under a key of an object.
pub open spec fn field(v: JsonValue, key: Seq<char>) -> Option<JsonValue> {
    match v {
        JsonValue::Object(fields) => match key_from(fields@, key, 0) {
            Some(k) => Some(fields@[k].1),
            None => None,
        },
        _ => None,
    }
}

/// The value under the first of three keys that an object has.
pub open spec fn first_field(v: JsonValue, a: Seq<char>, b: Seq<char>, c: Seq<char>) -> Option<
    JsonValue,
> {
    match field(v, a) {
        Some(x) => Some(x),
        None => match field(v, b) {
            Some(x) => Some(x),
            None => field(v, c),
        },
    }
}

/// A value under a key is part of the value it stands in.
pub proof fn lemma_field_smaller(v: JsonValue, key: Seq<char>)
    ensures
        field(v, key) matches Some(x) ==> decreases_to!(v => x),
{
    if let JsonValue::Object(fields) = v {
        lemma_key_from(fields@, key, 0);
        if let Some(k) = key_from(fields@, key, 0) {
            assert(decreases_to!(v => fields));
            assert(decreases_to!(fields => fields@));
            assert(decreases_to!(fields@ => fields@[k]));
            assert(decreases_to!(fields@[k] => fields@[k].1));
        }
    }
}

/// The text that stands for a value as an id: a text itself, the digits of a number, and
/// of an object the text of its `id`, `str` or `value`.
pub open spec fn value_text(v: JsonValue) -> Option<Seq<char>>
    decreases v,
{
    match v {
        JsonValue::Text(s) => Some(s@),
        JsonValue::Int(n) => Some(text::signed_decimal(n as int)),
        JsonValue::OtherNumber(s) => Some(s@),
        JsonValue::Object(fields) => match first_field(v, "id"@, "str"@, "value"@) {
            Some(x) => {
                proof {
                    lemma_field_smaller(v, "id"@);
                    lemma_field_smaller(v, "str"@);
                    lemma_field_smaller(v, "value"@);
                }
                value_text(x)
            },
            None => None,
        },
        _ => None,
    }
}

/// The integer under a key.
pub open spec fn int_field(v: JsonValue, key: Seq<char>) -> Option<int> {
    match field(v, key) {
        Some(JsonValue::Int(n)) => Some(n as int),
        _ => None,
    }
}

/// The trimmed text under a key, where it is not blank.
pub open spec fn text_field(v: JsonValue, key: Seq<char>) -> Option<Seq<char>> {
    match field(v, key) {
        Some(JsonValue::Text(s)) => if text::trim(s@).len() > 0 {
            Some(text::trim(s@))
        } else {
            None
        },
        _ => None,
    }
}

/// The value under a key.
pub fn get<'a>(value: &'a JsonValue, key: &str) -> (r: Option<&'a JsonValue>)
    ensures
        match r {
            Some(x) => field(*value, key@) == Some(*x),
            None => field(*value, key@) is None,
        },
{
    match value {
        JsonValue::Object(fields) => {
            let mut i: usize = 0;
            while i < fields.len()
                invariant
                    i <= fields@.len(),
                    *value == JsonValue::Object(*fields),
                    key_from(fields@, key@, 0) == key_from(fields@, key@, i as int),
                decreases fields.len() - i,
            {
                if same(fields[i].0.as_str(), key) {
                    return Some(&fields[i].1);
                }
                i = i + 1;
            }
            None
        },
        _ => None,
    }
}

pub fn get_i64(value: &JsonValue, key: &str) -> (r: Option<i64>)
    ensures
        match r {
            Some(n) => int_field(*value, key@) == Some(n as int),
            None => int_field(*value, key@) is None,
        },
{
    match get(value, key) {
        Some(x) => match x {
            JsonValue::Int(n) => Some(*n),
            _ => None,
        },
        None => None,
    }
}

pub fn get_str(value: &JsonValue, key: &str) -> (r: Option<String>)
    ensures
        text::opt_text(r) == text_field(*value, key@),
{
    match get(value, key) {
        Some(x) => match x {
            JsonValue::Text(s) => {
                let t = trimmed(s.as_str());
                if char_count(t.as_str()) == 0 {
                    None
                } else {
                    Some(t)
                }
            },
            _ => None,
        },
        None => None,
    }
}

pub fn value_to_string(value: &JsonValue) -> (r: Option<String>)
    ensures
        text::opt_text(r) == value_text(*value),
    decreases *value,
{
    match value {
        JsonValue::Text(s) => Some(owned(s.as_str())),
        JsonValue::Int(n) => Some(i64_text(*n)),
        JsonValue::OtherNumber(s) => Some(owned(s.as_str())),
        JsonValue::Object(_) => {
            proof {
                lemma_field_smaller(*value, "id"@);
                lemma_field_smaller(*value, "str"@);
                lemma_field_smaller(*value, "value"@);
            }
            let found = match get(value, "id") {
                Some(x) => Some(x),
                None => match get(value, "str") {
                    Some(x) => Some(x),
                    None => get(value, "value"),
                },
            };
            match found {
                Some(x) => value_to_string(x),
                None => None,
            }
        },
        _ => None,
    }
}

/// The list of the first key that holds one: the messages of an answer.
pub open spec fn message_list(v: JsonValue) -> Option<Seq<JsonValue>> {
    match field(v, "msgs"@) {
        Some(JsonValue::List(items)) => Some(items@),
        _ => match field(v, "messages"@) {
            Some(JsonValue::List(items)) => Some(items@),
            _ => match field(v, "updates"@) {
                Some(JsonValue::List(items)) => Some(items@),
                _ => None,
            },
        },
    }
}

fn as_list<'a>(v: Option<&'a JsonValue>) -> (r: Option<&'a Vec<JsonValue>>)
    ensures
        match r {
            Some(items) => v matches Some(x) && *x == JsonValue::List(*items),
            None => !(v matches Some(x) && *x is List),
        },
{
    match v {
        Some(x) => match x {
            JsonValue::List(items) => Some(items),
            _ => None,
        },
        None => None,
    }
}

/// Where the messages of an answer stand.
pub fn raw_messages<'a>(resp: &'a JsonValue) -> (r: Option<&'a Vec<JsonValue>>)
    ensures
        match r {
            Some(items) => message_list(*resp) == Some(items@),
            None => message_list(*resp) is None,
        },
{
    match as_list(get(resp, "msgs")) {
        Some(items) => Some(items),
        None => match as_list(get(resp, "messages")) {
            Some(items) => Some(items),
            None => as_list(get(resp, "updates")),
        },
    }
}

// ---------------------------------------------------------------------------
// Whole values
// ---------------------------------------------------------------------------

/// A JSON value with its texts as sequences of characters.
pub enum Json {
    Null,
    Bool(bool),
    Int(int),
    OtherNumber(Seq<char>),
    Text(Seq<char>),
    List(Seq<Json>),
    Object(Seq<(Seq<char>, Json)>),
}

/// The value as a whole.
pub open spec fn whole(v: JsonValue) -> Json
    decreases v,
{
    match v {
        JsonValue::Null => Json::Null,
        JsonValue::Bool(b) => Json::Bool(b),
        JsonValue::Int(n) => Json::Int(n as int),
        JsonValue::OtherNumber(s) => Json::OtherNumber(s@),
        JsonValue::Text(s) => Json::Text(s@),
        JsonValue::List(items) => Json::List(
            Seq::new(
                items@.len(),
                |i: int|
                    if 0 <= i < items@.len() {
                        whole(items@[i])
                    } else {
                        Json::Null
                    },
            ),
        ),
        JsonValue::Object(fields) => Json::Object(
            Seq::new(
                fields@.len(),
                |i: int|
                    if 0 <= i < fields@.len() {
                        (fields@[i].0@, whole(fields@[i].1))
                    } else {
                        (Seq::empty(), Json::Null)
                    },
            ),
        ),
    }
}

/// An object as a whole, from its entries.
pub proof fn lemma_object(fields: Vec<(String, JsonValue)>, want: Seq<(Seq<char>, Json)>)
    requires
        fields@.len() == want.len(),
        forall|i: int|
            0 <= i < want.len() ==> (#[trigger] fields@[i]).0@ == want[i].0 && whole(fields@[i].1)
                == want[i].1,
    ensures
        whole(JsonValue::Object(fields)) == Json::Object(want),
{
    let w = whole(JsonValue::Object(fields));
    assert(w->Object_0 =~= want);
}

/// A list as a whole, from its items.
pub proof fn lemma_list(items: Vec<JsonValue>, want: Seq<Json>)
    requires
        items@.len() == want.len(),
        forall|i: int| 0 <= i < want.len() ==> whole(#[trigger] items@[i]) == want[i],
    ensures
        whole(JsonValue::List(items)) == Json::List(want),
{
    let w = whole(JsonValue::List(items));
    assert(w->List_0 =~= want);
}

/// An entry of an object.
pub fn entry(key: &str, value: JsonValue) -> (r: (String, JsonValue))
    ensures
        r.0@ == key@,
        r.1 == value,
{
    (owned(key), value)
}

pub fn text_value(s: &str) -> (r: JsonValue)
    ensures
        whole(r) == Json::Text(s@),
{
    JsonValue::Text(owned(s))
}

/// A text that may be missing.
pub open spec fn text_or_null(o: Option<Seq<char>>) -> Json {
    match o {
        Some(s) => Json::Text(s),
        None => Json::Null,
    }
}

pub fn optional_text(o: &Option<String>) -> (r: JsonValue)
    ensures
        whole(r) == text_or_null(text::opt_text(*o)),
{
    match o {
        Some(s) => JsonValue::Text(owned(s.as_str())),
        None => JsonValue::Null,
    }
}

// ---------------------------------------------------------------------------
// JSON texts
// ---------------------------------------------------------------------------

/// The JSON text of a text: quoted, with escapes.
pub uninterp spec fn quoted(text: Seq<char>) -> Seq<char>;

/// Calls `serde_json::to_string` on a text. Claimed: the result depends on the text alone.
/// Serializing a text into memory reports no error, and the empty text stands for one.
#[verifier::external_body]
fn quote(text: &str) -> (r: String)
    ensures
        r@ == quoted(text@),
{
    serde_json::to_string(text).unwrap_or_default()
}

/// The indented form of a JSON text, where it is one.
pub uninterp spec fn indented(json: Seq<char>) -> Option<Seq<char>>;

/// Calls `serde_json::from_str` for a value and `serde_json::to_string_pretty` on that
/// value; `None` where either reports an error. Claimed: the result depends on the text
/// alone.
#[verifier::external_body]
fn indent(json: &str) -> (r: Option<String>)
    ensures
        text::opt_text(r) == indented(json@),
{
    let value: serde_json::Value = serde_json::from_str(json).ok()?;
    serde_json::to_string_pretty(&value).ok()
}

#[verifier::external_type_specification]
#[verifier::external_body]
pub struct ExValue(serde_json::Value);

/// The value of a `serde_json::Value`, one for one: `as_i64` tells whether a number is a
/// 64-bit integer, and `to_string` gives the text of another number. Nothing is claimed.
#[verifier::external_body]
fn convert_value(value: &serde_json::Value) -> (r: JsonValue) {
    match value {
        serde_json::Value::Null => JsonValue::Null,
        serde_json::Value::Bool(b) => JsonValue::Bool(*b),
        serde_json::Value::Number(n) => n.as_i64().map_or_else(|| JsonValue::OtherNumber(n.to_string()), JsonValue::Int),
        serde_json::Value::String(s) => JsonValue::Text(s.clone()),
        serde_json::Value::Array(items) => JsonValue::List(items.iter().map(convert_value).collect()),
        serde_json::Value::Object(fields) => {
            JsonValue::Object(fields.iter().map(|(k, v)| (k.clone(), convert_value(v))).collect())
        }
    }
}

/// The value that a JSON text holds, where it is one.
pub uninterp spec fn parsed_json(text: Seq<char>) -> Option<Json>;

/// Calls `serde_json::from_str` for a value; `None` where it reports an error. Claimed: the
/// value depends on the text alone.
#[verifier::external_body]
pub(crate) fn parse_json(text: &str) -> (r: Option<JsonValue>)
    ensures
        match r {
            Some(v) => parsed_json(text@) == Some(whole(v)),
            None => parsed_json(text@) is None,
        },
{
    let value: serde_json::Value = serde_json::from_str(text).ok()?;
    Some(convert_value(&value))
}

/// A value as a JSON text.
pub open spec fn written(v: Json) -> Seq<char>
    decreases v,
{
    match v {
        Json::Null => "null"@,
        Json::Bool(b) => if b {
            "true"@
        } else {
            "false"@
        },
        Json::Int(n) => text::signed_decimal(n),
        Json::OtherNumber(s) => s,
        Json::Text(s) => quoted(s),
        Json::List(items) => "["@ + text::join(written_items(items), ","@) + "]"@,
        Json::Object(fields) => "{"@ + text::join(written_fields(fields), ","@) + "}"@,
    }
}

/// The items of a list as JSON texts.
pub open spec fn written_items(items: Seq<Json>) -> Seq<Seq<char>>
    decreases items,
{
    if items.len() == 0 {
        Seq::empty()
    } else {
        written_items(items.drop_last()).push(written(items[items.len() - 1]))
    }
}

/// The entries of an object as JSON texts.
pub open spec fn written_fields(fields: Seq<(Seq<char>, Json)>) -> Seq<Seq<char>>
    decreases fields,
{
    if fields.len() == 0 {
        Seq::empty()
    } else {
        let last = fields[fields.len() - 1];
        written_fields(fields.drop_last()).push(quoted(last.0) + ":"@ + written(last.1))
    }
}

proof fn lemma_item_smaller(v: JsonValue, i: int)
    ensures
        v matches JsonValue::List(items) ==> 0 <= i < items@.len() ==> decreases_to!(v => items@[i]),
        v matches JsonValue::Object(fields) ==> 0 <= i < fields@.len() ==> decreases_to!(
            v => fields@[i].1
        ),
{
    match v {
        JsonValue::List(items) => {
            assert(decreases_to!(v => items));
            assert(decreases_to!(items => items@));
            if 0 <= i < items@.len() {
                assert(decreases_to!(items@ => items@[i]));
            }
        },
        JsonValue::Object(fields) => {
            assert(decreases_to!(v => fields));
            assert(decreases_to!(fields => fields@));
            if 0 <= i < fields@.len() {
                assert(decreases_to!(fields@ => fields@[i]));
                assert(decreases_to!(fields@[i] => fields@[i].1));
            }
        },
        _ => {},
    }
}

/// Writes a value as a JSON text.
pub fn write_json(v: &JsonValue) -> (r: String)
    ensures
        r@ == written(whole(*v)),
    decreases v,
{
    match v {
        JsonValue::Null => owned("null"),
        JsonValue::Bool(b) => if *b {
            owned("true")
        } else {
            owned("false")
        },
        JsonValue::Int(n) => i64_text(*n),
        JsonValue::OtherNumber(s) => s.clone(),
        JsonValue::Text(s) => quote(s.as_str()),
        JsonValue::List(items) => {
            let ghost w = whole(*v)->List_0;
            let mut parts: Vec<String> = Vec::new();
            let mut i: usize = 0;
            proof {
                assert(w.take(0) =~= Seq::empty());
                assert(text::texts(parts@) =~= Seq::empty());
            }
            while i < items.len()
                invariant
                    i <= items@.len(),
                    *v == JsonValue::List(*items),
                    whole(*v) == Json::List(w),
                    w.len() == items@.len(),
                    text::texts(parts@) == written_items(w.take(i as int)),
                decreases items.len() - i,
            {
                proof {
                    lemma_item_smaller(*v, i as int);
                    assert(w.take(i + 1).drop_last() =~= w.take(i as int));
                    assert(w[i as int] == whole(items@[i as int]));
                }
                let item = write_json(&items[i]);
                proof {
                    text::lemma_texts_push(parts@, item);
                }
                parts.push(item);
                i = i + 1;
            }
            let inner = join_strings(parts.as_slice(), ",");
            proof {
                assert(w.take(i as int) =~= w);
            }
            cat3("[", inner.as_str(), "]")
        },
        JsonValue::Object(fields) => {
            let ghost w = whole(*v)->Object_0;
            let mut parts: Vec<String> = Vec::new();
            let mut i: usize = 0;
            proof {
                assert(w.take(0) =~= Seq::empty());
                assert(text::texts(parts@) =~= Seq::empty());
            }
            while i < fields.len()
                invariant
                    i <= fields@.len(),
                    *v == JsonValue::Object(*fields),
                    whole(*v) == Json::Object(w),
                    w.len() == fields@.len(),
                    text::texts(parts@) == written_fields(w.take(i as int)),
                decreases fields.len() - i,
            {
                proof {
                    lemma_item_smaller(*v, i as int);
                    assert(w.take(i + 1).drop_last() =~= w.take(i as int));
                    assert(w[i as int] == (fields@[i as int].0@, whole(fields@[i as int].1)));
                }
                let key = quote(fields[i].0.as_str());
                let value = write_json(&fields[i].1);
                let entry = cat3(key.as_str(), ":", value.as_str());
                proof {
                    text::lemma_texts_push(parts@, entry);
                }
                parts.push(entry);
                i = i + 1;
            }
            let inner = join_strings(parts.as_slice(), ",");
            proof {
                assert(w.take(i as int) =~= w);
            }
            cat3("{", inner.as_str(), "}")
        },
    }
}

/// A value as an indented JSON text, where there is one.
pub fn pretty_json(v: &JsonValue) -> (r: Option<String>)
    ensures
        text::opt_text(r) == indented(written(whole(*v))),
{
    let json = write_json(v);
    indent(json.as_str())
}

// ---------------------------------------------------------------------------
// Laws
// ---------------------------------------------------------------------------

/// Every item of a list is written, in its place.
pub proof fn lemma_items_are_written(items: Seq<Json>)
    ensures
        written_items(items).len() == items.len(),
        forall|i: int|
            0 <= i < items.len() ==> #[trigger] written_items(items)[i] == written(items[i]),
    decreases items.len(),
{
    if items.len() > 0 {
        let init = items.drop_last();
        lemma_items_are_written(init);
        assert forall|i: int| 0 <= i < items.len() implies #[trigger] written_items(items)[i]
            == written(items[i]) by {
            if i < init.len() {
                assert(written_items(items)[i] == written_items(init)[i]);
                assert(init[i] == items[i]);
            }
        }
    }
}

/// Every entry of an object is written with its key and its value, in its place.
pub proof fn lemma_entries_are_written(fields: Seq<(Seq<char>, Json)>)
    ensures
        written_fields(fields).len() == fields.len(),
        forall|i: int|
            0 <= i < fields.len() ==> #[trigger] written_fields(fields)[i] == quoted(fields[i].0)
                + ":"@ + written(fields[i].1),
    decreases fields.len(),
{
    if fields.len() > 0 {
        let init = fields.drop_last();
        lemma_entries_are_written(init);
        assert forall|i: int| 0 <= i < fields.len() implies #[trigger] written_fields(fields)[i]
            == quoted(fields[i].0) + ":"@ + written(fields[i].1) by {
            if i < init.len() {
                assert(written_fields(fields)[i] == written_fields(init)[i]);
                assert(init[i] == fields[i]);
            }
        }
    }
}

/// A written list holds the text of every item, and a written object that of every entry.
pub proof fn lemma_all_is_written(items: Seq<Json>, fields: Seq<(Seq<char>, Json)>, i: int, j: int)
    ensures
        0 <= i < items.len() ==> text::contains(written(Json::List(items)), written(items[i])),
        0 <= j < fields.len() ==> text::contains(
            written(Json::Object(fields)),
            quoted(fields[j].0) + ":"@ + written(fields[j].1),
        ),
        written(Json::List(items))[0] == '[' && written(Json::List(items)).last() == ']',
        written(Json::Object(fields))[0] == '{' && written(Json::Object(fields)).last() == '}',
{
    lemma_items_are_written(items);
    lemma_entries_are_written(fields);
    reveal_strlit("[");
    reveal_strlit("]");
    reveal_strlit("{");
    reveal_strlit("}");
    let x = text::join(written_items(items), ","@);
    let y = text::join(written_fields(fields), ","@);
    text::lemma_holds("["@, x, "]"@);
    text::lemma_holds("{"@, y, "}"@);
    if 0 <= i < items.len() {
        text::lemma_join_holds(written_items(items), ","@, i);
        text::lemma_holds_within("["@ + x + "]"@, x, written_items(items)[i]);
    }
    if 0 <= j < fields.len() {
        text::lemma_join_holds(written_fields(fields), ","@, j);
        text::lemma_holds_within("{"@ + y + "}"@, y, written_fields(fields)[j]);
    }
}

proof fn lemma_first_key(fields: Seq<(String, JsonValue)>, key: Seq<char>, i: int, k: int)
    requires
        0 <= i <= k < fields.len(),
        fields[k].0@ == key,
        forall|j: int| i <= j < k ==> (#[trigger] fields[j]).0@ != key,
    ensures
        key_from(fields, key, i) == Some(k),
    decreases k - i,
{
    if i < k {
        assert(fields[i].0@ != key);
        lemma_first_key(fields, key, i + 1, k);
    }
}

/// The value under a key is that of its first entry.
pub proof fn lemma_first_entry_is_found(fields: Vec<(String, JsonValue)>, key: Seq<char>, k: int)
    requires
        0 <= k < fields@.len(),
        fields@[k].0@ == key,
        forall|j: int| 0 <= j < k ==> (#[trigger] fields@[j]).0@ != key,
    ensures
        field(JsonValue::Object(fields), key) == Some(fields@[k].1),
{
    lemma_first_key(fields@, key, 0, k);
}

/// The messages of an answer stand under whichever name the answer gives them.
pub proof fn lemma_messages_are_found(v: JsonValue, items: Vec<JsonValue>)
    ensures
        field(v, "msgs"@) == Some(JsonValue::List(items)) ==> message_list(v) == Some(items@),
        field(v, "msgs"@) is None && field(v, "messages"@) == Some(JsonValue::List(items))
            ==> message_list(v) == Some(items@),
        field(v, "msgs"@) is None && field(v, "messages"@) is None && field(v, "updates"@) == Some(
            JsonValue::List(items),
        ) ==> message_list(v) == Some(items@),
        field(v, "msgs"@) is None && field(v, "messages"@) is None && field(v, "updates"@) is None
            ==> message_list(v) is None,
{
}

/// The id in an object is that under `id`, or else under `str`, or else under `value`.
pub proof fn lemma_id_in_an_object(v: JsonValue)
    requires
        v is Object,
    ensures
        field(v, "id"@) matches Some(x) ==> value_text(v) == value_text(x),
        field(v, "id"@) is None ==> (field(v, "str"@) matches Some(x) ==> value_text(v)
            == value_text(x)),
        field(v, "id"@) is None && field(v, "str"@) is None ==> (field(v, "value"@) matches Some(x)
            ==> value_text(v) == value_text(x)),
        field(v, "id"@) is None && field(v, "str"@) is None && field(v, "value"@) is None
            ==> value_text(v) is None,
{
    lemma_field_smaller(v, "id"@);
    lemma_field_smaller(v, "str"@);
    lemma_field_smaller(v, "value"@);
}

} // verus!
