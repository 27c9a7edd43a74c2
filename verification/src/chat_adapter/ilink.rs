//! The protocol of the chat service: addresses, login and requests.

use crate::chat_adapter::helpers;
use crate::chat_adapter::helpers::{assert_ok, first_non_empty, truncate_for_log};
use crate::json;
use crate::json::{Json, JsonValue, entry, get_i64, get_str, parse_json, text_value, write_json};
use crate::text;
use crate::text::{
    CharClass, blank, cat2, cat3, cat4, char_count, chars_of, has_prefix, owned, push_decimal,
    same, string_of, trim_trailing_chars, usize_text,
};
use vstd::prelude::*;

verus! {

/// The address of the service before the login gives another one.
pub open spec fn base_url_text() -> Seq<char> {
    "https://ilinkai.weixin.qq.com"@
}

pub fn default_base_url() -> (r: String)
    ensures
        r@ == base_url_text(),
{
    owned("https://ilinkai.weixin.qq.com")
}

/// The address of a path: one slash between the two.
pub open spec fn joined_url(base: Seq<char>, path: Seq<char>) -> Seq<char> {
    text::drop_trailing(base, CharClass::Only('/')) + (if text::starts_with(path, "/"@) {
        path
    } else {
        "/"@ + path
    })
}

pub fn build_url(base_url: &str, path: &str) -> (r: String)
    ensures
        r@ == joined_url(base_url@, path@),
{
    let v = chars_of(base_url);
    let base = string_of(&trim_trailing_chars(&v, CharClass::Only('/')));
    if has_prefix(path, "/") {
        cat2(base.as_str(), path)
    } else {
        let rest = cat2("/", path);
        cat2(base.as_str(), rest.as_str())
    }
}

/// The token for the `Authorization` header, where there is one.
pub open spec fn bearer(token: Option<Seq<char>>) -> Option<Seq<char>> {
    match token {
        Some(t) if !text::is_blank(t) => Some("Bearer "@ + t),
        _ => None,
    }
}

pub fn bearer_header(token: &Option<String>) -> (r: Option<String>)
    ensures
        text::opt_text(r) == bearer(text::opt_text(*token)),
{
    match token {
        Some(t) => if blank(t.as_str()) {
            None
        } else {
            Some(cat2("Bearer ", t.as_str()))
        },
        None => None,
    }
}

/// The standard Base64 text of the bytes of a text.
pub uninterp spec fn base64_text(s: Seq<char>) -> Seq<char>;

/// `base64::engine::general_purpose::STANDARD.encode`: the Base64 text of the UTF-8 bytes,
/// with the standard alphabet and padding. The encoding itself is left to the crate.
#[verifier::external_body]
fn base64_encode(s: &str) -> (r: String)
    ensures
        r@ == base64_text(s@),
{
    base64::Engine::encode(&base64::engine::general_purpose::STANDARD, s)
}

/// Four bytes as a number, the first one counting most.
pub open spec fn be_value(a: u8, b: u8, c: u8, d: u8) -> nat {
    (a as nat) * 16777216 + (b as nat) * 65536 + (c as nat) * 256 + (d as nat)
}

/// The client number of a login, made of four random bytes.
pub fn wechat_uin(a: u8, b: u8, c: u8, d: u8) -> (r: String)
    ensures
        r@ == base64_text(text::decimal(be_value(a, b, c, d))),
{
    let n: u128 = (a as u128) * 16777216 + (b as u128) * 65536 + (c as u128) * 256 + (d as u128);
    let mut digits = String::new();
    push_decimal(&mut digits, n);
    proof {
        assert(digits@ =~= text::decimal(be_value(a, b, c, d)));
    }
    base64_encode(digits.as_str())
}

// ---------------------------------------------------------------------------
// Login
// ---------------------------------------------------------------------------

/// The QR code of a login: its id and where it can be seen.
#[derive(Debug, PartialEq, Eq)]
pub struct LoginQrcode {
    pub id: String,
    pub url: Option<String>,
}

pub open spec fn qrcode_id(resp: JsonValue) -> Option<Seq<char>> {
    match json::text_field(resp, "qrcode"@) {
        Some(s) => Some(s),
        None => json::text_field(resp, "qrcode_id"@),
    }
}

pub open spec fn qrcode_url(resp: JsonValue) -> Option<Seq<char>> {
    match json::text_field(resp, "qrcode_img_content"@) {
        Some(s) => Some(s),
        None => match json::text_field(resp, "qrcode_url"@) {
            Some(s) => Some(s),
            None => json::text_field(resp, "url"@),
        },
    }
}

/// Reads the answer to a request for a QR code. `compact` is the text of the answer, for
/// the message.
pub fn read_qrcode(resp: &JsonValue) -> (r: Result<LoginQrcode, String>)
    ensures
        match r {
            Ok(q) => helpers::answer_error(*resp, "获取二维码"@) is None && qrcode_id(*resp) == Some(q.id@)
                && text::opt_text(q.url) == qrcode_url(*resp),
            Err(e) => match helpers::answer_error(*resp, "获取二维码"@) {
                Some(m) => e@ == m,
                None => qrcode_id(*resp) is None && e@ == "二维码ID为空: "@ + json::written(
                    json::whole(*resp),
                ),
            },
        },
{
    match assert_ok(resp, "获取二维码") {
        Err(e) => return Err(e),
        Ok(_) => {},
    }
    let mut ids: Vec<Option<String>> = Vec::new();
    ids.push(get_str(resp, "qrcode"));
    ids.push(get_str(resp, "qrcode_id"));
    let mut urls: Vec<Option<String>> = Vec::new();
    urls.push(get_str(resp, "qrcode_img_content"));
    urls.push(get_str(resp, "qrcode_url"));
    urls.push(get_str(resp, "url"));
    proof {
        lemma_first_of_two(helpers::opt_texts(ids@), *resp, "qrcode"@, "qrcode_id"@);
        lemma_first_of_three(
            helpers::opt_texts(urls@),
            *resp,
            "qrcode_img_content"@,
            "qrcode_url"@,
            "url"@,
        );
    }
    match first_non_empty(&ids) {
        Some(id) => Ok(LoginQrcode { id, url: first_non_empty(&urls) }),
        None => Err(cat2("二维码ID为空: ", write_json(resp).as_str())),
    }
}

proof fn lemma_text_field_filled(v: JsonValue, key: Seq<char>)
    ensures
        json::text_field(v, key) matches Some(s) ==> text::trim(s).len() > 0,
{
    if let Some(JsonValue::Text(s)) = json::field(v, key) {
        text::lemma_trim_idempotent(s@);
    }
}

proof fn lemma_first_of_two(items: Seq<Option<Seq<char>>>, v: JsonValue, a: Seq<char>, b: Seq<char>)
    requires
        items.len() == 2,
        items[0] == json::text_field(v, a),
        items[1] == json::text_field(v, b),
    ensures
        helpers::first_filled(items) == (match json::text_field(v, a) {
            Some(s) => Some(s),
            None => json::text_field(v, b),
        }),
{
    lemma_text_field_filled(v, a);
    lemma_text_field_filled(v, b);
    reveal_with_fuel(helpers::first_filled, 3);
    assert(items.drop_first()[0] == items[1]);
}

proof fn lemma_first_of_three(
    items: Seq<Option<Seq<char>>>,
    v: JsonValue,
    a: Seq<char>,
    b: Seq<char>,
    c: Seq<char>,
)
    requires
        items.len() == 3,
        items[0] == json::text_field(v, a),
        items[1] == json::text_field(v, b),
        items[2] == json::text_field(v, c),
    ensures
        helpers::first_filled(items) == (match json::text_field(v, a) {
            Some(s) => Some(s),
            None => match json::text_field(v, b) {
                Some(s) => Some(s),
                None => json::text_field(v, c),
            },
        }),
{
    lemma_text_field_filled(v, a);
    let rest = items.drop_first();
    assert(rest[0] == items[1]);
    assert(rest[1] == items[2]);
    lemma_first_of_two(rest, v, b, c);
    assert(helpers::first_filled(items) == (match items[0] {
        Some(s) if text::trim(s).len() > 0 => Some(s),
        _ => helpers::first_filled(rest),
    }));
}

/// What the state of a login asks for.
#[derive(Debug, PartialEq, Eq)]
pub enum LoginStep {
    /// The login is done.
    Confirmed {
        bot_token: Option<String>,
        bot_id: String,
        user_id: String,
        base_url: Option<String>,
    },
    /// Ask again later.
    Waiting,
    /// A new QR code is needed.
    Expired,
    /// Something else: it is noted, and asked again later.
    Unknown,
}

pub open spec fn login_ret(resp: JsonValue) -> int {
    match json::int_field(resp, "ret"@) {
        Some(n) => n,
        None => 0,
    }
}

pub open spec fn login_status(resp: JsonValue) -> Seq<char> {
    text::text_or(json::text_field(resp, "status"@), Seq::empty())
}

/// Which step an answer on the state of a login asks for.
pub open spec fn login_step_is(resp: JsonValue, step: LoginStep) -> bool {
    let ret = login_ret(resp);
    let status = login_status(resp);
    if ret == 0 && status == "confirmed"@ {
        step matches LoginStep::Confirmed { bot_token, bot_id, user_id, base_url } && text::opt_text(
            bot_token,
        ) == json::text_field(resp, "bot_token"@) && bot_id@ == text::text_or(
            json::text_field(resp, "ilink_bot_id"@),
            Seq::empty(),
        ) && user_id@ == text::text_or(json::text_field(resp, "ilink_user_id"@), Seq::empty()) && text::opt_text(
            base_url,
        ) == json::text_field(resp, "baseurl"@)
    } else if ret == 1 || (ret == 0 && (status == "wait"@ || status == "scanned"@)) {
        step is Waiting
    } else if ret == 0 && status == "expired"@ {
        step is Expired
    } else {
        step is Unknown
    }
}

fn text_or_empty(v: &JsonValue, key: &str) -> (r: String)
    ensures
        r@ == text::text_or(json::text_field(*v, key@), Seq::empty()),
{
    match get_str(v, key) {
        Some(s) => s,
        None => {
            let s = String::new();
            proof {
                assert(s@ =~= Seq::<char>::empty());
            }
            s
        },
    }
}

pub fn login_step(resp: &JsonValue) -> (r: LoginStep)
    ensures
        login_step_is(*resp, r),
{
    let ret: i64 = match get_i64(resp, "ret") {
        Some(n) => n,
        None => 0,
    };
    let status = text_or_empty(resp, "status");
    if ret == 0 && same(status.as_str(), "confirmed") {
        return LoginStep::Confirmed {
            bot_token: get_str(resp, "bot_token"),
            bot_id: text_or_empty(resp, "ilink_bot_id"),
            user_id: text_or_empty(resp, "ilink_user_id"),
            base_url: get_str(resp, "baseurl"),
        };
    }
    if ret == 1 || (ret == 0 && (same(status.as_str(), "wait") || same(status.as_str(), "scanned"))) {
        return LoginStep::Waiting;
    }
    if ret == 0 && same(status.as_str(), "expired") {
        return LoginStep::Expired;
    }
    LoginStep::Unknown
}

// ---------------------------------------------------------------------------
// Polling and sending
// ---------------------------------------------------------------------------

/// The cursor for the next poll: the one in the answer, else the present one.
pub open spec fn cursor_after(resp: JsonValue, cursor: Seq<char>) -> Seq<char> {
    match json::text_field(resp, "get_updates_buf"@) {
        Some(s) => s,
        None => match json::text_field(resp, "cursor"@) {
            Some(s) => s,
            None => match json::text_field(resp, "sync_buf"@) {
                Some(s) => s,
                None => if text::is_blank(cursor) {
                    Seq::empty()
                } else {
                    cursor
                },
            },
        },
    }
}

pub fn next_cursor(resp: &JsonValue, cursor: &str) -> (r: String)
    ensures
        r@ == cursor_after(*resp, cursor@),
{
    let mut items: Vec<Option<String>> = Vec::new();
    items.push(get_str(resp, "get_updates_buf"));
    items.push(get_str(resp, "cursor"));
    items.push(get_str(resp, "sync_buf"));
    match first_non_empty(&items) {
        Some(s) => {
            proof {
                lemma_first_of_three(
                    helpers::opt_texts(items@),
                    *resp,
                    "get_updates_buf"@,
                    "cursor"@,
                    "sync_buf"@,
                );
            }
            s
        },
        None => {
            proof {
                lemma_first_of_three(
                    helpers::opt_texts(items@),
                    *resp,
                    "get_updates_buf"@,
                    "cursor"@,
                    "sync_buf"@,
                );
            }
            if blank(cursor) {
                let s = String::new();
                proof {
                    assert(s@ =~= Seq::<char>::empty());
                }
                s
            } else {
                owned(cursor)
            }
        },
    }
}

/// The cursor that is kept: a new one replaces the old one unless it is empty.
pub fn kept_cursor(old_cursor: &str, new_cursor: &str) -> (r: String)
    ensures
        r@ == (if new_cursor@.len() == 0 {
            old_cursor@
        } else {
            new_cursor@
        }),
{
    if char_count(new_cursor) == 0 {
        owned(old_cursor)
    } else {
        owned(new_cursor)
    }
}

/// `base_info` of a request.
pub open spec fn base_info_json(channel_version: Seq<char>) -> Json {
    Json::Object(seq![("channel_version"@, Json::Text(channel_version))])
}

fn base_info(channel_version: &str) -> (r: JsonValue)
    ensures
        json::whole(r) == base_info_json(channel_version@),
{
    let mut fields: Vec<(String, JsonValue)> = Vec::new();
    fields.push(entry("channel_version", text_value(channel_version)));
    proof {
        json::lemma_object(fields, seq![("channel_version"@, Json::Text(channel_version@))]);
    }
    JsonValue::Object(fields)
}

/// The body of a poll.
pub fn poll_body(cursor: &str, channel_version: &str) -> (r: JsonValue)
    ensures
        json::whole(r) == Json::Object(
            seq![
                ("get_updates_buf"@, Json::Text(cursor@)),
                ("base_info"@, base_info_json(channel_version@)),
            ],
        ),
{
    let mut fields: Vec<(String, JsonValue)> = Vec::new();
    fields.push(entry("get_updates_buf", text_value(cursor)));
    fields.push(entry("base_info", base_info(channel_version)));
    proof {
        json::lemma_object(
            fields,
            seq![
                ("get_updates_buf"@, Json::Text(cursor@)),
                ("base_info"@, base_info_json(channel_version@)),
            ],
        );
    }
    JsonValue::Object(fields)
}

/// The items of a message: one text.
pub open spec fn item_list_json(text: Seq<char>) -> Json {
    Json::List(
        seq![
            Json::Object(
                seq![
                    ("type"@, Json::Int(1)),
                    ("text_item"@, Json::Object(seq![("text"@, Json::Text(text))])),
                ],
            ),
        ],
    )
}

fn item_list(text: &str) -> (r: JsonValue)
    ensures
        json::whole(r) == item_list_json(text@),
{
    let mut inner: Vec<(String, JsonValue)> = Vec::new();
    inner.push(entry("text", text_value(text)));
    proof {
        json::lemma_object(inner, seq![("text"@, Json::Text(text@))]);
    }
    let text_item = JsonValue::Object(inner);
    let mut item: Vec<(String, JsonValue)> = Vec::new();
    item.push(entry("type", JsonValue::Int(1)));
    item.push(entry("text_item", text_item));
    proof {
        json::lemma_object(
            item,
            seq![
                ("type"@, Json::Int(1)),
                ("text_item"@, Json::Object(seq![("text"@, Json::Text(text@))])),
            ],
        );
    }
    let mut items: Vec<JsonValue> = Vec::new();
    items.push(JsonValue::Object(item));
    proof {
        json::lemma_list(items, item_list_json(text@)->List_0);
    }
    JsonValue::List(items)
}

/// The message of a request to send a text.
pub open spec fn message_json(
    to_user_id: Seq<char>,
    text: Seq<char>,
    context_token: Seq<char>,
    client_id: Seq<char>,
) -> Json {
    Json::Object(
        seq![
            ("from_user_id"@, Json::Text(""@)),
            ("to_user_id"@, Json::Text(to_user_id)),
            ("client_id"@, Json::Text(client_id)),
            ("message_type"@, Json::Int(2)),
            ("message_state"@, Json::Int(2)),
            ("context_token"@, Json::Text(context_token)),
            ("item_list"@, item_list_json(text)),
        ],
    )
}

/// The body of a request to send a text.
pub fn send_body(
    to_user_id: &str,
    text: &str,
    context_token: &str,
    client_id: &str,
    channel_version: &str,
) -> (r: JsonValue)
    ensures
        json::whole(r) == Json::Object(
            seq![
                ("msg"@, message_json(to_user_id@, text@, context_token@, client_id@)),
                ("base_info"@, base_info_json(channel_version@)),
            ],
        ),
{
    let mut msg: Vec<(String, JsonValue)> = Vec::new();
    msg.push(entry("from_user_id", text_value("")));
    msg.push(entry("to_user_id", text_value(to_user_id)));
    msg.push(entry("client_id", text_value(client_id)));
    msg.push(entry("message_type", JsonValue::Int(2)));
    msg.push(entry("message_state", JsonValue::Int(2)));
    msg.push(entry("context_token", text_value(context_token)));
    msg.push(entry("item_list", item_list(text)));
    proof {
        json::lemma_object(msg, message_json(to_user_id@, text@, context_token@, client_id@)->Object_0);
    }
    let mut fields: Vec<(String, JsonValue)> = Vec::new();
    fields.push(entry("msg", JsonValue::Object(msg)));
    fields.push(entry("base_info", base_info(channel_version)));
    proof {
        json::lemma_object(
            fields,
            seq![
                ("msg"@, message_json(to_user_id@, text@, context_token@, client_id@)),
                ("base_info"@, base_info_json(channel_version@)),
            ],
        );
    }
    JsonValue::Object(fields)
}

// ---------------------------------------------------------------------------
// Answers that are none
// ---------------------------------------------------------------------------

/// How a request is named in a message: its status, its method and its path.
pub open spec fn request_label(status: nat, method: Seq<char>, path: Seq<char>) -> Seq<char> {
    "[HTTP "@ + text::decimal(status) + "] "@ + method + " "@ + path
}

fn label_request(status: u16, method: &str, path: &str) -> (r: String)
    ensures
        r@ == request_label(status as nat, method@, path@),
{
    let number = usize_text(status as usize);
    let start = cat4("[HTTP ", number.as_str(), "] ", method);
    cat3(start.as_str(), " ", path)
}

/// The message for an answer that is no JSON text.
pub fn not_json_message(status: u16, method: &str, path: &str, body: &str) -> (r: String)
    ensures
        r@ == request_label(status as nat, method@, path@) + " 返回非JSON: "@ + text::clipped(body@, 300),
{
    let label = label_request(status, method, path);
    let shown = truncate_for_log(body, 300);
    cat3(label.as_str(), " 返回非JSON: ", shown.as_str())
}

/// Whether a request succeeded. `compact` is the answer as one line.
pub fn check_http_status(status: u16, method: &str, path: &str, compact: &str) -> (r: Result<
    (),
    String,
>)
    ensures
        match r {
            Ok(_) => 200 <= status < 300,
            Err(e) => !(200 <= status < 300) && e@ == request_label(status as nat, method@, path@)
                + " 失败: "@ + text::clipped(compact@, 500),
        },
{
    if 200 <= status && status < 300 {
        return Ok(());
    }
    let label = label_request(status, method, path);
    let shown = truncate_for_log(compact, 500);
    Err(cat3(label.as_str(), " 失败: ", shown.as_str()))
}

/// The outcome of a request that was answered: an answer that is no JSON text is reported
/// first, and then a status that is no success.
pub open spec fn answer_read(
    status: nat,
    method: Seq<char>,
    path: Seq<char>,
    body: Seq<char>,
    r: Result<JsonValue, String>,
) -> bool {
    let label = request_label(status, method, path);
    match json::parsed_json(body) {
        None => r matches Err(e) && e@ == label + " 返回非JSON: "@ + text::clipped(body, 300),
        Some(v) => if 200 <= status < 300 {
            r matches Ok(d) && json::whole(d) == v
        } else {
            r matches Err(e) && e@ == label + " 失败: "@ + text::clipped(json::written(v), 500)
        },
    }
}

/// Judges an answer whose JSON value is known, where there is one.
pub fn judge_answer(
    status: u16,
    method: &str,
    path: &str,
    body: &str,
    value: Option<JsonValue>,
) -> (r: Result<JsonValue, String>)
    ensures
        ({
            let label = request_label(status as nat, method@, path@);
            match value {
                None => r matches Err(e) && e@ == label + " 返回非JSON: "@ + text::clipped(body@, 300),
                Some(v) => if 200 <= status < 300 {
                    r matches Ok(d) && d == v
                } else {
                    r matches Err(e) && e@ == label + " 失败: "@ + text::clipped(
                        json::written(json::whole(v)),
                        500,
                    )
                },
            }
        }),
{
    match value {
        None => Err(not_json_message(status, method, path, body)),
        Some(v) => {
            let compact = write_json(&v);
            match check_http_status(status, method, path, compact.as_str()) {
                Ok(_) => Ok(v),
                Err(e) => Err(e),
            }
        },
    }
}

/// Reads the answer to a request from its status and its text.
pub fn read_answer(status: u16, method: &str, path: &str, body: &str) -> (r: Result<
    JsonValue,
    String,
>)
    ensures
        answer_read(status as nat, method@, path@, body@, r),
{
    judge_answer(status, method, path, body, parse_json(body))
}

// ---------------------------------------------------------------------------
// Laws
// ---------------------------------------------------------------------------

/// Just one slash stands between the address of the service and a path, however many stand
/// at the end of the address and whether or not the path begins with one.
pub proof fn lemma_one_slash(base: Seq<char>, slashes: Seq<char>, path: Seq<char>)
    requires
        base.len() > 0,
        base.last() != '/',
        forall|i: int| 0 <= i < slashes.len() ==> #[trigger] slashes[i] == '/',
        path.len() > 0 ==> path[0] != '/',
    ensures
        joined_url(base + slashes, path) == base + seq!['/'] + path,
        joined_url(base + slashes, seq!['/'] + path) == base + seq!['/'] + path,
{
    reveal_strlit("/");
    assert("/"@ =~= seq!['/']);
    text::lemma_drop_trailing_exact(base, slashes, CharClass::Only('/'));
    let p = seq!['/'] + path;
    text::lemma_occurs_char(p, '/', 0);
    text::lemma_occurs_char(path, '/', 0);
    assert(base + p =~= base + seq!['/'] + path);
}

/// A token goes into the header behind one word, and a blank one does not go.
pub proof fn lemma_bearer(token: Seq<char>)
    ensures
        text::is_blank(token) ==> bearer(Some(token)) is None,
        !text::is_blank(token) ==> bearer(Some(token)) is Some && text::ends_with(
            bearer(Some(token))->0,
            token,
        ) && text::starts_with(bearer(Some(token))->0, "Bearer "@),
        bearer(None) is None,
{
    if !text::is_blank(token) {
        let h = "Bearer "@ + token;
        let n = h.len() - token.len();
        assert(h.subrange(n, n + token.len()) =~= token);
        assert(h.subrange(0, "Bearer "@.len() as int) =~= "Bearer "@);
    }
}

/// Four bytes make a number of 32 bits, and other bytes make another number.
pub proof fn lemma_be_value(a: u8, b: u8, c: u8, d: u8, e: u8, f: u8, g: u8, h: u8)
    ensures
        be_value(a, b, c, d) < 4294967296,
        be_value(a, b, c, d) == be_value(e, f, g, h) ==> a == e && b == f && c == g && d == h,
        a < e ==> be_value(a, b, c, d) < be_value(e, f, g, h),
{
}

/// The cursor moves on to the one in the answer, under whichever name the answer gives it,
/// and stays where the answer gives none.
pub proof fn lemma_cursor_moves_on(resp: JsonValue, cursor: Seq<char>)
    ensures
        json::text_field(resp, "get_updates_buf"@) is Some ==> Some(cursor_after(resp, cursor))
            == json::text_field(resp, "get_updates_buf"@),
        json::text_field(resp, "get_updates_buf"@) is None && json::text_field(
            resp,
            "cursor"@,
        ) is Some ==> Some(cursor_after(resp, cursor)) == json::text_field(resp, "cursor"@),
        json::text_field(resp, "get_updates_buf"@) is None && json::text_field(
            resp,
            "cursor"@,
        ) is None && json::text_field(resp, "sync_buf"@) is Some ==> Some(cursor_after(resp, cursor))
            == json::text_field(resp, "sync_buf"@),
        json::text_field(resp, "get_updates_buf"@) is None && json::text_field(
            resp,
            "cursor"@,
        ) is None && json::text_field(resp, "sync_buf"@) is None && !text::is_blank(cursor)
            ==> cursor_after(resp, cursor) == cursor,
{
}

/// A login is confirmed only by an answer that says so and reports no error, and then with
/// the token of that answer; a code that is scanned is waited for.
pub proof fn lemma_login_steps(resp: JsonValue, step: LoginStep)
    requires
        login_step_is(resp, step),
    ensures
        (step is Confirmed) == (json::text_field(resp, "status"@) == Some("confirmed"@) && (
        json::int_field(resp, "ret"@) is None || json::int_field(resp, "ret"@) == Some(0int))),
        step matches LoginStep::Confirmed { bot_token, bot_id, user_id, base_url }
            ==> text::opt_text(bot_token) == json::text_field(resp, "bot_token"@),
        json::int_field(resp, "ret"@) == Some(1int) ==> step is Waiting,
        json::int_field(resp, "ret"@) == Some(0int) && json::text_field(resp, "status"@) == Some(
            "scanned"@,
        ) ==> step is Waiting,
        step is Expired ==> json::text_field(resp, "status"@) == Some("expired"@),
{
    reveal_strlit("confirmed");
    reveal_strlit("wait");
    reveal_strlit("scanned");
    reveal_strlit("expired");
    assert("confirmed"@.len() == 9);
    assert("scanned"@.len() == 7 && "scanned"@[0] == 's');
    assert("expired"@.len() == 7 && "expired"@[0] == 'e');
    assert("wait"@.len() == 4);
}

/// A message of a request names its status, its method and its path.
pub proof fn lemma_request_is_named(status: nat, method: Seq<char>, path: Seq<char>)
    ensures
        text::contains(request_label(status, method, path), text::decimal(status)),
        text::contains(request_label(status, method, path), method),
        text::ends_with(request_label(status, method, path), path),
{
    let r = request_label(status, method, path);
    let d = text::decimal(status);
    text::lemma_holds("[HTTP "@, d, "] "@ + method + " "@ + path);
    assert("[HTTP "@ + d + ("] "@ + method + " "@ + path) =~= r);
    text::lemma_holds("[HTTP "@ + d + "] "@, method, " "@ + path);
    assert("[HTTP "@ + d + "] "@ + method + (" "@ + path) =~= r);
    let n = r.len() - path.len();
    assert(r.subrange(n, n + path.len()) =~= path);
}

/// The code and its picture stand under whichever name the answer gives them, the first of
/// these names before the others.
pub proof fn lemma_qrcode_names(resp: JsonValue)
    ensures
        json::text_field(resp, "qrcode"@) is Some ==> qrcode_id(resp) == json::text_field(
            resp,
            "qrcode"@,
        ),
        json::text_field(resp, "qrcode"@) is None ==> qrcode_id(resp) == json::text_field(
            resp,
            "qrcode_id"@,
        ),
        json::text_field(resp, "qrcode_img_content"@) is Some ==> qrcode_url(resp)
            == json::text_field(resp, "qrcode_img_content"@),
        json::text_field(resp, "qrcode_img_content"@) is None && json::text_field(
            resp,
            "qrcode_url"@,
        ) is Some ==> qrcode_url(resp) == json::text_field(resp, "qrcode_url"@),
        json::text_field(resp, "qrcode_img_content"@) is None && json::text_field(
            resp,
            "qrcode_url"@,
        ) is None ==> qrcode_url(resp) == json::text_field(resp, "url"@),
{
}

/// An answer counts just where it is JSON and its status is a success; else the error names
/// the request and shows the start of the answer.
pub proof fn lemma_answers_are_judged(
    status: nat,
    method: Seq<char>,
    path: Seq<char>,
    body: Seq<char>,
    r: Result<JsonValue, String>,
)
    requires
        answer_read(status, method, path, body, r),
    ensures
        (r is Ok) == (json::parsed_json(body) is Some && 200 <= status <= 299),
        r matches Err(e) ==> text::starts_with(e@, request_label(status, method, path)),
        r matches Ok(v) ==> Some(json::whole(v)) == json::parsed_json(body),
        json::parsed_json(body) is None && body.len() <= 300 ==> (r matches Err(e)
            && text::ends_with(e@, body)),
{
    let label = request_label(status, method, path);
    if r is Err {
        let e = r->Err_0@;
        assert(e.subrange(0, label.len() as int) =~= label);
        if json::parsed_json(body) is None && body.len() <= 300 {
            assert(e.subrange(e.len() - body.len(), e.len() as int) =~= body);
        }
    }
}

/// A message goes to the user with its text, and with the token of the conversation.
pub proof fn lemma_message_is_addressed(
    to_user_id: Seq<char>,
    text: Seq<char>,
    context_token: Seq<char>,
    client_id: Seq<char>,
)
    ensures
        ({
            let m = message_json(to_user_id, text, context_token, client_id);
            &&& m is Object && m->Object_0.contains(("to_user_id"@, Json::Text(to_user_id)))
            &&& m->Object_0.contains(("context_token"@, Json::Text(context_token)))
            &&& m->Object_0.contains(("client_id"@, Json::Text(client_id)))
            &&& m->Object_0.contains(("item_list"@, item_list_json(text)))
            &&& item_list_json(text) is List && item_list_json(text)->List_0.len() == 1
        }),
{
    let f = message_json(to_user_id, text, context_token, client_id)->Object_0;
    assert(f[1] == ("to_user_id"@, Json::Text(to_user_id)));
    assert(f[2] == ("client_id"@, Json::Text(client_id)));
    assert(f[5] == ("context_token"@, Json::Text(context_token)));
    assert(f[6] == ("item_list"@, item_list_json(text)));
}

} // verus!
