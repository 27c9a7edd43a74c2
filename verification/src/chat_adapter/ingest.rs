//! Reading inbound messages and telling repeated ones apart.

use crate::json;
use crate::json::{JsonValue, value_to_string};
use crate::text;
use crate::text::{blank, cat2, copy_strings, i64_text, owned, push_i64, push_text, same, trimmed};
use vstd::prelude::*;

verus! {

/// So many ids of seen messages are remembered at most.
pub const MAX_SEEN_IDS: usize = 1000;

/// So many are kept when there are too many.
pub const TRIM_SEEN_IDS_TO: usize = 500;

#[derive(Debug)]
pub struct TextItem {
    pub text: String,
}

#[derive(Debug)]
pub struct MessageItem {
    pub text_item: Option<TextItem>,
}

/// An id as the service sends it. A number with a fraction comes as its text, an object
/// together with its compact text.
#[derive(Debug)]
pub enum FlexibleId {
    Str(String),
    Int(i64),
    Float(String),
    Obj(JsonValue, String),
}

/// The text of an id.
pub open spec fn id_text(id: FlexibleId) -> Seq<char> {
    match id {
        FlexibleId::Str(s) => s@,
        FlexibleId::Int(n) => text::signed_decimal(n as int),
        FlexibleId::Float(s) => s@,
        FlexibleId::Obj(v, compact) => text::text_or(json::value_text(v), compact@),
    }
}

impl FlexibleId {
    pub fn as_string(&self) -> (r: String)
        ensures
            r@ == id_text(*self),
    {
        match self {
            FlexibleId::Str(s) => owned(s.as_str()),
            FlexibleId::Int(n) => i64_text(*n),
            FlexibleId::Float(s) => owned(s.as_str()),
            FlexibleId::Obj(v, compact) => match value_to_string(v) {
                Some(s) => s,
                None => owned(compact.as_str()),
            },
        }
    }
}

/// A message as the service sends it. It may wrap the message proper.
#[derive(Debug)]
pub struct WireMessage {
    pub message: Option<Box<WireMessage>>,
    pub from_user_id: String,
    pub client_id: String,
    pub create_time_ms: Option<i64>,
    pub message_type: Option<i64>,
    pub context_token: String,
    pub item_list: Vec<MessageItem>,
    pub text: String,
    pub message_id: Option<FlexibleId>,
    pub msg_id: Option<FlexibleId>,
}

/// What an answer to a poll holds.
#[derive(Debug)]
pub struct GetUpdatesResult {
    pub messages: Vec<WireMessage>,
    pub cursor: String,
}

/// The message proper.
pub open spec fn proper(msg: WireMessage) -> WireMessage {
    match msg.message {
        Some(inner) => *inner,
        None => msg,
    }
}

pub open spec fn item_text(item: MessageItem) -> Seq<char> {
    match item.text_item {
        Some(t) => text::trim(t.text@),
        None => Seq::empty(),
    }
}

/// The trimmed texts of the items, one after the other.
pub open spec fn items_text(items: Seq<MessageItem>) -> Seq<char>
    decreases items.len(),
{
    if items.len() == 0 {
        Seq::empty()
    } else {
        items_text(items.drop_last()) + item_text(items.last())
    }
}

/// The whole text of a message: its own and that of its items, without space around each.
pub open spec fn message_text(msg: WireMessage) -> Seq<char> {
    text::trim(msg.text@) + items_text(msg.item_list@)
}

pub fn collect_text(msg: &WireMessage) -> (r: String)
    ensures
        r@ == message_text(*msg),
{
    let mut out = trimmed(msg.text.as_str());
    let mut i: usize = 0;
    proof {
        assert(msg.item_list@.take(0) =~= Seq::empty());
        assert(out@ =~= text::trim(msg.text@) + items_text(msg.item_list@.take(0)));
    }
    while i < msg.item_list.len()
        invariant
            i <= msg.item_list@.len(),
            out@ == text::trim(msg.text@) + items_text(msg.item_list@.take(i as int)),
        decreases msg.item_list.len() - i,
    {
        let ghost before = out@;
        proof {
            assert(msg.item_list@.take(i + 1).drop_last() =~= msg.item_list@.take(i as int));
        }
        if let Some(t) = &msg.item_list[i].text_item {
            let part = trimmed(t.text.as_str());
            out.append(part.as_str());
        }
        proof {
            assert(out@ =~= before + item_text(msg.item_list@[i as int]));
            assert(out@ =~= text::trim(msg.text@) + items_text(msg.item_list@.take(i + 1)));
        }
        i = i + 1;
    }
    proof {
        assert(msg.item_list@.take(i as int) =~= msg.item_list@);
    }
    out
}

/// The id of a message: the one it has, else its client id, else sender and time.
pub open spec fn message_key(msg: WireMessage, now_ms: int) -> Seq<char> {
    match msg.message_id {
        Some(id) => id_text(id),
        None => match msg.msg_id {
            Some(id) => id_text(id),
            None => if !text::is_blank(msg.client_id@) {
                msg.client_id@
            } else {
                let sender = if text::is_blank(msg.from_user_id@) {
                    "unknown"@
                } else {
                    text::trim(msg.from_user_id@)
                };
                let at = match msg.create_time_ms {
                    Some(t) => t as int,
                    None => now_ms,
                };
                sender + ":"@ + text::signed_decimal(at)
            },
        },
    }
}

pub fn extract_message_id(msg: &WireMessage, now_ms: i64) -> (r: String)
    ensures
        r@ == message_key(*msg, now_ms as int),
{
    if let Some(id) = &msg.message_id {
        return id.as_string();
    }
    if let Some(id) = &msg.msg_id {
        return id.as_string();
    }
    if !blank(msg.client_id.as_str()) {
        return owned(msg.client_id.as_str());
    }
    let sender = if blank(msg.from_user_id.as_str()) {
        owned("unknown")
    } else {
        trimmed(msg.from_user_id.as_str())
    };
    let at: i64 = match msg.create_time_ms {
        Some(t) => t,
        None => now_ms,
    };
    let mut out = cat2(sender.as_str(), ":");
    push_i64(&mut out, at);
    out
}

/// A message that is to be looked at.
#[derive(Debug)]
pub struct Inbound {
    pub user_id: String,
    pub context_token: String,
    pub text: String,
    pub message_id: String,
}

pub struct InboundData {
    pub user_id: Seq<char>,
    pub context_token: Seq<char>,
    pub text: Seq<char>,
    pub message_id: Seq<char>,
}

impl View for Inbound {
    type V = InboundData;

    open spec fn view(&self) -> InboundData {
        InboundData {
            user_id: self.user_id@,
            context_token: self.context_token@,
            text: self.text@,
            message_id: self.message_id@,
        }
    }
}

/// Only messages of users count: of type 1, where a type is given, and with a sender.
pub open spec fn inbound(msg: WireMessage, now_ms: int) -> Option<InboundData> {
    let wire = proper(msg);
    if (wire.message_type matches Some(t) && t != 1) || text::is_blank(wire.from_user_id@) {
        None
    } else {
        Some(
            InboundData {
                user_id: text::trim(wire.from_user_id@),
                context_token: text::trim(wire.context_token@),
                text: message_text(wire),
                message_id: message_key(wire, now_ms),
            },
        )
    }
}

pub fn read_message(msg: &WireMessage, now_ms: i64) -> (r: Option<Inbound>)
    ensures
        match r {
            Some(m) => inbound(*msg, now_ms as int) == Some(m@),
            None => inbound(*msg, now_ms as int) is None,
        },
{
    let wire: &WireMessage = match &msg.message {
        Some(inner) => &**inner,
        None => msg,
    };
    if let Some(t) = wire.message_type {
        if t != 1 {
            return None;
        }
    }
    if blank(wire.from_user_id.as_str()) {
        return None;
    }
    Some(
        Inbound {
            user_id: trimmed(wire.from_user_id.as_str()),
            context_token: trimmed(wire.context_token.as_str()),
            text: collect_text(wire),
            message_id: extract_message_id(wire, now_ms),
        },
    )
}

// ---------------------------------------------------------------------------
// Seen messages
// ---------------------------------------------------------------------------

/// The ids of the messages seen last, oldest first.
#[derive(Debug)]
pub struct SeenIds {
    pub order: Vec<String>,
}

/// The ids after another one was seen.
pub open spec fn seen_after(ids: Seq<Seq<char>>, id: Seq<char>) -> Seq<Seq<char>> {
    if ids.contains(id) {
        ids
    } else {
        let all = ids.push(id);
        if all.len() > MAX_SEEN_IDS {
            all.skip(all.len() - TRIM_SEEN_IDS_TO)
        } else {
            all
        }
    }
}

pub open spec fn distinct_texts(ids: Seq<Seq<char>>) -> bool {
    forall|i: int, j: int| 0 <= i < j < ids.len() ==> #[trigger] ids[i] != #[trigger] ids[j]
}

/// No id is remembered twice, and never more than the limit.
pub open spec fn seen_ok(ids: Seq<Seq<char>>) -> bool {
    ids.len() <= MAX_SEEN_IDS && distinct_texts(ids)
}

/// Seeing another message keeps the ids distinct and within the limit.
pub proof fn lemma_seen_bounded(ids: Seq<Seq<char>>, id: Seq<char>)
    requires
        seen_ok(ids),
    ensures
        seen_ok(seen_after(ids, id)),
{
    if !ids.contains(id) {
        let all = ids.push(id);
        assert(distinct_texts(all)) by {
            assert forall|i: int, j: int| 0 <= i < j < all.len() implies #[trigger] all[i]
                != #[trigger] all[j] by {
                if j == ids.len() {
                    assert(ids.contains(ids[i]));
                }
            }
        }
    }
}

/// The id just seen is remembered, and so are the latest ones before it.
pub proof fn lemma_seen_remembered(ids: Seq<Seq<char>>, id: Seq<char>, k: int)
    requires
        seen_ok(ids),
        ids.len() - (TRIM_SEEN_IDS_TO - 1) <= k < ids.len(),
        0 <= k,
    ensures
        seen_after(ids, id).contains(id),
        seen_after(ids, id).contains(ids[k]),
{
    let after = seen_after(ids, id);
    if !ids.contains(id) {
        let all = ids.push(id);
        assert(after[after.len() - 1] == id);
        if all.len() > MAX_SEEN_IDS {
            let d = all.len() - TRIM_SEEN_IDS_TO;
            assert(after[k - d] == ids[k]);
        } else {
            assert(after[k] == ids[k]);
        }
    }
}

impl SeenIds {
    pub open spec fn ids(&self) -> Seq<Seq<char>> {
        text::texts(self.order@)
    }

    pub open spec fn wf(&self) -> bool {
        seen_ok(self.ids())
    }

    pub fn new() -> (r: Self)
        ensures
            r.ids() == Seq::<Seq<char>>::empty(),
            r.wf(),
    {
        let r = SeenIds { order: Vec::new() };
        proof {
            assert(r.ids() =~= Seq::<Seq<char>>::empty());
        }
        r
    }

    pub fn contains(&self, id: &str) -> (r: bool)
        ensures
            r == self.ids().contains(id@),
    {
        let mut i: usize = 0;
        while i < self.order.len()
            invariant
                i <= self.order@.len(),
                forall|k: int| 0 <= k < i ==> #[trigger] self.order@[k]@ != id@,
            decreases self.order.len() - i,
        {
            if same(self.order[i].as_str(), id) {
                proof {
                    assert(self.ids()[i as int] == id@);
                }
                return true;
            }
            i = i + 1;
        }
        proof {
            if self.ids().contains(id@) {
                let k = choose|k: int| 0 <= k < self.ids().len() && self.ids()[k] == id@;
                assert(self.order@[k]@ == id@);
            }
        }
        false
    }

    /// Remembers an id. Returns whether it was new.
    pub fn insert(&mut self, id: &str) -> (r: bool)
        requires
            old(self).wf(),
        ensures
            final(self).wf(),
            r == !old(self).ids().contains(id@),
            final(self).ids() == seen_after(old(self).ids(), id@),
    {
        proof {
            lemma_seen_bounded(self.ids(), id@);
        }
        if self.contains(id) {
            return false;
        }
        push_text(&mut self.order, id);
        let n: usize = self.order.len();
        proof {
            assert(self.ids() == old(self).ids().push(id@));
            assert(self.ids().len() == n);
        }
        if n > MAX_SEEN_IDS {
            let kept = copy_strings(self.order.as_slice(), n - TRIM_SEEN_IDS_TO, n);
            proof {
                assert(text::texts(kept@) =~= self.ids().skip(n - TRIM_SEEN_IDS_TO));
            }
            self.order = kept;
        }
        true
    }
}

// ---------------------------------------------------------------------------
// Laws
// ---------------------------------------------------------------------------

/// Every item of a message counts, in its place.
pub proof fn lemma_items_in_order(a: Seq<MessageItem>, b: Seq<MessageItem>)
    ensures
        items_text(a + b) == items_text(a) + items_text(b),
    decreases b.len(),
{
    if b.len() == 0 {
        assert(a + b =~= a);
        assert(items_text(a) + items_text(b) =~= items_text(a));
    } else {
        assert((a + b).drop_last() =~= a + b.drop_last());
        assert((a + b).last() == b.last());
        lemma_items_in_order(a, b.drop_last());
        assert(items_text(a + b) =~= items_text(a) + items_text(b));
    }
}

/// An item gives its text without the white space around it, and nothing where it has none.
pub proof fn lemma_item_text(item: MessageItem)
    ensures
        items_text(seq![item]) == (match item.text_item {
            Some(t) => text::trim(t.text@),
            None => Seq::empty(),
        }),
{
    assert(seq![item].drop_last() =~= Seq::<MessageItem>::empty());
    assert(items_text(seq![item].drop_last()) =~= Seq::<char>::empty());
    assert(items_text(seq![item]) =~= item_text(item));
}

/// Which id a message has: its own, or else the id that its client gave it; only without
/// these it is told by its sender and its time.
pub proof fn lemma_message_ids(msg: WireMessage, now_ms: int)
    ensures
        msg.message_id matches Some(id) ==> message_key(msg, now_ms) == id_text(id),
        msg.message_id is None && msg.msg_id is Some ==> message_key(msg, now_ms) == id_text(
            msg.msg_id->0,
        ),
        msg.message_id is None && msg.msg_id is None && !text::is_blank(msg.client_id@)
            ==> message_key(msg, now_ms) == msg.client_id@,
        msg.message_id is None && msg.msg_id is None && text::is_blank(msg.client_id@)
            && !text::is_blank(msg.from_user_id@) ==> text::starts_with(
            message_key(msg, now_ms),
            text::trim(msg.from_user_id@),
        ),
        msg.message_id is None && msg.msg_id is None && text::is_blank(msg.client_id@) && (
        msg.create_time_ms matches Some(t)) ==> text::ends_with(
            message_key(msg, now_ms),
            text::signed_decimal(msg.create_time_ms->0 as int),
        ),
{
    let sender = if text::is_blank(msg.from_user_id@) {
        "unknown"@
    } else {
        text::trim(msg.from_user_id@)
    };
    let at = match msg.create_time_ms {
        Some(t) => t as int,
        None => now_ms,
    };
    let d = text::signed_decimal(at);
    let k = sender + ":"@ + d;
    assert(k.subrange(0, sender.len() as int) =~= sender);
    let n = k.len() - d.len();
    assert(k.subrange(n, n + d.len()) =~= d);
}

/// A message counts just where it has a sender and is of the type of messages of users, if
/// it tells its type. Its text is its own with that of its items behind it.
pub proof fn lemma_inbound_messages(msg: WireMessage, now_ms: int)
    requires
        msg.message is None,
    ensures
        (inbound(msg, now_ms) is Some) == (!text::is_blank(msg.from_user_id@) && (
        msg.message_type is None || msg.message_type->0 == 1)),
        inbound(msg, now_ms) matches Some(m) ==> {
            &&& m.user_id == text::trim(msg.from_user_id@)
            &&& m.context_token == text::trim(msg.context_token@)
            &&& text::starts_with(m.text, text::trim(msg.text@))
            &&& text::ends_with(m.text, items_text(msg.item_list@))
        },
{
    let x = text::trim(msg.text@);
    let y = items_text(msg.item_list@);
    let t = x + y;
    assert(t.subrange(0, x.len() as int) =~= x);
    let n = t.len() - y.len();
    assert(t.subrange(n, n + y.len()) =~= y);
}

/// A message in an envelope is read as it stands in it.
pub proof fn lemma_envelope(msg: WireMessage, inner: WireMessage, now_ms: int)
    requires
        msg.message is Some,
        *msg.message->0 == inner,
        inner.message is None,
    ensures
        inbound(msg, now_ms) == inbound(inner, now_ms),
{
}

/// A thousand ids are remembered; with one more the latest five hundred stay.
pub proof fn lemma_how_many_ids_stay(ids: Seq<Seq<char>>, id: Seq<char>)
    requires
        seen_ok(ids),
        !ids.contains(id),
    ensures
        ids.len() < 1000 ==> seen_after(ids, id) == ids.push(id),
        ids.len() == 1000 ==> seen_after(ids, id).len() == 500 && seen_after(ids, id).last() == id
            && seen_after(ids, id)[0] == ids[501],
{
}

} // verus!
