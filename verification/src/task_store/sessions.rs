//! Inbound messages, context tokens, sessions and session states.

use crate::clock;
use crate::clock::text_days_before;
use crate::ordering;
use crate::ordering::{KeyPart, Part, sort_rows};
use crate::rows;
use crate::task_store::store;
use crate::task_store::store::{
    ContextTokenRow, InboundMessage, MessageData, SessionData, SessionRow, StoreData, TaskStore,
    TokenData,
};
use crate::task_store::types;
use crate::task_store::types::{
    SessionStateData, StoredSessionRecord, TaskStoreError, UserSessionStateRecord,
    items_or_empty, read_json_array, write_json_array,
};
use crate::text;
use crate::text::{is_before, owned, same, trimmed};
use vstd::prelude::*;

verus! {

pub open spec fn message_with_id(id: Seq<char>) -> spec_fn(MessageData) -> bool {
    |m: MessageData| m.message_id == id
}

pub open spec fn token_of(user_id: Seq<char>) -> spec_fn(TokenData) -> bool {
    |t: TokenData| t.user_id == user_id
}

pub open spec fn session_of(user_id: Seq<char>) -> spec_fn(SessionData) -> bool {
    |s: SessionData| s.user_id == user_id
}

pub open spec fn state_of(user_id: Seq<char>) -> spec_fn(SessionStateData) -> bool {
    |s: SessionStateData| s.user_id == user_id
}

pub open spec fn token_expired(cutoff: Seq<char>) -> spec_fn(TokenData) -> bool {
    |t: TokenData| text::text_before(t.updated_at, cutoff)
}

pub open spec fn session_expired(cutoff: Seq<char>) -> spec_fn(SessionData) -> bool {
    |s: SessionData| text::text_before(s.updated_at, cutoff)
}

pub open spec fn state_expired(cutoff: Seq<char>) -> spec_fn(SessionStateData) -> bool {
    |s: SessionStateData| text::text_before(s.updated_at, cutoff)
}

/// The items of the list of message ids: none where the text is no JSON array.
pub open spec fn id_list(json: Seq<char>) -> Seq<Seq<char>> {
    match types::json_items(json) {
        Some(items) => items,
        None => Seq::empty(),
    }
}

pub open spec fn session_keys(rows: Seq<SessionData>) -> Seq<Seq<Part>> {
    Seq::new(rows.len(), |i: int| seq![Part::TextDown(rows[i].updated_at)])
}

/// The sessions, latest change first.
pub open spec fn listed_sessions(rows: Seq<SessionData>) -> Seq<SessionData> {
    let order = ordering::sort_order(session_keys(rows));
    Seq::new(rows.len(), |i: int| rows[order[i]])
}

pub open spec fn session_record(r: StoredSessionRecord, s: SessionData) -> bool {
    &&& r.user_id@ == s.user_id
    &&& r.merged_text@ == s.merged_text
    &&& text::texts(r.message_ids@) == id_list(s.message_ids_json)
    &&& r.updated_at@ == s.updated_at
}

// ---------------------------------------------------------------------------
// Laws
// ---------------------------------------------------------------------------

/// The token that was stored for a user is the one that is read, and that of every
/// other user stays.
pub proof fn lemma_token_round_trip(rows: Seq<TokenData>, row: TokenData, other: Seq<char>)
    ensures
        rows::found(rows::put_row(rows, token_of(row.user_id), row), token_of(row.user_id)) == Some(row),
        other != row.user_id ==> rows::found(
            rows::put_row(rows, token_of(row.user_id), row),
            token_of(other),
        ) == rows::found(rows, token_of(other)),
{
    rows::lemma_put_found(rows, token_of(row.user_id), row);
    if other != row.user_id {
        rows::lemma_put_other(rows, token_of(row.user_id), row, token_of(other));
    }
}

/// The state that was stored for a user is the one that is loaded, and that of every
/// other user stays.
pub proof fn lemma_state_round_trip(
    rows: Seq<SessionStateData>,
    row: SessionStateData,
    other: Seq<char>,
)
    ensures
        rows::found(rows::put_row(rows, state_of(row.user_id), row), state_of(row.user_id)) == Some(row),
        other != row.user_id ==> rows::found(
            rows::put_row(rows, state_of(row.user_id), row),
            state_of(other),
        ) == rows::found(rows, state_of(other)),
{
    rows::lemma_put_found(rows, state_of(row.user_id), row);
    if other != row.user_id {
        rows::lemma_put_other(rows, state_of(row.user_id), row, state_of(other));
    }
}

/// A cleared state is not loaded again.
pub proof fn lemma_cleared_state(rows: Seq<SessionStateData>, user_id: Seq<char>)
    ensures
        rows::found(rows::without(rows, state_of(user_id)), state_of(user_id)) is None,
{
    rows::lemma_without_found(rows, state_of(user_id));
}

/// A message id is recorded once: after it was recorded it is known.
pub proof fn lemma_message_recorded_once(rows: Seq<MessageData>, m: MessageData)
    ensures
        rows::found(rows.push(m), message_with_id(m.message_id)) is Some,
{
    let p = message_with_id(m.message_id);
    rows::lemma_first_where(rows.push(m), p);
    assert(p(rows.push(m)[rows.len() as int]));
}

// ---------------------------------------------------------------------------
// Copies
// ---------------------------------------------------------------------------

fn copy_token(t: &ContextTokenRow) -> (r: ContextTokenRow)
    ensures
        r@ == t@,
{
    ContextTokenRow {
        user_id: t.user_id.clone(),
        context_token: t.context_token.clone(),
        updated_at: t.updated_at.clone(),
    }
}

fn copy_session(s: &SessionRow) -> (r: SessionRow)
    ensures
        r@ == s@,
{
    SessionRow {
        user_id: s.user_id.clone(),
        merged_text: s.merged_text.clone(),
        message_ids_json: s.message_ids_json.clone(),
        updated_at: s.updated_at.clone(),
    }
}

/// Which rows of a table by user and time go.
#[derive(Debug, Clone, Copy)]
enum Gone<'a> {
    User(&'a str),
    Before(&'a str),
}

fn is_gone(user_id: &str, updated_at: &str, gone: Gone) -> (r: bool)
    ensures
        r == (match gone {
            Gone::User(u) => user_id@ == u@,
            Gone::Before(t) => text::text_before(updated_at@, t@),
        }),
{
    match gone {
        Gone::User(u) => same(user_id, u),
        Gone::Before(t) => is_before(updated_at, t),
    }
}

spec fn token_gone(gone: Gone) -> spec_fn(TokenData) -> bool {
    match gone {
        Gone::User(u) => token_of(u@),
        Gone::Before(t) => token_expired(t@),
    }
}

spec fn session_gone(gone: Gone) -> spec_fn(SessionData) -> bool {
    match gone {
        Gone::User(u) => session_of(u@),
        Gone::Before(t) => session_expired(t@),
    }
}

spec fn state_gone(gone: Gone) -> spec_fn(SessionStateData) -> bool {
    match gone {
        Gone::User(u) => state_of(u@),
        Gone::Before(t) => state_expired(t@),
    }
}

fn kept_tokens(rows: &Vec<ContextTokenRow>, gone: Gone) -> (r: Vec<ContextTokenRow>)
    ensures
        store::token_data(r@) == rows::without(store::token_data(rows@), token_gone(gone)),
        r@.len() <= rows@.len(),
{
    let ghost p = token_gone(gone);
    let ghost all = store::token_data(rows@);
    let mut out: Vec<ContextTokenRow> = Vec::new();
    let mut i: usize = 0;
    proof {
        reveal(Seq::filter);
        assert(store::token_data(out@) =~= rows::without(all.take(0), p));
    }
    while i < rows.len()
        invariant
            i <= rows.len(),
            p == token_gone(gone),
            all == store::token_data(rows@),
            out@.len() <= i,
            store::token_data(out@) == rows::without(all.take(i as int), p),
        decreases rows.len() - i,
    {
        let ghost before = out@;
        proof {
            reveal(Seq::filter);
            assert(all.take(i + 1).drop_last() =~= all.take(i as int));
            assert(all.take(i + 1).last() == rows@[i as int]@);
        }
        if !is_gone(rows[i].user_id.as_str(), rows[i].updated_at.as_str(), gone) {
            out.push(copy_token(&rows[i]));
            proof {
                assert(store::token_data(out@) =~= store::token_data(before).push(all[i as int]));
            }
        }
        i = i + 1;
    }
    proof {
        assert(all.take(i as int) =~= all);
    }
    out
}

fn kept_sessions(rows: &Vec<SessionRow>, gone: Gone) -> (r: Vec<SessionRow>)
    ensures
        store::session_data(r@) == rows::without(store::session_data(rows@), session_gone(gone)),
        r@.len() <= rows@.len(),
{
    let ghost p = session_gone(gone);
    let ghost all = store::session_data(rows@);
    let mut out: Vec<SessionRow> = Vec::new();
    let mut i: usize = 0;
    proof {
        reveal(Seq::filter);
        assert(store::session_data(out@) =~= rows::without(all.take(0), p));
    }
    while i < rows.len()
        invariant
            i <= rows.len(),
            p == session_gone(gone),
            all == store::session_data(rows@),
            out@.len() <= i,
            store::session_data(out@) == rows::without(all.take(i as int), p),
        decreases rows.len() - i,
    {
        let ghost before = out@;
        proof {
            reveal(Seq::filter);
            assert(all.take(i + 1).drop_last() =~= all.take(i as int));
            assert(all.take(i + 1).last() == rows@[i as int]@);
        }
        if !is_gone(rows[i].user_id.as_str(), rows[i].updated_at.as_str(), gone) {
            out.push(copy_session(&rows[i]));
            proof {
                assert(store::session_data(out@) =~= store::session_data(before).push(all[i as int]));
            }
        }
        i = i + 1;
    }
    proof {
        assert(all.take(i as int) =~= all);
    }
    out
}

fn kept_states(rows: &Vec<UserSessionStateRecord>, gone: Gone) -> (r: Vec<UserSessionStateRecord>)
    ensures
        store::state_data(r@) == rows::without(store::state_data(rows@), state_gone(gone)),
        r@.len() <= rows@.len(),
{
    let ghost p = state_gone(gone);
    let ghost all = store::state_data(rows@);
    let mut out: Vec<UserSessionStateRecord> = Vec::new();
    let mut i: usize = 0;
    proof {
        reveal(Seq::filter);
        assert(store::state_data(out@) =~= rows::without(all.take(0), p));
    }
    while i < rows.len()
        invariant
            i <= rows.len(),
            p == state_gone(gone),
            all == store::state_data(rows@),
            out@.len() <= i,
            store::state_data(out@) == rows::without(all.take(i as int), p),
        decreases rows.len() - i,
    {
        let ghost before = out@;
        proof {
            reveal(Seq::filter);
            assert(all.take(i + 1).drop_last() =~= all.take(i as int));
            assert(all.take(i + 1).last() == rows@[i as int]@);
        }
        if !is_gone(rows[i].user_id.as_str(), rows[i].updated_at.as_str(), gone) {
            out.push(rows[i].copy());
            proof {
                assert(store::state_data(out@) =~= store::state_data(before).push(all[i as int]));
            }
        }
        i = i + 1;
    }
    proof {
        assert(all.take(i as int) =~= all);
    }
    out
}

// ---------------------------------------------------------------------------
// Operations
// ---------------------------------------------------------------------------

impl TaskStore {
    /// Records a message unless its id is known. Returns whether it was new.
    pub fn record_inbound_message(
        &mut self,
        message_id: &str,
        from_user_id: &str,
        text: &str,
        received_at: &str,
    ) -> (r: bool)
        ensures
            r == (rows::found(old(self)@.messages, message_with_id(message_id@)) is None),
            final(self)@ == (if r {
                StoreData {
                    messages: old(self)@.messages.push(
                        MessageData {
                            message_id: message_id@,
                            from_user_id: from_user_id@,
                            text: text@,
                            received_at: received_at@,
                        },
                    ),
                    ..old(self)@
                }
            } else {
                old(self)@
            }),
    {
        let ghost s = self@;
        let ghost p = message_with_id(message_id@);
        let mut i: usize = 0;
        while i < self.messages.len()
            invariant
                i <= self.messages.len(),
                self@ == s,
                s == old(self)@,
                p == message_with_id(message_id@),
                forall|k: int| 0 <= k < i ==> !p(#[trigger] self@.messages[k]),
            decreases self.messages.len() - i,
        {
            if same(self.messages[i].message_id.as_str(), message_id) {
                proof {
                    rows::lemma_first_is(self@.messages, p, i as int);
                }
                return false;
            }
            i = i + 1;
        }
        proof {
            rows::lemma_first_none(self@.messages, p);
        }
        let row = InboundMessage {
            message_id: owned(message_id),
            from_user_id: owned(from_user_id),
            text: owned(text),
            received_at: owned(received_at),
        };
        self.messages.push(row);
        proof {
            assert(self@.messages =~= s.messages.push(row@));
        }
        true
    }

    fn token_position(&self, user_id: &str) -> (r: Option<usize>)
        ensures
            match r {
                Some(i) => i < self.context_tokens@.len() && rows::first_where(
                    self@.context_tokens,
                    token_of(user_id@),
                ) == Some(i as int),
                None => rows::first_where(self@.context_tokens, token_of(user_id@)) is None,
            },
    {
        let ghost p = token_of(user_id@);
        let mut i: usize = 0;
        while i < self.context_tokens.len()
            invariant
                i <= self.context_tokens.len(),
                p == token_of(user_id@),
                forall|k: int| 0 <= k < i ==> !p(#[trigger] self@.context_tokens[k]),
            decreases self.context_tokens.len() - i,
        {
            if same(self.context_tokens[i].user_id.as_str(), user_id) {
                proof {
                    rows::lemma_first_is(self@.context_tokens, p, i as int);
                }
                return Some(i);
            }
            i = i + 1;
        }
        proof {
            rows::lemma_first_none(self@.context_tokens, p);
        }
        None
    }

    /// Stores the context token of a user.
    pub fn upsert_context_token(&mut self, user_id: &str, context_token: &str, now: &str) -> (r:
        Result<(), TaskStoreError>)
        ensures
            ({
                let row = TokenData {
                    user_id: text::trim(user_id@),
                    context_token: text::trim(context_token@),
                    updated_at: now@,
                };
                let blank = row.user_id.len() == 0 || row.context_token.len() == 0;
                match r {
                    Ok(_) => !blank && final(self)@ == (StoreData {
                        context_tokens: rows::put_row(
                            old(self)@.context_tokens,
                            token_of(row.user_id),
                            row,
                        ),
                        ..old(self)@
                    }),
                    Err(TaskStoreError::Validation(e)) => blank && final(self)@ == old(self)@ && e@
                        == "user_id/context_token 不能为空"@,
                    Err(_) => false,
                }
            }),
    {
        let ghost s = self@;
        let user = trimmed(user_id);
        let token = trimmed(context_token);
        if user.as_str().is_empty() || token.as_str().is_empty() {
            return Err(
                TaskStoreError::Validation("user_id/context_token 不能为空".to_string()),
            );
        }
        let position = self.token_position(user.as_str());
        let row = ContextTokenRow { user_id: user, context_token: token, updated_at: owned(now) };
        match position {
            Some(i) => {
                self.context_tokens.set(i, row);
                proof {
                    assert(self@.context_tokens =~= s.context_tokens.update(i as int, row@));
                }
            },
            None => {
                self.context_tokens.push(row);
                proof {
                    assert(self@.context_tokens =~= s.context_tokens.push(row@));
                }
            },
        }
        Ok(())
    }

    pub fn get_context_token(&self, user_id: &str) -> (r: Option<String>)
        ensures
            match rows::found(self@.context_tokens, token_of(user_id@)) {
                Some(row) => r matches Some(t) && t@ == row.context_token,
                None => r is None,
            },
    {
        match self.token_position(user_id) {
            Some(i) => Some(self.context_tokens[i].context_token.clone()),
            None => None,
        }
    }

    /// Stores the merged text of a user's session and the ids of its messages.
    pub fn upsert_session_state(
        &mut self,
        user_id: &str,
        merged_text: &str,
        message_ids: &Vec<String>,
        now: &str,
    ) -> (r: Result<(), TaskStoreError>)
        ensures
            ({
                let row = SessionData {
                    user_id: text::trim(user_id@),
                    merged_text: text::trim(merged_text@),
                    message_ids_json: types::json_array(text::texts(message_ids@)),
                    updated_at: now@,
                };
                let blank = row.user_id.len() == 0 || row.merged_text.len() == 0;
                match r {
                    Ok(_) => !blank && id_list(row.message_ids_json) == text::texts(message_ids@)
                        && final(self)@ == (StoreData {
                        sessions: rows::put_row(old(self)@.sessions, session_of(row.user_id), row),
                        ..old(self)@
                    }),
                    Err(TaskStoreError::Validation(e)) => blank && final(self)@ == old(self)@ && e@
                        == "user_id/merged_text 不能为空"@,
                    Err(_) => false,
                }
            }),
    {
        let ghost s = self@;
        let user = trimmed(user_id);
        let text = trimmed(merged_text);
        if user.as_str().is_empty() || text.as_str().is_empty() {
            return Err(TaskStoreError::Validation("user_id/merged_text 不能为空".to_string()));
        }
        let ghost p = session_of(user@);
        let json = write_json_array(message_ids);
        let mut position: Option<usize> = None;
        let mut i: usize = 0;
        while i < self.sessions.len()
            invariant
                i <= self.sessions.len(),
                self@ == s,
                p == session_of(user@),
                match position {
                    Some(j) => j < i && p(self@.sessions[j as int]) && forall|k: int|
                        0 <= k < j ==> !p(#[trigger] self@.sessions[k]),
                    None => forall|k: int| 0 <= k < i ==> !p(#[trigger] self@.sessions[k]),
                },
            decreases self.sessions.len() - i,
        {
            if position.is_none() && same(self.sessions[i].user_id.as_str(), user.as_str()) {
                position = Some(i);
            }
            i = i + 1;
        }
        let row = SessionRow {
            user_id: user,
            merged_text: text,
            message_ids_json: json,
            updated_at: owned(now),
        };
        match position {
            Some(j) => {
                proof {
                    rows::lemma_first_is(s.sessions, p, j as int);
                }
                self.sessions.set(j, row);
                proof {
                    assert(self@.sessions =~= s.sessions.update(j as int, row@));
                }
            },
            None => {
                proof {
                    rows::lemma_first_none(s.sessions, p);
                }
                self.sessions.push(row);
                proof {
                    assert(self@.sessions =~= s.sessions.push(row@));
                }
            },
        }
        Ok(())
    }

    pub fn delete_session_state(&mut self, user_id: &str)
        ensures
            final(self)@ == (StoreData {
                sessions: rows::without(old(self)@.sessions, session_of(user_id@)),
                ..old(self)@
            }),
    {
        self.sessions = kept_sessions(&self.sessions, Gone::User(user_id));
    }

    /// The stored sessions, latest change first.
    pub fn list_session_states(&self) -> (r: Vec<StoredSessionRecord>)
        ensures
            r@.len() == self@.sessions.len(),
            forall|i: int|
                0 <= i < r@.len() ==> session_record(
                    #[trigger] r@[i],
                    listed_sessions(self@.sessions)[i],
                ),
    {
        let ghost rows = self@.sessions;
        let mut keys: Vec<Vec<KeyPart>> = Vec::new();
        let mut i: usize = 0;
        while i < self.sessions.len()
            invariant
                i <= self.sessions.len(),
                rows == self@.sessions,
                keys@.len() == i,
                forall|k: int|
                    0 <= k < i ==> ordering::key_view((#[trigger] keys@[k])@) == seq![
                        Part::TextDown(rows[k].updated_at),
                    ],
            decreases self.sessions.len() - i,
        {
            let mut key: Vec<KeyPart> = Vec::new();
            key.push(KeyPart::TextDown(self.sessions[i].updated_at.clone()));
            proof {
                assert(ordering::key_view(key@) =~= seq![Part::TextDown(rows[i as int].updated_at)]);
            }
            keys.push(key);
            i = i + 1;
        }
        let order = sort_rows(&keys);
        proof {
            assert(ordering::keys_view(keys@) =~= session_keys(rows));
        }
        let mut out: Vec<StoredSessionRecord> = Vec::new();
        let mut k: usize = 0;
        while k < order.len()
            invariant
                k <= order.len(),
                rows == self@.sessions,
                order@.len() == self.sessions@.len(),
                forall|i: int| 0 <= i < order@.len() ==> (#[trigger] order@[i]) < self.sessions@.len(),
                ordering::indices(order@) == ordering::sort_order(session_keys(rows)),
                out@.len() == k,
                forall|i: int|
                    0 <= i < k ==> session_record(#[trigger] out@[i], listed_sessions(rows)[i]),
            decreases order.len() - k,
        {
            let row = &self.sessions[order[k]];
            let ids = items_or_empty(read_json_array(row.message_ids_json.as_str()));
            proof {
                assert(ordering::indices(order@)[k as int] == order@[k as int]);
                if types::json_items(row.message_ids_json@) is None {
                    assert(text::texts(ids@) =~= Seq::empty());
                }
            }
            out.push(
                StoredSessionRecord {
                    user_id: row.user_id.clone(),
                    merged_text: row.merged_text.clone(),
                    message_ids: ids,
                    updated_at: row.updated_at.clone(),
                },
            );
            k = k + 1;
        }
        out
    }

    fn state_position(&self, user_id: &str) -> (r: Option<usize>)
        ensures
            match r {
                Some(i) => i < self.session_states@.len() && rows::first_where(
                    self@.session_states,
                    state_of(user_id@),
                ) == Some(i as int),
                None => rows::first_where(self@.session_states, state_of(user_id@)) is None,
            },
    {
        let ghost p = state_of(user_id@);
        let mut i: usize = 0;
        while i < self.session_states.len()
            invariant
                i <= self.session_states.len(),
                p == state_of(user_id@),
                forall|k: int| 0 <= k < i ==> !p(#[trigger] self@.session_states[k]),
            decreases self.session_states.len() - i,
        {
            if same(self.session_states[i].user_id.as_str(), user_id) {
                proof {
                    rows::lemma_first_is(self@.session_states, p, i as int);
                }
                return Some(i);
            }
            i = i + 1;
        }
        proof {
            rows::lemma_first_none(self@.session_states, p);
        }
        None
    }

    pub fn load_user_session_state(&self, user_id: &str) -> (r: Option<UserSessionStateRecord>)
        ensures
            match rows::found(self@.session_states, state_of(user_id@)) {
                Some(row) => r matches Some(s) && s@ == row,
                None => r is None,
            },
    {
        match self.state_position(user_id) {
            Some(i) => Some(self.session_states[i].copy()),
            None => None,
        }
    }

    /// Stores the structured state of a user, under the trimmed user id.
    pub fn upsert_user_session_state(&mut self, record: &UserSessionStateRecord) -> (r: Result<
        (),
        TaskStoreError,
    >)
        ensures
            ({
                let row = SessionStateData { user_id: text::trim(record.user_id@), ..record@ };
                match r {
                    Ok(_) => row.user_id.len() > 0 && final(self)@ == (StoreData {
                        session_states: rows::put_row(
                            old(self)@.session_states,
                            state_of(row.user_id),
                            row,
                        ),
                        ..old(self)@
                    }),
                    Err(TaskStoreError::Validation(e)) => row.user_id.len() == 0 && final(self)@
                        == old(self)@ && e@ == "user_id 不能为空"@,
                    Err(_) => false,
                }
            }),
    {
        let ghost s = self@;
        let user = trimmed(record.user_id.as_str());
        if user.as_str().is_empty() {
            return Err(TaskStoreError::Validation("user_id 不能为空".to_string()));
        }
        let position = self.state_position(user.as_str());
        let mut row = record.copy();
        row.user_id = user;
        match position {
            Some(i) => {
                self.session_states.set(i, row);
                proof {
                    assert(self@.session_states =~= s.session_states.update(i as int, row@));
                }
            },
            None => {
                self.session_states.push(row);
                proof {
                    assert(self@.session_states =~= s.session_states.push(row@));
                }
            },
        }
        Ok(())
    }

    pub fn clear_user_session_state(&mut self, user_id: &str)
        ensures
            final(self)@ == (StoreData {
                session_states: rows::without(old(self)@.session_states, state_of(user_id@)),
                ..old(self)@
            }),
    {
        self.session_states = kept_states(&self.session_states, Gone::User(user_id));
    }

    /// Removes the tokens that were last stored more than `ttl_days` days ago. Returns how
    /// many. `secs` and `nanos` are the present time.
    pub fn cleanup_expired_context_tokens(&mut self, ttl_days: u64, secs: i64, nanos: u32) -> (r:
        usize)
        requires
            clock::dated_secs(clock::days_before(secs as int, ttl_days as int)),
            nanos < 1_000_000_000,
        ensures
            tokens_cleaned(
                old(self)@,
                final(self)@,
                clock::utc_text(clock::days_before(secs as int, ttl_days as int), nanos as int),
                r,
            ),
    {
        let cutoff = text_days_before(secs, nanos, ttl_days);
        self.remove_context_tokens_before(cutoff.as_str())
    }

    /// Removes the sessions and the session states that were last stored more than `ttl_days`
    /// days ago. Returns how many rows went. `secs` and `nanos` are the present time.
    pub fn cleanup_expired_user_session_states(
        &mut self,
        ttl_days: u64,
        secs: i64,
        nanos: u32,
    ) -> (r: usize)
        requires
            clock::dated_secs(clock::days_before(secs as int, ttl_days as int)),
            nanos < 1_000_000_000,
        ensures
            sessions_cleaned(
                old(self)@,
                final(self)@,
                clock::utc_text(clock::days_before(secs as int, ttl_days as int), nanos as int),
                r,
            ),
    {
        let cutoff = text_days_before(secs, nanos, ttl_days);
        self.remove_sessions_before(cutoff.as_str())
    }

    /// Removes the tokens that were last stored before the cutoff. Returns how many.
    pub fn remove_context_tokens_before(&mut self, cutoff: &str) -> (r: usize)
        ensures
            tokens_cleaned(old(self)@, final(self)@, cutoff@, r),
    {
        let before: usize = self.context_tokens.len();
        self.context_tokens = kept_tokens(&self.context_tokens, Gone::Before(cutoff));
        before - self.context_tokens.len()
    }

    /// Removes the sessions and the session states that were last stored before the
    /// cutoff. Returns how many rows went, as far as a machine word can count.
    pub fn remove_sessions_before(&mut self, cutoff: &str) -> (r: usize)
        ensures
            sessions_cleaned(old(self)@, final(self)@, cutoff@, r),
    {
        let sessions: usize = self.sessions.len();
        let states: usize = self.session_states.len();
        self.sessions = kept_sessions(&self.sessions, Gone::Before(cutoff));
        self.session_states = kept_states(&self.session_states, Gone::Before(cutoff));
        let a: usize = sessions - self.sessions.len();
        let b: usize = states - self.session_states.len();
        a.saturating_add(b)
    }
}

/// The tokens that were last stored before a cutoff are removed, and counted.
pub open spec fn tokens_cleaned(before: StoreData, after: StoreData, cutoff: Seq<char>, n: usize) -> bool {
    &&& after == (StoreData {
        context_tokens: rows::without(before.context_tokens, token_expired(cutoff)),
        ..before
    })
    &&& n == before.context_tokens.len() - after.context_tokens.len()
}

/// The sessions and states that were last stored before a cutoff are removed, and counted as
/// far as a machine word can.
pub open spec fn sessions_cleaned(
    before: StoreData,
    after: StoreData,
    cutoff: Seq<char>,
    n: usize,
) -> bool {
    let gone = before.sessions.len() - after.sessions.len() + (before.session_states.len()
        - after.session_states.len());
    &&& after == (StoreData {
        sessions: rows::without(before.sessions, session_expired(cutoff)),
        session_states: rows::without(before.session_states, state_expired(cutoff)),
        ..before
    })
    &&& n == (if gone <= usize::MAX {
        gone
    } else {
        usize::MAX as int
    })
}

// ---------------------------------------------------------------------------
// Laws
// ---------------------------------------------------------------------------

/// Sessions are listed with the latest change first, and none is left out.
pub proof fn lemma_latest_sessions_first(rows: Seq<SessionData>, i: int, j: int, k: int)
    requires
        0 <= i < j < rows.len(),
        0 <= k < rows.len(),
    ensures
        !text::text_before(
            listed_sessions(rows)[i].updated_at,
            listed_sessions(rows)[j].updated_at,
        ),
        listed_sessions(rows).len() == rows.len(),
        listed_sessions(rows).contains(rows[k]),
{
    let keys = session_keys(rows);
    assert forall|a: int, b: int| 0 <= a < keys.len() && 0 <= b < keys.len() implies ordering::same_shape(
        #[trigger] keys[a],
        #[trigger] keys[b],
    ) by {}
    ordering::lemma_sort_order(keys);
    let order = ordering::sort_order(keys);
    assert(ordering::in_order(keys, order[i], order[j]));
    let a = order[i];
    let b = order[j];
    if text::text_before(rows[a].updated_at, rows[b].updated_at) {
        ordering::lemma_first_difference(keys[b], keys[a], 0);
    }
    assert(order.contains(k));
    let n = choose|n: int| 0 <= n < order.len() && order[n] == k;
    assert(listed_sessions(rows)[n] == rows[k]);
}

/// What was stored before the cutoff goes, and everything else stays.
pub proof fn lemma_cleanup_keeps_the_fresh(
    tokens: Seq<TokenData>,
    sessions: Seq<SessionData>,
    states: Seq<SessionStateData>,
    cutoff: Seq<char>,
    t: TokenData,
    s: SessionData,
    u: SessionStateData,
)
    ensures
        rows::without(tokens, token_expired(cutoff)).contains(t) == (tokens.contains(t)
            && !text::text_before(t.updated_at, cutoff)),
        rows::without(sessions, session_expired(cutoff)).contains(s) == (sessions.contains(s)
            && !text::text_before(s.updated_at, cutoff)),
        rows::without(states, state_expired(cutoff)).contains(u) == (states.contains(u)
            && !text::text_before(u.updated_at, cutoff)),
{
    let p = token_expired(cutoff);
    let q = session_expired(cutoff);
    let r = state_expired(cutoff);
    rows::lemma_filter_members(tokens, |x: TokenData| !p(x));
    rows::lemma_filter_members(sessions, |x: SessionData| !q(x));
    rows::lemma_filter_members(states, |x: SessionStateData| !r(x));
}

} // verus!
