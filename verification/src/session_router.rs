//! Buffers of chat messages that are merged until they are committed or time out.
//!
//! Times are nanoseconds of one monotonic clock.

use crate::command_router::{Route, RouteIntent};
use crate::rows;
use crate::text;
use crate::text::{copy_strings, join_strings, owned, push_text, same, split_lines, trimmed};
use vstd::prelude::*;

verus! {

#[derive(Debug, Clone, PartialEq, Eq)]
pub enum SessionEvent {
    Noop,
    FlushNow {
        user_id: String,
        merged_text: String,
        message_ids: Vec<String>,
        reason: FlushReason,
    },
}

#[derive(Debug, Clone, Copy, PartialEq, Eq, Structural)]
pub enum FlushReason {
    Commit,
    Timeout,
}

impl FlushReason {
    pub fn as_str(&self) -> (r: &'static str)
        ensures
            r@ == (match *self {
                FlushReason::Commit => "commit"@,
                FlushReason::Timeout => "timeout"@,
            }),
    {
        match self {
            FlushReason::Commit => "commit",
            FlushReason::Timeout => "timeout",
        }
    }
}

#[derive(Debug, Clone, PartialEq, Eq)]
pub struct FlushItem {
    pub user_id: String,
    pub merged_text: String,
    pub message_ids: Vec<String>,
    pub reason: FlushReason,
}

#[derive(Debug, Clone, PartialEq, Eq)]
pub struct SessionSnapshot {
    pub user_id: String,
    pub merged_text: String,
    pub message_ids: Vec<String>,
}

#[derive(Debug, Clone)]
pub struct UserSession {
    pub user_id: String,
    pub buffer: Vec<String>,
    pub message_ids: Vec<String>,
    pub last_update: u128,
}

/// The buffered messages of a user.
pub struct Buffered {
    pub user_id: Seq<char>,
    pub buffer: Seq<Seq<char>>,
    pub message_ids: Seq<Seq<char>>,
    pub last_update: nat,
}

impl View for UserSession {
    type V = Buffered;

    open spec fn view(&self) -> Buffered {
        Buffered {
            user_id: self.user_id@,
            buffer: text::texts(self.buffer@),
            message_ids: text::texts(self.message_ids@),
            last_update: self.last_update as nat,
        }
    }
}

pub open spec fn buffers(rows: Seq<UserSession>) -> Seq<Buffered> {
    Seq::new(rows.len(), |i: int| rows[i]@)
}

#[derive(Debug, Clone)]
pub struct SessionRouter {
    pub sessions: Vec<UserSession>,
    pub merge_timeout: u128,
}

pub open spec fn buffer_of(user_id: Seq<char>) -> spec_fn(Buffered) -> bool {
    |b: Buffered| b.user_id == user_id
}

/// The text of the buffered messages.
pub open spec fn merged(b: Buffered) -> Seq<char> {
    text::join(b.buffer, "\n"@)
}

/// The time that has passed, and none where the clock reads earlier.
pub open spec fn elapsed(last: nat, now: nat) -> nat {
    if now >= last {
        (now - last) as nat
    } else {
        0
    }
}

/// Nothing was added for as long as the timeout.
pub open spec fn is_expired(timeout: nat, now: nat) -> spec_fn(Buffered) -> bool {
    |b: Buffered| elapsed(b.last_update, now) >= timeout
}

/// The id, unless it is missing or blank.
pub open spec fn nonblank_id(id: Option<Seq<char>>) -> Option<Seq<char>> {
    match id {
        Some(s) => if text::trim(s).len() == 0 {
            None
        } else {
            Some(s)
        },
        None => None,
    }
}

/// The buffer of a user with one more message.
pub open spec fn with_message(
    b: Option<Buffered>,
    user_id: Seq<char>,
    text: Seq<char>,
    id: Option<Seq<char>>,
    now: nat,
) -> Buffered {
    let start = match b {
        Some(x) => x,
        None => Buffered {
            user_id,
            buffer: Seq::empty(),
            message_ids: Seq::empty(),
            last_update: now,
        },
    };
    Buffered {
        user_id,
        buffer: start.buffer.push(text),
        message_ids: match nonblank_id(id) {
            Some(s) => start.message_ids.push(s),
            None => start.message_ids,
        },
        last_update: now,
    }
}

/// The text of a chat message, and whether it ends the session.
pub open spec fn chat_text(route: Route) -> Option<(Seq<char>, bool)> {
    match route {
        Route::ChatContinue { text } => Some((text, false)),
        Route::ChatPending { text } => Some((text, false)),
        Route::ChatCommit { text } => Some((text, true)),
        _ => None,
    }
}

/// A buffer that holds something of a user.
pub open spec fn in_use(b: Buffered) -> bool {
    b.buffer.len() > 0 && text::trim(b.user_id).len() > 0
}

/// What a snapshot of a buffer shows: its text and the ids of its messages.
pub struct Shown {
    pub merged_text: Seq<char>,
    pub message_ids: Seq<Seq<char>>,
}

pub open spec fn shown(b: Buffered) -> Shown {
    Shown { merged_text: merged(b), message_ids: b.message_ids }
}

impl SessionRouter {
    /// No user has two buffers, none is empty, and none is that of a blank user.
    pub open spec fn wf(&self) -> bool {
        &&& forall|i: int, j: int|
            0 <= i < j < self.sessions@.len() ==> (#[trigger] self.sessions@[i]).user_id@ != (
            #[trigger] self.sessions@[j]).user_id@
        &&& forall|i: int| 0 <= i < self.sessions@.len() ==> in_use(#[trigger] self.sessions@[i]@)
    }

    /// The buffer of a user.
    pub open spec fn lookup(&self, user_id: Seq<char>) -> Option<Buffered> {
        rows::found(buffers(self.sessions@), buffer_of(user_id))
    }

    /// What a snapshot of a user's buffer shows.
    pub open spec fn shown(&self, user_id: Seq<char>) -> Option<Shown> {
        match self.lookup(user_id) {
            Some(b) => Some(shown(b)),
            None => None,
        }
    }

    /// The buffers to which nothing was added for as long as the timeout.
    pub open spec fn expired(&self, now: nat) -> Seq<Buffered> {
        buffers(self.sessions@).filter(is_expired(self.merge_timeout as nat, now))
    }

    pub fn new(merge_timeout: u128) -> (r: Self)
        ensures
            r.wf(),
            r.sessions@.len() == 0,
            r.merge_timeout == merge_timeout,
            forall|u: Seq<char>| #[trigger] r.lookup(u) is None,
    {
        SessionRouter { sessions: Vec::new(), merge_timeout }
    }

    fn position(&self, user_id: &str) -> (r: Option<usize>)
        ensures
            match r {
                Some(i) => i < self.sessions@.len() && rows::first_where(
                    buffers(self.sessions@),
                    buffer_of(user_id@),
                ) == Some(i as int),
                None => rows::first_where(buffers(self.sessions@), buffer_of(user_id@)) is None,
            },
    {
        let ghost p = buffer_of(user_id@);
        let ghost rows = buffers(self.sessions@);
        let mut i: usize = 0;
        while i < self.sessions.len()
            invariant
                i <= self.sessions.len(),
                p == buffer_of(user_id@),
                rows == buffers(self.sessions@),
                forall|k: int| 0 <= k < i ==> !p(#[trigger] rows[k]),
            decreases self.sessions.len() - i,
        {
            if same(self.sessions[i].user_id.as_str(), user_id) {
                proof {
                    rows::lemma_first_is(rows, p, i as int);
                }
                return Some(i);
            }
            i = i + 1;
        }
        proof {
            rows::lemma_first_none(rows, p);
        }
        None
    }

    fn push_text(&mut self, user_id: &str, text: &str, message_id: Option<String>, now: u128)
        requires
            old(self).wf(),
            text::trim(user_id@).len() > 0,
        ensures
            final(self).wf(),
            final(self).merge_timeout == old(self).merge_timeout,
            buffers(final(self).sessions@) == rows::put_row(
                buffers(old(self).sessions@),
                buffer_of(user_id@),
                with_message(
                    old(self).lookup(user_id@),
                    user_id@,
                    text@,
                    text::opt_text(message_id),
                    now as nat,
                ),
            ),
    {
        let ghost before = self.sessions@;
        let ghost rows = buffers(self.sessions@);
        let position = self.position(user_id);
        proof {
            rows::lemma_first_where(rows, buffer_of(user_id@));
        }
        let mut buffer: Vec<String> = Vec::new();
        let mut ids: Vec<String> = Vec::new();
        proof {
            assert(text::texts(buffer@) =~= Seq::empty());
            assert(text::texts(ids@) =~= Seq::empty());
        }
        if let Some(i) = position {
            let s = &self.sessions[i];
            buffer = copy_strings(s.buffer.as_slice(), 0, s.buffer.len());
            ids = copy_strings(s.message_ids.as_slice(), 0, s.message_ids.len());
            proof {
                assert(buffer@ =~= s.buffer@);
                assert(ids@ =~= s.message_ids@);
            }
        }
        push_text(&mut buffer, text);
        if let Some(id) = message_id {
            let core = trimmed(id.as_str());
            if !core.as_str().is_empty() {
                push_text(&mut ids, id.as_str());
            }
        }
        let row = UserSession {
            user_id: owned(user_id),
            buffer,
            message_ids: ids,
            last_update: now,
        };
        proof {
            assert(row@.buffer.len() > 0);
        }
        match position {
            Some(i) => {
                self.sessions.set(i, row);
                proof {
                    assert(buffers(self.sessions@) =~= rows.update(i as int, row@));
                    assert forall|a: int, b: int| 0 <= a < b < self.sessions@.len() implies (
                    #[trigger] self.sessions@[a]).user_id@ != (
                    #[trigger] self.sessions@[b]).user_id@ by {
                        assert(before[a].user_id@ != before[b].user_id@);
                        assert(rows[i as int].user_id == user_id@);
                    }
                }
            },
            None => {
                self.sessions.push(row);
                proof {
                    assert(buffers(self.sessions@) =~= rows.push(row@));
                    assert forall|a: int, b: int| 0 <= a < b < self.sessions@.len() implies (
                    #[trigger] self.sessions@[a]).user_id@ != (
                    #[trigger] self.sessions@[b]).user_id@ by {
                        if b == before.len() {
                            assert(!buffer_of(user_id@)(rows[a]));
                        } else {
                            assert(before[a].user_id@ != before[b].user_id@);
                        }
                    }
                }
            },
        }
    }

    /// Takes a user's buffer out. Without one the text and the ids are empty.
    fn take_merged_text(&mut self, user_id: &str) -> (r: (String, Vec<String>))
        requires
            old(self).wf(),
        ensures
            final(self).wf(),
            final(self).merge_timeout == old(self).merge_timeout,
            final(self).lookup(user_id@) is None,
            forall|u: Seq<char>| u != user_id@ ==> final(self).lookup(u) == old(self).lookup(u),
            match old(self).lookup(user_id@) {
                Some(b) => r.0@ == merged(b) && text::texts(r.1@) == b.message_ids,
                None => r.0@.len() == 0 && r.1@.len() == 0,
            },
    {
        let ghost before = self.sessions@;
        let ghost rows = buffers(self.sessions@);
        match self.position(user_id) {
            Some(i) => {
                let session = self.sessions.remove(i);
                let text = join_strings(session.buffer.as_slice(), "\n");
                proof {
                    let after = buffers(self.sessions@);
                    assert(after =~= rows.remove(i as int));
                    lemma_removed(before, self.sessions@, i as int);
                    assert forall|a: int| 0 <= a < self.sessions@.len() implies in_use(
                        #[trigger] self.sessions@[a]@,
                    ) by {
                        let x = if a < i { a } else { a + 1 };
                        assert(in_use(before[x]@));
                    }
                    rows::lemma_first_where(rows, buffer_of(user_id@));
                    lemma_lookup_removed(before, i as int, user_id@);
                    assert forall|u: Seq<char>| u != user_id@ implies self.lookup(u) == rows::found(
                        rows,
                        buffer_of(u),
                    ) by {
                        lemma_lookup_removed(before, i as int, u);
                    }
                }
                (text, session.message_ids)
            },
            None => (String::new(), Vec::new()),
        }
    }

    pub fn on_intent(&mut self, user_id: &str, intent: RouteIntent, now: u128) -> (r: SessionEvent)
        requires
            old(self).wf(),
        ensures
            intent_handled(*old(self), *final(self), user_id@, intent@, None, now as nat, r),
    {
        self.on_intent_with_message(user_id, intent, None, now)
    }

    /// Buffers a chat message; a commit takes the whole buffer out. Other intents change
    /// nothing.
    pub fn on_intent_with_message(
        &mut self,
        user_id: &str,
        intent: RouteIntent,
        message_id: Option<String>,
        now: u128,
    ) -> (r: SessionEvent)
        requires
            old(self).wf(),
        ensures
            intent_handled(
                *old(self),
                *final(self),
                user_id@,
                intent@,
                text::opt_text(message_id),
                now as nat,
                r,
            ),
    {
        let core = trimmed(user_id);
        if core.as_str().is_empty() {
            return SessionEvent::Noop;
        }
        let ghost before = buffers(self.sessions@);
        let ghost row = |text: Seq<char>|
            with_message(
                rows::found(before, buffer_of(user_id@)),
                user_id@,
                text,
                text::opt_text(message_id),
                now as nat,
            );
        match intent {
            RouteIntent::ChatContinue { text } => {
                proof {
                    lemma_put_lookups(before, row(text@));
                }
                self.push_text(user_id, text.as_str(), message_id, now);
                SessionEvent::Noop
            },
            RouteIntent::ChatPending { text } => {
                proof {
                    lemma_put_lookups(before, row(text@));
                }
                self.push_text(user_id, text.as_str(), message_id, now);
                SessionEvent::Noop
            },
            RouteIntent::ChatCommit { text } => {
                proof {
                    lemma_put_lookups(before, row(text@));
                }
                self.push_text(user_id, text.as_str(), message_id, now);
                let (merged_text, message_ids) = self.take_merged_text(user_id);
                SessionEvent::FlushNow {
                    user_id: owned(user_id),
                    merged_text,
                    message_ids,
                    reason: FlushReason::Commit,
                }
            },
            _ => SessionEvent::Noop,
        }
    }

    /// Takes out every buffer to which nothing was added for as long as the timeout.
    pub fn flush_expired(&mut self, now: u128) -> (r: Vec<FlushItem>)
        requires
            old(self).wf(),
        ensures
            flush_handled(*old(self), *final(self), now as nat, r@),
    {
        let ghost rows = buffers(self.sessions@);
        let ghost before = self.sessions@;
        let ghost p = is_expired(self.merge_timeout as nat, now as nat);
        let mut kept: Vec<UserSession> = Vec::new();
        let mut out: Vec<FlushItem> = Vec::new();
        let mut i: usize = 0;
        proof {
            reveal(Seq::filter);
            assert(buffers(kept@) =~= rows::without(rows.take(0), p));
        }
        while i < self.sessions.len()
            invariant
                i <= self.sessions.len(),
                rows == buffers(self.sessions@),
                self.sessions@ == before,
                self.merge_timeout == old(self).merge_timeout,
                p == is_expired(self.merge_timeout as nat, now as nat),
                buffers(kept@) == rows::without(rows.take(i as int), p),
                flushed_items(out@, rows.take(i as int).filter(p)),
            decreases self.sessions.len() - i,
        {
            let ghost old_kept = kept@;
            let ghost old_out = out@;
            proof {
                reveal(Seq::filter);
                assert(rows.take(i + 1).drop_last() =~= rows.take(i as int));
                assert(rows.take(i + 1).last() == self.sessions@[i as int]@);
            }
            let s = &self.sessions[i];
            if now.saturating_sub(s.last_update) >= self.merge_timeout {
                let ids = copy_strings(s.message_ids.as_slice(), 0, s.message_ids.len());
                proof {
                    assert(ids@ =~= s.message_ids@);
                }
                out.push(
                    FlushItem {
                        user_id: s.user_id.clone(),
                        merged_text: join_strings(s.buffer.as_slice(), "\n"),
                        message_ids: ids,
                        reason: FlushReason::Timeout,
                    },
                );
            } else {
                let copy = copy_session(s);
                kept.push(copy);
                proof {
                    assert(buffers(kept@) =~= buffers(old_kept).push(rows[i as int]));
                }
            }
            i = i + 1;
        }
        proof {
            assert(rows.take(i as int) =~= rows);
            let keep = |x: Buffered| !p(x);
            lemma_filter_distinct(rows, keep);
            assert forall|a: int, b: int| 0 <= a < b < kept@.len() implies (
            #[trigger] kept@[a]).user_id@ != (#[trigger] kept@[b]).user_id@ by {
                assert(buffers(kept@)[a].user_id != buffers(kept@)[b].user_id);
            }
            rows::lemma_filter_members(rows, keep);
            assert forall|a: int| 0 <= a < kept@.len() implies in_use(#[trigger] kept@[a]@) by {
                let b = buffers(kept@)[a];
                assert(rows.filter(keep).contains(b));
                let k = choose|k: int| 0 <= k < rows.len() && rows[k] == b;
                assert(in_use(before[k]@));
            }
        }
        self.sessions = kept;
        out
    }

    /// How long it takes until the first buffer times out.
    pub fn next_flush_delay(&self, now: u128) -> (r: Option<u128>)
        ensures
            delay_given(
                *self,
                now as nat,
                match r {
                    Some(d) => Some(d as nat),
                    None => None,
                },
            ),
    {
        let mut best: Option<u128> = None;
        let mut i: usize = 0;
        while i < self.sessions.len()
            invariant
                i <= self.sessions.len(),
                match best {
                    Some(d) => {
                        &&& exists|k: int|
                            0 <= k < i && d == delay_of(
                                #[trigger] self.sessions@[k]@,
                                self.merge_timeout as nat,
                                now as nat,
                            )
                        &&& forall|k: int|
                            0 <= k < i ==> d <= delay_of(
                                #[trigger] self.sessions@[k]@,
                                self.merge_timeout as nat,
                                now as nat,
                            )
                    },
                    None => i == 0,
                },
            decreases self.sessions.len() - i,
        {
            let passed: u128 = now.saturating_sub(self.sessions[i].last_update);
            let delay: u128 = self.merge_timeout.saturating_sub(passed);
            proof {
                assert(delay == delay_of(
                    self.sessions@[i as int]@,
                    self.merge_timeout as nat,
                    now as nat,
                ));
            }
            best = match best {
                Some(d) => if delay < d {
                    Some(delay)
                } else {
                    Some(d)
                },
                None => Some(delay),
            };
            i = i + 1;
        }
        best
    }

    pub fn snapshot(&self, user_id: &str) -> (r: Option<SessionSnapshot>)
        ensures
            match self.shown(user_id@) {
                Some(x) => r matches Some(s) && s.user_id@ == user_id@ && s.merged_text@
                    == x.merged_text && text::texts(s.message_ids@) == x.message_ids,
                None => r is None,
            },
    {
        match self.position(user_id) {
            Some(i) => {
                let s = &self.sessions[i];
                let ids = copy_strings(s.message_ids.as_slice(), 0, s.message_ids.len());
                proof {
                    assert(ids@ =~= s.message_ids@);
                }
                Some(
                    SessionSnapshot {
                        user_id: owned(user_id),
                        merged_text: join_strings(s.buffer.as_slice(), "\n"),
                        message_ids: ids,
                    },
                )
            },
            None => None,
        }
    }

    /// Puts a stored session back, line by line. A blank user or text changes nothing.
    pub fn restore_session(
        &mut self,
        user_id: &str,
        merged_text: &str,
        message_ids: Vec<String>,
        now: u128,
    )
        requires
            old(self).wf(),
        ensures
            restored(
                *old(self),
                *final(self),
                user_id@,
                merged_text@,
                text::texts(message_ids@),
                now as nat,
            ),
    {
        let user = trimmed(user_id);
        let text = trimmed(merged_text);
        if user.as_str().is_empty() || text.as_str().is_empty() {
            return ;
        }
        let ghost before = self.sessions@;
        let ghost rows = buffers(self.sessions@);
        let row = UserSession {
            user_id: owned(user_id),
            buffer: split_lines(merged_text),
            message_ids,
            last_update: now,
        };
        proof {
            lemma_put_lookups(rows, row@);
            rows::lemma_first_where(rows, buffer_of(user_id@));
            lemma_some_line(merged_text@);
        }
        match self.position(user_id) {
            Some(i) => {
                self.sessions.set(i, row);
                proof {
                    assert(buffers(self.sessions@) =~= rows.update(i as int, row@));
                    assert forall|a: int, b: int| 0 <= a < b < self.sessions@.len() implies (
                    #[trigger] self.sessions@[a]).user_id@ != (
                    #[trigger] self.sessions@[b]).user_id@ by {
                        assert(before[a].user_id@ != before[b].user_id@);
                        assert(rows[i as int].user_id == user_id@);
                    }
                }
            },
            None => {
                self.sessions.push(row);
                proof {
                    assert(buffers(self.sessions@) =~= rows.push(row@));
                    assert forall|a: int, b: int| 0 <= a < b < self.sessions@.len() implies (
                    #[trigger] self.sessions@[a]).user_id@ != (
                    #[trigger] self.sessions@[b]).user_id@ by {
                        if b == before.len() {
                            assert(!buffer_of(user_id@)(rows[a]));
                        } else {
                            assert(before[a].user_id@ != before[b].user_id@);
                        }
                    }
                }
            },
        }
    }
}

/// The outcome of an intent.
pub open spec fn intent_handled(
    before: SessionRouter,
    after: SessionRouter,
    user_id: Seq<char>,
    route: Route,
    message_id: Option<Seq<char>>,
    now: nat,
    event: SessionEvent,
) -> bool {
    &&& after.wf()
    &&& after.merge_timeout == before.merge_timeout
    &&& match chat_text(route) {
        Some((text, commit)) if text::trim(user_id).len() > 0 => {
            let b = with_message(before.lookup(user_id), user_id, text, message_id, now);
            &&& forall|u: Seq<char>| u != user_id ==> after.lookup(u) == before.lookup(u)
            &&& if commit {
                &&& after.lookup(user_id) is None
                &&& event matches SessionEvent::FlushNow {
                    user_id: user,
                    merged_text,
                    message_ids,
                    reason,
                } && user@ == user_id && merged_text@ == merged(b) && text::texts(message_ids@)
                    == b.message_ids && reason == FlushReason::Commit
            } else {
                &&& after.lookup(user_id) == Some(b)
                &&& event is Noop
            }
        },
        _ => after == before && event is Noop,
    }
}

/// The outcome of a flush: the expired buffers are handed out and the others stay.
pub open spec fn flush_handled(
    before: SessionRouter,
    after: SessionRouter,
    now: nat,
    items: Seq<FlushItem>,
) -> bool {
    &&& after.wf()
    &&& after.merge_timeout == before.merge_timeout
    &&& buffers(after.sessions@) == rows::without(
        buffers(before.sessions@),
        is_expired(before.merge_timeout as nat, now),
    )
    &&& flushed_items(items, before.expired(now))
}

/// The outcome of putting a stored session back.
pub open spec fn restored(
    before: SessionRouter,
    after: SessionRouter,
    user_id: Seq<char>,
    merged_text: Seq<char>,
    message_ids: Seq<Seq<char>>,
    now: nat,
) -> bool {
    &&& after.wf()
    &&& after.merge_timeout == before.merge_timeout
    &&& if text::trim(user_id).len() == 0 || text::trim(merged_text).len() == 0 {
        after == before
    } else {
        &&& after.lookup(user_id) == Some(
            Buffered { user_id, buffer: text::lines(merged_text), message_ids, last_update: now },
        )
        &&& forall|u: Seq<char>| u != user_id ==> after.lookup(u) == before.lookup(u)
    }
}

/// The least that is left of the timeout of any buffer.
pub open spec fn delay_given(router: SessionRouter, now: nat, delay: Option<nat>) -> bool {
    let timeout = router.merge_timeout as nat;
    match delay {
        Some(d) => {
            &&& exists|i: int|
                0 <= i < router.sessions@.len() && d == delay_of(
                    #[trigger] router.sessions@[i]@,
                    timeout,
                    now,
                )
            &&& forall|i: int|
                0 <= i < router.sessions@.len() ==> d <= delay_of(
                    #[trigger] router.sessions@[i]@,
                    timeout,
                    now,
                )
        },
        None => router.sessions@.len() == 0,
    }
}

/// What is left of the timeout of a buffer.
pub open spec fn delay_of(b: Buffered, timeout: nat, now: nat) -> nat {
    let passed = elapsed(b.last_update, now);
    if timeout >= passed {
        (timeout - passed) as nat
    } else {
        0
    }
}

/// The items of these buffers, in order.
pub open spec fn flushed_items(items: Seq<FlushItem>, rows: Seq<Buffered>) -> bool {
    items.len() == rows.len() && forall|i: int|
        0 <= i < items.len() ==> flush_item(#[trigger] items[i], rows[i])
}

pub open spec fn flush_item(item: FlushItem, b: Buffered) -> bool {
    &&& item.user_id@ == b.user_id
    &&& item.merged_text@ == merged(b)
    &&& text::texts(item.message_ids@) == b.message_ids
    &&& item.reason == FlushReason::Timeout
}

fn copy_session(s: &UserSession) -> (r: UserSession)
    ensures
        r@ == s@,
{
    let buffer = copy_strings(s.buffer.as_slice(), 0, s.buffer.len());
    let ids = copy_strings(s.message_ids.as_slice(), 0, s.message_ids.len());
    proof {
        assert(buffer@ =~= s.buffer@);
        assert(ids@ =~= s.message_ids@);
    }
    UserSession {
        user_id: s.user_id.clone(),
        buffer,
        message_ids: ids,
        last_update: s.last_update,
    }
}

proof fn lemma_put_lookups(rows: Seq<Buffered>, row: Buffered)
    ensures
        rows::found(rows::put_row(rows, buffer_of(row.user_id), row), buffer_of(row.user_id)) == Some(row),
        forall|u: Seq<char>|
            u != row.user_id ==> #[trigger] rows::found(
                rows::put_row(rows, buffer_of(row.user_id), row),
                buffer_of(u),
            ) == rows::found(rows, buffer_of(u)),
{
    let p = buffer_of(row.user_id);
    rows::lemma_put_found(rows, p, row);
    assert forall|u: Seq<char>| u != row.user_id implies #[trigger] rows::found(
        rows::put_row(rows, p, row),
        buffer_of(u),
    ) == rows::found(rows, buffer_of(u)) by {
        rows::lemma_put_other(rows, p, row, buffer_of(u));
    }
}

proof fn lemma_removed(before: Seq<UserSession>, after: Seq<UserSession>, i: int)
    requires
        0 <= i < before.len(),
        after == before.remove(i),
        forall|a: int, b: int|
            0 <= a < b < before.len() ==> (#[trigger] before[a]).user_id@ != (
            #[trigger] before[b]).user_id@,
    ensures
        forall|a: int, b: int|
            0 <= a < b < after.len() ==> (#[trigger] after[a]).user_id@ != (
            #[trigger] after[b]).user_id@,
{
    assert forall|a: int, b: int| 0 <= a < b < after.len() implies (#[trigger] after[a]).user_id@
        != (#[trigger] after[b]).user_id@ by {
        let x = if a < i { a } else { a + 1 };
        let y = if b < i { b } else { b + 1 };
        assert(before[x].user_id@ != before[y].user_id@);
    }
}

proof fn lemma_lookup_removed(before: Seq<UserSession>, i: int, u: Seq<char>)
    requires
        0 <= i < before.len(),
        forall|a: int, b: int|
            0 <= a < b < before.len() ==> (#[trigger] before[a]).user_id@ != (
            #[trigger] before[b]).user_id@,
    ensures
        rows::found(buffers(before).remove(i), buffer_of(u)) == (if before[i].user_id@ == u {
            None
        } else {
            rows::found(buffers(before), buffer_of(u))
        }),
{
    let rows = buffers(before);
    let after = rows.remove(i);
    let p = buffer_of(u);
    rows::lemma_first_where(rows, p);
    if before[i].user_id@ == u {
        assert forall|k: int| 0 <= k < after.len() implies !p(#[trigger] after[k]) by {
            let x = if k < i { k } else { k + 1 };
            assert(after[k] == rows[x]);
            if x < i {
                assert(before[x].user_id@ != before[i].user_id@);
            } else {
                assert(before[i].user_id@ != before[x].user_id@);
            }
        }
        rows::lemma_first_none(after, p);
    } else {
        match rows::first_where(rows, p) {
            Some(j) => {
                assert(p(rows[j]));
                let y = if j < i { j } else { j - 1 };
                assert(after[y] == rows[j]);
                assert forall|k: int| 0 <= k < y implies !p(#[trigger] after[k]) by {
                    let x = if k < i { k } else { k + 1 };
                    assert(after[k] == rows[x]);
                    assert(!p(rows[x]));
                }
                rows::lemma_first_is(after, p, y);
            },
            None => {
                assert forall|k: int| 0 <= k < after.len() implies !p(#[trigger] after[k]) by {
                    let x = if k < i { k } else { k + 1 };
                    assert(after[k] == rows[x]);
                    assert(!p(rows[x]));
                }
                rows::lemma_first_none(after, p);
            },
        }
    }
}

pub open spec fn distinct_users(rows: Seq<Buffered>) -> bool {
    forall|a: int, b: int|
        0 <= a < b < rows.len() ==> (#[trigger] rows[a]).user_id != (#[trigger] rows[b]).user_id
}

proof fn lemma_filter_distinct(rows: Seq<Buffered>, q: spec_fn(Buffered) -> bool)
    requires
        distinct_users(rows),
    ensures
        distinct_users(rows.filter(q)),
    decreases rows.len(),
{
    reveal(Seq::filter);
    if rows.len() > 0 {
        let init = rows.drop_last();
        assert forall|a: int, b: int| 0 <= a < b < init.len() implies (#[trigger] init[a]).user_id
            != (#[trigger] init[b]).user_id by {
            assert(rows[a].user_id != rows[b].user_id);
        }
        lemma_filter_distinct(init, q);
        rows::lemma_filter_members(init, q);
        let out = rows.filter(q);
        let prev = init.filter(q);
        assert forall|a: int, b: int| 0 <= a < b < out.len() implies (#[trigger] out[a]).user_id != (
        #[trigger] out[b]).user_id by {
            if b < prev.len() {
                assert(prev[a].user_id != prev[b].user_id);
            } else {
                assert(prev.contains(prev[a]));
                let k = choose|k: int| 0 <= k < init.len() && init[k] == prev[a];
                assert(rows[k].user_id != rows[rows.len() - 1].user_id);
            }
        }
    }
}

/// A text that is not blank has a line.
proof fn lemma_some_line(s: Seq<char>)
    requires
        text::trim(s).len() > 0,
    ensures
        text::lines(s).len() > 0,
{
    text::lemma_split_char_nonempty(s, '\n');
    let pieces = text::split_char(s, '\n');
    if pieces.len() == 1 && pieces.last().len() == 0 {
        lemma_join_split(s);
        assert(pieces =~= seq![pieces.last()]);
        assert(s =~= Seq::empty());
        assert(text::trim(s).len() == 0);
    }
}

/// The rows of a router, each in use, with distinct users.
proof fn lemma_rows(router: SessionRouter)
    requires
        router.wf(),
    ensures
        distinct_users(buffers(router.sessions@)),
        forall|i: int|
            0 <= i < router.sessions@.len() ==> in_use(#[trigger] buffers(router.sessions@)[i]),
{
    let rows = buffers(router.sessions@);
    assert forall|a: int, b: int| 0 <= a < b < rows.len() implies (#[trigger] rows[a]).user_id != (
    #[trigger] rows[b]).user_id by {
        assert(router.sessions@[a].user_id@ != router.sessions@[b].user_id@);
    }
    assert forall|i: int| 0 <= i < rows.len() implies in_use(#[trigger] rows[i]) by {
        assert(in_use(router.sessions@[i]@));
    }
}

/// A row is what is found of its user.
proof fn lemma_row_found(rows: Seq<Buffered>, i: int)
    requires
        distinct_users(rows),
        0 <= i < rows.len(),
    ensures
        rows::found(rows, buffer_of(rows[i].user_id)) == Some(rows[i]),
{
    let p = buffer_of(rows[i].user_id);
    assert forall|k: int| 0 <= k < i implies !p(#[trigger] rows[k]) by {
        assert(rows[k].user_id != rows[i].user_id);
    }
    rows::lemma_first_is(rows, p, i);
}

/// What is found of a user is a row of that user; where nothing is found there is none.
proof fn lemma_found_row(rows: Seq<Buffered>, u: Seq<char>)
    ensures
        match rows::found(rows, buffer_of(u)) {
            Some(b) => rows.contains(b) && b.user_id == u,
            None => forall|k: int| 0 <= k < rows.len() ==> (#[trigger] rows[k]).user_id != u,
        },
{
    let p = buffer_of(u);
    rows::lemma_first_where(rows, p);
    if rows::first_where(rows, p) is None {
        assert forall|k: int| 0 <= k < rows.len() implies (#[trigger] rows[k]).user_id != u by {
            assert(!p(rows[k]));
        }
    }
}

/// What is found after a filter: the row, where the filter keeps it.
proof fn lemma_found_filtered(rows: Seq<Buffered>, q: spec_fn(Buffered) -> bool, u: Seq<char>)
    requires
        distinct_users(rows),
    ensures
        rows::found(rows.filter(q), buffer_of(u)) == (match rows::found(rows, buffer_of(u)) {
            Some(b) => if q(b) {
                Some(b)
            } else {
                None
            },
            None => None,
        }),
{
    let out = rows.filter(q);
    rows::lemma_filter_members(rows, q);
    lemma_filter_distinct(rows, q);
    lemma_found_row(rows, u);
    lemma_found_row(out, u);
    match rows::found(out, buffer_of(u)) {
        Some(b) => {
            assert(rows.contains(b));
            let k = choose|k: int| 0 <= k < rows.len() && rows[k] == b;
            lemma_row_found(rows, k);
        },
        None => {
            if let Some(b) = rows::found(rows, buffer_of(u)) {
                if q(b) {
                    assert(out.contains(b));
                    let k = choose|k: int| 0 <= k < out.len() && out[k] == b;
                    assert(out[k].user_id != u);
                }
            }
        },
    }
}

// ---------------------------------------------------------------------------
// Laws
// ---------------------------------------------------------------------------

/// What a snapshot shows after one more message: its text on a line of its own, and its id
/// unless it is blank.
pub open spec fn shown_with(x: Option<Shown>, text: Seq<char>, id: Option<Seq<char>>) -> Shown {
    Shown {
        merged_text: match x {
            Some(old) => old.merged_text + "\n"@ + text,
            None => text,
        },
        message_ids: (match x {
            Some(old) => old.message_ids,
            None => Seq::empty(),
        }) + (match nonblank_id(id) {
            Some(s) => seq![s],
            None => Seq::empty(),
        }),
    }
}

/// A chat message of a user is added to what the snapshot of that user shows. A commit hands
/// all of it out and leaves nothing; other intents, and those of a blank user, change
/// nothing. The snapshots of other users stay as they are.
pub proof fn lemma_intent_on_snapshot(
    before: SessionRouter,
    after: SessionRouter,
    user_id: Seq<char>,
    route: Route,
    message_id: Option<Seq<char>>,
    now: nat,
    event: SessionEvent,
)
    requires
        before.wf(),
        intent_handled(before, after, user_id, route, message_id, now, event),
    ensures
        forall|u: Seq<char>| u != user_id ==> #[trigger] after.shown(u) == before.shown(u),
        event is FlushNow <==> route is ChatCommit && text::trim(user_id).len() > 0,
        match chat_text(route) {
            Some((text, commit)) if text::trim(user_id).len() > 0 => {
                let x = shown_with(before.shown(user_id), text, message_id);
                if commit {
                    &&& after.shown(user_id) is None
                    &&& event matches SessionEvent::FlushNow {
                        user_id: user,
                        merged_text,
                        message_ids,
                        reason,
                    } && user@ == user_id && merged_text@ == x.merged_text && text::texts(
                        message_ids@,
                    ) == x.message_ids && reason == FlushReason::Commit
                } else {
                    after.shown(user_id) == Some(x)
                }
            },
            _ => after.shown(user_id) == before.shown(user_id),
        },
{
    lemma_rows(before);
    lemma_found_row(buffers(before.sessions@), user_id);
    if let Some((text, commit)) = chat_text(route) {
        if text::trim(user_id).len() > 0 {
            let b = with_message(before.lookup(user_id), user_id, text, message_id, now);
            let x = shown_with(before.shown(user_id), text, message_id);
            match before.lookup(user_id) {
                Some(old) => {
                    let rows = buffers(before.sessions@);
                    let k = choose|k: int| 0 <= k < rows.len() && rows[k] == old;
                    assert(in_use(rows[k]));
                    text::lemma_join_push(old.buffer, text, "\n"@);
                },
                None => {
                    text::lemma_join_push(Seq::empty(), text, "\n"@);
                },
            }
            assert(merged(b) == x.merged_text);
            assert(b.message_ids =~= x.message_ids);
        }
    }
}

/// A user whose buffer has expired.
pub open spec fn user_expired(router: SessionRouter, user_id: Seq<char>, now: nat) -> bool {
    router.lookup(user_id) matches Some(b) && elapsed(b.last_update, now) >= router.merge_timeout
}

/// A flush hands out what the snapshots of the users show whose buffers have expired, each
/// once. These users have no snapshot afterwards, and those of others stay as they are.
pub proof fn lemma_flush_on_snapshots(
    before: SessionRouter,
    after: SessionRouter,
    now: nat,
    items: Seq<FlushItem>,
)
    requires
        before.wf(),
        flush_handled(before, after, now, items),
    ensures
        forall|i: int|
            0 <= i < items.len() ==> {
                let item = #[trigger] items[i];
                &&& user_expired(before, item.user_id@, now)
                &&& item.reason == FlushReason::Timeout
                &&& before.shown(item.user_id@) == Some(
                    Shown {
                        merged_text: item.merged_text@,
                        message_ids: text::texts(item.message_ids@),
                    },
                )
            },
        forall|i: int, j: int|
            0 <= i < j < items.len() ==> (#[trigger] items[i]).user_id@ != (
            #[trigger] items[j]).user_id@,
        forall|u: Seq<char>| #[trigger]
            user_expired(before, u, now) ==> exists|i: int|
                0 <= i < items.len() && (#[trigger] items[i]).user_id@ == u,
        forall|u: Seq<char>|
            #[trigger] after.shown(u) == (if user_expired(before, u, now) {
                None
            } else {
                before.shown(u)
            }),
{
    let rows = buffers(before.sessions@);
    let p = is_expired(before.merge_timeout as nat, now);
    let keep = |x: Buffered| !p(x);
    let out = before.expired(now);
    lemma_rows(before);
    rows::lemma_filter_members(rows, p);
    lemma_filter_distinct(rows, p);
    assert forall|i: int| 0 <= i < items.len() implies {
        let item = #[trigger] items[i];
        &&& user_expired(before, item.user_id@, now)
        &&& item.reason == FlushReason::Timeout
        &&& before.shown(item.user_id@) == Some(
            Shown {
                merged_text: item.merged_text@,
                message_ids: text::texts(item.message_ids@),
            },
        )
    } by {
        assert(flush_item(items[i], out[i]));
        assert(out.contains(out[i]));
        let k = choose|k: int| 0 <= k < rows.len() && rows[k] == out[i];
        lemma_row_found(rows, k);
    }
    assert forall|i: int, j: int| 0 <= i < j < items.len() implies (
    #[trigger] items[i]).user_id@ != (#[trigger] items[j]).user_id@ by {
        assert(flush_item(items[i], out[i]));
        assert(flush_item(items[j], out[j]));
        assert(out[i].user_id != out[j].user_id);
    }
    assert forall|u: Seq<char>| #[trigger] user_expired(before, u, now) implies exists|i: int|
        0 <= i < items.len() && (#[trigger] items[i]).user_id@ == u by {
        lemma_found_row(rows, u);
        let b = before.lookup(u)->Some_0;
        assert(out.contains(b));
        let i = choose|i: int| 0 <= i < out.len() && out[i] == b;
        assert(flush_item(items[i], out[i]));
    }
    assert forall|u: Seq<char>| #[trigger] after.shown(u) == (if user_expired(before, u, now) {
        None
    } else {
        before.shown(u)
    }) by {
        lemma_found_filtered(rows, keep, u);
    }
}

/// A second flush at the same time hands nothing out and changes no snapshot.
pub proof fn lemma_second_flush_is_empty(
    before: SessionRouter,
    after: SessionRouter,
    again: SessionRouter,
    now: nat,
    items: Seq<FlushItem>,
    more: Seq<FlushItem>,
)
    requires
        before.wf(),
        flush_handled(before, after, now, items),
        flush_handled(after, again, now, more),
    ensures
        more.len() == 0,
        forall|u: Seq<char>| #[trigger] again.shown(u) == after.shown(u),
{
    lemma_flush_on_snapshots(before, after, now, items);
    lemma_flush_on_snapshots(after, again, now, more);
    assert forall|u: Seq<char>| !user_expired(after, u, now) by {
        assert(after.shown(u) == (if user_expired(before, u, now) {
            None
        } else {
            before.shown(u)
        }));
        lemma_rows(before);
        let p = is_expired(before.merge_timeout as nat, now);
        lemma_found_filtered(buffers(before.sessions@), |x: Buffered| !p(x), u);
    }
    if more.len() > 0 {
        assert(user_expired(after, more[0].user_id@, now));
    }
}

/// No buffer was changed after a time.
pub open spec fn unchanged_since(router: SessionRouter, now: nat) -> bool {
    forall|i: int|
        0 <= i < router.sessions@.len() ==> (#[trigger] router.sessions@[i]).last_update <= now
}

/// The delay until the next flush is exact. There is none where no user has a snapshot. It
/// is zero where a flush at this time hands something out, and only there. Otherwise, where
/// no buffer was changed after this time, a flush at any time before the delay has passed
/// hands nothing out, and one when it has passed hands something out.
pub proof fn lemma_delay_is_exact(router: SessionRouter, now: nat, delay: Option<nat>)
    requires
        router.wf(),
        delay_given(router, now, delay),
    ensures
        delay is None <==> forall|u: Seq<char>| #[trigger] router.shown(u) is None,
        delay == Some(0nat) <==> router.expired(now).len() > 0,
        unchanged_since(router, now) ==> match delay {
            Some(d) => {
                &&& router.expired(now + d).len() > 0
                &&& forall|t: nat| now <= t < now + d ==> (#[trigger] router.expired(t)).len() == 0
            },
            None => true,
        },
{
    let rows = buffers(router.sessions@);
    let timeout = router.merge_timeout as nat;
    lemma_rows(router);
    if delay is None {
        assert forall|u: Seq<char>| #[trigger] router.shown(u) is None by {
            lemma_found_row(rows, u);
        }
    } else {
        let d = delay->Some_0;
        let i = choose|i: int|
            0 <= i < router.sessions@.len() && d == delay_of(
                #[trigger] router.sessions@[i]@,
                timeout,
                now,
            );
        lemma_row_found(rows, i);
        assert(router.shown(rows[i].user_id) is Some);
        rows::lemma_filter_members(rows, is_expired(timeout, now));
        assert(rows.contains(rows[i]));
        if d == 0 {
            assert(router.expired(now).contains(rows[i]));
        } else if router.expired(now).len() > 0 {
            let b = router.expired(now)[0];
            assert(router.expired(now).contains(b));
            let k = choose|k: int| 0 <= k < rows.len() && rows[k] == b;
            assert(d <= delay_of(router.sessions@[k]@, timeout, now));
        }
        if unchanged_since(router, now) {
            rows::lemma_filter_members(rows, is_expired(timeout, now + d));
            assert(router.sessions@[i].last_update <= now);
            assert(router.expired(now + d).contains(rows[i]));
            assert forall|t: nat| now <= t < now + d implies (
            #[trigger] router.expired(t)).len() == 0 by {
                rows::lemma_filter_members(rows, is_expired(timeout, t));
                if router.expired(t).len() > 0 {
                    let b = router.expired(t)[0];
                    assert(router.expired(t).contains(b));
                    let k = choose|k: int| 0 <= k < rows.len() && rows[k] == b;
                    assert(d <= delay_of(router.sessions@[k]@, timeout, now));
                    assert(router.sessions@[k].last_update <= now);
                }
            }
        }
    }
    if delay is None {
        if router.expired(now).len() > 0 {
            rows::lemma_filter_members(rows, is_expired(timeout, now));
            assert(router.expired(now).contains(router.expired(now)[0]));
        }
    }
}

/// A snapshot that is put back, in whichever router, is the user's snapshot there, in place
/// of any other. The snapshots of other users stay as they are. The text is one that is not
/// blank, holds no carriage return and does not end with a line feed.
pub proof fn lemma_snapshot_is_restored(
    from: SessionRouter,
    before: SessionRouter,
    after: SessionRouter,
    user_id: Seq<char>,
    x: Shown,
    now: nat,
)
    requires
        from.wf(),
        from.shown(user_id) == Some(x),
        text::trim(x.merged_text).len() > 0,
        !x.merged_text.contains('\r'),
        x.merged_text.last() != '\n',
        restored(before, after, user_id, x.merged_text, x.message_ids, now),
    ensures
        after.shown(user_id) == Some(x),
        forall|u: Seq<char>| u != user_id ==> #[trigger] after.shown(u) == before.shown(u),
{
    lemma_rows(from);
    let rows = buffers(from.sessions@);
    lemma_found_row(rows, user_id);
    let b = from.lookup(user_id)->Some_0;
    let k = choose|k: int| 0 <= k < rows.len() && rows[k] == b;
    assert(in_use(rows[k]));
    if x.merged_text.len() == 0 {
        assert(x.merged_text =~= Seq::empty());
    }
    lemma_restored_text(x.merged_text);
}

/// Nothing is flushed before its timeout: a buffer that was changed less than the
/// timeout ago stays.
pub proof fn lemma_young_buffer_stays(rows: Seq<Buffered>, timeout: nat, now: nat, b: Buffered)
    requires
        rows.contains(b),
        elapsed(b.last_update, now) < timeout,
    ensures
        rows::without(rows, is_expired(timeout, now)).contains(b),
{
    let p = is_expired(timeout, now);
    rows::lemma_filter_members(rows, |x: Buffered| !p(x));
}

/// The pieces between line feeds, joined by line feeds, are the text.
pub proof fn lemma_join_split(s: Seq<char>)
    ensures
        text::join(text::split_char(s, '\n'), "\n"@) == s,
    decreases s.len(),
{
    reveal_strlit("\n");
    assert("\n"@ =~= seq!['\n']);
    if s.len() > 0 {
        let init = s.drop_last();
        lemma_join_split(init);
        text::lemma_split_char_nonempty(init, '\n');
        let before = text::split_char(init, '\n');
        if s.last() == '\n' {
            text::lemma_join_push(before, Seq::empty(), "\n"@);
            assert(text::join(before, "\n"@) + "\n"@ + Seq::<char>::empty() =~= s);
        } else {
            let grown = before.last().push(s.last());
            text::lemma_join_push(before.drop_last(), grown, "\n"@);
            text::lemma_join_push(before.drop_last(), before.last(), "\n"@);
            assert(before.drop_last().push(before.last()) =~= before);
            if before.len() == 1 {
                assert(text::join(text::split_char(s, '\n'), "\n"@) =~= s);
            } else {
                let head = text::join(before.drop_last(), "\n"@) + "\n"@;
                assert(head + before.last() == init);
                assert(head + grown =~= (head + before.last()).push(s.last()));
                assert(init.push(s.last()) =~= s);
            }
        }
    } else {
        assert(text::join(text::split_char(s, '\n'), "\n"@) =~= s);
    }
}

proof fn lemma_piece_chars(s: Seq<char>, c: char, x: char)
    requires
        !s.contains(x),
    ensures
        forall|i: int|
            0 <= i < text::split_char(s, c).len() ==> !(#[trigger] text::split_char(s, c)[i]).contains(x),
    decreases s.len(),
{
    if s.len() > 0 {
        let init = s.drop_last();
        assert(!init.contains(x)) by {
            if init.contains(x) {
                let k = choose|k: int| 0 <= k < init.len() && init[k] == x;
                assert(s[k] == x);
            }
        }
        assert(s[s.len() - 1] != x);
        lemma_piece_chars(init, c, x);
        text::lemma_split_char_nonempty(init, c);
        let before = text::split_char(init, c);
        assert forall|i: int| 0 <= i < text::split_char(s, c).len() implies !(
        #[trigger] text::split_char(s, c)[i]).contains(x) by {
            if i < before.len() - 1 {
                assert(text::split_char(s, c)[i] == before[i]);
            } else {
                assert(!before[before.len() - 1].contains(x));
                let piece = text::split_char(s, c)[i];
                if piece.contains(x) {
                    let k = choose|k: int| 0 <= k < piece.len() && piece[k] == x;
                    if s.last() != c {
                        if k < before.last().len() {
                            assert(before.last()[k] == x);
                        }
                    } else if i < before.len() {
                        assert(before[i] == piece);
                    }
                }
            }
        }
    }
}

/// A text without carriage returns that does not end with a line feed is restored as it
/// was: its lines, joined again, are the text.
pub proof fn lemma_restored_text(s: Seq<char>)
    requires
        !s.contains('\r'),
        s.len() > 0 && s.last() != '\n',
    ensures
        text::join(text::lines(s), "\n"@) == s,
{
    lemma_join_split(s);
    lemma_piece_chars(s, '\n', '\r');
    text::lemma_split_char_nonempty(s, '\n');
    let pieces = text::split_char(s, '\n');
    assert(pieces.last().len() > 0);
    assert(text::line_pieces(pieces.drop_last()) =~= pieces.drop_last()) by {
        assert forall|i: int| 0 <= i < pieces.len() - 1 implies text::without_return(
            #[trigger] pieces.drop_last()[i],
        ) == pieces.drop_last()[i] by {
            assert(!pieces[i].contains('\r'));
            if pieces[i].len() > 0 && pieces[i].last() == '\r' {
                assert(pieces[i][pieces[i].len() - 1] == '\r');
            }
        }
    }
    assert(pieces.drop_last().push(pieces.last()) =~= pieces);
}

/// A message is added behind the others, with its id where it has one, and starts the wait
/// anew.
pub proof fn lemma_message_is_added(
    b: Option<Buffered>,
    user_id: Seq<char>,
    text: Seq<char>,
    id: Option<Seq<char>>,
    now: nat,
    timeout: nat,
)
    ensures
        ({
            let r = with_message(b, user_id, text, id, now);
            &&& r.user_id == user_id
            &&& r.buffer.last() == text
            &&& r.buffer.drop_last() == (match b {
                Some(x) => x.buffer,
                None => Seq::empty(),
            })
            &&& id is Some && !text::is_blank(id->0) ==> r.message_ids.last() == id->0
            &&& id is None ==> r.message_ids == (match b {
                Some(x) => x.message_ids,
                None => Seq::empty(),
            })
            &&& delay_of(r, timeout, now) == timeout
            &&& timeout > 0 ==> !is_expired(timeout, now)(r)
        }),
{
    let r = with_message(b, user_id, text, id, now);
    let before: Seq<Seq<char>> = match b {
        Some(x) => x.buffer,
        None => Seq::empty(),
    };
    assert(r.buffer.drop_last() =~= before);
}

} // verus!
