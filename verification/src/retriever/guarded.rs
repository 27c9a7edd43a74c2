//! Letting a new way of searching reach some users only.

use crate::retriever::retrieval;
use crate::retriever::retrieval::{ItemData, ResultData, RetrieveResult, tag_all};
use crate::text;
use crate::text::same;
use vstd::prelude::*;

verus! {

/// Who gets the new way of searching: nobody while it is off; while it is on, the listed
/// users, or all where none is listed.
#[derive(Debug, Clone)]
pub struct GuardedRetriever {
    pub enabled: bool,
    pub allow_users: Vec<String>,
}

/// Which search answers, and why the old one does.
#[derive(Debug, Clone, Copy, PartialEq, Eq, Structural)]
pub enum Rollout {
    Primary,
    Disabled,
    NotListed,
}

pub open spec fn rollout(enabled: bool, allow_users: Seq<Seq<char>>, user_id: Seq<char>) -> Rollout {
    if !enabled {
        Rollout::Disabled
    } else if allow_users.len() > 0 && !allow_users.contains(user_id) {
        Rollout::NotListed
    } else {
        Rollout::Primary
    }
}

pub open spec fn rollout_reason(r: Rollout) -> Seq<char> {
    match r {
        Rollout::Primary => ""@,
        Rollout::Disabled => "rollout_disabled"@,
        Rollout::NotListed => "user_not_in_allowlist"@,
    }
}

impl Rollout {
    pub fn reason(&self) -> (r: &'static str)
        ensures
            r@ == rollout_reason(*self),
    {
        match self {
            Rollout::Primary => "",
            Rollout::Disabled => "rollout_disabled",
            Rollout::NotListed => "user_not_in_allowlist",
        }
    }
}

/// The memories of the chosen search, marked with the choice.
pub open spec fn rolled_out(r: Rollout, c: Seq<ItemData>) -> Seq<ItemData> {
    if r is Primary {
        retrieval::all_tagged(c, "rollout_allowed"@, "true"@)
    } else {
        retrieval::all_tagged(
            retrieval::all_tagged(c, "retrieval_mode"@, "rollout_fallback_rule"@),
            "rollout_reason"@,
            rollout_reason(r),
        )
    }
}

impl GuardedRetriever {
    pub fn new(enabled: bool, allow_users: Vec<String>) -> (r: Self)
        ensures
            r.enabled == enabled,
            r.allow_users == allow_users,
    {
        GuardedRetriever { enabled, allow_users }
    }

    /// A user is allowed who is listed, and everybody where nobody is listed.
    pub fn user_allowed(&self, user_id: &str) -> (r: bool)
        ensures
            r == (self.allow_users@.len() == 0 || text::texts(self.allow_users@).contains(user_id@)),
    {
        let ghost list = text::texts(self.allow_users@);
        if self.allow_users.len() == 0 {
            return true;
        }
        let mut i: usize = 0;
        while i < self.allow_users.len()
            invariant
                i <= self.allow_users.len(),
                list == text::texts(self.allow_users@),
                forall|k: int| 0 <= k < i ==> #[trigger] list[k] != user_id@,
            decreases self.allow_users.len() - i,
        {
            if same(self.allow_users[i].as_str(), user_id) {
                assert(list[i as int] == user_id@);
                return true;
            }
            i = i + 1;
        }
        false
    }

    /// Which search answers a user.
    pub fn choose_search(&self, user_id: &str) -> (r: Rollout)
        ensures
            r == rollout(self.enabled, text::texts(self.allow_users@), user_id@),
    {
        if !self.enabled {
            Rollout::Disabled
        } else if !self.user_allowed(user_id) {
            Rollout::NotListed
        } else {
            Rollout::Primary
        }
    }

    /// The result of the search that `choose_search` chose for a user, marked with the
    /// choice.
    pub fn mark(&self, user_id: &str, result: RetrieveResult) -> (r: RetrieveResult)
        ensures
            r@ == (ResultData {
                candidates: rolled_out(
                    rollout(self.enabled, text::texts(self.allow_users@), user_id@),
                    result@.candidates,
                ),
                ..result@
            }),
    {
        let choice = self.choose_search(user_id);
        let candidates = if choice == Rollout::Primary {
            tag_all(result.candidates, "rollout_allowed", "true")
        } else {
            tag_all(
                tag_all(result.candidates, "retrieval_mode", "rollout_fallback_rule"),
                "rollout_reason",
                choice.reason(),
            )
        };
        RetrieveResult {
            candidates,
            hit_count: result.hit_count,
            dropped_count: result.dropped_count,
            latency_ms: result.latency_ms,
            retriever_name: result.retriever_name,
        }
    }
}

/// While the new search is off, it answers nobody.
pub proof fn lemma_disabled_answers_nobody(allow_users: Seq<Seq<char>>, user_id: Seq<char>)
    ensures
        rollout(false, allow_users, user_id) == Rollout::Disabled,
{
}

/// Who gets the new search: everyone on the list, or everyone where there is no list, as long
/// as it is switched on. The others get the rule search, marked with the reason.
pub proof fn lemma_who_gets_the_new_search(
    enabled: bool,
    allow_users: Seq<Seq<char>>,
    user_id: Seq<char>,
)
    ensures
        (rollout(enabled, allow_users, user_id) is Primary) == (enabled && (allow_users.len() == 0
            || allow_users.contains(user_id))),
        !enabled ==> rollout_reason(rollout(enabled, allow_users, user_id)) == "rollout_disabled"@,
        enabled && allow_users.len() > 0 && !allow_users.contains(user_id) ==> rollout_reason(
            rollout(enabled, allow_users, user_id),
        ) == "user_not_in_allowlist"@,
{
}

} // verus!
