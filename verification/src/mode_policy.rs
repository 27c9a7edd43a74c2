//! Which URLs may be fetched in which mode.

use crate::task_store::url_guard;
use crate::task_store::url_guard::{IpAddress, is_private_url};
use crate::text;
use crate::text::{has_prefix, same, to_lower};
use vstd::prelude::*;

verus! {

/// The mode that the agent runs in.
#[derive(Debug, Clone, Copy, PartialEq, Eq, Structural)]
pub enum AgentMode {
    /// Only HTTP and HTTPS, and no local or private address.
    Restricted,
    /// Every URL.
    Unrestricted,
}

impl AgentMode {
    /// `unrestricted` in any case selects the unrestricted mode; every other text the
    /// restricted one.
    pub fn from_config(s: &str) -> (r: Self)
        ensures
            r == (if text::lower(s@) == "unrestricted"@ {
                AgentMode::Unrestricted
            } else {
                AgentMode::Restricted
            }),
    {
        let l = to_lower(s);
        if same(l.as_str(), "unrestricted") {
            AgentMode::Unrestricted
        } else {
            AgentMode::Restricted
        }
    }
}

/// The outcome of a policy check.
#[derive(Debug, Clone, PartialEq, Eq)]
pub struct PolicyDecision {
    pub allowed: bool,
    pub reason: String,
}

impl PolicyDecision {
    pub fn allow(reason: String) -> (r: Self)
        ensures
            r.allowed,
            r.reason == reason,
    {
        PolicyDecision { allowed: true, reason }
    }

    pub fn deny(reason: String) -> (r: Self)
        ensures
            !r.allowed,
            r.reason == reason,
    {
        PolicyDecision { allowed: false, reason }
    }
}

pub open spec fn web_url(url: Seq<char>) -> bool {
    text::starts_with(url, "http://"@) || text::starts_with(url, "https://"@)
}

/// The decision in a mode on a URL, given whether it points to a private address.
pub open spec fn decision(mode: AgentMode, url: Seq<char>, private: bool) -> (bool, Seq<char>) {
    if mode == AgentMode::Unrestricted {
        (true, "unrestricted 模式放行所有 URL"@)
    } else if !web_url(url) {
        (false, "restricted 模式仅允许 HTTP/HTTPS 协议: "@ + url)
    } else if private {
        (false, "restricted 模式禁止抓取本地/私有地址: "@ + url)
    } else {
        (true, "restricted 模式下允许的 URL"@)
    }
}

/// Decides on a URL when it is known whether it points to a private address.
pub fn decide(mode: AgentMode, url: &str, private: bool) -> (r: PolicyDecision)
    ensures
        (r.allowed, r.reason@) == decision(mode, url@, private),
{
    match mode {
        AgentMode::Unrestricted => PolicyDecision::allow(
            "unrestricted 模式放行所有 URL".to_string(),
        ),
        AgentMode::Restricted => {
            if !(has_prefix(url, "http://") || has_prefix(url, "https://")) {
                let mut reason = "restricted 模式仅允许 HTTP/HTTPS 协议: ".to_string();
                reason.append(url);
                return PolicyDecision::deny(reason);
            }
            if private {
                let mut reason = "restricted 模式禁止抓取本地/私有地址: ".to_string();
                reason.append(url);
                return PolicyDecision::deny(reason);
            }
            PolicyDecision::allow("restricted 模式下允许的 URL".to_string())
        },
    }
}

/// Checks whether a URL may be fetched in a mode. The resolver is asked for the
/// addresses of a host name that is no literal.
pub fn check_url<F: Fn(&str) -> Vec<IpAddress>>(mode: AgentMode, url: &str, resolver: F) -> (r:
    PolicyDecision)
    requires
        url_guard::resolves_all(resolver),
    ensures
        mode == AgentMode::Unrestricted || !web_url(url@) ==> (r.allowed, r.reason@) == decision(
            mode,
            url@,
            false,
        ),
        mode == AgentMode::Restricted && web_url(url@) ==> exists|private: bool| #[trigger]
            url_guard::url_judged(url@, resolver, private) && (r.allowed, r.reason@) == decision(
                mode,
                url@,
                private,
            ),
{
    let private = match mode {
        AgentMode::Unrestricted => false,
        AgentMode::Restricted => (has_prefix(url, "http://") || has_prefix(url, "https://"))
            && is_private_url(url, resolver),
    };
    decide(mode, url, private)
}

/// In restricted mode a URL is allowed only where its scheme is HTTP or HTTPS and it
/// does not point to a private address.
pub proof fn lemma_restricted(url: Seq<char>, private: bool)
    ensures
        decision(AgentMode::Restricted, url, private).0 == (web_url(url) && !private),
{
}

/// Without restrictions every URL is allowed. With them a refusal names the URL, and only
/// web addresses that are not private are allowed.
pub proof fn lemma_decisions(url: Seq<char>, rest: Seq<char>, private: bool)
    ensures
        decision(AgentMode::Unrestricted, url, private).0,
        !decision(AgentMode::Restricted, url, private).0 ==> text::ends_with(
            decision(AgentMode::Restricted, url, private).1,
            url,
        ),
        decision(AgentMode::Restricted, "https://"@ + rest, false).0,
        decision(AgentMode::Restricted, "http://"@ + rest, false).0,
        !decision(AgentMode::Restricted, url, true).0,
{
    let a = "restricted 模式仅允许 HTTP/HTTPS 协议: "@ + url;
    let b = "restricted 模式禁止抓取本地/私有地址: "@ + url;
    assert(a.subrange(a.len() - url.len(), a.len() as int) =~= url);
    assert(b.subrange(b.len() - url.len(), b.len() as int) =~= url);
    let x = "https://"@ + rest;
    let y = "http://"@ + rest;
    assert(x.subrange(0, "https://"@.len() as int) =~= "https://"@);
    assert(y.subrange(0, "http://"@.len() as int) =~= "http://"@);
}

} // verus!
