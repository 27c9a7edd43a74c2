//! Decisions on fetching a page over HTTP.

use crate::mode_policy;
use crate::mode_policy::{AgentMode, PolicyDecision, check_url};
use crate::pipeline::html_extract;
use crate::pipeline::html_extract::{extract_html_title, preview_text};
use crate::pipeline::outcome;
use crate::pipeline::outcome::{ErrorData, HttpFetchResult, PipelineTaskError};
use crate::task_store::url_guard;
use crate::task_store::url_guard::{IpAddress, is_private_url};
use crate::text;
use crate::text::{cat2, cat4, has, owned, same, usize_text};
use crate::url;
use crate::url::{UrlParts, parse_url, url_domain};
use vstd::prelude::*;

verus! {

/// The URL is a page of the chat service's publishing platform.
pub open spec fn wechat_page(url: Seq<char>) -> bool {
    url::domain_of(url) == Some("mp.weixin.qq.com"@)
}

/// Whether a domain is that of the publishing platform.
pub fn is_wechat_domain(domain: &Option<String>) -> (r: bool)
    ensures
        r == (text::opt_text(*domain) == Some("mp.weixin.qq.com"@)),
{
    match domain {
        Some(d) => same(d.as_str(), "mp.weixin.qq.com"),
        None => false,
    }
}

pub fn is_wechat_mp_url(url: &str) -> (r: bool)
    ensures
        r == wechat_page(url@),
{
    is_wechat_domain(&url_domain(url))
}

/// Pages of the publishing platform are fetched with a browser where there is one.
pub fn should_prefer_browser_capture(url: &str) -> (r: bool)
    ensures
        r == wechat_page(url@),
{
    is_wechat_mp_url(url)
}

/// Redirects of the publishing platform are looked at before they are followed.
pub fn should_disable_http_redirects(url: &str) -> (r: bool)
    ensures
        r == wechat_page(url@),
{
    is_wechat_mp_url(url)
}

/// Why a redirect is not followed: it leads to a private address.
pub fn should_reject_http_redirect_target<F: Fn(&str) -> Vec<IpAddress>>(url: &str, resolver: F) -> (r:
    Option<&'static str>)
    requires
        url_guard::resolves_all(resolver),
    ensures
        url_guard::url_judged(url@, resolver, r is Some),
        r matches Some(kind) ==> kind@ == "ssrf_redirect_private_target"@,
{
    if is_private_url(url, resolver) {
        Some("ssrf_redirect_private_target")
    } else {
        None
    }
}

/// So many requests may come before a redirect that is followed.
pub const MAX_HOPS: usize = 10;

/// Whether a redirect is followed, after `previous` requests: not to a private address, and
/// not beyond the last hop. The resolver is asked for the addresses of the host.
pub fn follow_redirect<F: Fn(&str) -> Vec<IpAddress>>(
    target: &str,
    previous: usize,
    resolver: F,
) -> (r: bool)
    requires
        url_guard::resolves_all(resolver),
    ensures
        exists|private: bool| #[trigger]
            url_guard::url_judged(target@, resolver, private) && r == (!private && previous
                < MAX_HOPS),
{
    let private = should_reject_http_redirect_target(target, resolver).is_some();
    proof {
        assert(url_guard::url_judged(target@, resolver, private));
    }
    !private && previous < MAX_HOPS
}

/// What becomes of a redirect to a page of the platform: a check or a closed page needs
/// the user.
pub open spec fn wechat_redirect_error(domain: Option<Seq<char>>, path: Seq<char>) -> Option<ErrorData> {
    if domain != Some("mp.weixin.qq.com"@) {
        None
    } else if text::contains(path, "wappoc_appmsgcaptcha"@) {
        Some(outcome::manual_error("wechat_captcha"@, "微信公众号页面需要验证码验证"@))
    } else if text::contains(path, "mp/appmsg/show"@) || text::contains(path, "mp/profile_ext"@) {
        Some(outcome::manual_error("wechat_permission_denied"@, "微信公众号页面跳转到受限页面"@))
    } else {
        None
    }
}

pub open spec fn outcome_is(r: Result<(), PipelineTaskError>, e: Option<ErrorData>) -> bool {
    match r {
        Ok(_) => e is None,
        Err(err) => e == Some(err@),
    }
}

/// Judges a redirect by the parts of its target.
pub fn judge_wechat_redirect(domain: &Option<String>, path: &str) -> (r: Result<
    (),
    PipelineTaskError,
>)
    ensures
        outcome_is(r, wechat_redirect_error(text::opt_text(*domain), path@)),
{
    if !is_wechat_domain(domain) {
        return Ok(());
    }
    if has(path, "wappoc_appmsgcaptcha") {
        return Err(
            PipelineTaskError::awaiting_manual_input(
                "wechat_captcha",
                "微信公众号页面需要验证码验证",
            ),
        );
    }
    if has(path, "mp/appmsg/show") || has(path, "mp/profile_ext") {
        return Err(
            PipelineTaskError::awaiting_manual_input(
                "wechat_permission_denied",
                "微信公众号页面跳转到受限页面",
            ),
        );
    }
    Ok(())
}

/// The target of a redirect. A target that is no URL is read as a path of the platform.
pub open spec fn redirect_parts(location: Seq<char>) -> Option<UrlParts> {
    match url::parsed_url(location) {
        Some(p) => Some(p),
        None => url::parsed_url("https://mp.weixin.qq.com"@ + location),
    }
}

pub fn detect_wechat_redirect(location: &str) -> (r: Result<(), PipelineTaskError>)
    ensures
        outcome_is(
            r,
            match redirect_parts(location@) {
                Some(p) => wechat_redirect_error(p.domain, p.path),
                None => None,
            },
        ),
{
    let parsed = match parse_url(location) {
        Some(u) => Some(u),
        None => {
            let full = cat2("https://mp.weixin.qq.com", location);
            parse_url(full.as_str())
        },
    };
    match parsed {
        Some(u) => judge_wechat_redirect(&u.domain, u.path.as_str()),
        None => Ok(()),
    }
}

/// What a page of the platform shows in place of an article.
pub open spec fn wechat_page_error(html: Seq<char>) -> Option<ErrorData> {
    let title = text::text_or(html_extract::html_title(html), Seq::empty());
    let text = html_extract::preview(html);
    if text::contains(title, "未知错误"@) || text::contains(text, "未知错误，请稍后再试"@) {
        Some(outcome::manual_error("wechat_error"@, "微信公众号页面返回错误页"@))
    } else if text::contains(text, "你暂无权限查看此页面内容"@) || text::contains(text, "失效的验证页面"@) {
        Some(outcome::manual_error("wechat_permission_denied"@, "微信公众号页面暂无访问权限"@))
    } else if text::contains(text, "微信公众平台安全验证"@) || text::contains(text, "请输入图中的验证码"@)
        || text::contains(text, "poc_token"@) {
        Some(outcome::manual_error("wechat_captcha"@, "微信公众号页面需要验证码验证"@))
    } else {
        None
    }
}

/// Judges a page of the platform by what it shows.
pub fn judge_wechat_page(html: &str) -> (r: Result<(), PipelineTaskError>)
    ensures
        outcome_is(r, wechat_page_error(html@)),
{
    let title = match extract_html_title(html) {
        Some(t) => t,
        None => {
            let none = String::new();
            proof {
                assert(none@ =~= Seq::<char>::empty());
            }
            none
        },
    };
    let text = preview_text(html);
    if has(title.as_str(), "未知错误") || has(text.as_str(), "未知错误，请稍后再试") {
        return Err(
            PipelineTaskError::awaiting_manual_input("wechat_error", "微信公众号页面返回错误页"),
        );
    }
    if has(text.as_str(), "你暂无权限查看此页面内容") || has(text.as_str(), "失效的验证页面") {
        return Err(
            PipelineTaskError::awaiting_manual_input(
                "wechat_permission_denied",
                "微信公众号页面暂无访问权限",
            ),
        );
    }
    if has(text.as_str(), "微信公众平台安全验证") || has(text.as_str(), "请输入图中的验证码") || has(
        text.as_str(),
        "poc_token",
    ) {
        return Err(
            PipelineTaskError::awaiting_manual_input(
                "wechat_captcha",
                "微信公众号页面需要验证码验证",
            ),
        );
    }
    Ok(())
}

pub fn detect_wechat_error_page(url: &str, html: &str) -> (r: Result<(), PipelineTaskError>)
    ensures
        outcome_is(
            r,
            if wechat_page(url@) {
                wechat_page_error(html@)
            } else {
                None
            },
        ),
{
    if !is_wechat_mp_url(url) {
        return Ok(());
    }
    judge_wechat_page(html)
}

/// Judges a fetched page by the URL that it was fetched from in the end.
pub fn validate_fetched_html(requested_url: &str, final_url: &str, html: &str) -> (r: Result<
    (),
    PipelineTaskError,
>)
    ensures
        outcome_is(
            r,
            if wechat_page(final_url@) {
                wechat_page_error(html@)
            } else {
                None
            },
        ),
{
    let _ = requested_url;
    detect_wechat_error_page(final_url, html)
}

// ---------------------------------------------------------------------------
// One attempt
// ---------------------------------------------------------------------------

/// Why an attempt failed, and whether another one may help.
#[derive(Debug, Clone, PartialEq, Eq)]
pub struct FetchFailure {
    pub error: PipelineTaskError,
    pub retryable: bool,
    pub error_kind: String,
}

pub struct FailureData {
    pub error: ErrorData,
    pub retryable: bool,
    pub error_kind: Seq<char>,
}

impl View for FetchFailure {
    type V = FailureData;

    open spec fn view(&self) -> FailureData {
        FailureData {
            error: self.error@,
            retryable: self.retryable,
            error_kind: self.error_kind@,
        }
    }
}

/// The request could not be sent. Timeouts and failed connections may pass.
pub fn request_failed(url: &str, err: &str, transient: bool) -> (r: FetchFailure)
    ensures
        r@ == (FailureData {
            error: outcome::failed_error("抓取页面失败: "@ + url@ + " ("@ + err@ + ")"@),
            retryable: transient,
            error_kind: "http_request_failed"@,
        }),
{
    let start = cat4("抓取页面失败: ", url, " (", err);
    FetchFailure {
        error: PipelineTaskError::failed(cat2(start.as_str(), ")")),
        retryable: transient,
        error_kind: owned("http_request_failed"),
    }
}

/// The body of the answer could not be read.
pub fn body_failed(err: &str, transient: bool) -> (r: FetchFailure)
    ensures
        r@ == (FailureData {
            error: outcome::failed_error("读取页面正文失败: "@ + err@),
            retryable: transient,
            error_kind: "http_read_body_failed"@,
        }),
{
    FetchFailure {
        error: PipelineTaskError::failed(cat2("读取页面正文失败: ", err)),
        retryable: transient,
        error_kind: owned("http_read_body_failed"),
    }
}

/// What a status code means: a redirect is judged by its target and never tried again; of
/// the other codes than success only those of the server are.
pub open spec fn status_failure(
    url: Seq<char>,
    status: int,
    location: Seq<char>,
    wechat: Option<ErrorData>,
    private: bool,
) -> Option<FailureData> {
    if 300 <= status < 400 {
        match wechat {
            Some(e) => Some(
                FailureData { error: e, retryable: false, error_kind: "wechat_redirect"@ },
            ),
            None => if private {
                Some(
                    FailureData {
                        error: outcome::failed_error(
                            "安全拦截: redirect 指向私有/本地地址 (status="@ + text::decimal(status as nat)
                                + " target="@ + location + ")"@,
                        ),
                        retryable: false,
                        error_kind: "ssrf_redirect_private_target"@,
                    },
                )
            } else {
                Some(
                    FailureData {
                        error: outcome::failed_error(
                            "抓取页面失败: HTTP "@ + text::decimal(status as nat) + " "@ + url,
                        ),
                        retryable: false,
                        error_kind: "http_redirect_rejected"@,
                    },
                )
            },
        }
    } else if 200 <= status < 300 {
        None
    } else {
        let server = 500 <= status < 600;
        Some(
            FailureData {
                error: outcome::failed_error("抓取页面失败: HTTP "@ + text::decimal(status as nat) + " "@ + url),
                retryable: server,
                error_kind: if server {
                    "http_status_server_error"@
                } else {
                    "http_status_failed"@
                },
            },
        )
    }
}

fn http_error_text(url: &str, status: u16) -> (r: String)
    ensures
        r@ == "抓取页面失败: HTTP "@ + text::decimal(status as nat) + " "@ + url@,
{
    let code = usize_text(status as usize);
    cat4("抓取页面失败: HTTP ", code.as_str(), " ", url)
}

pub open spec fn redirect_verdict(location: Seq<char>) -> Option<ErrorData> {
    match redirect_parts(location) {
        Some(p) => wechat_redirect_error(p.domain, p.path),
        None => None,
    }
}

/// Judges the status of an answer. For a redirect, `wechat` is the verdict on its target
/// as a page of the platform, and `private` says whether it leads to a private address.
pub fn judge_status_with(
    url: &str,
    status: u16,
    location: &str,
    wechat: Result<(), PipelineTaskError>,
    private: bool,
) -> (r: Option<FetchFailure>)
    ensures
        match r {
            Some(f) => Some(f@) == status_failure(
                url@,
                status as int,
                location@,
                match wechat {
                    Ok(_) => None,
                    Err(e) => Some(e@),
                },
                private,
            ),
            None => status_failure(
                url@,
                status as int,
                location@,
                match wechat {
                    Ok(_) => None,
                    Err(e) => Some(e@),
                },
                private,
            ) is None,
        },
{
    if 300 <= status && status < 400 {
        match wechat {
            Err(error) => Some(
                FetchFailure { error, retryable: false, error_kind: owned("wechat_redirect") },
            ),
            Ok(_) => if private {
                let code = usize_text(status as usize);
                let start = cat4(
                    "安全拦截: redirect 指向私有/本地地址 (status=",
                    code.as_str(),
                    " target=",
                    location,
                );
                Some(
                    FetchFailure {
                        error: PipelineTaskError::failed(cat2(start.as_str(), ")")),
                        retryable: false,
                        error_kind: owned("ssrf_redirect_private_target"),
                    },
                )
            } else {
                Some(
                    FetchFailure {
                        error: PipelineTaskError::failed(http_error_text(url, status)),
                        retryable: false,
                        error_kind: owned("http_redirect_rejected"),
                    },
                )
            },
        }
    } else if 200 <= status && status < 300 {
        None
    } else {
        let server = 500 <= status && status < 600;
        Some(
            FetchFailure {
                error: PipelineTaskError::failed(http_error_text(url, status)),
                retryable: server,
                error_kind: if server {
                    owned("http_status_server_error")
                } else {
                    owned("http_status_failed")
                },
            },
        )
    }
}

pub open spec fn is_redirect(status: int) -> bool {
    300 <= status < 400
}

/// The mode asks whether the URL leads to a private address.
pub open spec fn guarded(mode: AgentMode, url: Seq<char>) -> bool {
    mode == AgentMode::Restricted && mode_policy::web_url(url)
}

/// Whether a URL leads to a private address was judged where it had to be.
pub open spec fn judged_if<F: Fn(&str) -> Vec<IpAddress>>(
    needed: bool,
    url: Seq<char>,
    resolver: F,
    private: bool,
) -> bool {
    needed ==> url_guard::url_judged(url, resolver, private)
}

/// A redirect whose target is not refused already as a page of the platform.
pub open spec fn resolver_asked(status: int, location: Seq<char>) -> bool {
    is_redirect(status) && redirect_verdict(location) is None
}

/// Judges the status of an answer. The resolver is asked for the addresses of the host
/// that a redirect leads to, unless the target is refused as a page of the platform.
pub fn judge_status<F: Fn(&str) -> Vec<IpAddress>>(
    url: &str,
    status: u16,
    location: &str,
    resolver: F,
) -> (r: Option<FetchFailure>)
    requires
        url_guard::resolves_all(resolver),
    ensures
        exists|private: bool|
            #[trigger] judged_if(
                resolver_asked(status as int, location@),
                location@,
                resolver,
                private,
            ) && (match r {
                Some(f) => Some(f@),
                None => None,
            }) == status_failure(
                url@,
                status as int,
                location@,
                redirect_verdict(location@),
                private,
            ),
{
    let redirect = 300 <= status && status < 400;
    let wechat = detect_wechat_redirect(location);
    let private = redirect && wechat.is_ok() && should_reject_http_redirect_target(
        location,
        resolver,
    ).is_some();
    let r = judge_status_with(url, status, location, wechat, private);
    proof {
        assert(judged_if(
            resolver_asked(status as int, location@),
            location@,
            resolver,
            private,
        ));
    }
    r
}

/// Judges the body of an answer that came without an error.
pub fn judge_body(url: &str, final_url: String, html: String) -> (r: Result<
    HttpFetchResult,
    FetchFailure,
>)
    ensures
        match r {
            Ok(page) => page.html@ == html@ && page.final_url@ == final_url@ && (wechat_page(
                final_url@,
            ) ==> wechat_page_error(html@) is None),
            Err(f) => wechat_page(final_url@) && wechat_page_error(html@) == Some(f.error@)
                && !f.retryable && f.error_kind@ == "html_validation_failed"@,
        },
{
    match validate_fetched_html(url, final_url.as_str(), html.as_str()) {
        Ok(_) => Ok(HttpFetchResult { html, final_url }),
        Err(error) => Err(
            FetchFailure { error, retryable: false, error_kind: owned("html_validation_failed") },
        ),
    }
}

// ---------------------------------------------------------------------------
// Several attempts
// ---------------------------------------------------------------------------

/// How long to wait after attempt `attempt`, counted from zero, before the next one, in
/// milliseconds. Without a wait there is no next one.
pub open spec fn backoff(attempt: int, retryable: bool) -> Option<int> {
    if !retryable {
        None
    } else if attempt == 0 {
        Some(200)
    } else if attempt == 1 {
        Some(500)
    } else if attempt == 2 {
        Some(1000)
    } else {
        None
    }
}

pub fn next_backoff_ms(attempt: usize, retryable: bool) -> (r: Option<u64>)
    ensures
        match r {
            Some(ms) => backoff(attempt as int, retryable) == Some(ms as int),
            None => backoff(attempt as int, retryable) is None,
        },
{
    if !retryable {
        None
    } else if attempt == 0 {
        Some(200)
    } else if attempt == 1 {
        Some(500)
    } else if attempt == 2 {
        Some(1000)
    } else {
        None
    }
}

/// What comes after an attempt.
#[derive(Debug, Clone, PartialEq, Eq)]
pub enum FetchStep {
    Fetched(HttpFetchResult),
    /// Another attempt, after a wait in milliseconds.
    Retry(u64),
    Failed(PipelineTaskError),
}

/// Decides what comes after attempt `attempt`, counted from zero.
pub fn fetch_step(attempt: usize, outcome: Result<HttpFetchResult, FetchFailure>) -> (r: FetchStep)
    ensures
        match outcome {
            Ok(page) => r == FetchStep::Fetched(page),
            Err(failure) => match backoff(attempt as int, failure.retryable) {
                Some(ms) => r == FetchStep::Retry(ms as u64),
                None => r == FetchStep::Failed(failure.error),
            },
        },
{
    match outcome {
        Ok(page) => FetchStep::Fetched(page),
        Err(failure) => match next_backoff_ms(attempt, failure.retryable) {
            Some(ms) => FetchStep::Retry(ms),
            None => FetchStep::Failed(failure.error),
        },
    }
}

/// How many attempts are made on a page when attempt `i` fails with `retryable[i]`.
pub open spec fn attempts_made(retryable: Seq<bool>, i: int) -> int
    decreases retryable.len() - i,
{
    if i < 0 || i >= retryable.len() {
        i
    } else if backoff(i, retryable[i]) is None {
        i + 1
    } else {
        attempts_made(retryable, i + 1)
    }
}

/// A page is never tried more than four times, and after an error that cannot pass it is
/// not tried again.
pub proof fn lemma_attempts_bounded(retryable: Seq<bool>)
    ensures
        attempts_made(retryable, 0) <= 4,
        retryable.len() > 0 && !retryable[0] ==> attempts_made(retryable, 0) == 1,
{
    reveal_with_fuel(attempts_made, 5);
}

// ---------------------------------------------------------------------------
// How a task is fetched
// ---------------------------------------------------------------------------

/// How a task is fetched.
#[derive(Debug, Clone, PartialEq, Eq)]
pub enum FetchPlan {
    Denied(PipelineTaskError),
    Browser,
    Http,
}

/// Decides how a URL is fetched once the policy has decided on it.
pub fn plan_with(decision: PolicyDecision, url: &str, has_browser: bool) -> (r: FetchPlan)
    ensures
        match r {
            FetchPlan::Denied(e) => !decision.allowed && e@ == outcome::failed_error(decision.reason@),
            FetchPlan::Browser => decision.allowed && wechat_page(url@) && has_browser,
            FetchPlan::Http => decision.allowed && !(wechat_page(url@) && has_browser),
        },
{
    if !decision.allowed {
        return FetchPlan::Denied(PipelineTaskError::failed(decision.reason));
    }
    if should_prefer_browser_capture(url) && has_browser {
        FetchPlan::Browser
    } else {
        FetchPlan::Http
    }
}

/// Decides how the page of a task is fetched. The resolver is asked for the addresses of
/// its host.
pub fn plan_task<F: Fn(&str) -> Vec<IpAddress>>(
    mode: AgentMode,
    url: &str,
    has_browser: bool,
    resolver: F,
) -> (r: FetchPlan)
    requires
        url_guard::resolves_all(resolver),
    ensures
        exists|private: bool|
            #[trigger] judged_if(
                guarded(mode, url@),
                url@,
                resolver,
                private,
            ) && (match r {
                FetchPlan::Denied(e) => !mode_policy::decision(mode, url@, private).0 && e@ == outcome::failed_error(
                    mode_policy::decision(mode, url@, private).1,
                ),
                FetchPlan::Browser => mode_policy::decision(mode, url@, private).0 && wechat_page(url@)
                    && has_browser,
                FetchPlan::Http => mode_policy::decision(mode, url@, private).0 && !(wechat_page(url@)
                    && has_browser),
            }),
{
    let d = check_url(mode, url, resolver);
    let ghost private = if mode == AgentMode::Restricted && mode_policy::web_url(url@) {
        choose|private: bool| #[trigger]
            url_guard::url_judged(url@, resolver, private) && (d.allowed, d.reason@) == mode_policy::decision(
                mode,
                url@,
                private,
            )
    } else {
        false
    };
    let r = plan_with(d, url, has_browser);
    proof {
        assert((d.allowed, d.reason@) == mode_policy::decision(mode, url@, private));
        assert(judged_if(
            guarded(mode, url@),
            url@,
            resolver,
            private,
        ));
    }
    r
}

// ---------------------------------------------------------------------------
// Laws
// ---------------------------------------------------------------------------

/// A page is fetched just where its status is a success. Of the failures only those of the
/// server are tried again; a redirect never is.
pub proof fn lemma_status_codes(
    url: Seq<char>,
    status: int,
    location: Seq<char>,
    wechat: Option<ErrorData>,
    private: bool,
)
    ensures
        ({
            let f = status_failure(url, status, location, wechat, private);
            &&& (f is None) == (200 <= status <= 299)
            &&& f is Some ==> (f->0.retryable == (500 <= status <= 599))
            &&& 300 <= status <= 399 && wechat is Some ==> Some(f->0.error) == wechat
            &&& 300 <= status <= 399 && wechat is None && private ==> f->0.error_kind
                == "ssrf_redirect_private_target"@
            &&& 300 <= status <= 399 && wechat is None && !private ==> f->0.error_kind
                == "http_redirect_rejected"@
        }),
{
}

/// An attempt that may be repeated is repeated three times, after ever longer waits, and one
/// that may not is not.
pub proof fn lemma_waits_grow(attempt: int)
    requires
        attempt >= 0,
    ensures
        backoff(attempt, false) is None,
        (backoff(attempt, true) is Some) == (attempt < 3),
        backoff(attempt, true) is Some && backoff(attempt + 1, true) is Some ==> backoff(
            attempt + 1,
            true,
        )->0 >= 2 * backoff(attempt, true)->0,
        backoff(0, true) == Some(200int),
        backoff(0, true)->0 + backoff(1, true)->0 + backoff(2, true)->0 == 1700,
{
}

/// The attempts end with the first failure that may not be repeated, or with the fourth.
pub proof fn lemma_attempts(retryable: Seq<bool>, k: int)
    requires
        0 <= k < retryable.len(),
        forall|i: int| 0 <= i < k ==> #[trigger] retryable[i],
        !retryable[k] || k == 3,
        k <= 3,
    ensures
        attempts_made(retryable, 0) == k + 1,
{
    reveal_with_fuel(attempts_made, 5);
    assert(k > 0 ==> retryable[0]);
    assert(k > 1 ==> retryable[1]);
    assert(k > 2 ==> retryable[2]);
}

/// Only a redirect to a page of the platform is judged by its path.
pub proof fn lemma_platform_redirects(domain: Option<Seq<char>>, path: Seq<char>)
    ensures
        domain != Some("mp.weixin.qq.com"@) ==> wechat_redirect_error(domain, path) is None,
        domain == Some("mp.weixin.qq.com"@) ==> {
            let e = wechat_redirect_error(domain, path);
            &&& text::contains(path, "wappoc_appmsgcaptcha"@) ==> e is Some
            &&& text::contains(path, "mp/appmsg/show"@) ==> e is Some
            &&& text::contains(path, "mp/profile_ext"@) ==> e is Some
            &&& !text::contains(path, "wappoc_appmsgcaptcha"@) && !text::contains(
                path,
                "mp/appmsg/show"@,
            ) && !text::contains(path, "mp/profile_ext"@) ==> e is None
        },
{
}

/// What a page of the platform shows in place of an article is told by certain phrases in
/// its title or at its start; a page without them is an article.
pub proof fn lemma_platform_pages(html: Seq<char>)
    ensures
        ({
            let e = wechat_page_error(html);
            let start = html_extract::preview(html);
            let title = text::text_or(html_extract::html_title(html), Seq::empty());
            let wrong = text::contains(title, "未知错误"@) || text::contains(start, "未知错误，请稍后再试"@);
            let closed = text::contains(start, "你暂无权限查看此页面内容"@) || text::contains(start, "失效的验证页面"@);
            let asks = text::contains(start, "微信公众平台安全验证"@) || text::contains(start, "请输入图中的验证码"@)
                || text::contains(start, "poc_token"@);
            &&& (e is Some) == (wrong || closed || asks)
            &&& wrong ==> e == Some(outcome::manual_error("wechat_error"@, "微信公众号页面返回错误页"@))
            &&& !wrong && closed ==> e == Some(
                outcome::manual_error("wechat_permission_denied"@, "微信公众号页面暂无访问权限"@),
            )
            &&& !wrong && !closed && asks ==> e == Some(
                outcome::manual_error("wechat_captcha"@, "微信公众号页面需要验证码验证"@),
            )
        }),
{
}

} // verus!
