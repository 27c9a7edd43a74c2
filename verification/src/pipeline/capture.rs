//! Decisions on capturing a page with a browser worker.

use crate::paths;
use crate::pipeline::html_extract;
use crate::pipeline::html_extract::joined_words;
use crate::pipeline::outcome;
use crate::pipeline::outcome::{ErrorData, PipelineTaskError};
use crate::text;
use crate::text::{
    blank, cat2, cat3, cat4, char_count, clip, join_strings, owned, string_or, trimmed,
};
use vstd::prelude::*;

verus! {

/// What the worker is asked for. Paths are held as texts.
#[derive(Debug, Clone, PartialEq, Eq)]
pub struct BrowserCaptureRequest {
    pub url: String,
    pub html_path: String,
    pub screenshot_path: String,
    pub timeout_ms: u64,
    pub headless: bool,
    pub mobile_viewport: bool,
}

/// What the worker answers.
#[derive(Debug, Clone, PartialEq, Eq)]
pub struct BrowserCaptureResponse {
    pub ok: bool,
    pub page_kind: String,
    pub final_url: String,
    pub title: Option<String>,
    pub html_path: String,
    pub screenshot_path: String,
    pub reason: Option<String>,
    pub logs: Vec<String>,
}

/// A page that was captured.
#[derive(Debug, Clone, PartialEq, Eq)]
pub struct BrowserCaptureResult {
    pub page_kind: String,
    pub final_url: String,
    pub title: Option<String>,
    pub html_path: String,
    pub screenshot_path: String,
}

/// The names of the files that a capture of a task leaves: the page and its picture.
pub fn capture_file_names(task_id: &str) -> (r: (String, String))
    ensures
        r.0@ == task_id@ + ".browser.html"@,
        r.1@ == task_id@ + ".png"@,
{
    (cat2(task_id, ".browser.html"), cat2(task_id, ".png"))
}

/// The timeout in milliseconds, as far as it fits.
pub open spec fn millis_of(nanos: nat) -> nat {
    if nanos / 1000000 > u64::MAX {
        u64::MAX as nat
    } else {
        nanos / 1000000
    }
}

pub fn timeout_millis(nanos: u128) -> (r: u64)
    ensures
        r == millis_of(nanos as nat),
{
    let ms: u128 = nanos / 1000000;
    if ms > u64::MAX as u128 {
        u64::MAX
    } else {
        ms as u64
    }
}

// ---------------------------------------------------------------------------
// Waiting for the worker
// ---------------------------------------------------------------------------

/// So long the worker may take beyond the timeout of the page, in nanoseconds.
pub const WORKER_GRACE: u128 = 15_000_000_000;

/// So long is waited between two looks at the worker, in milliseconds.
pub const WORKER_POLL_MS: u64 = 200;

/// What a look at the worker shows.
#[derive(Debug, Clone, Copy, PartialEq, Eq, Structural)]
pub enum WorkerState {
    Exited,
    Running,
    Unknown,
}

/// What is done after a look at the worker.
#[derive(Debug, Clone, Copy, PartialEq, Eq, Structural)]
pub enum WaitStep {
    /// Read its output.
    Collect,
    /// Look again later.
    Wait,
    /// End it.
    Kill,
    /// Give up.
    GiveUp,
}

/// Decides what to do after a look at the worker, `waited` nanoseconds after it was
/// started. It is ended when the timeout of the page and some grace have passed.
pub fn wait_step(state: WorkerState, waited: u128, timeout: u128) -> (r: WaitStep)
    ensures
        r == (match state {
            WorkerState::Exited => WaitStep::Collect,
            WorkerState::Unknown => WaitStep::GiveUp,
            WorkerState::Running => if waited >= timeout + WORKER_GRACE {
                WaitStep::Kill
            } else {
                WaitStep::Wait
            },
        }),
{
    match state {
        WorkerState::Exited => WaitStep::Collect,
        WorkerState::Unknown => WaitStep::GiveUp,
        WorkerState::Running => if waited >= WORKER_GRACE && waited - WORKER_GRACE >= timeout {
            WaitStep::Kill
        } else {
            WaitStep::Wait
        },
    }
}

// ---------------------------------------------------------------------------
// Failures
// ---------------------------------------------------------------------------

/// The output of a worker on one line, cut to a length.
pub open spec fn output_summary(output: Seq<char>) -> Seq<char> {
    let clean = html_extract::one_line(output);
    if clean.len() == 0 {
        "(empty)"@
    } else {
        text::clipped(clean, 240)
    }
}

pub fn summarize_output(output: &str) -> (r: String)
    ensures
        r@ == output_summary(output@),
{
    let clean = joined_words(output);
    if char_count(clean.as_str()) == 0 {
        owned("(empty)")
    } else {
        clip(clean.as_str(), 240)
    }
}

/// The value, or a fallback where it is blank.
pub open spec fn reason_or(value: Seq<char>, fallback: Seq<char>) -> Seq<char> {
    if text::is_blank(value) {
        fallback
    } else {
        value
    }
}

pub fn fallback_reason<'a>(value: &'a str, fallback: &'a str) -> (r: &'a str)
    ensures
        r@ == reason_or(value@, fallback@),
{
    if blank(value) {
        fallback
    } else {
        value
    }
}

/// What can go wrong around a worker.
#[derive(Debug)]
pub enum WorkerFailure {
    MakeRawDir(String),
    MakeSnapshotDir(String),
    Spawn(String),
    SerializeRequest(String),
    WriteRequest(String),
    KillTimedOut(String),
    TimedOut { stdout: String, stderr: String },
    PollStatus(String),
    Wait(String),
    NotUtf8(String),
    Failed { stderr: String },
    Unparsable { err: String, stdout: String, stderr: String },
}

/// The error of a failure. Most of them leave the page to the user.
pub open spec fn worker_error_data(f: WorkerFailure, snapshot: Option<Seq<char>>) -> ErrorData {
    match f {
        WorkerFailure::MakeRawDir(e) => outcome::failed_error("创建浏览器 raw 目录失败: "@ + e@),
        WorkerFailure::MakeSnapshotDir(e) => outcome::failed_error("创建浏览器 snapshot 目录失败: "@ + e@),
        WorkerFailure::Spawn(e) => outcome::browser_error(
            "browser_worker_unavailable"@,
            "启动浏览器 worker 失败: "@ + e@,
            snapshot,
        ),
        WorkerFailure::SerializeRequest(e) => outcome::failed_error("序列化浏览器抓取请求失败: "@ + e@),
        WorkerFailure::WriteRequest(e) => outcome::browser_error(
            "browser_worker_io_failed"@,
            "写入浏览器抓取请求失败: "@ + e@,
            snapshot,
        ),
        WorkerFailure::KillTimedOut(e) => outcome::browser_error(
            "browser_worker_timeout"@,
            "终止超时浏览器 worker 失败: "@ + e@,
            snapshot,
        ),
        WorkerFailure::TimedOut { stdout, stderr } => outcome::browser_error(
            "browser_worker_timeout"@,
            "浏览器 worker 超时未结束，已终止。stdout="@ + output_summary(stdout@) + " stderr="@
                + output_summary(stderr@),
            snapshot,
        ),
        WorkerFailure::PollStatus(e) => outcome::browser_error(
            "browser_worker_failed"@,
            "轮询浏览器 worker 状态失败: "@ + e@,
            snapshot,
        ),
        WorkerFailure::Wait(e) => outcome::browser_error(
            "browser_worker_failed"@,
            "等待浏览器 worker 结束失败: "@ + e@,
            snapshot,
        ),
        WorkerFailure::NotUtf8(e) => outcome::browser_error(
            "browser_worker_invalid_output"@,
            "浏览器 worker 输出非 UTF-8: "@ + e@,
            snapshot,
        ),
        WorkerFailure::Failed { stderr } => outcome::browser_error(
            "browser_worker_failed"@,
            "浏览器 worker 执行失败: "@ + reason_or(stderr@, "unknown"@),
            snapshot,
        ),
        WorkerFailure::Unparsable { err, stdout, stderr } => outcome::browser_error(
            "browser_worker_invalid_output"@,
            "解析浏览器 worker 返回失败: "@ + err@ + "; stdout="@ + output_summary(stdout@)
                + "; stderr="@ + output_summary(stderr@),
            snapshot,
        ),
    }
}

/// The error of a failure. `snapshot` is the picture of the page where there is one.
pub fn worker_error(failure: &WorkerFailure, snapshot: Option<String>) -> (r: PipelineTaskError)
    ensures
        r@ == worker_error_data(*failure, text::opt_text(snapshot)),
{
    match failure {
        WorkerFailure::MakeRawDir(e) => PipelineTaskError::failed(
            cat2("创建浏览器 raw 目录失败: ", e.as_str()),
        ),
        WorkerFailure::MakeSnapshotDir(e) => PipelineTaskError::failed(
            cat2("创建浏览器 snapshot 目录失败: ", e.as_str()),
        ),
        WorkerFailure::Spawn(e) => PipelineTaskError::browser_manual_input(
            "browser_worker_unavailable",
            cat2("启动浏览器 worker 失败: ", e.as_str()),
            snapshot,
        ),
        WorkerFailure::SerializeRequest(e) => PipelineTaskError::failed(
            cat2("序列化浏览器抓取请求失败: ", e.as_str()),
        ),
        WorkerFailure::WriteRequest(e) => PipelineTaskError::browser_manual_input(
            "browser_worker_io_failed",
            cat2("写入浏览器抓取请求失败: ", e.as_str()),
            snapshot,
        ),
        WorkerFailure::KillTimedOut(e) => PipelineTaskError::browser_manual_input(
            "browser_worker_timeout",
            cat2("终止超时浏览器 worker 失败: ", e.as_str()),
            snapshot,
        ),
        WorkerFailure::TimedOut { stdout, stderr } => {
            let out = summarize_output(stdout.as_str());
            let err = summarize_output(stderr.as_str());
            PipelineTaskError::browser_manual_input(
                "browser_worker_timeout",
                cat4(
                    "浏览器 worker 超时未结束，已终止。stdout=",
                    out.as_str(),
                    " stderr=",
                    err.as_str(),
                ),
                snapshot,
            )
        },
        WorkerFailure::PollStatus(e) => PipelineTaskError::browser_manual_input(
            "browser_worker_failed",
            cat2("轮询浏览器 worker 状态失败: ", e.as_str()),
            snapshot,
        ),
        WorkerFailure::Wait(e) => PipelineTaskError::browser_manual_input(
            "browser_worker_failed",
            cat2("等待浏览器 worker 结束失败: ", e.as_str()),
            snapshot,
        ),
        WorkerFailure::NotUtf8(e) => PipelineTaskError::browser_manual_input(
            "browser_worker_invalid_output",
            cat2("浏览器 worker 输出非 UTF-8: ", e.as_str()),
            snapshot,
        ),
        WorkerFailure::Failed { stderr } => PipelineTaskError::browser_manual_input(
            "browser_worker_failed",
            cat2("浏览器 worker 执行失败: ", fallback_reason(stderr.as_str(), "unknown")),
            snapshot,
        ),
        WorkerFailure::Unparsable { err, stdout, stderr } => {
            let out = summarize_output(stdout.as_str());
            let e = summarize_output(stderr.as_str());
            let start = cat4(
                "解析浏览器 worker 返回失败: ",
                err.as_str(),
                "; stdout=",
                out.as_str(),
            );
            PipelineTaskError::browser_manual_input(
                "browser_worker_invalid_output",
                cat3(start.as_str(), "; stderr=", e.as_str()),
                snapshot,
            )
        },
    }
}

/// A worker that failed without any output is a failure; with output, the output counts.
pub fn judge_worker_exit(success: bool, stdout: &str, stderr: &str) -> (r: Option<WorkerFailure>)
    ensures
        match r {
            Some(WorkerFailure::Failed { stderr: e }) => !success && text::is_blank(stdout@) && e@
                == stderr@,
            Some(_) => false,
            None => success || !text::is_blank(stdout@),
        },
{
    if !success && blank(stdout) {
        Some(WorkerFailure::Failed { stderr: owned(stderr) })
    } else {
        None
    }
}

// ---------------------------------------------------------------------------
// Answers
// ---------------------------------------------------------------------------

/// A path that is read the same on all systems: no backslash, no two slashes at its start,
/// and, unless it starts at the root, no colon.
pub open spec fn portable_path(s: Seq<char>) -> bool {
    &&& !s.contains('\\')
    &&& !text::starts_with(s, "//"@)
    &&& paths::absolute(s) || !s.contains(':')
}

/// A path that names the current directory as where it starts.
pub open spec fn starts_here(s: Seq<char>) -> bool {
    text::split_char(s, '/')[0] == "."@
}

/// Two texts that name one file: both or neither start at the root, both or neither start
/// with `.`, and they lead through the same steps.
pub open spec fn same_place(a: Seq<char>, b: Seq<char>) -> bool {
    &&& paths::absolute(a) == paths::absolute(b)
    &&& starts_here(a) == starts_here(b)
    &&& paths::path_steps(a) == paths::path_steps(b)
}

/// A path from the root, and one that starts elsewhere.
pub open spec fn apart(a: Seq<char>, b: Seq<char>) -> bool {
    portable_path(a) && paths::absolute(a) && !paths::absolute(b) && !b.contains('\\')
}

/// `std::path::Path` equality, which compares the components of two paths. Claimed: equal
/// texts are equal paths; portable texts are equal paths where they name one file, and only
/// there; a path from the root equals none without a leading slash or a backslash. Nothing
/// more is said of other texts: how those are read depends on the system.
#[verifier::external_body]
fn same_path(a: &str, b: &str) -> (r: bool)
    ensures
        a@ == b@ ==> r,
        portable_path(a@) && portable_path(b@) ==> r == same_place(a@, b@),
        apart(a@, b@) || apart(b@, a@) ==> !r,
{
    std::path::Path::new(a) == std::path::Path::new(b)
}

/// The worker names other files than those that it was asked for.
pub open spec fn wrong_paths_error(
    request: BrowserCaptureRequest,
    response: BrowserCaptureResponse,
    snapshot: Option<Seq<char>>,
) -> ErrorData {
    outcome::browser_error(
        "browser_worker_invalid_output"@,
        "浏览器 worker 返回了非预期产物路径: html_path="@ + response.html_path@
            + " expected_html_path="@ + request.html_path@ + " screenshot_path="@
            + response.screenshot_path@ + " expected_screenshot_path="@ + request.screenshot_path@,
        snapshot,
    )
}

/// Judges the files that an answer names, when it is known whether they are the ones that
/// were asked for.
pub fn judge_capture_paths(
    request: &BrowserCaptureRequest,
    response: &BrowserCaptureResponse,
    same_files: bool,
    snapshot: Option<String>,
) -> (r: Result<(), PipelineTaskError>)
    ensures
        match r {
            Ok(_) => same_files,
            Err(e) => !same_files && e@ == wrong_paths_error(
                *request,
                *response,
                text::opt_text(snapshot),
            ),
        },
{
    if same_files {
        return Ok(());
    }
    let a = cat4(
        "浏览器 worker 返回了非预期产物路径: html_path=",
        response.html_path.as_str(),
        " expected_html_path=",
        request.html_path.as_str(),
    );
    let b = cat4(
        a.as_str(),
        " screenshot_path=",
        response.screenshot_path.as_str(),
        " expected_screenshot_path=",
    );
    Err(
        PipelineTaskError::browser_manual_input(
            "browser_worker_invalid_output",
            cat2(b.as_str(), request.screenshot_path.as_str()),
            snapshot,
        ),
    )
}

/// The answer names the files that were asked for.
pub open spec fn same_files_named(request: BrowserCaptureRequest, response: BrowserCaptureResponse) -> bool {
    same_place(response.html_path@, request.html_path@) && same_place(
        response.screenshot_path@,
        request.screenshot_path@,
    )
}

/// All paths of a request and its answer are portable.
pub open spec fn all_portable(request: BrowserCaptureRequest, response: BrowserCaptureResponse) -> bool {
    portable_path(response.html_path@) && portable_path(request.html_path@) && portable_path(
        response.screenshot_path@,
    ) && portable_path(request.screenshot_path@)
}

/// What the texts say of two paths: whether they are one.
pub open spec fn path_judged(a: Seq<char>, b: Seq<char>, same: bool) -> bool {
    &&& a == b ==> same
    &&& portable_path(a) && portable_path(b) ==> same == same_place(a, b)
    &&& apart(a, b) || apart(b, a) ==> !same
}

/// Whether the answer names the files that were asked for, as far as the texts say it.
pub open spec fn paths_judged(
    request: BrowserCaptureRequest,
    response: BrowserCaptureResponse,
    same_files: bool,
) -> bool {
    exists|html: bool, shot: bool|
        same_files == (html && shot) && #[trigger] path_judged(
            response.html_path@,
            request.html_path@,
            html,
        ) && #[trigger] path_judged(response.screenshot_path@, request.screenshot_path@, shot)
}

/// Refuses an answer that names other files than those that were asked for.
pub fn validate_browser_capture_paths(
    request: &BrowserCaptureRequest,
    response: &BrowserCaptureResponse,
    snapshot: Option<String>,
) -> (r: Result<(), PipelineTaskError>)
    ensures
        paths_judged(*request, *response, r is Ok),
        all_portable(*request, *response) ==> (r is Ok <==> same_files_named(*request, *response)),
        r matches Err(e) ==> e@ == wrong_paths_error(*request, *response, text::opt_text(snapshot)),
{
    let html = same_path(response.html_path.as_str(), request.html_path.as_str());
    let shot = same_path(response.screenshot_path.as_str(), request.screenshot_path.as_str());
    let same_files = html && shot;
    proof {
        assert(path_judged(response.html_path@, request.html_path@, html));
        assert(path_judged(response.screenshot_path@, request.screenshot_path@, shot));
    }
    judge_capture_paths(request, response, same_files, snapshot)
}

/// The parts of the message of a capture that did not succeed.
pub open spec fn failure_parts(reason: Seq<char>, logs: Seq<Seq<char>>, stderr: Seq<char>) -> Seq<Seq<char>> {
    seq![text::trim(reason)] + (if logs.len() > 0 {
        seq!["logs="@ + output_summary(text::join(logs, " | "@))]
    } else {
        Seq::empty()
    }) + (if !text::is_blank(stderr) {
        seq!["stderr="@ + output_summary(stderr)]
    } else {
        Seq::empty()
    })
}

pub fn format_browser_failure_message(reason: &str, logs: &Vec<String>, stderr: &str) -> (r: String)
    ensures
        r@ == text::join(failure_parts(reason@, text::texts(logs@), stderr@), "; "@),
{
    let mut parts: Vec<String> = Vec::new();
    parts.push(trimmed(reason));
    if logs.len() > 0 {
        let all = join_strings(logs.as_slice(), " | ");
        let short = summarize_output(all.as_str());
        parts.push(cat2("logs=", short.as_str()));
    }
    if !blank(stderr) {
        let short = summarize_output(stderr);
        parts.push(cat2("stderr=", short.as_str()));
    }
    proof {
        assert(text::texts(logs@).len() == logs@.len());
        assert(text::texts(parts@) =~= failure_parts(reason@, text::texts(logs@), stderr@));
    }
    join_strings(parts.as_slice(), "; ")
}

/// The error of a capture that did not succeed.
pub open spec fn capture_error(
    response: BrowserCaptureResponse,
    stderr: Seq<char>,
    snapshot: Option<Seq<char>>,
) -> ErrorData {
    outcome::browser_error(
        response.page_kind@,
        text::join(
            failure_parts(
                text::text_or(text::opt_text(response.reason), "浏览器抓取未成功"@),
                text::texts(response.logs@),
                stderr,
            ),
            "; "@,
        ),
        snapshot,
    )
}

/// Judges the answer of a worker. `asked_shot` is the picture where it was asked for, and
/// `named_shot` the one that the answer names, where there is one.
pub fn judge_capture(
    request: &BrowserCaptureRequest,
    response: BrowserCaptureResponse,
    stderr: &str,
    asked_shot: Option<String>,
    named_shot: Option<String>,
) -> (r: Result<BrowserCaptureResult, PipelineTaskError>)
    ensures
        match r {
            Ok(page) => response.ok && paths_judged(*request, response, true) && page.page_kind@
                == response.page_kind@ && page.final_url@ == response.final_url@ && text::opt_text(
                page.title,
            ) == text::opt_text(response.title) && page.html_path@ == response.html_path@
                && page.screenshot_path@ == response.screenshot_path@,
            Err(e) => (paths_judged(*request, response, false) && e@ == wrong_paths_error(
                *request,
                response,
                text::opt_text(asked_shot),
            )) || (paths_judged(*request, response, true) && !response.ok && e@ == capture_error(
                response,
                stderr@,
                text::opt_text(named_shot),
            )),
        },
        all_portable(*request, response) ==> match r {
            Ok(_) => same_files_named(*request, response) && response.ok,
            Err(e) => if same_files_named(*request, response) {
                !response.ok && e@ == capture_error(response, stderr@, text::opt_text(named_shot))
            } else {
                e@ == wrong_paths_error(*request, response, text::opt_text(asked_shot))
            },
        },
{
    match validate_browser_capture_paths(request, &response, asked_shot) {
        Ok(_) => {},
        Err(e) => {
            return Err(e);
        },
    }
    if response.ok {
        return Ok(
            BrowserCaptureResult {
                page_kind: response.page_kind,
                final_url: response.final_url,
                title: response.title,
                html_path: response.html_path,
                screenshot_path: response.screenshot_path,
            },
        );
    }
    let reason = string_or(&response.reason, "浏览器抓取未成功");
    let message = format_browser_failure_message(reason.as_str(), &response.logs, stderr);
    Err(
        PipelineTaskError::browser_manual_input(response.page_kind.as_str(), message, named_shot),
    )
}

/// A page that the library takes from a worker is one that was asked for: an answer with
/// portable paths that names another file is refused.
pub proof fn lemma_captured_files_are_those_asked_for(
    request: BrowserCaptureRequest,
    response: BrowserCaptureResponse,
)
    requires
        paths_judged(request, response, true),
        all_portable(request, response),
    ensures
        same_files_named(request, response),
{
}

/// An answer with a path from the root is refused where the request asked for one that
/// starts elsewhere, and the other way round.
pub proof fn lemma_other_start_is_refused(
    request: BrowserCaptureRequest,
    response: BrowserCaptureResponse,
)
    requires
        apart(request.html_path@, response.html_path@) || apart(
            response.html_path@,
            request.html_path@,
        ),
    ensures
        !paths_judged(request, response, true),
{
}

// ---------------------------------------------------------------------------
// Laws
// ---------------------------------------------------------------------------

/// The message of a capture that did not succeed begins with the reason and tells what the
/// worker logged and wrote, in this order, where there is anything to tell.
pub proof fn lemma_failure_is_told(reason: Seq<char>, logs: Seq<Seq<char>>, stderr: Seq<char>)
    ensures
        ({
            let r = text::join(failure_parts(reason, logs, stderr), "; "@);
            &&& text::starts_with(r, text::trim(reason))
            &&& logs.len() > 0 ==> text::contains(
                r,
                "logs="@ + output_summary(text::join(logs, " | "@)),
            )
            &&& !text::is_blank(stderr) ==> text::ends_with(r, "stderr="@ + output_summary(stderr))
            &&& logs.len() == 0 && text::is_blank(stderr) ==> r == text::trim(reason)
        }),
{
    let parts = failure_parts(reason, logs, stderr);
    text::lemma_join_places(parts, "; "@, 0);
    if logs.len() > 0 {
        text::lemma_join_holds(parts, "; "@, 1);
    }
    if !text::is_blank(stderr) {
        let last = "stderr="@ + output_summary(stderr);
        assert(parts.last() == last);
        let r = text::join(parts, "; "@);
        assert(r == text::join(parts.drop_last(), "; "@) + "; "@ + last);
        let n = r.len() - last.len();
        assert(r.subrange(n, n + last.len()) =~= last);
    }
}

/// Only a failure to make a place for the files or to write the request ends a task; every
/// other failure leaves the page to the user, with the picture of it.
pub proof fn lemma_worker_failures(f: WorkerFailure, snapshot: Option<Seq<char>>)
    ensures
        ({
            let e = worker_error_data(f, snapshot);
            &&& (e.awaiting is None) == (f is MakeRawDir || f is MakeSnapshotDir
                || f is SerializeRequest)
            &&& e.awaiting is Some ==> e.snapshot_path == snapshot && e.content_source == Some(
                "browser_capture"@,
            )
            &&& f is TimedOut || f is KillTimedOut ==> e.awaiting == Some("browser_worker_timeout"@)
            &&& f is Unparsable || f is NotUtf8 ==> e.awaiting == Some(
                "browser_worker_invalid_output"@,
            )
        }),
{
}

/// The output of a worker is shown on one line and cut to a length; an empty one says so.
pub proof fn lemma_output_summary(output: Seq<char>)
    ensures
        ({
            let line = html_extract::one_line(output);
            &&& line.len() == 0 ==> output_summary(output) == "(empty)"@
            &&& 0 < line.len() <= 240 ==> output_summary(output) == line
            &&& line.len() > 240 ==> output_summary(output).take(240) == line.take(240)
                && output_summary(output).len() == 243
        }),
{
    let line = html_extract::one_line(output);
    reveal_strlit("...");
    if line.len() > 240 {
        assert(output_summary(output).take(240) =~= line.take(240));
    }
}

/// An answer that names another file than the one that was asked for, be it the page or its
/// picture, is not taken.
pub proof fn lemma_other_file_is_refused(
    request: BrowserCaptureRequest,
    response: BrowserCaptureResponse,
    same: bool,
)
    requires
        paths_judged(request, response, same),
        all_portable(request, response),
    ensures
        !same_place(response.html_path@, request.html_path@) ==> !same,
        !same_place(response.screenshot_path@, request.screenshot_path@) ==> !same,
        response.html_path@ == request.html_path@ && response.screenshot_path@
            == request.screenshot_path@ ==> same,
{
}

/// The files that were asked for are named where both the page and its picture are.
pub proof fn lemma_both_files_are_named(
    request: BrowserCaptureRequest,
    response: BrowserCaptureResponse,
)
    ensures
        same_files_named(request, response) ==> same_place(
            response.html_path@,
            request.html_path@,
        ),
        same_files_named(request, response) ==> same_place(
            response.screenshot_path@,
            request.screenshot_path@,
        ),
        response.html_path@ == request.html_path@ && response.screenshot_path@
            == request.screenshot_path@ ==> same_files_named(request, response),
{
}

} // verus!
