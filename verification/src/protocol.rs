//! The messages that the server sends to the editor about runs and cURL exports.
use vstd::prelude::*;

verus! {

pub const RUN_RESULT_METHOD: &'static str = "hurl/runResult";

pub const RUN_TASK_UPDATE_METHOD: &'static str = "hurl/runTaskUpdate";

pub const CURL_RESULT_METHOD: &'static str = "hurl/curlResult";

/// Where a run task stands.
#[derive(Clone, Copy, Debug, PartialEq, Eq, Structural)]
pub enum RunTaskState {
    Queued,
    Running,
    Cancelling,
    Succeeded,
    Failed,
    Cancelled,
    TimedOut,
}

/// A change in the state of a run task.
#[derive(Clone, Debug)]
pub struct RunTaskUpdate {
    pub task_id: String,
    pub uri: String,
    pub document_version: i32,
    pub entry_line: u32,
    pub target: String,
    pub state: RunTaskState,
    pub started_at: String,
    pub elapsed_ms: u64,
    pub profile_name: Option<String>,
    pub message: Option<String>,
    pub stdout: Option<String>,
    pub stderr: Option<String>,
}

/// One HTTP header, with whether its value is a secret.
#[derive(Clone, Debug, Default)]
pub struct HeaderField {
    pub name: String,
    pub value: String,
    pub sensitive: bool,
}

/// A request or response body as shown to the user.
#[derive(Clone, Debug)]
pub struct BodyContent {
    pub text: Option<String>,
    pub media_type: Option<String>,
    pub encoding: String,
    pub original_bytes: usize,
    pub truncated: bool,
}

#[derive(Clone, Debug, Default)]
pub struct HttpRequestData {
    pub method: String,
    pub url: String,
    pub headers: Vec<HeaderField>,
    pub body: Option<BodyContent>,
}

#[derive(Clone, Debug, Default)]
pub struct HttpResponseData {
    pub version: Option<String>,
    pub status: Option<u16>,
    pub headers: Vec<HeaderField>,
    pub body: Option<BodyContent>,
}

/// One request sent during a run and the response it got.
#[derive(Clone, Debug, Default)]
pub struct HttpExchange {
    pub request: HttpRequestData,
    pub response: Option<HttpResponseData>,
    pub duration_ms: Option<u64>,
    pub timings: Option<HttpTimings>,
}

/// The phases of one HTTP call, in milliseconds.
#[derive(Clone, Copy, Debug, Default, PartialEq, Eq, Structural)]
pub struct HttpTimings {
    pub dns_ms: u64,
    pub tcp_ms: u64,
    pub tls_ms: u64,
    pub ttfb_ms: u64,
    pub download_ms: u64,
    pub total_ms: u64,
}

/// The phases of a whole run, in milliseconds.
#[derive(Clone, Copy, Debug, Default, PartialEq, Eq, Structural)]
pub struct RunPhaseTimings {
    pub prepare_ms: u64,
    pub process_ms: u64,
    pub report_ms: u64,
    pub total_ms: u64,
}

/// An assertion that did not hold, with its 0-based line when known.
#[derive(Clone, Debug)]
pub struct FailedAssertion {
    pub message: String,
    pub line: Option<u32>,
}

/// The outcome of running a request, a chain or a file.
#[derive(Clone, Debug)]
pub struct RunResult {
    pub task_id: Option<String>,
    pub uri: String,
    pub document_version: i32,
    pub entry_line: u32,
    pub target: String,
    pub success: bool,
    pub exit_code: Option<i32>,
    pub started_at: String,
    pub duration_ms: Option<u64>,
    pub profile_name: Option<String>,
    pub profile_sources: Vec<String>,
    pub phase_timings: Option<RunPhaseTimings>,
    pub exchanges: Vec<HttpExchange>,
    pub failed_assertions: Vec<FailedAssertion>,
    pub stdout: String,
    pub stderr: String,
    pub parse_warning: Option<String>,
}

/// The outcome of exporting a request as a cURL command.
#[derive(Clone, Debug)]
pub struct CurlResult {
    pub uri: String,
    pub document_version: i32,
    pub entry_line: u32,
    pub ok: bool,
    pub command: Option<String>,
    pub display_command: Option<String>,
    pub unresolved_variables: Vec<String>,
    pub error: Option<String>,
    pub copy_to_clipboard: bool,
}

/// `HeaderField` as a mathematical value.
pub struct HeaderView {
    pub name: Seq<char>,
    pub value: Seq<char>,
    pub sensitive: bool,
}

pub open spec fn header_view(h: HeaderField) -> HeaderView {
    HeaderView { name: h.name@, value: h.value@, sensitive: h.sensitive }
}

pub open spec fn headers_view(v: Seq<HeaderField>) -> Seq<HeaderView> {
    v.map_values(|h: HeaderField| header_view(h))
}

pub open spec fn str_opt(o: Option<String>) -> Option<Seq<char>> {
    match o {
        Some(s) => Some(s@),
        None => None,
    }
}

/// `BodyContent` as a mathematical value.
pub struct BodyView {
    pub text: Option<Seq<char>>,
    pub media_type: Option<Seq<char>>,
    pub encoding: Seq<char>,
    pub original_bytes: usize,
    pub truncated: bool,
}

pub open spec fn body_view(b: BodyContent) -> BodyView {
    BodyView {
        text: str_opt(b.text),
        media_type: str_opt(b.media_type),
        encoding: b.encoding@,
        original_bytes: b.original_bytes,
        truncated: b.truncated,
    }
}

pub open spec fn body_opt(o: Option<BodyContent>) -> Option<BodyView> {
    match o {
        Some(b) => Some(body_view(b)),
        None => None,
    }
}

pub struct RequestView {
    pub method: Seq<char>,
    pub url: Seq<char>,
    pub headers: Seq<HeaderView>,
    pub body: Option<BodyView>,
}

pub struct ResponseView {
    pub version: Option<Seq<char>>,
    pub status: Option<u16>,
    pub headers: Seq<HeaderView>,
    pub body: Option<BodyView>,
}

pub struct ExchangeView {
    pub request: RequestView,
    pub response: Option<ResponseView>,
    pub duration_ms: Option<u64>,
    pub timings: Option<HttpTimings>,
}

pub open spec fn request_view(r: HttpRequestData) -> RequestView {
    RequestView { method: r.method@, url: r.url@, headers: headers_view(r.headers@), body: body_opt(r.body) }
}

pub open spec fn response_view(r: HttpResponseData) -> ResponseView {
    ResponseView { version: str_opt(r.version), status: r.status, headers: headers_view(r.headers@), body: body_opt(r.body) }
}

pub open spec fn exchange_view(x: HttpExchange) -> ExchangeView {
    ExchangeView {
        request: request_view(x.request),
        response: match x.response {
            Some(r) => Some(response_view(r)),
            None => None,
        },
        duration_ms: x.duration_ms,
        timings: x.timings,
    }
}

pub open spec fn exchanges_view(v: Seq<HttpExchange>) -> Seq<ExchangeView> {
    v.map_values(|x: HttpExchange| exchange_view(x))
}

pub struct FailedView {
    pub message: Seq<char>,
    pub line: Option<u32>,
}

pub open spec fn failed_view(f: FailedAssertion) -> FailedView {
    FailedView { message: f.message@, line: f.line }
}

pub open spec fn faileds_view(v: Seq<FailedAssertion>) -> Seq<FailedView> {
    v.map_values(|f: FailedAssertion| failed_view(f))
}

/// `RunResult` as a mathematical value.
pub struct ResultView {
    pub task_id: Option<Seq<char>>,
    pub uri: Seq<char>,
    pub document_version: i32,
    pub entry_line: u32,
    pub target: Seq<char>,
    pub success: bool,
    pub exit_code: Option<i32>,
    pub started_at: Seq<char>,
    pub duration_ms: Option<u64>,
    pub profile_name: Option<Seq<char>>,
    pub profile_sources: Seq<Seq<char>>,
    pub phase_timings: Option<RunPhaseTimings>,
    pub exchanges: Seq<ExchangeView>,
    pub failed_assertions: Seq<FailedView>,
    pub stdout: Seq<char>,
    pub stderr: Seq<char>,
    pub parse_warning: Option<Seq<char>>,
}

pub open spec fn result_view(r: RunResult) -> ResultView {
    ResultView {
        task_id: str_opt(r.task_id),
        uri: r.uri@,
        document_version: r.document_version,
        entry_line: r.entry_line,
        target: r.target@,
        success: r.success,
        exit_code: r.exit_code,
        started_at: r.started_at@,
        duration_ms: r.duration_ms,
        profile_name: str_opt(r.profile_name),
        profile_sources: r.profile_sources@.map_values(|s: String| s@),
        phase_timings: r.phase_timings,
        exchanges: exchanges_view(r.exchanges@),
        failed_assertions: faileds_view(r.failed_assertions@),
        stdout: r.stdout@,
        stderr: r.stderr@,
        parse_warning: str_opt(r.parse_warning),
    }
}

} // verus!
