use hurl_lsp::execution::RunTarget;
use hurl_lsp::report::{
    decode_ansi_c_string, parse_hurl_report_result, parse_shell_argument, report_body_paths, RunResultContext,
};

fn context(success: bool, exit_code: Option<i32>) -> RunResultContext {
    RunResultContext {
        uri: "file:///tmp/a.hurl".into(),
        document_version: 2,
        entry_line: 0,
        target: RunTarget::Entry,
        success,
        exit_code,
    }
}

const REPORT: &str = r#"[{"success":true,"time":15,"entries":[{"asserts":[],"curl_cmd":"curl --data $'{\"name\":\"O\\'Brien\"}\\n' 'https://example.com'","calls":[{"request":{"method":"POST","url":"https://example.com","headers":[{"name":"Authorization","value":"Bearer token"},{"name":"Content-Type","value":"application/json"}]},"response":{"http_version":"HTTP/2","status":200,"headers":[{"name":"Content-Type","value":"application/json"}],"body":"store/body.json"},"timings":{"begin_call":"2026-09-05T00:00:00Z","name_lookup":1000,"connect":3000,"app_connect":8000,"start_transfer":12000,"total":15000}}]}]}]"#;

#[test]
fn parses_report_metadata_and_body() {
    let files = vec![("store/body.json".to_string(), Some(b"{\"ok\":true}".to_vec()))];
    let result = parse_hurl_report_result(&context(true, Some(0)), Some(REPORT.as_bytes().to_vec()), &files, b"", b"");
    assert_eq!(result.duration_ms, Some(15));
    let timings = result.exchanges[0].timings.as_ref().expect("timings");
    assert_eq!((timings.dns_ms, timings.tcp_ms, timings.tls_ms), (1, 2, 5));
    assert_eq!((timings.ttfb_ms, timings.download_ms, timings.total_ms), (4, 3, 15));
    assert_eq!(result.exchanges[0].response.as_ref().and_then(|r| r.status), Some(200));
    assert_eq!(
        result.exchanges[0].response.as_ref().and_then(|r| r.body.as_ref()).and_then(|b| b.text.as_deref()),
        Some("{\"ok\":true}")
    );
    assert!(result.exchanges[0].request.headers[0].sensitive);
    assert_eq!(
        result.exchanges[0].request.body.as_ref().and_then(|body| body.text.as_deref()),
        Some("{\"name\":\"O'Brien\"}\n")
    );
    assert_eq!(result.started_at, "2026-09-05T00:00:00Z");
    assert_eq!(result.target, "entry");
    assert_eq!(result.exchanges[0].duration_ms, Some(15));
    let body = result.exchanges[0].response.as_ref().unwrap().body.as_ref().unwrap();
    assert_eq!(body.media_type.as_deref(), Some("application/json"));
    assert_eq!(body.encoding, "utf8");
    assert_eq!(body.original_bytes, 11);
    assert!(!body.truncated);
    assert!(result.parse_warning.is_none());
}

#[test]
fn falls_back_to_raw_output_for_invalid_report() {
    let result = parse_hurl_report_result(&context(false, Some(2)), None, &Vec::new(), b"raw", b"error");
    assert!(result.parse_warning.is_some());
    assert_eq!(result.stdout, "raw");
    assert_eq!(result.stderr, "error");
    let invalid = parse_hurl_report_result(&context(false, Some(2)), Some(b"not json".to_vec()), &Vec::new(), b"", b"");
    assert_eq!(
        invalid.parse_warning.as_deref(),
        Some("Hurl JSON report was unavailable or invalid; showing raw output.")
    );
    let empty = parse_hurl_report_result(&context(false, Some(2)), Some(b"[]".to_vec()), &Vec::new(), b"", b"");
    assert_eq!(empty.parse_warning.as_deref(), Some("Hurl JSON report did not contain a file result."));
    assert_eq!(empty.started_at, "");
}

#[test]
fn object_report_collects_failed_assertions_and_binary_bodies() {
    let report = r#"{"time":7,"entries":[{"asserts":[{"success":true},{"success":false,"line":4,"message":"status mismatch"},{"success":false}],"calls":[{"request":{"method":"GET","url":"/x","body":"store/req.bin"},"response":{"status":500}}]}]}"#;
    let files = vec![("store/req.bin".to_string(), Some(vec![0xff, 0xfe]))];
    let result = parse_hurl_report_result(&context(false, Some(4)), Some(report.as_bytes().to_vec()), &files, &[0xff], b"");
    assert_eq!(result.duration_ms, Some(7));
    assert_eq!(result.failed_assertions.len(), 2);
    assert_eq!(result.failed_assertions[0].message, "status mismatch");
    assert_eq!(result.failed_assertions[0].line, Some(3));
    assert_eq!(result.failed_assertions[1].message, "Assertion failed");
    assert_eq!(result.failed_assertions[1].line, None);
    assert_eq!(result.started_at, "unknown");
    let body = result.exchanges[0].request.body.as_ref().unwrap();
    assert!(body.text.is_none());
    assert_eq!(body.encoding, "binary");
    assert_eq!(body.original_bytes, 2);
    assert!(result.exchanges[0].timings.is_none());
    assert_eq!(result.stdout, "\u{fffd}");
}

#[test]
fn lists_body_files_of_calls() {
    let report = r#"[{"entries":[{"calls":[{"request":{"body":"store/a"},"response":{"body":"store/b"}},{"request":{}}]},{"calls":[{"response":{"body":"store/c"}}]}]}]"#;
    assert_eq!(report_body_paths(report.as_bytes()), vec!["store/a", "store/b", "store/c"]);
    assert!(report_body_paths(b"oops").is_empty());
}

#[test]
fn shell_arguments_and_ansi_strings() {
    assert_eq!(decode_ansi_c_string("a\\tb\\'c' rest"), Some("a\tb'c".to_string()));
    assert_eq!(decode_ansi_c_string("unterminated"), None);
    assert_eq!(decode_ansi_c_string("x\\"), None);
    assert_eq!(parse_shell_argument("'quoted text' more"), Some("quoted text".to_string()));
    assert_eq!(parse_shell_argument("'open"), None);
    assert_eq!(parse_shell_argument("plain word"), Some("plain".to_string()));
    assert_eq!(parse_shell_argument(" leading"), None);
    assert_eq!(parse_shell_argument("$'x\\ny'"), Some("x\ny".to_string()));
}
