use hurl_lsp::execution::{
    duration_would_panic, execution_diagnostics_for_entry_failure, execution_diagnostics_for_result, parse_duration_ms,
    parse_run_summary,
    RunTarget,
};
use hurl_lsp::lsp::DiagnosticSeverity;

#[test]
fn returns_error_diagnostic_for_failed_run() {
    let diagnostics = execution_diagnostics_for_result(12, false, "assert failed: status == 200");
    assert_eq!(diagnostics.len(), 1);
    let diag = &diagnostics[0];
    assert_eq!(diag.range.start.line, 12);
    assert_eq!(diag.severity, DiagnosticSeverity::Error);
    assert!(diag.message.contains("assert failed"));
}

#[test]
fn maps_failed_run_to_assert_lines_when_present() {
    let source = "POST /users\nHTTP 201\n[Asserts]\nstatus == 201\njsonpath \"$.id\" exists\n";
    let diagnostics =
        execution_diagnostics_for_entry_failure(source, 0, "assert failed: status == 201");
    assert_eq!(diagnostics.len(), 1);
    assert_eq!(diagnostics[0].range.start.line, 3);
}

#[test]
fn matches_failed_assert_marker_case_insensitively() {
    let source = "POST /users\nHTTP 201\n[Asserts]\nstatus == 201\n";
    let diagnostics =
        execution_diagnostics_for_entry_failure(source, 0, "Assert Failed: status == 201");
    assert_eq!(diagnostics.len(), 1);
    assert_eq!(diagnostics[0].range.start.line, 3);
}

#[test]
fn parses_run_summary_with_failed_asserts_and_duration() {
    let summary = parse_run_summary("2 assert failed · 230ms", "", false);
    assert!(!summary.success);
    assert_eq!(summary.failed_asserts, 2);
    assert_eq!(summary.duration_ms, Some(230));
}

#[test]
fn parses_failed_assert_count_from_stdout_when_stderr_empty() {
    let summary = parse_run_summary("", "1 assert failed · 120ms", false);
    assert!(!summary.success);
    assert_eq!(summary.failed_asserts, 1);
    assert_eq!(summary.duration_ms, Some(120));
}

#[test]
fn summary_without_markers_and_with_spaced_duration() {
    let summary = parse_run_summary("took 15 MS", "no count here: assert failed", true);
    assert!(summary.success);
    assert_eq!(summary.failed_asserts, 1);
    assert_eq!(summary.duration_ms, Some(15));
    let summary = parse_run_summary("", "", true);
    assert_eq!(summary.failed_asserts, 0);
    assert_eq!(summary.duration_ms, None);
}

#[test]
fn entry_failure_without_asserts_falls_back_to_request_line() {
    let source = "GET /a\nHTTP 200\n\nGET /b\nHTTP 200\n[Asserts]\nstatus == 200\n";
    let diagnostics = execution_diagnostics_for_entry_failure(source, 0, "boom");
    assert_eq!(diagnostics.len(), 1);
    assert_eq!(diagnostics[0].range.start.line, 0);
    assert_eq!(diagnostics[0].message, "Run failed: boom");
    assert_eq!(diagnostics[0].source, "hurl-lsp-run");
    assert!(execution_diagnostics_for_result(3, true, "ok").is_empty());
}

#[test]
fn run_target_names() {
    assert_eq!(RunTarget::Entry.as_str(), "entry");
    assert_eq!(RunTarget::Chain.as_str(), "chain");
    assert_eq!(RunTarget::File.as_str(), "file");
}

#[test]
fn duration_reading_that_would_slice_inside_a_character_is_detected() {
    assert!(duration_would_panic("·ms"));
    assert!(!duration_would_panic("2 assert failed · 230ms"));
    assert!(!duration_would_panic("no duration"));
    assert_eq!(parse_duration_ms("done in 42 ms"), Some(42));
}

#[test]
fn entry_failure_reports_every_matching_assert_line_of_the_request() {
    let source = "GET /a\nHTTP 200\n[Asserts]\nstatus == 200\n# status == 200\njsonpath \"$.id\" == 1\n[Captures]\nx: status == 200\n[Asserts]\nstatus == 200\nGET /b\nHTTP 200\n[Asserts]\nstatus == 200\n";
    let diagnostics = execution_diagnostics_for_entry_failure(source, 0, "assert failed: status == 200");
    let lines: Vec<u32> = diagnostics.iter().map(|d| d.range.start.line).collect();
    assert_eq!(lines, vec![3, 9]);
    let all = execution_diagnostics_for_entry_failure(source, 0, "boom");
    let lines: Vec<u32> = all.iter().map(|d| d.range.start.line).collect();
    assert_eq!(lines, vec![3, 5, 9]);
}
