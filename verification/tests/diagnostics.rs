use hurl_lsp::diagnostics::parse_document;

#[test]
fn parses_entries() {
    let parsed = parse_document("GET https://example.com\nHTTP 200\n\nPOST /users\nHTTP 201\n");
    assert_eq!(parsed.entries.len(), 2);
    assert_eq!(parsed.entries[0].method, "GET");
    assert_eq!(parsed.entries[1].path, "/users");
}

use hurl_lsp::diagnostics::{collect_diagnostics, SyntaxError};
use hurl_lsp::lsp::DiagnosticSeverity;

fn diags(text: &str) -> Vec<hurl_lsp::lsp::Diagnostic> {
    collect_diagnostics(text, None)
}

#[test]
fn flags_unknown_section() {
    let diagnostics = diags("[Headerz]\nfoo: bar\n");
    assert!(diagnostics
        .iter()
        .any(|diagnostic| diagnostic.message.contains("Unknown section")));
}

#[test]
fn warns_for_undefined_variables() {
    let diagnostics = diags("GET https://example.com/{{missing}}\nHTTP 200\n");
    assert!(diagnostics
        .iter()
        .any(|diagnostic| diagnostic.message.contains("Undefined variable")));
}

#[test]
fn does_not_warn_for_captured_variables() {
    let diagnostics = diags(
        "GET https://example.com/users\nHTTP 200\n[Captures]\nuser_id: jsonpath \"$.id\"\n\nGET https://example.com/users/{{user_id}}\nHTTP 200\n",
    );
    assert!(!diagnostics
        .iter()
        .any(|diagnostic| diagnostic.message.contains("Undefined variable")));
}

#[test]
fn warns_for_duplicate_section() {
    let diagnostics = diags("GET /users\nHTTP 200\n[Headers]\nx-a: b\n[Headers]\nx-c: d\n");
    assert!(diagnostics
        .iter()
        .any(|diagnostic| diagnostic.message.contains("Duplicate section")));
}

#[test]
fn errors_for_invalid_http_status_format() {
    let diagnostics = diags("GET /users\nHTTP abc\n");
    assert!(diagnostics
        .iter()
        .any(|diagnostic| diagnostic.message.contains("Invalid HTTP status code")));
}

#[test]
fn allows_http_star_status() {
    let diagnostics = diags("GET /users\nHTTP *\n");
    assert!(!diagnostics
        .iter()
        .any(|diagnostic| diagnostic.message.contains("Invalid HTTP status code")));
}

#[test]
fn accepts_short_section_names() {
    let diagnostics = diags("GET /users\nHTTP 200\n[Query]\nid: 1\n");
    assert!(!diagnostics
        .iter()
        .any(|diagnostic| diagnostic.message.contains("Unknown section")));
}

#[test]
fn ignores_json_array_as_section() {
    let diagnostics = diags("GET /users\nHTTP 200\n[\n  1,\n  2\n]\n");
    assert!(!diagnostics
        .iter()
        .any(|diagnostic| diagnostic.message.contains("Unknown section")));
}

#[test]
fn does_not_treat_later_capture_as_visible() {
    let diagnostics = diags(
        "GET /users/{{user_id}}\nHTTP 200\n\nGET /users\nHTTP 200\n[Captures]\nuser_id: jsonpath \"$.id\"\n",
    );
    assert!(diagnostics.iter().any(|diagnostic| diagnostic
        .message
        .contains("Undefined variable `{{user_id}}`")));
}

#[test]
fn recognizes_builtin_template_variables() {
    let diagnostics = diags("GET /users/{{newUuid}}\nHTTP 200\n");
    assert!(!diagnostics
        .iter()
        .any(|diagnostic| diagnostic.message.contains("Undefined variable")));
}

#[test]
fn warns_for_duplicate_section_aliases() {
    let diagnostics = diags("GET /users\nHTTP 200\n[Query]\na: 1\n[QueryStringParams]\nb: 2\n");
    assert!(diagnostics
        .iter()
        .any(|diagnostic| diagnostic.message.contains("Duplicate section")));
}

#[test]
fn diagnostics_come_sorted_with_exact_ranges() {
    let text = "[Foo]\nget /x\nGET /a/{{ b }}/{{c}}\nHTTP 20\n";
    let d = collect_diagnostics(
        text,
        Some(SyntaxError { line: 2, column: 1, description: "bad".to_string() }),
    );
    let summary: Vec<(u32, u32, u32, String)> = d
        .iter()
        .map(|x| (x.range.start.line, x.range.start.character, x.range.end.character, x.message.clone()))
        .collect();
    assert_eq!(
        summary,
        vec![
            (0, 0, 5, "Unknown section `[Foo]`".to_string()),
            (1, 0, 1, "bad".to_string()),
            (2, 7, 14, "Undefined variable `{{b}}`".to_string()),
            (2, 15, 20, "Undefined variable `{{c}}`".to_string()),
            (3, 0, 7, "Invalid HTTP status code `20`".to_string()),
        ]
    );
    assert_eq!(d[1].source, "hurl_core");
    assert_eq!(d[2].severity, DiagnosticSeverity::Warning);
    let unknown_method = collect_diagnostics("FETCH /x\n", None);
    assert_eq!(unknown_method.len(), 1);
    assert_eq!(unknown_method[0].message, "Unknown HTTP method `FETCH`");
    assert_eq!(unknown_method[0].range.end.character, 5);
}

#[test]
fn non_ascii_placeholders_use_byte_offsets() {
    let d = collect_diagnostics("GET /é/{{x}}\n", None);
    assert_eq!(d.len(), 1);
    assert_eq!((d[0].range.start.character, d[0].range.end.character), (8, 13));
}

#[test]
fn syntax_error_is_reported_once_and_only_when_given() {
    let text = "GETT /a\n[Headerz]\n";
    let error = SyntaxError { line: 1, column: 1, description: "Unknown HTTP method `GETT`".into() };
    let with = collect_diagnostics(text, Some(error));
    assert_eq!(with.iter().filter(|d| d.source == "hurl_core").count(), 1);
    let core = with.iter().find(|d| d.source == "hurl_core").unwrap();
    assert_eq!(core.range.start.line, 0);
    assert_eq!(core.range.end.character, 1);
    let without = collect_diagnostics(text, None);
    assert!(without.iter().all(|d| d.source == "hurl-lsp"));
}

#[test]
fn requests_are_the_request_lines_in_order() {
    let parsed = parse_document("# GET /comment\nHTTP 200\nGET /a\n  POST /b extra\nGETX /c\nPUT\n");
    let lines: Vec<u32> = parsed.entries.iter().map(|e| e.line).collect();
    assert_eq!(lines, vec![2, 3]);
    assert_eq!(parsed.entries[1].method, "POST");
}
