use hurl_lsp::code_lens::{code_lenses, LensArgument, RUN_ENTRY_COMMAND};
use hurl_lsp::completion::{completions, cursor_on_boundary};
use hurl_lsp::definition::definition;
use hurl_lsp::hover::hover;
use hurl_lsp::lsp::Position;

fn p(line: u32, character: u32) -> Position {
    Position { line, character }
}

#[test]
fn generates_summary_and_run_lenses() {
    let uri = "file:///tmp/test.hurl";
    let text = "GET /users\nHTTP 200\n[Headers]\na: b\n[Asserts]\nstatus == 200\n";
    let lenses = code_lenses(uri, text);
    assert_eq!(lenses.len(), 2);
    assert!(lenses[0]
        .command
        .as_ref()
        .expect("summary")
        .title
        .contains("GET /users"));
    assert_eq!(
        lenses[1].command.as_ref().expect("run").command,
        RUN_ENTRY_COMMAND
    );
}

#[test]
fn summary_lens_counts_sections_of_its_request_only() {
    let text = "GET /a\n[Asserts]\n[Captures]\nPOST /b\n[Headers]\n[Headers]\n";
    let lenses = code_lenses("u", text);
    assert_eq!(lenses.len(), 4);
    assert_eq!(
        lenses[0].command.as_ref().unwrap().title,
        "📋 GET /a  │ 0 headers │ 1 asserts │ 1 captures"
    );
    assert_eq!(
        lenses[2].command.as_ref().unwrap().title,
        "📋 POST /b  │ 2 headers │ 0 asserts │ 0 captures"
    );
    assert_eq!(lenses[3].range.start.line, 3);
    assert_eq!(
        lenses[3].command.as_ref().unwrap().arguments,
        Some(vec![LensArgument::Text("u".to_string()), LensArgument::Number(3)])
    );
}

#[test]
fn returns_method_completions_by_default() {
    let items = completions("", p(0, 0));
    assert!(items.iter().any(|item| item.label == "GET"));
}

#[test]
fn returns_assert_completions_inside_asserts_block() {
    let items = completions("[Asserts]\njs", p(1, 2));
    assert!(items.iter().any(|item| item.label == "jsonpath"));
}

#[test]
fn returns_variable_completions_from_captures() {
    let text = "[Captures]\nuser_id: jsonpath \"$.id\"\n\nGET /users/{{u";
    let items = completions(text, p(3, 13));
    assert!(items.iter().any(|item| item.label == "user_id"));
}

#[test]
fn resets_assert_context_on_next_request() {
    let text = "GET /a\nHTTP 200\n[Asserts]\njsonpath \"$.id\" == 1\n\nGET /b\n";
    let items = completions(text, p(5, 2));
    assert!(!items.iter().any(|item| item.label == "jsonpath"));
}

#[test]
fn supports_short_section_completion() {
    let items = completions("[Q", p(0, 2));
    assert!(items.iter().any(|item| item.label == "[Query]"));
    assert!(items.iter().any(|item| item.label == "[Form]"));
}

#[test]
fn does_not_suggest_future_capture_variable() {
    let text = "GET /users/{{u}}\nHTTP 200\n\nGET /a\nHTTP 200\n[Captures]\nuser_id: jsonpath \"$.id\"\n";
    let items = completions(text, p(0, 14));
    assert!(!items.iter().any(|item| item.label == "user_id"));
}

#[test]
fn variable_completion_does_not_duplicate_closing_braces() {
    let text = "GET /a\nHTTP 200\n[Captures]\nuser_id: jsonpath \"$.id\"\n\nGET /users/{{u}}\n";
    let items = completions(text, p(5, 14));
    let item = items.iter().find(|item| item.label == "user_id").expect("user_id offered");
    assert_eq!(item.insert_text.as_deref(), Some("user_id"));
    let open = "GET /a\nHTTP 200\n[Captures]\nuser_id: jsonpath \"$.id\"\n\nGET /users/{{u /x\n";
    let items = completions(open, p(5, 14));
    let item = items.iter().find(|item| item.label == "user_id").expect("user_id offered");
    assert_eq!(item.insert_text.as_deref(), Some("user_id}}"));
}

#[test]
fn variable_completions_are_sorted_and_close_the_placeholder() {
    let text = "GET /a\n[Captures]\nzeta: x\nalpha: y\nbeta: z\nGET /b/{{";
    let items = completions(text, p(5, 9));
    let labels: Vec<&str> = items.iter().map(|i| i.label.as_str()).collect();
    assert_eq!(labels, vec!["alpha", "beta", "newDate", "newUuid", "zeta"]);
    assert_eq!(items[0].insert_text.as_deref(), Some("alpha}}"));
    let ct = completions("Content-Type: ", p(0, 14));
    assert_eq!(ct[0].label, "application/json");
}

#[test]
fn resolves_capture_variable_definition() {
    let text = "GET /users\nHTTP 200\n[Captures]\nuser_id: jsonpath \"$.id\"\n\nGET /users/{{user_id}}\nHTTP 200\n";
    let uri = "file:///tmp/test.hurl";
    let location = definition(uri, text, p(5, 15)).expect("definition should resolve");
    assert_eq!(location.range.start.line, 3);
    assert_eq!(location.range.start.character, 0);
    assert_eq!(location.range.end.character, 7);
    assert_eq!(location.uri, uri);
    assert!(definition(uri, text, p(5, 2)).is_none());
}

#[test]
fn returns_hover_for_method() {
    let value = hover("GET https://example.com", p(0, 1));
    assert!(value.is_some());
}

#[test]
fn hover_shows_word_and_documentation() {
    let h = hover("  [Asserts]  \nstatus == 200", p(0, 0)).expect("section hover");
    assert_eq!(h.contents, "**[Asserts]**\n\nAssertions evaluated against the response.");
    let h = hover("[Asserts]\nstatus == 200", p(1, 3)).expect("assert hover");
    assert!(h.contents.starts_with("**status**"));
    assert!(hover("GET https://example.com", p(0, 10)).is_none());
    assert!(hover("GET x", p(3, 0)).is_none());
}

#[test]
fn cursor_boundaries_follow_the_utf8_encoding() {
    assert!(cursor_on_boundary("GET /é", p(0, 5)));
    assert!(!cursor_on_boundary("GET /é", p(0, 6)));
    assert!(cursor_on_boundary("GET /é", p(0, 7)));
    assert!(cursor_on_boundary("GET /é", p(0, 99)));
    assert!(cursor_on_boundary("", p(4, 3)));
}
