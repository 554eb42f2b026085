use hurl_lsp::inlay_hints::{truncate, variable_inlay_hints, inlay_hints_with_sources, InlayHint};
use hurl_lsp::lsp::{Position, Range};
use hurl_lsp::variables::ResolvedVariable;

fn variable(name: &str, value: &str, sensitive: bool) -> ResolvedVariable {
    ResolvedVariable {
        name: name.into(),
        value: value.into(),
        uri: "file:///tmp/vars.env".into(),
        line: 1,
        start: 0,
        end: name.len() as u32,
        sensitive,
    }
}

fn labels(hints: &[InlayHint]) -> Vec<String> {
    hints.iter().map(|hint| hint.label.clone()).collect()
}

fn range(a: u32, b: u32, c: u32, d: u32) -> Range {
    Range { start: Position { line: a, character: b }, end: Position { line: c, character: d } }
}

#[test]
fn previews_external_sensitive_runtime_and_skips_missing() {
    let text = "GET /seed\nHTTP 200\n[Captures]\ncaptured: jsonpath \"$.id\"\n\nGET {{base_url}}/{{token}}/{{captured}}/{{missing}}/{{newUuid}}\nHTTP 200\n";
    let external = vec![variable("base_url", "https://example.com", false), variable("token", "real-secret", true)];
    let hints = variable_inlay_hints(text, range(5, 0, 5, 99), &external, 12);
    assert_eq!(labels(&hints), vec!["= https://exa…", "= ••••••", "= runtime value", "= runtime value"]);
}

#[test]
fn tooltips_name_the_file_and_positions_follow_the_placeholder() {
    let text = "GET {{base_url}}/é/{{later}}\n[Captures]\nlater: header \"x\"\nGET {{later}}\n";
    let external = vec![variable("base_url", "https://example.com", false)];
    let hints = variable_inlay_hints(text, range(0, 0, 3, 0), &external, 3);
    assert_eq!(hints.len(), 2);
    assert_eq!(hints[0].label, "= https:/…");
    assert_eq!(hints[0].tooltip, "**base_url**\n\nSource: `vars.env:2`");
    assert_eq!(hints[0].position, Position { line: 0, character: 16 });
    assert_eq!(hints[1].label, "= runtime value");
    assert_eq!(hints[1].tooltip, "**later**\n\nAvailable only at runtime.");
    assert_eq!(hints[1].position, Position { line: 3, character: 13 });
    let with = inlay_hints_with_sources(text, range(0, 0, 0, 0), &external, &vec!["base.env".to_string()], 600);
    assert_eq!(with.len(), 1);
    assert_eq!(with[0].label, "= https://example.com");
    assert_eq!(with[0].tooltip, "**base_url**\n\nSource: `base.env:2`");
}

#[test]
fn truncate_keeps_short_values() {
    assert_eq!(truncate("abc", 3), "abc");
    assert_eq!(truncate("abcd", 3), "ab…");
    assert_eq!(truncate("ééééé", 4), "ééé…");
}

#[test]
fn a_uri_without_scheme_names_its_own_file() {
    let text = "GET {{base_url}}\n";
    let mut plain = variable("base_url", "https://example.com", false);
    plain.uri = "dir/vars.env".into();
    let hints = variable_inlay_hints(text, range(0, 0, 0, 0), &vec![plain], 600);
    assert_eq!(hints.len(), 1);
    assert_eq!(hints[0].tooltip, "**base_url**\n\nSource: `dir/vars.env:2`");
}

#[test]
fn hint_positions_count_utf16_units() {
    let text = "GET /é/{{newUuid}}\n";
    let hints = variable_inlay_hints(text, range(0, 0, 0, 99), &Vec::new(), 20);
    assert_eq!(hints.len(), 1);
    assert_eq!(hints[0].label, "= runtime value");
    assert_eq!(hints[0].position, Position { line: 0, character: 18 });
    let wide = "GET /😀/{{newDate}}\n";
    let hints = variable_inlay_hints(wide, range(0, 0, 0, 99), &Vec::new(), 20);
    assert_eq!(hints[0].position, Position { line: 0, character: 19 });
}
