use hurl_lsp::syntax::visible_variables_before_line;
use hurl_lsp::symbols::{document_symbols, SymbolKind};

#[test]
fn creates_fallback_symbol_without_meta() {
    let text = "GET /users\nHTTP 200\n";
    let symbols = document_symbols(text);
    assert_eq!(symbols.len(), 1);
    assert_eq!(symbols[0].name, "○ GET /users");
    assert_eq!(symbols[0].range.start.line, 0);
}

#[test]
fn groups_single_cases_by_priority() {
    let text = r#"
# case_id=TC-0042
# case_kind=single
# priority=P1
# title=Invalid email
POST /users
HTTP 422
"#;
    let symbols = document_symbols(text);
    assert_eq!(symbols.len(), 1);
    assert_eq!(symbols[0].name, "🟧 P1");
    let children = symbols[0].children.as_ref().expect("group children");
    assert_eq!(children.len(), 1);
    assert_eq!(children[0].name, "TC-0042 Invalid email");
}

#[test]
fn groups_chain_steps_under_case() {
    let text = r#"
# case_id=TC-CHAIN-001
# case_kind=chain
# priority=P0
# step_id=setup
# step_type=setup
# title=Create user
POST /users
HTTP 201
"#;
    let symbols = document_symbols(text);
    assert_eq!(symbols.len(), 1);
    assert!(symbols[0].name.starts_with("🔗 TC-CHAIN-001"));
    let children = symbols[0].children.as_ref().expect("chain children");
    assert_eq!(children[0].name, "🔧 Create user setup");
}

#[test]
fn outline_orders_chains_by_id_then_priorities_then_the_rest() {
    let text = "\
# case_id=B
# case_kind=chain
# title=Second chain
GET /b1
HTTP 200
# case_kind=single
# priority=P2
# technique=boundary
GET /p2
HTTP 200
# case_id=A
# case_kind=chain
# priority=P1
GET /a1
HTTP 200
GET /plain
HTTP 200
# case_id=B
# case_kind=chain
# step_type=teardown
# step_id=cleanup
DELETE /b2
HTTP 204
# priority=P0
# case_id=TC-9
POST /p0
HTTP 201
";
    let symbols = document_symbols(text);
    let names: Vec<&str> = symbols.iter().map(|s| s.name.as_str()).collect();
    assert_eq!(names, vec!["🔗 A [P1]", "🔗 B Second chain", "🟥 P0", "🟨 P2", "○ GET /plain"]);
    let a = symbols[0].children.as_ref().unwrap();
    assert_eq!(a.len(), 1);
    assert_eq!(a[0].name, "• GET /a1");
    let b = symbols[1].children.as_ref().unwrap();
    assert_eq!(b.len(), 2);
    assert_eq!(b[0].name, "• Second chain");
    assert_eq!(b[1].name, "🧹 DELETE /b2 cleanup");
    assert_eq!(symbols[1].kind, SymbolKind::Namespace);
    assert_eq!(symbols[1].range.start.line, 3);
    assert_eq!(symbols[1].range.end.line, 21);
    assert_eq!(symbols[1].range.end.character, 1);
    assert_eq!(symbols[1].selection_range.end.line, 3);
    assert_eq!(symbols[1].selection_range.end.character, 0);
    let p0 = symbols[2].children.as_ref().unwrap();
    assert_eq!(p0[0].name, "TC-9 POST /p0");
    let p2 = symbols[3].children.as_ref().unwrap();
    assert_eq!(p2[0].name, "GET /p2 [boundary]");
    assert_eq!(symbols[4].kind, SymbolKind::Object);
    assert!(symbols[4].children.is_none());
    assert_eq!(symbols[4].range.start.line, 15);
    let nodes: usize = symbols.iter().map(|s| s.children.as_ref().map_or(1, |c| c.len())).sum();
    assert_eq!(nodes, 6);
}

#[test]
fn chain_without_case_id_groups_under_default_name() {
    let text = "# case_kind=chain\nGET /x\n# case_kind=CHAIN\n# step_type=test\nGET /y\n";
    let symbols = document_symbols(text);
    assert_eq!(symbols.len(), 1);
    assert_eq!(symbols[0].name, "🔗 CHAIN");
    let c = symbols[0].children.as_ref().unwrap();
    assert_eq!(c.len(), 2);
    assert_eq!(c[1].name, "🧪 GET /y");
}

#[test]
fn visible_variables_only_grow_down_the_document() {
    let text = "GET /a\n[Captures]\nid: jsonpath \"$.id\"\nGET /b\n[Captures]\ntoken: header \"t\"\nGET /c\n";
    let mut previous: Vec<String> = Vec::new();
    for line in 0..8 {
        let visible = visible_variables_before_line(text, line);
        assert!(previous.iter().all(|v| visible.contains(v)));
        assert!(visible.contains(&"newUuid".to_string()));
        previous = visible;
    }
    assert!(!visible_variables_before_line(text, 2).contains(&"id".to_string()));
    assert!(visible_variables_before_line(text, 3).contains(&"id".to_string()));
    assert!(visible_variables_before_line(text, 6).contains(&"token".to_string()));
}
