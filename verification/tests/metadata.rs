use hurl_lsp::metadata::{CaseKind, HurlMetaParser, Priority, StepType};

#[test]
fn parses_entry_metadata_by_request_order() {
    let source = r#"
# case_id=TC-CHAIN-001
# case_kind=chain
# priority=P0
# step_id=setup-step
# step_type=setup
# title=Create user
POST https://example.com/users
HTTP 201

# case_id=TC-0042
# case_kind=single
# priority=P1
# title=Invalid email
POST https://example.com/users
HTTP 422
"#;

    let file_meta = HurlMetaParser::parse(source);
    assert_eq!(file_meta.entries.len(), 2);
    assert_eq!(
        file_meta.entries[0].case_id.as_deref(),
        Some("TC-CHAIN-001")
    );
    assert_eq!(file_meta.entries[0].case_kind, Some(CaseKind::Chain));
    assert_eq!(file_meta.entries[0].step_type, Some(StepType::Setup));
    assert_eq!(file_meta.entries[1].priority, Some(Priority::P1));
    assert_eq!(file_meta.entries[1].title.as_deref(), Some("Invalid email"));
}

#[test]
fn metadata_resets_after_each_request_and_reads_dependencies() {
    let source = "# depends_on= a, ,b ,\n# case_kind=CHAIN\n# priority=P7\n# unknown=x\nGET /a\n# title=Second\nGET /b\n";
    let meta = HurlMetaParser::parse(source);
    assert_eq!(meta.entries.len(), 2);
    assert_eq!(meta.entries[0].depends_on, vec!["a".to_string(), "b".to_string()]);
    assert_eq!(meta.entries[0].case_kind, Some(CaseKind::Chain));
    assert_eq!(meta.entries[0].priority, None);
    assert_eq!(meta.entries[0].line, 4);
    assert_eq!(meta.entries[1].title.as_deref(), Some("Second"));
    assert!(meta.entries[1].depends_on.is_empty());
    assert_eq!(meta.entries[1].line, 6);
}

#[test]
fn metadata_comes_only_from_comments_between_requests_and_matches_requests() {
    let source = "# step_id=s1\n# step_type=setup\nGET /a\nHTTP 200\n# note=x\nPOST /b\n# title=Third\n# title=Last\nHTTP 200\nGET /c\n";
    let meta = HurlMetaParser::parse(source);
    assert_eq!(meta.entries.len(), 3);
    assert_eq!(meta.entries[0].step_id.as_deref(), Some("s1"));
    assert_eq!(meta.entries[1].step_id, None);
    assert_eq!(meta.entries[1].step_type, None);
    assert_eq!(meta.entries[2].title.as_deref(), Some("Last"));
    let doc = hurl_lsp::diagnostics::parse_document(source);
    let meta_lines: Vec<u32> = meta.entries.iter().map(|e| e.line).collect();
    let doc_lines: Vec<u32> = doc.entries.iter().map(|e| e.line).collect();
    assert_eq!(meta_lines, doc_lines);
    assert_eq!(meta_lines, vec![2, 5, 9]);
}
