use hurl_lsp::lsp::Position;
use hurl_lsp::store::{formatting_edits, position_for_end, DocumentStore};

#[test]
fn store_reads_back_the_last_write() {
    let mut store = DocumentStore::new();
    let uri = "file:///tmp/a.hurl".to_string();
    assert_eq!(store.get(&uri), None);
    store.insert(uri.clone(), "GET /a".into());
    store.insert("file:///tmp/b.hurl".into(), "GET /b".into());
    store.insert(uri.clone(), "GET /c".into());
    assert_eq!(store.get(&uri).as_deref(), Some("GET /c"));
    store.remove(&uri);
    assert_eq!(store.get(&uri), None);
    assert_eq!(store.get(&"file:///tmp/b.hurl".to_string()).as_deref(), Some("GET /b"));
}

#[test]
fn end_position_counts_lines_and_characters() {
    assert_eq!(position_for_end(""), Position { line: 0, character: 0 });
    assert_eq!(position_for_end("GET /é\nHTTP 200"), Position { line: 1, character: 8 });
    assert_eq!(position_for_end("a\n"), Position { line: 1, character: 0 });
}

#[test]
fn formatting_replaces_the_whole_text_only_when_it_changes() {
    assert!(formatting_edits("GET /a", None).is_none());
    assert_eq!(formatting_edits("GET /a\n", Some("GET /a\n".into())).unwrap().len(), 0);
    let edits = formatting_edits("GET /a   \nHTTP 200", Some("GET /a\nHTTP 200\n".into())).unwrap();
    assert_eq!(edits.len(), 1);
    assert_eq!(edits[0].new_text, "GET /a\nHTTP 200\n");
    assert_eq!(edits[0].range.start, Position { line: 0, character: 0 });
    assert_eq!(edits[0].range.end, Position { line: 1, character: 8 });
}
