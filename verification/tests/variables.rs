use hurl_lsp::variables::{
    is_sensitive_name, merge_definitions, parse_variable_line, variable_file_names, variables_from_text,
};

#[test]
fn parses_name_value_lines() {
    assert_eq!(parse_variable_line("  host = example.com "), Some(("host".into(), "example.com".into(), 2, 6)));
    assert_eq!(parse_variable_line("é=1"), None);
    assert_eq!(parse_variable_line("x=a=b"), Some(("x".into(), "a=b".into(), 0, 1)));
    assert_eq!(parse_variable_line("# host=x"), None);
    assert_eq!(parse_variable_line("   "), None);
    assert_eq!(parse_variable_line("no equals"), None);
    assert_eq!(parse_variable_line("bad name=1"), None);
    assert_eq!(parse_variable_line("éé ab=1"), None);
    assert_eq!(parse_variable_line("\u{3000}ab=1"), Some(("ab".into(), "1".into(), 3, 5)));
}

#[test]
fn loads_variables_from_detected_files() {
    let vars = variables_from_text("host=example.com\n# note\nport=443\n", "file:///tmp/.env");
    assert_eq!(vars.len(), 2);
    assert!(vars.iter().any(|var| var.name == "host" && var.value == "example.com"));
    assert!(vars.iter().any(|var| var.name == "port" && var.value == "443" && var.line == 2));
    assert_eq!(vars[0].uri, "file:///tmp/.env");
}

#[test]
fn overrides_with_nearest_file() {
    let mut defs = variables_from_text("host=global.example.com\nzeta=1\n", "file:///a/.env");
    defs.extend(variables_from_text("host=local.example.com\nalpha=2\n", "file:///a/b/.env"));
    let merged = merge_definitions(&defs);
    let names: Vec<&str> = merged.iter().map(|d| d.name.as_str()).collect();
    assert_eq!(names, vec!["alpha", "host", "zeta"]);
    assert_eq!(merged[1].value, "local.example.com");
    assert_eq!(merged[1].uri, "file:///a/b/.env");
}

#[test]
fn sensitive_names_and_file_names() {
    assert!(is_sensitive_name("API_TOKEN"));
    assert!(is_sensitive_name("Authorization"));
    assert!(is_sensitive_name("db-Password"));
    assert!(!is_sensitive_name("host"));
    assert_eq!(variable_file_names(), vec![".hurl-vars", "vars.env", "hurl.env", ".env"]);
}

#[test]
fn placeholders_are_delimited_ordered_and_trimmed() {
    let line = "GET {{ a }}/{{}}/{{b}}{{c";
    let ps = hurl_lsp::syntax::variable_placeholders(line);
    assert_eq!(ps, vec![(4, 11, "a".to_string()), (17, 22, "b".to_string())]);
    for (start, end, _) in &ps {
        assert_eq!(&line[*start..*start + 2], "{{");
        assert_eq!(&line[*end - 2..*end], "}}");
    }
}

#[test]
fn capture_definitions_grow_line_by_line_and_only_earlier_captures_are_visible() {
    let text = "GET /a\n[Captures]\nid: jsonpath \"$.id\"\ntoken: header \"x\"\nGET /b\n[Captures]\nlater: header \"y\"\nGET /c\n";
    let before5 = hurl_lsp::syntax::capture_definitions_before_line(text, 5);
    let before7 = hurl_lsp::syntax::capture_definitions_before_line(text, 7);
    assert_eq!(before5.len(), 2);
    assert_eq!(before5[0], (2, 0, 2, "id".to_string()));
    assert_eq!(before5[1], (3, 0, 5, "token".to_string()));
    assert_eq!(&before7[..2], &before5[..]);
    assert_eq!(before7[2].0, 6);
    let visible = hurl_lsp::syntax::visible_variables_before_line(text, 5);
    assert!(visible.contains(&"id".to_string()));
    assert!(!visible.contains(&"later".to_string()));
}

#[test]
fn placeholder_offsets_are_bytes_around_the_delimiters() {
    let line = "é {{ naïve }} {{x}}";
    let ps = hurl_lsp::syntax::variable_placeholders(line);
    assert_eq!(ps.len(), 2);
    for (start, end, name) in &ps {
        assert_eq!(&line[*start..*start + 2], "{{");
        assert_eq!(&line[*end - 2..*end], "}}");
        assert_eq!(line[*start + 2..*end - 2].trim(), name);
    }
    assert!(ps[0].1 <= ps[1].0);
}
