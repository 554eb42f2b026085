use hurl_lsp::curl::{build_curl_for_entry, quote, render, CurlBuildError, ParsedRequest, RequestParts};
use hurl_lsp::variables::ResolvedVariable;

fn var(name: &str, value: &str, sensitive: bool) -> ResolvedVariable {
    ResolvedVariable {
        name: name.into(),
        value: value.into(),
        uri: "file:///tmp/vars.env".into(),
        line: 0,
        start: 0,
        end: name.len() as u32,
        sensitive,
    }
}

fn pairs(v: &[(&str, &str)]) -> Vec<(String, String)> {
    v.iter().map(|(a, b)| (a.to_string(), b.to_string())).collect()
}

fn request(method: &str, url: &str) -> RequestParts {
    RequestParts { method: method.into(), url: url.into(), ..Default::default() }
}

#[test]
fn builds_headers_body_variables_and_masks_secrets() {
    let text = "POST {{base_url}}/users\nX-Account-Email: {{email}}\nAuthorization: Bearer {{token}}\n{\"name\":\"O'Brien\"}\nHTTP 201\n";
    let vars = vec![
        var("base_url", "https://example.com", false),
        var("email", "user@example.com", false),
        var("token", "real-token", true),
    ];
    let mut parts = request("POST", "{{base_url}}/users");
    parts.headers = pairs(&[("X-Account-Email", "{{email}}"), ("Authorization", "Bearer {{token}}")]);
    parts.body = Some("{\"name\":\"O'Brien\"}".into());
    let curl = build_curl_for_entry(text, 0, &vars, Ok(vec![ParsedRequest::Parts(parts)])).expect("curl");
    assert!(curl.command.contains("'https://example.com/users'"));
    assert!(curl.command.contains("X-Account-Email: user@example.com"));
    assert!(curl.command.contains("O'\"'\"'Brien"));
    assert!(!curl.display_command.contains("real-token"));
    assert!(!curl.command.lines().any(|line| line.starts_with('+')));
    assert!(curl.command.lines().skip(1).all(|line| line.starts_with("  ")));
}

#[test]
fn supports_query_form_basic_auth_and_multipart() {
    let text = "POST https://example.com/upload\n[Query]\npage: 2\n[BasicAuth]\nalice: secret\n[Multipart]\nlabel: avatar\nfile: file,photo.png;\nHTTP 200\n";
    let mut parts = request("POST", "https://example.com/upload");
    parts.query = pairs(&[("page", "2")]);
    parts.auth = Some(("alice".into(), "secret".into()));
    parts.multipart = pairs(&[("label", "avatar"), ("file", "@photo.png")]);
    let curl = build_curl_for_entry(text, 0, &Vec::new(), Ok(vec![ParsedRequest::Parts(parts)])).expect("curl");
    assert!(curl.command.contains("--get"));
    assert!(curl.command.contains("page=2"));
    assert!(curl.command.contains("--user"));
    assert!(curl.command.contains("alice:secret"));
    assert!(curl.command.contains("--form"));
}

#[test]
fn rejects_unresolved_variables() {
    let text = "GET {{base}}/{{token}}\nHTTP 200\n";
    let parts = request("GET", "{{base}}/{{token}}");
    let err = build_curl_for_entry(text, 0, &Vec::new(), Ok(vec![ParsedRequest::Parts(parts)])).unwrap_err();
    assert_eq!(err, CurlBuildError::UnresolvedVariables(vec!["base".into(), "token".into()]));
}

#[test]
fn locates_request_after_metadata_comments_and_resolves_spaced_placeholder() {
    let vars = vec![var("host", "example.com", false)];
    let text = "# title=Health\nGET https://{{ host }}/health\nHTTP 200\n";
    let parts = request("GET", "https://{{ host }}/health");
    let curl = build_curl_for_entry(text, 1, &vars, Ok(vec![ParsedRequest::Parts(parts)])).expect("curl");
    assert!(curl.command.contains("https://example.com/health"));
}

#[test]
fn exact_command_and_masked_display() {
    let vars = vec![var("api_token", "s3cr3t", true), var("host", "example.com", false)];
    let text = "GET https://{{host}}/items?key={{api_token}}\nCookie: a=b\n";
    let mut parts = request("GET", "https://{{host}}/items?key={{api_token}}");
    parts.headers = pairs(&[("Cookie", "a=b"), ("X-Key", "{{api_token}}")]);
    parts.form = pairs(&[("q", "it's")]);
    parts.body = Some("\0FILE:data.json".into());
    let curl = build_curl_for_entry(text, 0, &vars, Ok(vec![ParsedRequest::Parts(parts)])).expect("curl");
    assert_eq!(
        curl.command,
        "curl \\\n  -X \\\n  'GET' \\\n  'https://example.com/items?key=s3cr3t' \\\n  -H \\\n  'Cookie: a=b' \\\n  -H \\\n  'X-Key: s3cr3t' \\\n  --data-urlencode \\\n  'q=it'\"'\"'s' \\\n  --data-binary \\\n  '@data.json'"
    );
    assert_eq!(
        curl.display_command,
        "curl \\\n  -X \\\n  'GET' \\\n  'https://example.com/items?key=••••••' \\\n  -H \\\n  'Cookie: ••••••' \\\n  -H \\\n  'X-Key: ••••••' \\\n  --data-urlencode \\\n  'q=it'\"'\"'s' \\\n  --data-binary \\\n  '@data.json'"
    );
}

#[test]
fn reports_parse_errors_missing_entries_and_binary_bodies() {
    let text = "GET /a\nHTTP 200\n";
    assert_eq!(
        build_curl_for_entry(text, 0, &Vec::new(), Err("bad token".into())).unwrap_err(),
        CurlBuildError::Parse("bad token".into())
    );
    assert_eq!(
        build_curl_for_entry(text, 1, &Vec::new(), Ok(vec![ParsedRequest::Parts(request("GET", "/a"))])).unwrap_err(),
        CurlBuildError::Unsupported("Unable to locate the selected request entry.".into())
    );
    assert_eq!(
        build_curl_for_entry(text, 0, &Vec::new(), Ok(Vec::new())).unwrap_err(),
        CurlBuildError::Unsupported("Unable to locate the selected request entry.".into())
    );
    assert_eq!(
        build_curl_for_entry(text, 0, &Vec::new(), Ok(vec![ParsedRequest::BinaryBody])).unwrap_err(),
        CurlBuildError::Unsupported("Base64 and hex request bodies are not supported by static cURL export.".into())
    );
}

#[test]
fn quote_and_render_basics() {
    let q: String = quote(&"a'b".chars().collect::<Vec<char>>()).into_iter().collect();
    assert_eq!(q, "'a'\"'\"'b'");
    let mut parts = request("PUT", "/x");
    parts.auth = Some(("bob".into(), "pw".into()));
    parts.body = Some("raw".into());
    parts.sensitive_values = vec!["bob".into()];
    assert_eq!(render(&parts, false), "curl \\\n  -X \\\n  'PUT' \\\n  '/x' \\\n  --user \\\n  'bob:pw' \\\n  --data-raw \\\n  'raw'");
    assert_eq!(render(&parts, true), "curl \\\n  -X \\\n  'PUT' \\\n  '/x' \\\n  --user \\\n  '••••••:••••••' \\\n  --data-raw \\\n  'raw'");
}

#[test]
fn displayed_command_hides_every_secret() {
    let mut parts = request("POST", "https://example.com/k1-secret/items?key=k1-secret");
    parts.headers = pairs(&[("X-Token", "t0k.en"), ("Accept", "k1-secret")]);
    parts.query = pairs(&[("q", "t0k.en")]);
    parts.auth = Some(("alice".into(), "pw".into()));
    parts.form = pairs(&[("f", "xk1-secretx")]);
    parts.multipart = pairs(&[("m", "t0k.en")]);
    parts.body = Some("{\"a\":\"k1-secret\"}".into());
    parts.sensitive_values = vec!["k1-secret".into(), "t0k.en".into()];
    let shown = render(&parts, true);
    assert!(!shown.contains("k1-secret"));
    assert!(!shown.contains("t0k.en"));
    assert!(shown.contains("'alice:••••••'"));
    let plain = render(&parts, false);
    assert!(plain.contains("k1-secret"));
}
