use hurl_lsp::paths::bounded_ancestor_dirs;
use hurl_lsp::openapi::{openapi_file_names, openapi_paths};

#[test]
fn loads_paths_from_yaml() {
    let files = vec![("openapi.yaml".to_string(), "openapi: 3.0.0\npaths:\n  /users: {}\n  /health: {}\n".to_string())];
    let paths = openapi_paths(&files);
    assert!(paths.contains(&"/users".to_string()));
    assert!(paths.contains(&"/health".to_string()));
}

#[test]
fn loads_paths_from_json() {
    let files = vec![(
        "swagger.json".to_string(),
        r#"{"openapi":"3.0.0","paths":{"/orders":{},"/orders/{id}":{}}}"#.to_string(),
    )];
    let paths = openapi_paths(&files);
    assert!(paths.contains(&"/orders".to_string()));
    assert!(paths.contains(&"/orders/{id}".to_string()));
}

#[test]
fn merges_documents_sorted_and_skips_invalid_ones() {
    let files = vec![
        ("openapi.yml".to_string(), "paths:\n  /b: {}\n  /a: {}\n".to_string()),
        ("swagger.json".to_string(), "not json".to_string()),
        ("swagger.yaml".to_string(), "paths:\n  /a: {}\n  /c: {}\n".to_string()),
        ("openapi.yaml".to_string(), "paths: 3\n".to_string()),
    ];
    assert_eq!(openapi_paths(&files), vec!["/a", "/b", "/c"]);
    assert_eq!(openapi_file_names(), vec!["openapi.yaml", "openapi.yml", "swagger.yaml", "swagger.yml", "swagger.json"]);
}

#[test]
fn does_not_read_openapi_outside_workspace_root() {
    let comps = |s: &str| {
        let mut v = vec!["/".to_string()];
        v.extend(s.split('/').filter(|c| !c.is_empty()).map(|c| c.to_string()));
        v
    };
    let dirs = bounded_ancestor_dirs(&comps("/tmp/bounded/workspace/api"), &vec![comps("/tmp/bounded/workspace")]);
    assert_eq!(dirs, vec![comps("/tmp/bounded/workspace/api"), comps("/tmp/bounded/workspace")]);
    assert!(!dirs.contains(&comps("/tmp/bounded")));
    let inner = vec![("openapi.yaml".to_string(), "openapi: 3.0.0\npaths:\n  /inner: {}\n".to_string())];
    let paths = openapi_paths(&inner);
    assert!(paths.contains(&"/inner".to_string()));
    assert!(!paths.contains(&"/outer".to_string()));
}
