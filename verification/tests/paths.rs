use hurl_lsp::paths::{bounded_ancestor_dirs, owning_workspace_root, variable_sources};

fn p(s: &str) -> Vec<String> {
    let mut v = vec!["/".to_string()];
    v.extend(s.split('/').filter(|c| !c.is_empty()).map(|c| c.to_string()));
    v
}

#[test]
fn ancestors_stop_at_the_innermost_workspace_root() {
    let roots = vec![p("/w"), p("/w/api")];
    let dirs = bounded_ancestor_dirs(&p("/w/api/v1/users"), &roots);
    assert_eq!(dirs, vec![p("/w/api/v1/users"), p("/w/api/v1"), p("/w/api")]);
    let outside = bounded_ancestor_dirs(&p("/other/x"), &roots);
    assert_eq!(outside, vec![p("/other/x")]);
    let rooted = bounded_ancestor_dirs(&p("/a/b"), &vec![vec!["/".to_string()]]);
    assert_eq!(rooted, vec![p("/a/b"), p("/a"), p("/")]);
}

#[test]
fn owning_root_prefers_the_longest_and_the_last_on_ties() {
    let roots = vec![p("/w"), p("/w/api"), p("/x")];
    assert_eq!(owning_workspace_root(&p("/w/api/t.hurl"), &roots), Some(p("/w/api")));
    assert_eq!(owning_workspace_root(&p("/w/b/t.hurl"), &roots), Some(p("/w")));
    assert_eq!(owning_workspace_root(&p("/y/t.hurl"), &roots), None);
    assert_eq!(owning_workspace_root(&p("/w/wx"), &vec![p("/w/w")]), None);
}

#[test]
fn sources_are_relative_sorted_and_unique() {
    let roots = vec![p("/w"), p("/w/api")];
    let paths = vec![p("/w/api/.env"), p("/w/base.env"), p("/w/api/.env"), p("/elsewhere/vars.env")];
    assert_eq!(variable_sources(&paths, &roots), vec![".env", "base.env", "vars.env"]);
}
