use hurl_lsp::version::{normalize_tag_version, resolve_display_version};

#[test]
fn normalize_tag_version_supports_prefixed_version() {
    assert_eq!(normalize_tag_version("v0.1.9"), Some("0.1.9".to_string()));
}

#[test]
fn normalize_tag_version_supports_plain_version() {
    assert_eq!(normalize_tag_version("0.1.9"), Some("0.1.9".to_string()));
}

#[test]
fn normalize_tag_version_rejects_non_version_like_values() {
    assert_eq!(normalize_tag_version("main"), None);
    assert_eq!(normalize_tag_version("v1foo"), None);
    assert_eq!(normalize_tag_version("1.2"), None);
    assert_eq!(normalize_tag_version("1.2.3.4"), None);
    assert_eq!(normalize_tag_version("1.2.x"), None);
    assert_eq!(normalize_tag_version(""), None);
}

#[test]
fn normalize_tag_version_supports_prerelease_and_build_suffixes() {
    assert_eq!(
        normalize_tag_version("v1.2.3-rc.1"),
        Some("1.2.3-rc.1".to_string())
    );
    assert_eq!(
        normalize_tag_version("1.2.3+build.7"),
        Some("1.2.3+build.7".to_string())
    );
}

#[test]
fn resolve_display_version_prefers_injected_when_valid() {
    assert_eq!(
        resolve_display_version(Some("v2.0.0"), "0.1.8"),
        "2.0.0".to_string()
    );
}

#[test]
fn resolve_display_version_falls_back_for_invalid_injected() {
    assert_eq!(
        resolve_display_version(Some("release"), "0.1.8"),
        "0.1.8".to_string()
    );
    assert_eq!(resolve_display_version(None, "0.1.8"), "0.1.8".to_string());
}

#[test]
fn normalize_tag_version_trims_and_rejects_bare_marker() {
    assert_eq!(normalize_tag_version("  v3.4.5 \n"), Some("3.4.5".to_string()));
    assert_eq!(normalize_tag_version("1.2.3-"), None);
    assert_eq!(normalize_tag_version("1.2.3-rc_1"), None);
    assert_eq!(normalize_tag_version("1..3"), None);
}

#[test]
fn semantic_versions_are_three_numbers_and_an_optional_suffix() {
    let sem = |s: &str| hurl_lsp::version::is_semver_like(&s.chars().collect::<Vec<char>>());
    assert!(sem("1.2.3-rc.1"));
    assert!(sem("10.20.30+build.7"));
    assert!(!sem("1.2.3+"));
    assert!(!sem("1.2.3-a+b"));
    assert!(!sem("1.2"));
    assert!(!sem("1..3"));
}
