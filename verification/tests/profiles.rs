use hurl_lsp::profiles::{profile_files_to_read, resolve_profile, ProfileConfig, ProfileFileStatus, ResolvedProfile, AUTO_PROFILE};
use hurl_lsp::variables::variables_from_text;

fn p(s: &str) -> Vec<String> {
    let mut v = vec!["/".to_string()];
    v.extend(s.split('/').filter(|c| !c.is_empty()).map(|c| c.to_string()));
    v
}

fn auto() -> ResolvedProfile {
    ResolvedProfile { name: AUTO_PROFILE.into(), variables: Vec::new(), source_files: Vec::new() }
}

#[test]
fn selected_profile_merges_files_in_declared_order() {
    let root = p("/ws");
    let config = ProfileConfig { name: "Local".into(), files: vec!["base.env".into(), "local.env".into()] };
    let files = vec![
        ProfileFileStatus {
            canonical: Ok(p("/ws/base.env")),
            is_file: true,
            definitions: variables_from_text("host=base\nbase_only=yes\n", "file:///ws/base.env"),
        },
        ProfileFileStatus {
            canonical: Ok(p("/ws/local.env")),
            is_file: true,
            definitions: variables_from_text("host=local\n", "file:///ws/local.env"),
        },
    ];
    let profile = resolve_profile(Some(&config), Some(p("/ws/request.hurl")), &vec![root], &files, auto()).expect("profile");
    assert_eq!(profile.name, "Local");
    let host = profile.variables.iter().find(|v| v.name == "host").unwrap();
    assert_eq!(host.value, "local");
    let base_only = profile.variables.iter().find(|v| v.name == "base_only").unwrap();
    assert_eq!(base_only.value, "yes");
    assert_eq!(profile.source_files, vec!["base.env", "local.env"]);
}

#[test]
fn profile_rejects_files_outside_workspace() {
    let config = ProfileConfig { name: "Invalid".into(), files: vec!["../secret.env".into()] };
    let files = vec![ProfileFileStatus { canonical: Ok(p("/secret.env")), is_file: true, definitions: Vec::new() }];
    let error = resolve_profile(Some(&config), Some(p("/ws/request.hurl")), &vec![p("/ws")], &files, auto())
        .expect_err("outside file must fail");
    assert!(error.contains("inside the workspace"));
    assert_eq!(error, "Profile file `../secret.env` must be a file inside the workspace folder.");
}

#[test]
fn auto_and_errors_before_files() {
    let a = resolve_profile(None, None, &Vec::new(), &Vec::new(), auto()).unwrap();
    assert_eq!(a.name, "Auto");
    let named_auto = ProfileConfig { name: "Auto".into(), files: vec!["x.env".into()] };
    let none: Vec<ProfileFileStatus> = vec![ProfileFileStatus { canonical: Err("gone".into()), is_file: false, definitions: Vec::new() }];
    assert_eq!(resolve_profile(Some(&named_auto), None, &Vec::new(), &none, auto()).unwrap().name, "Auto");
    let cfg = ProfileConfig { name: "Dev".into(), files: vec!["x.env".into()] };
    assert_eq!(
        resolve_profile(Some(&cfg), None, &Vec::new(), &none, auto()).unwrap_err(),
        "Environment profiles require a local file document."
    );
    assert_eq!(
        resolve_profile(Some(&cfg), Some(p("/a/t.hurl")), &vec![p("/b")], &none, auto()).unwrap_err(),
        "Document is not inside a workspace folder."
    );
    assert_eq!(
        resolve_profile(Some(&cfg), Some(p("/b/t.hurl")), &vec![p("/b")], &none, auto()).unwrap_err(),
        "Unable to read profile file `x.env`: gone"
    );
}

#[test]
fn files_are_read_only_when_all_lie_inside_the_workspace() {
    let roots = vec![p("/ws")];
    let doc = Some(p("/ws/request.hurl"));
    let status = |path: &str, is_file: bool| ProfileFileStatus { canonical: Ok(p(path)), is_file, definitions: Vec::new() };
    let config = ProfileConfig { name: "Local".into(), files: vec!["base.env".into(), "local.env".into()] };
    let inside = vec![status("/ws/base.env", true), status("/ws/local.env", true)];
    assert!(profile_files_to_read(Some(&config), &doc, &roots, &inside));
    let outside = vec![status("/ws/base.env", true), status("/secret.env", true)];
    assert!(!profile_files_to_read(Some(&config), &doc, &roots, &outside));
    let directory = vec![status("/ws/base.env", true), status("/ws/local.env", false)];
    assert!(!profile_files_to_read(Some(&config), &doc, &roots, &directory));
    assert!(!profile_files_to_read(Some(&config), &None, &roots, &inside));
    assert!(!profile_files_to_read(None, &doc, &roots, &Vec::new()));
    let elsewhere = Some(p("/other/request.hurl"));
    assert!(!profile_files_to_read(Some(&config), &elsewhere, &roots, &inside));
}
