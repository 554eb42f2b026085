use hurl_lsp::cli::parse_cli_args;

#[test]
fn parser_ignores_lsp_transport_arguments() {
    let args = vec![
        "--stdio".to_string(),
        "--clientProcessId".to_string(),
        "100".to_string(),
    ];
    let cli = parse_cli_args(&args);
    assert!(!cli.show_help);
    assert!(!cli.show_version);
    assert!(cli.log_level.is_none());
}

#[test]
fn parser_supports_log_level_argument_forms() {
    let args = vec!["--log-level".to_string(), "debug".to_string()];
    let cli = parse_cli_args(&args);
    assert_eq!(cli.log_level.as_deref(), Some("debug"));

    let args = vec!["--log-level=trace".to_string()];
    let cli = parse_cli_args(&args);
    assert_eq!(cli.log_level.as_deref(), Some("trace"));
}

#[test]
fn parser_supports_help_and_version_flags() {
    let args = vec!["--help".to_string(), "--version".to_string()];
    let cli = parse_cli_args(&args);
    assert!(cli.show_help);
    assert!(cli.show_version);
}

#[test]
fn parser_skips_dash_value_and_blank_level() {
    let args = vec!["--log-level".to_string(), "-V".to_string(), "--log-level=  ".to_string()];
    let cli = parse_cli_args(&args);
    assert!(cli.show_version);
    assert!(cli.log_level.is_none());
    let cli = parse_cli_args(&vec!["-h".to_string(), "--log-level= warn ".to_string()]);
    assert!(cli.show_help);
    assert_eq!(cli.log_level.as_deref(), Some("warn"));
}
