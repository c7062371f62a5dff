use umber::{
    format_command, less_arg_supports_raw_control_chars, less_supports_raw_control_chars,
    pager_command_from_words, pager_uses_less, resolve_pager_command_from_env, PagerError,
};

fn strings(items: &[&str]) -> Vec<String> {
    items.iter().map(|s| s.to_string()).collect()
}

#[test]
fn recognises_less() {
    assert!(pager_uses_less("less"));
    assert!(pager_uses_less("/usr/bin/less"));
    assert!(pager_uses_less("LESS"));
    assert!(pager_uses_less("less/"));
    assert!(pager_uses_less("./less"));
    assert!(!pager_uses_less("lesser"));
    assert!(!pager_uses_less("/usr/bin/more"));
    assert!(!pager_uses_less("."));
    assert!(!pager_uses_less(""));
    assert!(!pager_uses_less("less/.."));
}

#[test]
fn recognises_raw_control_flags() {
    assert!(less_arg_supports_raw_control_chars("-R"));
    assert!(less_arg_supports_raw_control_chars("-r"));
    assert!(less_arg_supports_raw_control_chars("-XR"));
    assert!(less_arg_supports_raw_control_chars("--RAW-CONTROL-CHARS"));
    assert!(less_arg_supports_raw_control_chars("--raw-control-chars"));
    assert!(!less_arg_supports_raw_control_chars("--R"));
    assert!(!less_arg_supports_raw_control_chars("-X"));
    assert!(!less_arg_supports_raw_control_chars("R"));
    assert!(less_supports_raw_control_chars(&strings(&["-X", "-FR"])));
    assert!(!less_supports_raw_control_chars(&strings(&["-X"])));
}

#[test]
fn formats_commands() {
    assert_eq!(format_command("less", &strings(&["-R", "-X"])), "less -R -X");
    assert_eq!(format_command("more", &[]), "more");
}

#[test]
fn defaults_to_less_with_colours() {
    assert_eq!(resolve_pager_command_from_env(None).unwrap(), ("less".to_string(), strings(&["-R"])));
    assert_eq!(resolve_pager_command_from_env(Some("  ")).unwrap(), ("less".to_string(), strings(&["-R"])));
}

#[test]
fn adds_raw_flag_to_less_only_when_missing() {
    assert_eq!(
        resolve_pager_command_from_env(Some(" less -X ")).unwrap(),
        ("less".to_string(), strings(&["-X", "-R"]))
    );
    assert_eq!(resolve_pager_command_from_env(Some("less -R")).unwrap(), ("less".to_string(), strings(&["-R"])));
    assert_eq!(
        resolve_pager_command_from_env(Some("/usr/bin/less -r")).unwrap(),
        ("/usr/bin/less".to_string(), strings(&["-r"]))
    );
    assert_eq!(resolve_pager_command_from_env(Some("more")).unwrap(), ("more".to_string(), Vec::<String>::new()));
}

#[test]
fn splits_pager_like_a_shell() {
    assert_eq!(
        resolve_pager_command_from_env(Some("'my pager' --flag")).unwrap(),
        ("my pager".to_string(), strings(&["--flag"]))
    );
}

#[test]
fn rejects_malformed_pager() {
    match resolve_pager_command_from_env(Some("less 'unterminated")) {
        Err(PagerError::InvalidCommand(raw)) => assert_eq!(raw, "less 'unterminated"),
        other => panic!("unexpected {other:?}"),
    }
    match pager_command_from_words("x", Some(Vec::new())) {
        Err(PagerError::InvalidCommand(raw)) => assert_eq!(raw, "x"),
        other => panic!("unexpected {other:?}"),
    }
}
