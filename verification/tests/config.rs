use feedburst::config::{feed_path, prepare_open_command, Args};

#[test]
fn test_args_new() {
    let args = Args::new(false, None, None, None).unwrap();
    assert!(!args.only_fetch());
    assert!(args.feed_root().is_none());
    assert!(args.config_path().is_none());
    assert!(args.open_command().is_none());

    let args = Args::new(
        true,
        Some("/var/feeds"),
        Some("/etc/feeds.conf"),
        Some("firefox --new-tab @URL"),
    )
    .unwrap();
    assert!(args.only_fetch());
    assert_eq!(args.feed_root().unwrap(), "/var/feeds");
    assert_eq!(args.config_path().unwrap(), "/etc/feeds.conf");
    assert_eq!(
        args.open_command().unwrap(),
        &vec!["firefox".to_string(), "--new-tab".to_string(), "@URL".to_string()]
    );
}

#[test]
fn test_args_bad_command() {
    let err = Args::new(false, None, None, Some("   ")).unwrap_err();
    assert_eq!(err.message(), "Error parsing command: expected a command");
}

#[test]
fn test_feed_path() {
    assert_eq!(feed_path("/data/feeds", "Gunnerkrigg Court"), "/data/feeds/Gunnerkrigg Court.feed");
}

#[test]
fn test_prepare_open_command() {
    // @URL is substituted wherever it appears, whatever its case
    let cmd = vec!["firefox".to_string(), "--new-tab".to_string(), "@url".to_string()];
    assert_eq!(
        prepare_open_command(&cmd, "http://x").unwrap(),
        vec!["firefox".to_string(), "--new-tab".to_string(), "http://x".to_string()]
    );

    // without a placeholder the URL goes last
    let cmd = vec!["open".to_string()];
    assert_eq!(
        prepare_open_command(&cmd, "http://x").unwrap(),
        vec!["open".to_string(), "http://x".to_string()]
    );

    // a command that starts with the placeholder names no program
    let cmd = vec!["@URL".to_string(), "now".to_string()];
    let err = prepare_open_command(&cmd, "http://x").unwrap_err();
    assert_eq!(err.message(), "@URL can't be the first part of the command (in `@URL now`)");
}
