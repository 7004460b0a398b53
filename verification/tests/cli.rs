use shelve::cli::{config_path, help_text, parse_command, Command};

fn args(list: &[&str]) -> Vec<String> {
    list.iter().map(|s| s.to_string()).collect()
}

#[test]
fn commands_are_recognised() {
    assert!(matches!(parse_command(&args(&[])), Ok(Command::Help)));
    assert!(matches!(parse_command(&args(&["-h"])), Ok(Command::Help)));
    assert!(matches!(parse_command(&args(&["--version"])), Ok(Command::Version)));
    assert!(matches!(parse_command(&args(&["-V"])), Ok(Command::Version)));
    assert!(matches!(parse_command(&args(&["update"])), Ok(Command::Update)));
    assert!(matches!(parse_command(&args(&["open"])), Ok(Command::Open(None))));
    match parse_command(&args(&["open", "B2"])) {
        Ok(Command::Open(Some(s))) => assert_eq!(s, "B2"),
        _ => panic!("open with a selector"),
    }
    match parse_command(&args(&["move", "a.pdf", "dir"])) {
        Ok(Command::Move(v)) => assert_eq!(v, args(&["a.pdf", "dir"])),
        _ => panic!("move"),
    }
    assert_eq!(
        parse_command(&args(&["open", "A1", "B2"])).err().as_deref(),
        Some("usage: shelve open [SELECTOR]")
    );
    assert_eq!(
        parse_command(&args(&["frobnicate"])).err().as_deref(),
        Some("unknown command: frobnicate\n\nRun: shelve --help")
    );
}

#[test]
fn config_location_follows_the_environment() {
    assert_eq!(config_path(Some("/c.toml"), Some("/x"), Some("/h")).unwrap(), "/c.toml");
    assert_eq!(config_path(None, Some("/x"), Some("/h")).unwrap(), "/x/shelve/config.toml");
    assert_eq!(config_path(None, None, Some("/h")).unwrap(), "/h/.config/shelve/config.toml");
    assert_eq!(config_path(None, None, None).err().as_deref(), Some("HOME is not set"));
}

#[test]
fn help_starts_with_the_version() {
    let help = help_text();
    assert!(help.starts_with("shelve 0.1.0\n\nUsage:\n  shelve open [SELECTOR]"));
    assert!(help.ends_with("-V, --version  Print version"));
}
