//! Config files.
use fracture::base::env_config::{config_from, config_path, parse_env_file};

#[test]
fn test_parse_env_file() {
    let contents = "# Comment\n\nCOORDINATOR=192.168.1.10:9400\nSEEDS = host1:9400,host2:9400\nMODEL=\"/path/to/model.gguf\"\n";
    let config = parse_env_file(contents);
    assert_eq!(config.get("COORDINATOR"), Some("192.168.1.10:9400"));
    assert_eq!(config.get("SEEDS"), Some("host1:9400,host2:9400"));
    assert_eq!(config.get("MODEL"), Some("/path/to/model.gguf"));
    assert_eq!(config.get("MISSING"), None);
}

#[test]
fn test_get_or_flag() {
    let config = parse_env_file("KEY=from_config");
    let args: Vec<String> = vec!["bin".into(), "--flag".into(), "from_flag".into()];

    // Config takes precedence
    assert_eq!(config.get_or_flag("KEY", &args, "--flag"), Some("from_config"));

    // Falls back to flag when key not in config
    assert_eq!(config.get_or_flag("OTHER", &args, "--flag"), Some("from_flag"));

    // None when neither
    assert_eq!(config.get_or_flag("OTHER", &args, "--missing"), None);
}

#[test]
fn test_has_flag() {
    let config = parse_env_file("BATCHED=true");
    let args: Vec<String> = vec!["bin".into(), "--verbose".into()];

    assert!(config.has_flag("BATCHED", &args, "--batched"));
    assert!(config.has_flag("MISSING", &args, "--verbose"));
    assert!(!config.has_flag("MISSING", &args, "--missing"));
}

#[test]
fn test_load_config_with_explicit_path() {
    let args = vec![
        "bin".to_string(),
        "--config".to_string(),
        "/tmp/custom.env".to_string(),
    ];
    let path = config_path(&args, true, true);
    assert_eq!(path.as_deref(), Some("/tmp/custom.env"));
    let (config, loaded_path) = config_from(path, Some("PORT=9400\n"));
    assert!(loaded_path.is_some());
    assert_eq!(config.get("PORT"), Some("9400"));
}

#[test]
fn test_load_config_no_file() {
    let args = vec!["bin".to_string()];
    let path = config_path(&args, false, false);
    let (config, loaded_path) = config_from(path, None);
    assert!(loaded_path.is_none());
    assert_eq!(config.get("ANYTHING"), None);
}

#[test]
fn config_files_are_searched_in_order() {
    let none: Vec<String> = vec!["bin".into()];
    assert_eq!(config_path(&none, true, true).as_deref(), Some("fracture.env"));
    assert_eq!(
        config_path(&none, false, true).as_deref(),
        Some("/etc/fracture/fracture.env")
    );
    // A flag without a path names no file.
    let bare: Vec<String> = vec!["bin".into(), "--config".into()];
    assert_eq!(config_path(&bare, true, false).as_deref(), Some("fracture.env"));
}

#[test]
fn an_unreadable_file_gives_no_values_and_no_path() {
    let (config, path) = config_from(Some("gone.env".into()), None);
    assert_eq!(path, None);
    assert_eq!(config.get("PORT"), None);
}

#[test]
fn later_lines_win() {
    let config = parse_env_file("A=1\nB=2\nA=3");
    assert_eq!(config.get("A"), Some("3"));
    assert_eq!(config.get("B"), Some("2"));
}

#[test]
fn odd_lines() {
    let config = parse_env_file(
        "  # indented comment\r\nno equals sign\r\nURL = a=b=c \r\nQ=\"\nE=\"\"\n=x\n\u{3000}K\u{a0}=\u{2003}v\t",
    );
    assert_eq!(config.get("no equals sign"), None);
    assert_eq!(config.get("URL"), Some("a=b=c"));
    assert_eq!(config.get("Q"), Some("\""));
    assert_eq!(config.get("E"), Some(""));
    assert_eq!(config.get(""), Some("x"));
    assert_eq!(config.get("K"), Some("v"));
}

#[test]
fn flags_take_one_or_true() {
    let config = parse_env_file("A=1\nB=yes");
    assert!(config.has_flag("A", &[], "--a"));
    assert!(!config.has_flag("B", &[], "--b"));
}
