use gig::{parse_languages, HELP_MSG, VERSION};

#[test]
fn test_version_string() {
    let version = VERSION;
    assert!(!version.is_empty(), "version should not be empty");
    let parts: Vec<&str> = version.split('.').collect();
    assert!(parts.len() >= 2, "version should have at least major.minor");
}

#[test]
fn test_help_message_includes_version_flag() {
    assert!(
        HELP_MSG.contains("-V, --version"),
        "help message should document -V/--version flag"
    );
}

#[test]
fn test_parse_languages_single() {
    let result = parse_languages("python");
    assert_eq!(result, Ok(vec!["python".to_string()]));
}

#[test]
fn test_parse_languages_multiple() {
    let result = parse_languages("go,godot,emacs");
    assert_eq!(result, Ok(vec!["go".to_string(), "godot".to_string(), "emacs".to_string()]));
}

#[test]
fn test_parse_languages_empty_segment() {
    let result = parse_languages("go,,godot");
    assert!(result.is_err());
    assert!(result.unwrap_err().contains("empty language"));
}

#[test]
fn test_parse_languages_whitespace_trimmed() {
    let result = parse_languages(" go , godot ");
    assert_eq!(result, Ok(vec!["go".to_string(), "godot".to_string()]));
}

#[test]
fn parse_languages_empty_input() {
    assert_eq!(parse_languages(""), Err("empty language in list".to_string()));
}

#[test]
fn parse_languages_trailing_comma() {
    assert_eq!(parse_languages("go,"), Err("empty language in list".to_string()));
}

#[test]
fn parse_languages_blank_piece() {
    assert_eq!(parse_languages("go, \t ,rust"), Err("empty language in list".to_string()));
}

#[test]
fn parse_languages_keeps_case_and_inner_spaces() {
    assert_eq!(
        parse_languages("\tRust ,visual studio"),
        Ok(vec!["Rust".to_string(), "visual studio".to_string()])
    );
}
