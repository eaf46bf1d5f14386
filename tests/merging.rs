use gig::{build_index, get_template, merge_templates};

#[test]
fn test_merge_templates_single() {
    let templates = vec!["# Comment\n*.log\n"];
    let result = merge_templates(&templates);
    assert_eq!(result, "# Comment\n*.log\n");
}

#[test]
fn test_merge_templates_deduplicates_patterns() {
    let templates = vec!["# First\n*.log\n", "# Second\n*.log\n*.txt\n"];
    let result = merge_templates(&templates);
    assert_eq!(result, "# First\n*.log\n# Second\n*.txt\n");
}

#[test]
fn test_merge_templates_preserves_comments() {
    let templates = vec!["# Same comment\n*.a\n", "# Same comment\n*.b\n"];
    let result = merge_templates(&templates);
    assert_eq!(result, "# Same comment\n*.a\n# Same comment\n*.b\n");
}

#[test]
fn test_merge_templates_preserves_blank_lines() {
    let templates = vec!["*.a\n\n*.b\n", "*.c\n\n*.d\n"];
    let result = merge_templates(&templates);
    assert_eq!(result, "*.a\n\n*.b\n*.c\n\n*.d\n");
}

#[test]
fn test_merge_templates_exact_match_only() {
    let templates = vec!["*.log\n", "*.LOG\n"];
    let result = merge_templates(&templates);
    assert_eq!(result, "*.log\n*.LOG\n");
}

#[test]
fn test_multi_language_deduplication() {
    let files = vec![
        ("Go.gitignore", "# Binaries\n*.exe\n*.dll\n\n# Test binary\n*.test\n"),
        ("Rust.gitignore", "# Cargo\ntarget/\n\n# Windows executables\n*.exe\n*.pdb\n"),
    ];
    let index = build_index(&files);
    let go = get_template(&index, "go").unwrap();
    let rust = get_template(&index, "rust").unwrap();

    let merged = merge_templates(&[go, rust]);

    assert!(merged.contains("*.exe"), "should contain Go's *.exe pattern");

    let exe_count = merged.lines().filter(|l| l.trim() == "*.exe").count();
    assert_eq!(exe_count, 1, "*.exe should only appear once after deduplication");
}

#[test]
fn repeated_comment_kept_repeated_pattern_dropped() {
    let templates = vec!["# c\n*.log\n", "# c\n*.log\n"];
    assert_eq!(merge_templates(&templates), "# c\n*.log\n# c\n");
}

#[test]
fn patterns_differing_in_case_both_kept() {
    let merged = merge_templates(&["*.log\n", "*.LOG\n"]);
    assert!(merged.contains("*.log\n"));
    assert!(merged.contains("*.LOG\n"));
}

#[test]
fn empty_list_gives_empty_output() {
    assert_eq!(merge_templates(&[]), "");
}

#[test]
fn duplicates_within_one_template_dropped() {
    assert_eq!(merge_templates(&["a\nb\na\n\n\n"]), "a\nb\n\n\n");
}

#[test]
fn dedup_compares_trimmed_text_and_keeps_untrimmed_line() {
    assert_eq!(merge_templates(&["  *.log  \n", "*.log\n\t*.tmp\n"]), "  *.log  \n\t*.tmp\n");
}

#[test]
fn indented_comments_and_whitespace_lines_are_kept() {
    assert_eq!(merge_templates(&["  # x\n   \n", "  # x\n   \n"]), "  # x\n   \n  # x\n   \n");
}

#[test]
fn missing_final_newline_and_crlf() {
    assert_eq!(merge_templates(&["a\r\nb", "b\r\nc"]), "a\nb\nc\n");
}
