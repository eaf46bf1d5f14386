use std::collections::HashMap;

use gig::{
    build_index, find_template, get_template, get_templates, list_languages, LookupError,
    TemplateIndex,
};

const GO: &str = "# Binaries for programs and plugins
*.exe
*.exe~
*.dll
*.so
*.dylib

# Test binary, built with `go test -c`
*.test

# Output of the go coverage tool
*.out

# Go workspace file
go.work
go.work.sum
";

const RUST: &str = "# Generated by Cargo
# will have compiled files and executables
debug/
target/

# Windows executables
*.exe

# Backup files generated by rustfmt
**/*.rs.bk

# MSVC Windows builds of rustc generate these
*.pdb
";

const PYTHON: &str = "# Byte-compiled / optimized / DLL files
__pycache__/
*.py[cod]
*$py.class

# Distribution / packaging
build/
dist/
*.egg-info/
";

fn corpus() -> Vec<(&'static str, &'static str)> {
    vec![
        ("Go.gitignore", GO),
        ("Godot.gitignore", "# Godot 4+ specific ignores\n.godot/\n/android/\n"),
        ("Rust.gitignore", RUST),
        ("Python.gitignore", PYTHON),
        ("Emacs.gitignore", "# -*- mode: gitignore; -*-\n*~\n\\#*\\#\n"),
        ("Node.gitignore", "# Logs\nlogs\n*.log\nnode_modules/\n"),
        ("Composer.gitignore", "composer.phar\n/vendor/\n"),
        ("CommonLisp.gitignore", "*.FASL\n*.fasl\n*.lisp-temp\n"),
        ("README.md", "not a template\n"),
    ]
}

fn fixture() -> TemplateIndex {
    build_index(&corpus())
}

#[test]
fn test_build_index_has_templates() {
    let index = fixture();
    assert!(!list_languages(&index).is_empty(), "index should contain embedded templates");
}

#[test]
fn test_build_index_lowercase_keys() {
    let index = fixture();
    for key in list_languages(&index) {
        assert_eq!(key, key.to_lowercase(), "all keys should be lowercase");
    }
}

#[test]
fn test_get_template_exact_match() {
    let index = fixture();
    let result = get_template(&index, "python");
    assert!(result.is_ok(), "should find python template");
}

#[test]
fn test_get_template_case_insensitive() {
    let index = fixture();
    let lower = get_template(&index, "python").unwrap();
    let upper = get_template(&index, "Python").unwrap();
    let mixed = get_template(&index, "PYTHON").unwrap();

    assert_eq!(lower, upper);
    assert_eq!(lower, mixed);
}

#[test]
fn test_get_template_prefix_match() {
    let index = fixture();
    let result = get_template(&index, "pyth");
    assert!(result.is_ok(), "prefix 'pyth' should match python");
}

#[test]
fn test_get_template_not_found() {
    let index = fixture();
    let result = get_template(&index, "nonexistentlanguage12345");
    assert!(result.is_err());
    assert!(result.unwrap_err().message().contains("no template found"));
}

#[test]
fn test_get_template_ambiguous() {
    let index = fixture();
    let keys = list_languages(&index);
    let mut prefix_matches: HashMap<String, Vec<String>> = HashMap::new();
    for key in &keys {
        if key.len() >= 2 {
            let prefix = &key[..2];
            prefix_matches
                .entry(prefix.to_string())
                .or_default()
                .push(key.clone());
        }
    }

    for (prefix, matches) in prefix_matches {
        if matches.len() > 1 && !keys.contains(&prefix) {
            let result = get_template(&index, &prefix);
            assert!(
                result.is_err(),
                "should be ambiguous for prefix '{}'",
                prefix
            );
            assert!(
                result.unwrap_err().message().contains("ambiguous"),
                "error should mention ambiguous"
            );
            return;
        }
    }
    panic!("No ambiguous prefix found in templates - test needs updating");
}

#[test]
fn exact_lookup_returns_stored_text() {
    let index = fixture();
    assert_eq!(get_template(&index, "rust").unwrap(), RUST);
    assert_eq!(get_template(&index, "RuSt").unwrap(), RUST);
    assert_eq!(get_template(&index, "go").unwrap(), GO);
}

#[test]
fn exact_key_wins_over_longer_keys() {
    // "go" is a key and also a prefix of "godot".
    let index = fixture();
    assert_eq!(get_template(&index, "Go").unwrap(), GO);
}

#[test]
fn unique_prefix_in_upper_case() {
    let index = fixture();
    assert_eq!(get_template(&index, "PYTH").unwrap(), PYTHON);
    assert_eq!(get_template(&index, "god").unwrap(), get_template(&index, "godot").unwrap());
}

#[test]
fn empty_name_is_rejected() {
    let index = fixture();
    assert_eq!(get_template(&index, ""), Err(LookupError::EmptyName));
}

#[test]
fn not_found_carries_the_name() {
    let index = fixture();
    let err = get_template(&index, "Zig").unwrap_err();
    assert_eq!(err, LookupError::NotFound("Zig".to_string()));
    assert_eq!(err.message(), "no template found for language \"Zig\"");
}

#[test]
fn ambiguous_lists_all_matches_sorted() {
    let index = fixture();
    let err = get_template(&index, "CO").unwrap_err();
    assert_eq!(
        err,
        LookupError::Ambiguous(
            "CO".to_string(),
            vec!["commonlisp".to_string(), "composer".to_string()]
        )
    );
    assert_eq!(
        err.message(),
        "ambiguous language \"CO\"; matches: commonlisp, composer"
    );
}

#[test]
fn empty_name_message() {
    assert_eq!(LookupError::EmptyName.message(), "empty language name");
}

#[test]
fn list_is_sorted_and_skips_other_files() {
    let index = fixture();
    assert_eq!(
        list_languages(&index),
        vec![
            "commonlisp", "composer", "emacs", "go", "godot", "node", "python", "rust"
        ]
    );
}

#[test]
fn later_file_with_same_key_wins() {
    let files = vec![("Foo.gitignore", "first\n"), ("FOO.gitignore", "second\n")];
    let index = build_index(&files);
    assert_eq!(list_languages(&index), vec!["foo".to_string()]);
    assert_eq!(get_template(&index, "foo").unwrap(), "second\n");
}

#[test]
fn bare_suffix_is_not_a_template() {
    let files = vec![(".gitignore", "x\n"), ("a.gitignore.bak", "y\n"), ("A.gitignore", "z\n")];
    let index = build_index(&files);
    assert_eq!(list_languages(&index), vec!["a".to_string()]);
}

#[test]
fn empty_index_finds_nothing() {
    let index = build_index(&[]);
    assert!(list_languages(&index).is_empty());
    assert_eq!(
        get_template(&index, "go"),
        Err(LookupError::NotFound("go".to_string()))
    );
}

#[test]
fn find_by_lowercase_key() {
    let index = fixture();
    assert_eq!(find_template(&index, "pyth", "Pyth").unwrap(), PYTHON);
    assert_eq!(find_template(&index, "go", "GO").unwrap(), GO);
    // The key is taken as given: upper case matches nothing.
    assert_eq!(
        find_template(&index, "PYTH", "PYTH"),
        Err(LookupError::NotFound("PYTH".to_string()))
    );
}

#[test]
fn find_reports_the_name_given() {
    let index = fixture();
    assert_eq!(
        find_template(&index, "co", "Co"),
        Err(LookupError::Ambiguous(
            "Co".to_string(),
            vec!["commonlisp".to_string(), "composer".to_string()]
        ))
    );
}

#[test]
fn whitespace_only_name_is_rejected() {
    let index = fixture();
    assert_eq!(get_template(&index, "   "), Err(LookupError::EmptyName));
    assert_eq!(get_template(&index, "\t\n"), Err(LookupError::EmptyName));
}

#[test]
fn get_templates_returns_texts_in_order() {
    let index = fixture();
    let names = vec!["Rust".to_string(), "go".to_string(), "pyth".to_string()];
    assert_eq!(get_templates(&index, &names).unwrap(), vec![RUST, GO, PYTHON]);
    assert_eq!(get_templates(&index, &[]).unwrap(), Vec::<&str>::new());
}

#[test]
fn get_templates_stops_at_first_failure() {
    let index = fixture();
    let names = vec!["go".to_string(), "zig".to_string(), "co".to_string()];
    assert_eq!(
        get_templates(&index, &names),
        Err(LookupError::NotFound("zig".to_string()))
    );
    let names = vec!["co".to_string(), "zig".to_string()];
    assert_eq!(
        get_templates(&index, &names),
        Err(LookupError::Ambiguous(
            "co".to_string(),
            vec!["commonlisp".to_string(), "composer".to_string()]
        ))
    );
}
