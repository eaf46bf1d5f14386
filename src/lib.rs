//! Generating ignore files for version control from named templates: a
//! case-insensitive index with prefix lookup over the template texts, and a
//! merge that joins several templates while dropping repeated patterns.
use vstd::prelude::*;

pub mod index;
pub mod languages;
pub mod merge;
pub mod order;
pub mod text;

pub use index::{
    build_index, find_template, get_template, get_templates, list_languages, LookupError,
    TemplateIndex,
};
pub use languages::parse_languages;
pub use merge::merge_templates;

verus! {

/// The program's version, the package version of the manifest.
pub const VERSION: &'static str = "0.1.0";

/// The output path used when none is given.
pub const DEFAULT_OUTPUT: &'static str = ".gitignore";

/// The error for a command line without languages.
pub const LANG_REQUIRED_ERR: &'static str =
    "languages required (e.g., gig python or gig go,godot,node)";

/// The usage text.
pub const HELP_MSG: &'static str = "gig - generate .gitignore files from GitHub's template collection

Usage:
  gig <languages> [output]

Arguments:
  languages  Comma-separated list of language/tool templates (e.g., python or go,godot,node)
  output     Path to write the .gitignore file (default: .gitignore)

Flags:
  --list         List all available language templates
  -h, --help     Show this help message
  -V, --version  Show version information

Examples:
  gig python                   Create .gitignore for Python
  gig go,godot,node            Create .gitignore for Go + Godot + Node
  gig rust src/.gitignore      Create .gitignore for Rust in src/

Templates are sourced from https://github.com/github/gitignore";

} // verus!
