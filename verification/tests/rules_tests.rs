use gitrends::rules::AuthorNormalizer;
use gitrends::rules::IgnoreFile;
use gitrends::rules::ModuleDefinitions;
use gitrends::rules::ModuleDefinitionError;

#[test]
fn ignore_file_matches_globs() {
    let ignores = IgnoreFile::new("*.lock\ntarget/**\n");
    assert!(ignores.is_ignored("Cargo.lock"));
    assert!(ignores.is_ignored("target/debug/app"));
    assert!(!ignores.is_ignored("src/lib.rs"));
}

#[test]
fn ignore_file_skips_invalid_patterns() {
    // an unclosed bracket does not compile as a glob and is skipped
    let ignores = IgnoreFile::new("[\n*.tmp\n");
    assert!(ignores.is_ignored("a.tmp"));
    assert!(!ignores.is_ignored("["));
}

#[test]
fn empty_ignore_file_ignores_nothing() {
    let ignores = IgnoreFile::empty();
    assert!(!ignores.is_ignored("anything"));
}

#[test]
fn module_rules_first_match_wins() {
    let defs = ModuleDefinitions::new("src/core/* => core\nsrc/* => rest\n").unwrap();
    assert_eq!(defs.get_module("src/core/a.rs").unwrap(), "core");
    assert_eq!(defs.get_module("src/b.rs").unwrap(), "rest");
    assert!(defs.get_module("README.md").is_none());
}

#[test]
fn module_rules_skip_lines_without_arrow() {
    let defs = ModuleDefinitions::new("just a note\nsrc/* => code\n").unwrap();
    assert_eq!(defs.get_module("src/a.rs").unwrap(), "code");
}

#[test]
fn module_rules_reject_bad_pattern() {
    let err = ModuleDefinitions::new("[ => broken\n").unwrap_err();
    match err {
        ModuleDefinitionError::Pattern(p) => assert_eq!(p, "["),
    }
}

#[test]
fn module_name_prefers_rules_then_parent_then_root() {
    let defs = ModuleDefinitions::new("docs/** => documentation\n").unwrap();
    // a matching rule wins
    assert_eq!(defs.module_name("docs/guide/a.md"), "documentation");
    // no rule: the parent directory
    assert_eq!(defs.module_name("src/engine/core.rs"), "src/engine");
    // no parent directory: the root-module sentinel
    assert_eq!(defs.module_name("Cargo.toml"), "<root>");
}

#[test]
fn module_name_without_rules() {
    let defs = ModuleDefinitions::empty();
    assert_eq!(defs.module_name("a/b/c.txt"), "a/b");
    assert_eq!(defs.module_name("plain"), "<root>");
}

#[test]
fn author_aliases_apply_first_match() {
    let aliases = AuthorNormalizer::new("bob => Robert Smith\nrs => Robert Smith\n");
    assert_eq!(aliases.normalize("bob"), "Robert Smith");
    assert_eq!(aliases.normalize("rs"), "Robert Smith");
    assert_eq!(aliases.normalize("alice"), "alice");
}

#[test]
fn author_aliases_empty_is_identity() {
    let aliases = AuthorNormalizer::empty();
    assert_eq!(aliases.normalize("anyone"), "anyone");
}

#[test]
fn trimming_rule_lines_covers_unicode_whitespace() {
    let defs = ModuleDefinitions::new("\u{a0}src/*\u{a0} => \u{a0}core\u{a0}\n").unwrap();
    assert_eq!(defs.get_module("src/a.rs").unwrap(), "core");
}
