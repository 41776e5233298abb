//! Which paths are ignored.

use lfsync_core::exclude::ExcludeRules;

#[test]
fn excludes_default_noisy_paths() {
    let rules = ExcludeRules::default();
    assert!(rules.is_excluded("/repo/.git/config"));
    assert!(rules.is_excluded("/repo/node_modules/pkg/index.js"));
    assert!(rules.is_excluded("/docs/~$report.docx"));
    assert!(rules.is_excluded("/docs/notes.txt.swp"));
    assert!(rules.is_excluded("/docs/notes.txt~"));
}

#[test]
fn keeps_ordinary_paths() {
    let rules = ExcludeRules::default();
    assert!(!rules.is_excluded("/docs/report.docx"));
    assert!(!rules.is_excluded("/photos/2026/summer.jpg"));
}

#[test]
fn honors_custom_excludes() {
    let rules = ExcludeRules::new(vec!["drafts".to_string()]);
    assert!(rules.is_excluded("/docs/drafts/idea.txt"));
    assert!(!rules.is_excluded("/docs/final/idea.txt"));
}

#[test]
fn every_built_in_name_is_excluded_in_any_case() {
    let rules = ExcludeRules::default();
    for name in [
        ".git",
        ".svn",
        ".hg",
        "node_modules",
        "__pycache__",
        ".venv",
        "venv",
        ".DS_Store",
        "Thumbs.db",
        "desktop.ini",
    ] {
        assert!(rules.name_matches(name));
        assert!(rules.name_matches(&name.to_ascii_uppercase()));
        assert!(!rules.name_matches(&format!("x{name}")));
    }
}

#[test]
fn every_built_in_suffix_and_prefix_is_excluded_as_it_is_written() {
    let rules = ExcludeRules::default();
    for name in ["a.tmp", "a.swp", "a.swx", "a~", "~", ".tmp", "~$a.docx", ".~lock.a.odt"] {
        assert!(rules.name_matches(name), "{name}");
    }
    for name in ["a.TMP", "a.tmp2", "tmp", "$~a", "a~b", "", "$"] {
        assert!(!rules.name_matches(name), "{name}");
    }
}

#[test]
fn only_ascii_letters_are_folded() {
    let rules = ExcludeRules::new(vec!["Ärger".to_string(), "[x]".to_string()]);
    assert!(rules.name_matches("ÄRGER"));
    assert!(!rules.name_matches("ärger"));
    assert!(!rules.name_matches("{x}"));
}

#[test]
fn what_lies_in_an_excluded_directory_is_excluded() {
    let rules = ExcludeRules::default();
    assert!(rules.is_excluded("/repo/.git"));
    assert!(rules.is_excluded("/repo/.git/objects/aa/bb"));
    assert!(rules.is_excluded(".git"));
    assert!(!rules.is_excluded("/repo/git/objects"));
}

#[test]
fn a_joined_path_is_excluded_by_either_part() {
    let rules = ExcludeRules::default();
    for base in ["", "/", "/repo", "/repo/", ".", "a/./b//", "/repo/.git", "x~/"] {
        for rest in ["a", "a/b", ".git", "b/c.tmp", "../x"] {
            let joined = if base.is_empty() || base.ends_with('/') {
                format!("{base}{rest}")
            } else {
                format!("{base}/{rest}")
            };
            assert_eq!(
                rules.is_excluded(&joined),
                rules.is_excluded(base) || rules.is_excluded(rest),
                "{joined}"
            );
        }
    }
}

#[test]
fn custom_names_add_to_the_built_in_ones() {
    let rules = ExcludeRules::new(vec!["drafts".to_string()]);
    assert!(rules.is_excluded("/repo/.git/config"));
    assert!(rules.is_excluded("/docs/DRAFTS"));
}

#[test]
fn dots_and_empty_pieces_are_no_names() {
    let rules = ExcludeRules::new(vec![".".to_string(), "".to_string()]);
    assert!(rules.is_excluded("./a"));
    assert!(!rules.is_excluded("/a/./b//c/"));
    assert!(!rules.is_excluded(""));
}

#[test]
fn unreadable_names_never_exclude() {
    let rules = ExcludeRules::default();
    assert!(!rules.readable_names_excluded(&vec![None, Some("a".to_string())]));
    assert!(rules.readable_names_excluded(&vec![None, Some(".git".to_string())]));
    assert!(!rules.readable_names_excluded(&vec![]));
    assert!(rules.names_excluded(&vec!["a".to_string(), "b~".to_string()]));
}
