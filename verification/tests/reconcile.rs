//! Catching up with a folder that was not watched.

use lfsync_core::exclude::ExcludeRules;
use lfsync_core::protocol::ChangeKind;
use lfsync_core::reconcile::{
    changes, diff, kept_entry, scan, FileStamp, Manifest, ManifestStore, ScannedEntry,
};
use lfsync_core::watcher::ChangeEvent;

const ROOT: &str = "/home/alice/watched";

fn stamp(contents: &str, modified_ms: u128) -> FileStamp {
    FileStamp::from_metadata(contents.len() as u64, Some(modified_ms))
}

fn file(name: &str, contents: &str, modified_ms: u128) -> ScannedEntry {
    ScannedEntry {
        path: format!("{ROOT}/{name}"),
        components: None,
        is_file: true,
        stamp: Some(stamp(contents, modified_ms)),
    }
}

fn directory(path: &str) -> ScannedEntry {
    ScannedEntry {
        path: path.to_string(),
        components: None,
        is_file: false,
        stamp: Some(stamp("", 1)),
    }
}

fn saved(store: &ManifestStore) -> Option<Manifest> {
    Some(Manifest::from_entries(store.manifest().to_entries()))
}

#[test]
fn catches_up_on_changes_made_while_unwatched() {
    let before = vec![
        directory(ROOT),
        file("keep.txt", "unchanged", 1),
        file("will_change.txt", "before", 2),
        file("will_be_removed.txt", "bye", 3),
    ];

    // First run: establishes the baseline manifest, no catch-up events yet.
    let (store, events) =
        ManifestStore::open(ROOT.to_string(), false, None, &before, &ExcludeRules::default());
    assert!(events.is_empty());

    // Changes happening while the agent wasn't running.
    let after = vec![
        directory(ROOT),
        file("keep.txt", "unchanged", 1),
        file("will_change.txt", "after, much longer content", 4),
        file("new_file.txt", "brand new", 5),
    ];
    let (_store, events) = ManifestStore::open(
        ROOT.to_string(),
        true,
        saved(&store),
        &after,
        &ExcludeRules::default(),
    );

    let find = |name: &str| events.iter().find(|e| e.path.ends_with(name));
    assert_eq!(find("keep.txt"), None, "unchanged file must not be reported");
    assert_eq!(find("will_change.txt").map(|e| e.kind), Some(ChangeKind::Modified));
    assert_eq!(find("will_be_removed.txt").map(|e| e.kind), Some(ChangeKind::Removed));
    assert_eq!(find("new_file.txt").map(|e| e.kind), Some(ChangeKind::Created));
    assert_eq!(events.len(), 3);
}

#[test]
fn recorded_live_changes_are_not_reported_again_on_restart() {
    let (mut store, events) = ManifestStore::open(
        ROOT.to_string(),
        false,
        None,
        &vec![directory(ROOT)],
        &ExcludeRules::default(),
    );
    assert!(events.is_empty());

    // A live watcher would report this and call `record` for it.
    let created = file("live_change.txt", "created while watching", 7);
    let event = ChangeEvent { path: created.path.clone(), kind: ChangeKind::Created };
    assert!(store.record(&event, created.stamp));

    let (_store, events) = ManifestStore::open(
        ROOT.to_string(),
        true,
        saved(&store),
        &vec![directory(ROOT), created],
        &ExcludeRules::default(),
    );
    assert!(
        events.is_empty(),
        "a change already recorded live must not resurface as a catch-up event: {events:?}"
    );
}

#[test]
fn a_stamp_is_cut_to_sixty_four_bits() {
    assert_eq!(FileStamp::from_metadata(5, None), FileStamp { size: 5, modified_unix_ms: 0 });
    assert_eq!(
        FileStamp::from_metadata(5, Some(1_700_000_000_000)).modified_unix_ms,
        1_700_000_000_000
    );
    assert_eq!(FileStamp::from_metadata(0, Some((1 << 64) + 3)).modified_unix_ms, 3);
    assert_eq!(FileStamp::from_metadata(0, Some(u64::MAX as u128)).modified_unix_ms, -1);
}

#[test]
fn a_scan_keeps_files_that_are_not_excluded() {
    let mut unreadable = file("unreadable.txt", "", 1);
    unreadable.stamp = None;
    let mut elsewhere = file("x", "", 1);
    elsewhere.path = "/tmp/elsewhere.txt".to_string();
    let entries = vec![
        directory(ROOT),
        directory("/home/alice/watched/sub"),
        file("sub/a.txt", "a", 1),
        file(".git/config", "c", 1),
        file("b.txt~", "b", 1),
        unreadable,
        elsewhere,
    ];
    let manifest = scan(ROOT, &entries, &ExcludeRules::default());
    assert_eq!(manifest.to_entries(), vec![("sub/a.txt".to_string(), stamp("a", 1))]);
    assert_eq!(manifest.get("sub/a.txt"), Some(stamp("a", 1)));
    assert_eq!(manifest.get(".git/config"), None);
}

#[test]
fn an_excluded_root_hides_everything_below_it() {
    let rules = ExcludeRules::new(vec!["alice".to_string()]);
    assert!(scan(ROOT, &vec![file("a.txt", "a", 1)], &rules).to_entries().is_empty());
}

#[test]
fn a_path_that_is_not_text_is_excluded_by_its_readable_names() {
    let mut entry = file("a\u{fffd}.tmp", "a", 1);
    entry.components = Some(vec![Some("home".to_string()), None]);
    let kept = scan(ROOT, &vec![entry], &ExcludeRules::default());
    assert_eq!(kept.to_entries(), vec![("a\u{fffd}.tmp".to_string(), stamp("a", 1))]);

    let mut entry = file("a\u{fffd}", "a", 1);
    entry.components = Some(vec![Some(".git".to_string()), None]);
    assert!(scan(ROOT, &vec![entry], &ExcludeRules::default()).to_entries().is_empty());
}

#[test]
fn an_entry_is_kept_under_a_key_with_slashes() {
    let entry = file("a", "a", 1);
    let key = |excluded, relative: Option<&str>| {
        kept_entry(&entry, excluded, &relative.map(str::to_string)).map(|kept| kept.0)
    };
    assert_eq!(key(false, Some("a\\b/c")), Some("a/b/c".to_string()));
    assert_eq!(key(true, Some("a")), None);
    assert_eq!(key(false, None), None);
}

#[test]
fn a_difference_lists_each_changed_file_once() {
    let old = Manifest::from_entries(vec![
        ("same".to_string(), stamp("x", 1)),
        ("touched".to_string(), stamp("x", 1)),
        ("gone".to_string(), stamp("x", 1)),
    ]);
    let new = Manifest::from_entries(vec![
        ("same".to_string(), stamp("x", 1)),
        ("touched".to_string(), stamp("x", 2)),
        ("sub/new".to_string(), stamp("x", 1)),
    ]);
    let mut found = changes(&old, &new);
    found.sort_by(|a, b| a.0.cmp(&b.0));
    assert_eq!(
        found,
        vec![
            ("gone".to_string(), ChangeKind::Removed),
            ("sub/new".to_string(), ChangeKind::Created),
            ("touched".to_string(), ChangeKind::Modified),
        ]
    );
    let separator = std::path::MAIN_SEPARATOR;
    let mut paths: Vec<String> = diff("/r", &old, &new).into_iter().map(|e| e.path).collect();
    paths.sort();
    assert_eq!(
        paths,
        vec![
            format!("/r{separator}gone"),
            format!("/r{separator}sub/new"),
            format!("/r{separator}touched"),
        ]
    );
}

#[test]
fn an_unchanged_folder_reports_nothing() {
    let entries = vec![file("a", "a", 1), file("b", "b", 2)];
    let rules = ExcludeRules::default();
    let (store, _) = ManifestStore::open(ROOT.to_string(), false, None, &entries, &rules);
    let (_, events) = ManifestStore::open(ROOT.to_string(), true, saved(&store), &entries, &rules);
    assert!(events.is_empty());
}

#[test]
fn a_manifest_that_cannot_be_read_counts_as_empty() {
    let entries = vec![file("a", "a", 1)];
    let rules = ExcludeRules::default();
    let (_, events) = ManifestStore::open(ROOT.to_string(), true, None, &entries, &rules);
    assert_eq!(events.len(), 1);
    assert_eq!(events[0].kind, ChangeKind::Created);
    assert!(Manifest::load(None).to_entries().is_empty());
    assert!(Manifest::default().to_entries().is_empty());
}

#[test]
fn recording_follows_what_happened_to_the_file() {
    let entries = vec![file("a", "a", 1), file("b", "b", 2)];
    let rules = ExcludeRules::default();
    let (mut store, _) = ManifestStore::open(ROOT.to_string(), false, None, &entries, &rules);
    let event = |name: &str, kind| ChangeEvent { path: format!("{ROOT}/{name}"), kind };

    assert!(store.record(&event("a", ChangeKind::Modified), Some(stamp("aa", 3))));
    assert_eq!(store.manifest().get("a"), Some(stamp("aa", 3)));
    assert_eq!(store.manifest().get("b"), Some(stamp("b", 2)));

    assert!(store.record(&event("a", ChangeKind::Removed), Some(stamp("aa", 3))));
    assert_eq!(store.manifest().get("a"), None);
    assert!(store.record(&event("a", ChangeKind::Removed), None));

    // A directory, or a file that is gone again.
    assert!(!store.record(&event("sub", ChangeKind::Created), None));
    assert_eq!(store.manifest().get("sub"), None);

    let outside = ChangeEvent { path: "/tmp/x".to_string(), kind: ChangeKind::Created };
    assert!(!store.record(&outside, Some(stamp("x", 1))));
    assert_eq!(store.manifest().to_entries(), vec![("b".to_string(), stamp("b", 2))]);
}

#[test]
fn recording_a_relative_path_needs_no_root() {
    let rules = ExcludeRules::default();
    let (mut store, _) = ManifestStore::open(ROOT.to_string(), false, None, &vec![], &rules);
    let relative = Some("sub\\a".to_string());
    assert!(store.record_relative(relative, ChangeKind::Created, Some(stamp("a", 1))));
    assert_eq!(store.manifest().get("sub/a"), Some(stamp("a", 1)));
    assert!(!store.record_relative(None, ChangeKind::Removed, None));
}

#[test]
fn a_run_of_recorded_changes_is_not_reported() {
    let rules = ExcludeRules::default();
    let before = vec![file("a", "a", 1), file("b", "b", 2)];
    let (mut store, _) = ManifestStore::open(ROOT.to_string(), false, None, &before, &rules);
    for (name, kind, found) in [
        ("c", ChangeKind::Created, Some(stamp("c", 3))),
        ("a", ChangeKind::Modified, Some(stamp("aa", 4))),
        ("sub", ChangeKind::Created, None),
        ("b", ChangeKind::Removed, None),
        ("c", ChangeKind::Modified, Some(stamp("ccc", 5))),
    ] {
        store.record(&ChangeEvent { path: format!("{ROOT}/{name}"), kind }, found);
    }
    let after = vec![file("a", "aa", 4), file("c", "ccc", 5)];
    let (_, events) = ManifestStore::open(ROOT.to_string(), true, saved(&store), &after, &rules);
    assert!(events.is_empty());
}
