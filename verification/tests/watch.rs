//! How changes are shown and where manifests are kept.

use lfsync_core::protocol::ChangeKind;
use lfsync_core::timestamp::Timestamp;
use lfsync_core::watch::{
    describe_change, display_path, filename_for_hash, manifest_filename, relative_display_path,
    DEBOUNCE,
};
use lfsync_core::watcher::ChangeEvent;
use std::collections::hash_map::DefaultHasher;
use std::hash::{Hash, Hasher};

#[test]
fn strips_root_and_normalizes_separators() {
    let root = "/home/alice/Documents";
    let full = "/home/alice/Documents/reports/q1.docx";
    assert_eq!(relative_display_path(root, full), "reports/q1.docx");
}

#[test]
fn falls_back_to_full_path_when_not_under_root() {
    let root = "/home/alice/Documents";
    let unrelated = "/tmp/scratch.txt";
    assert_eq!(relative_display_path(root, unrelated), unrelated);
}

#[test]
fn manifest_filename_is_stable_and_distinguishes_folders() {
    let a1 = manifest_filename("/home/alice/Documents");
    let a2 = manifest_filename("/home/alice/Documents");
    let b = manifest_filename("/home/alice/Photos");
    assert_eq!(a1, a2);
    assert_ne!(a1, b);
    assert!(a1.ends_with(".json"));
}

#[test]
fn manifest_filename_is_the_hash_in_sixteen_digits() {
    let folder = "/home/alice/Documents";
    let mut hasher = DefaultHasher::new();
    folder.hash(&mut hasher);
    let hash = hasher.finish();
    assert_eq!(manifest_filename(folder), format!("{hash:016x}.json"));
    assert_eq!(manifest_filename(folder), filename_for_hash(hash));
}

#[test]
fn filename_has_all_digits_of_the_hash() {
    assert_eq!(filename_for_hash(0), "0000000000000000.json");
    assert_eq!(filename_for_hash(0xab), "00000000000000ab.json");
    assert_eq!(filename_for_hash(0x0123_4567_89ab_cdef), "0123456789abcdef.json");
    assert_eq!(filename_for_hash(u64::MAX), "ffffffffffffffff.json");
}

#[test]
fn a_sibling_with_the_same_beginning_is_not_below_the_root() {
    let full = "/home/alice/Documents2/a.txt";
    assert_eq!(relative_display_path("/home/alice/Documents", full), full);
}

#[test]
fn the_root_itself_is_shown_as_nothing() {
    assert_eq!(relative_display_path("/home/alice", "/home/alice"), "");
    assert_eq!(relative_display_path("/home/alice/", "/home/alice/a/b"), "a/b");
    assert_eq!(relative_display_path("", "a/b"), "a/b");
}

#[test]
fn backslashes_are_shown_as_slashes() {
    assert_eq!(display_path(Some("a\\b\\c.txt".to_string()), "whole"), "a/b/c.txt");
    assert_eq!(display_path(None, "C:\\docs/a.txt"), "C:/docs/a.txt");
    assert_eq!(relative_display_path("/root", "/root/a\\b"), "a/b");
}

#[test]
fn a_change_is_described_for_peers() {
    let now = Timestamp::new(1_709_210_096, 789_000_000).unwrap();
    let event = ChangeEvent { path: "/docs/reports/q1.docx".to_string(), kind: ChangeKind::Created };
    let message = describe_change("peer-1", "desktop-a", "/docs", &event, now);
    assert_eq!(message.peer_id, "peer-1");
    assert_eq!(message.hostname, "desktop-a");
    assert_eq!(message.path, "reports/q1.docx");
    assert_eq!(message.kind, ChangeKind::Created);
    assert_eq!(message.timestamp, now);
}

#[test]
fn a_path_is_quiet_after_eight_tenths_of_a_second() {
    assert_eq!(DEBOUNCE, std::time::Duration::from_millis(800).as_nanos());
}

fn names(path: &str) -> Vec<std::path::Component<'_>> {
    std::path::Path::new(path).components().collect()
}

/// What stands in `path` behind the components of `base`, found by trying every position.
fn remainder(path: &str, base: &str) -> Option<String> {
    let (all, taken) = (names(path), names(base));
    if all.len() < taken.len() || all[..taken.len()] != taken[..] {
        return None;
    }
    if all == taken {
        return Some(String::new());
    }
    let to = (0..=path.len()).find(|to| names(&path[..*to]) == all).unwrap();
    let from = if taken.is_empty() {
        0
    } else {
        (1..=path.len())
            .rev()
            .find(|from| path[..*from].ends_with('/') && names(&path[..*from]) == taken)
            .unwrap()
    };
    Some(path[from..to].to_string())
}

#[test]
fn what_is_left_of_a_path_stands_behind_the_base() {
    let bases = ["", "/", "//", ".", "./", "a", "a/", "a//", "a/.", "/a", "/a/", "//a/./", "a/b", ".."];
    let paths = [
        "", "/", "//", ".", "./.", "a", "a/", "a/.", "a/b", "a//b", "a/./b/", "a/b//c/./d/.//",
        "/a", "/a/.git", "//a//.git//x/", "/a/b/", "./a/b", "../x", "a/..", "a/../b", "/ab", "a/.b/c",
        "/a/.", "/a/./", "/a/...", "a:/b", "a/b:c/d",
    ];
    for base in bases {
        for path in paths {
            let expected = remainder(path, base).unwrap_or(path.to_string());
            assert_eq!(relative_display_path(base, path), expected, "{path:?} below {base:?}");
        }
    }
}
