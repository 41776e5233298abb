//! The durable memory of peers.

use lfsync_core::roster::Roster;

#[test]
fn remember_persists_and_reloads() {
    let mut roster = Roster::load(None);
    roster.remember("peer-a", "desktop-a");
    roster.remember("peer-b", "laptop-b");

    let reloaded = Roster::load(Some(roster.to_entries()));
    let mut ids = reloaded.peer_ids();
    ids.sort();
    assert_eq!(ids, vec!["peer-a".to_string(), "peer-b".to_string()]);
}

#[test]
fn remembering_the_same_hostname_again_is_a_no_op() {
    let mut roster = Roster::load(None);
    assert!(roster.remember("peer-a", "desktop-a"));
    let after_first = roster.to_entries();

    assert!(!roster.remember("peer-a", "desktop-a"));
    let after_second = roster.to_entries();

    assert_eq!(after_first, after_second);
}

#[test]
fn missing_file_starts_empty() {
    assert!(Roster::load(None).peer_ids().is_empty());
}

#[test]
fn a_new_hostname_replaces_the_old_one() {
    let mut roster = Roster::load(None);
    assert!(roster.remember("peer-a", "desktop-a"));
    assert!(roster.remember("peer-a", "desktop-b"));
    assert_eq!(
        roster.to_entries(),
        vec![("peer-a".to_string(), "desktop-b".to_string())]
    );
}

#[test]
fn the_last_of_repeated_entries_counts() {
    let roster = Roster::load(Some(vec![
        ("peer-a".to_string(), "old".to_string()),
        ("peer-b".to_string(), "b".to_string()),
        ("peer-a".to_string(), "new".to_string()),
    ]));
    let mut entries = roster.to_entries();
    entries.sort();
    assert_eq!(
        entries,
        vec![
            ("peer-a".to_string(), "new".to_string()),
            ("peer-b".to_string(), "b".to_string())
        ]
    );
}
