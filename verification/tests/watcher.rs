//! Debouncing of file system events.

use lfsync_core::exclude::ExcludeRules;
use lfsync_core::protocol::ChangeKind;
use lfsync_core::watcher::{
    classify, merge_kind, unexcluded, ChangeEvent, Debouncer, EventKind, EventPath, ObservedPath,
    Signal, UnreadablePath,
};

const DEBOUNCE: u128 = 200;

fn event(kind: EventKind, paths: &[&str]) -> Signal {
    Signal::Event {
        kind,
        paths: paths.iter().map(|path| ObservedPath::new(path.to_string())).collect(),
    }
}

fn change(path: &str, kind: ChangeKind) -> ChangeEvent {
    ChangeEvent { path: path.to_string(), kind }
}

#[test]
fn a_change_is_reported_once_its_path_is_quiet() {
    let mut debouncer = Debouncer::new(DEBOUNCE);
    let step = debouncer.step(event(EventKind::Create, &["/d/new_file.txt"]), 1000, 1000);
    assert!(step.events.is_empty());
    assert!(!step.stop);

    let step = debouncer.step(Signal::Quiet, 1199, 1199);
    assert!(step.events.is_empty());

    let step = debouncer.step(Signal::Quiet, 1200, 1200);
    assert_eq!(step.events, vec![change("/d/new_file.txt", ChangeKind::Created)]);
    assert!(!step.stop);

    let step = debouncer.step(Signal::Quiet, 2000, 2000);
    assert!(step.events.is_empty());
}

#[test]
fn a_burst_of_writes_is_one_change() {
    let mut debouncer = Debouncer::new(DEBOUNCE);
    for at in [1000u128, 1100, 1200, 1300] {
        let step = debouncer.step(event(EventKind::Modify, &["/d/a"]), at, at);
        assert!(step.events.is_empty());
    }
    assert!(debouncer.step(Signal::Quiet, 1499, 1499).events.is_empty());
    let step = debouncer.step(Signal::Quiet, 1500, 1500);
    assert_eq!(step.events, vec![change("/d/a", ChangeKind::Modified)]);
}

#[test]
fn a_new_file_that_is_written_is_still_new() {
    let mut debouncer = Debouncer::new(DEBOUNCE);
    debouncer.step(event(EventKind::Create, &["/d/a"]), 0, 0);
    debouncer.step(event(EventKind::Modify, &["/d/a"]), 10, 10);
    debouncer.step(event(EventKind::Modify, &["/d/a"]), 20, 20);
    let step = debouncer.step(Signal::Quiet, 220, 220);
    assert_eq!(step.events, vec![change("/d/a", ChangeKind::Created)]);
}

#[test]
fn a_replaced_file_is_modified() {
    let mut debouncer = Debouncer::new(DEBOUNCE);
    debouncer.step(event(EventKind::Create, &["/d/report.docx.tmp"]), 0, 0);
    debouncer.step(event(EventKind::Modify, &["/d/report.docx.tmp", "/d/report.docx"]), 5, 5);
    let step = debouncer.step(Signal::Quiet, 400, 400);
    assert!(step.events.contains(&change("/d/report.docx", ChangeKind::Modified)));
    assert!(step.events.contains(&change("/d/report.docx.tmp", ChangeKind::Created)));
    assert_eq!(step.events.len(), 2);
}

#[test]
fn a_later_removal_wins() {
    let mut debouncer = Debouncer::new(DEBOUNCE);
    debouncer.step(event(EventKind::Create, &["/d/a"]), 0, 0);
    debouncer.step(event(EventKind::Remove, &["/d/a"]), 10, 10);
    let step = debouncer.step(Signal::Quiet, 210, 210);
    assert_eq!(step.events, vec![change("/d/a", ChangeKind::Removed)]);
}

#[test]
fn paths_wait_for_themselves() {
    let mut debouncer = Debouncer::new(DEBOUNCE);
    debouncer.step(event(EventKind::Create, &["/d/a"]), 0, 0);
    debouncer.step(event(EventKind::Create, &["/d/b"]), 150, 150);
    let step = debouncer.step(Signal::Quiet, 200, 200);
    assert_eq!(step.events, vec![change("/d/a", ChangeKind::Created)]);
    let step = debouncer.step(Signal::Quiet, 350, 350);
    assert_eq!(step.events, vec![change("/d/b", ChangeKind::Created)]);
}

#[test]
fn an_event_may_make_another_path_due() {
    let mut debouncer = Debouncer::new(DEBOUNCE);
    debouncer.step(event(EventKind::Create, &["/d/a"]), 0, 0);
    let step = debouncer.step(event(EventKind::Create, &["/d/b"]), 199, 200);
    assert_eq!(step.events, vec![change("/d/a", ChangeKind::Created)]);
}

#[test]
fn closing_reports_all_that_waits() {
    let mut debouncer = Debouncer::new(DEBOUNCE);
    debouncer.step(event(EventKind::Create, &["/d/a", "/d/b"]), 0, 0);
    let step = debouncer.step(Signal::Closed, 1, 1);
    assert!(step.stop);
    assert_eq!(step.events.len(), 2);
    let step = debouncer.step(Signal::Closed, 2, 2);
    assert!(step.stop);
    assert!(step.events.is_empty());
}

#[test]
fn failures_and_reads_change_nothing() {
    let mut debouncer = Debouncer::new(DEBOUNCE);
    debouncer.step(Signal::Failed, 0, 0);
    for kind in [EventKind::Access, EventKind::Any, EventKind::Other] {
        debouncer.step(event(kind, &["/d/a"]), 0, 0);
    }
    assert!(debouncer.step(Signal::Closed, 1000, 1000).events.is_empty());
}

#[test]
fn a_clock_that_stands_still_makes_nothing_due() {
    let mut debouncer = Debouncer::new(DEBOUNCE);
    debouncer.step(event(EventKind::Create, &["/d/a"]), 1000, 1000);
    assert!(debouncer.step(Signal::Quiet, 500, 500).events.is_empty());

    let mut eager = Debouncer::new(0);
    let step = eager.step(event(EventKind::Create, &["/d/a"]), 1000, 1000);
    assert_eq!(step.events, vec![change("/d/a", ChangeKind::Created)]);
}

#[test]
fn raw_events_are_classified() {
    assert_eq!(classify(&EventKind::Create), Some(ChangeKind::Created));
    assert_eq!(classify(&EventKind::Modify), Some(ChangeKind::Modified));
    assert_eq!(classify(&EventKind::Remove), Some(ChangeKind::Removed));
    assert_eq!(classify(&EventKind::Access), None);
    assert_eq!(classify(&EventKind::Any), None);
    assert_eq!(classify(&EventKind::Other), None);
}

#[test]
fn kinds_are_merged() {
    let kinds =
        [ChangeKind::Created, ChangeKind::Modified, ChangeKind::Removed, ChangeKind::Renamed];
    for existing in kinds {
        for incoming in kinds {
            let expected = if existing == ChangeKind::Created && incoming == ChangeKind::Modified {
                ChangeKind::Created
            } else {
                incoming
            };
            assert_eq!(merge_kind(existing, incoming), expected);
        }
    }
}

#[test]
fn excluded_paths_are_left_out() {
    let rules = ExcludeRules::default();
    let mut paths: Vec<EventPath> = ["/d/a.txt", "/d/.git/index", "/d/b.swp", "/d/c.txt"]
        .iter()
        .map(|path| EventPath { path: path.to_string(), unreadable: None })
        .collect();
    let kept: Vec<String> = unexcluded(&paths, &rules).into_iter().map(|kept| kept.path).collect();
    assert_eq!(kept, vec!["/d/a.txt", "/d/c.txt"]);
    assert_eq!(
        unexcluded(&paths, &rules)[0].key,
        ObservedPath::new("/d//a.txt".to_string()).key
    );
    assert!(unexcluded(&vec![], &rules).is_empty());

    // A name that is not Unicode text is no reason, whatever stands in for it.
    paths.clear();
    for (path, directory) in [("/d/\u{fffd}.tmp", "d"), ("/.git/\u{fffd}", ".git")] {
        paths.push(EventPath {
            path: path.to_string(),
            unreadable: Some(UnreadablePath {
                components: vec![Some("/".to_string()), Some(directory.to_string()), None],
                key: format!("key of {path}"),
            }),
        });
    }
    let kept = unexcluded(&paths, &rules);
    assert_eq!(kept.len(), 1);
    assert_eq!(kept[0].path, "/d/\u{fffd}.tmp");
    assert_eq!(kept[0].key, "key of /d/\u{fffd}.tmp");
}

#[test]
fn ways_to_write_a_path_are_one_path() {
    let mut debouncer = Debouncer::new(DEBOUNCE);
    debouncer.step(event(EventKind::Create, &["/w/a", "/w//a"]), 0, 0);
    debouncer.step(event(EventKind::Modify, &["/w/./a/", "//w/a/."]), 10, 10);
    let step = debouncer.step(Signal::Closed, 20, 20);
    assert_eq!(step.events, vec![change("/w/a", ChangeKind::Created)]);
    assert_eq!(step.keys, vec![ObservedPath::new("/w/a".to_string()).key]);

    let mut debouncer = Debouncer::new(DEBOUNCE);
    let paths = ["/w/a", "w/a", "./w/a", "/w/../a", "/w/a/b", "/w\\a", "/W/a", "\\/w/a", ""];
    debouncer.step(event(EventKind::Create, &paths), 0, 0);
    assert_eq!(debouncer.step(Signal::Closed, 20, 20).events.len(), paths.len());
}

#[test]
fn paths_have_the_same_key_where_they_are_equal() {
    let paths = [
        "", "/", "//", ".", "./", "./.", "a", "a/", "a/.", "./a", "a//b", "a/./b", "a/b", "a/b/..",
        "/a", "//a", "/./a", "/a/", "..", "../a", "\\", "a\\b", "a:b", "C:/a", "a/\"b\"", "a\"/\"b",
    ];
    for a in paths {
        for b in paths {
            let key = |path: &str| ObservedPath::new(path.to_string()).key;
            assert_eq!(
                key(a) == key(b),
                std::path::Path::new(a) == std::path::Path::new(b),
                "{a:?} {b:?}"
            );
        }
    }
}

#[test]
fn a_run_reports_what_came_in() {
    let mut debouncer = Debouncer::new(DEBOUNCE);
    let mut reported: Vec<ChangeEvent> = Vec::new();
    for (signal, at) in [
        (event(EventKind::Create, &["/d/a", "/d/a"]), 0u128),
        (event(EventKind::Access, &["/d/never"]), 10),
        (event(EventKind::Modify, &["/d/a"]), 150),
        (event(EventKind::Modify, &["/d/b"]), 340),
        (Signal::Failed, 350),
        (event(EventKind::Remove, &["/d/a"]), 400),
        (event(EventKind::Modify, &["/d/c"]), 410),
        (Signal::Closed, 420),
    ] {
        let step = debouncer.step(signal, at, at);
        reported.extend(step.events);
    }
    let times = |path: &str| reported.iter().filter(|event| event.path == path).count();
    assert_eq!(times("/d/a"), 2);
    assert_eq!(times("/d/b"), 1);
    assert_eq!(times("/d/c"), 1);
    assert_eq!(reported.len(), 4);
    assert_eq!(reported[0], change("/d/a", ChangeKind::Created));
}

#[test]
fn other_paths_do_not_delay_a_burst() {
    let mut debouncer = Debouncer::new(DEBOUNCE);
    debouncer.step(event(EventKind::Create, &["/d/a"]), 0, 0);
    debouncer.step(event(EventKind::Modify, &["/d/a"]), 199, 199);
    let mut reported: Vec<(u128, ChangeEvent)> = Vec::new();
    for at in [250u128, 300, 350, 398, 399, 450] {
        let step = debouncer.step(event(EventKind::Modify, &["/d/b"]), at, at);
        reported.extend(step.events.into_iter().map(|event| (at, event)));
    }
    assert_eq!(reported, vec![(399, change("/d/a", ChangeKind::Created))]);
}
