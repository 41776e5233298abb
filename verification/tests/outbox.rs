//! The queues of what peers have missed, on a disk that is a map.

use chrono::{DateTime, TimeDelta, Utc};
use lfsync_core::outbox::{Flush, Outbox, QueueFile, MAX_AGE_DAYS, MAX_QUEUED_PER_PEER};
use lfsync_core::protocol::{ChangeKind, ChangeMessage};
use lfsync_core::timestamp::Timestamp;
use serde_json::Value;
use std::collections::HashMap;

fn parse(line: &str) -> Option<ChangeMessage> {
    let value: Value = serde_json::from_str(line).ok()?;
    let text = |name: &str| value.get(name).and_then(|text| text.as_str()).map(str::to_string);
    let kind = match text("kind")?.as_str() {
        "created" => ChangeKind::Created,
        "modified" => ChangeKind::Modified,
        "removed" => ChangeKind::Removed,
        "renamed" => ChangeKind::Renamed,
        _ => return None,
    };
    let time: DateTime<Utc> = DateTime::parse_from_rfc3339(&text("timestamp")?).ok()?.into();
    Some(ChangeMessage {
        peer_id: text("peer_id")?,
        hostname: text("hostname")?,
        path: text("path")?,
        kind,
        timestamp: stamp(time),
    })
}

fn stamp(time: DateTime<Utc>) -> Timestamp {
    Timestamp::new(time.timestamp(), time.timestamp_subsec_nanos()).unwrap()
}

fn msg(path: &str) -> ChangeMessage {
    ChangeMessage {
        peer_id: "sender".into(),
        hostname: "desktop-a".into(),
        path: path.into(),
        kind: ChangeKind::Modified,
        timestamp: stamp(Utc::now()),
    }
}

struct Disk {
    outbox: Outbox,
    files: HashMap<String, String>,
}

impl Disk {
    fn new() -> Self {
        Disk { outbox: Outbox::open("/outbox".to_string()), files: HashMap::new() }
    }

    fn queued(&self, peer_id: &str) -> Vec<ChangeMessage> {
        Outbox::read_all(self.files.get(&self.outbox.file_path(peer_id)).cloned(), parse)
    }

    fn carry_out(&mut self, file: QueueFile) {
        match file {
            QueueFile::Remove { path } => {
                self.files.remove(&path);
            }
            QueueFile::Write { path, contents } => {
                self.files.insert(path, contents);
            }
        }
    }

    fn enqueue(&mut self, peer_id: &str, message: &ChangeMessage) {
        let file = self.outbox.enqueue(peer_id, self.queued(peer_id), message);
        self.carry_out(file);
    }

    fn pending(&mut self, peer_id: &str) -> Vec<ChangeMessage> {
        let now = stamp(Utc::now());
        let (pending, file) = self.outbox.pending(peer_id, self.queued(peer_id), now);
        if let Some(file) = file {
            self.carry_out(file);
        }
        pending
    }

    fn acknowledge(&mut self, peer_id: &str, count: usize) {
        if let Some(file) = self.outbox.acknowledge(peer_id, self.queued(peer_id), count) {
            self.carry_out(file);
        }
    }
}

#[test]
fn enqueue_pending_acknowledge_round_trip() {
    let mut disk = Disk::new();

    disk.enqueue("peer-a", &msg("a.txt"));
    disk.enqueue("peer-a", &msg("b.txt"));
    assert_eq!(disk.pending("peer-a").len(), 2);

    disk.acknowledge("peer-a", 1);
    let remaining = disk.pending("peer-a");
    assert_eq!(remaining.len(), 1);
    assert_eq!(remaining[0].path, "b.txt");
}

#[test]
fn unknown_peer_has_no_pending_messages() {
    let mut disk = Disk::new();
    assert!(disk.pending("nobody").is_empty());
}

#[test]
fn enqueue_caps_queue_length_by_dropping_oldest() {
    let mut disk = Disk::new();

    for i in 0..(MAX_QUEUED_PER_PEER + 10) {
        disk.enqueue("peer-a", &msg(&format!("file-{i}.txt")));
    }

    let pending = disk.pending("peer-a");
    assert_eq!(pending.len(), MAX_QUEUED_PER_PEER);
    // The oldest 10 should have been dropped, so the queue starts at file-10.
    assert_eq!(pending[0].path, "file-10.txt");
}

#[test]
fn pending_prunes_entries_older_than_max_age() {
    let mut disk = Disk::new();

    let mut stale = msg("old.txt");
    stale.timestamp = stamp(Utc::now() - TimeDelta::days(MAX_AGE_DAYS + 1));
    disk.enqueue("peer-a", &stale);
    disk.enqueue("peer-a", &msg("fresh.txt"));

    let pending = disk.pending("peer-a");
    assert_eq!(pending.len(), 1);
    assert_eq!(pending[0].path, "fresh.txt");
    // What was pruned is gone from the disk too.
    assert_eq!(disk.queued("peer-a").len(), 1);
}

#[test]
fn acknowledging_everything_removes_the_queue_file() {
    let mut disk = Disk::new();

    disk.enqueue("peer-a", &msg("a.txt"));
    assert!(disk.files.contains_key(&disk.outbox.file_path("peer-a")));
    disk.acknowledge("peer-a", 1);

    assert!(!disk.files.contains_key(&disk.outbox.file_path("peer-a")));
    assert!(disk.outbox.file_path("peer-a").ends_with("peer-a.jsonl"));
    assert!(disk.pending("peer-a").is_empty());
}

#[test]
fn the_limits_are_five_hundred_messages_and_seven_days() {
    assert_eq!(MAX_QUEUED_PER_PEER, 500);
    assert_eq!(MAX_AGE_DAYS, 7);
}

#[test]
fn a_queue_file_lies_below_the_directory() {
    let separator = std::path::MAIN_SEPARATOR;
    assert_eq!(Outbox::open("/box".into()).file_path("p"), format!("/box{separator}p.jsonl"));
    assert_eq!(Outbox::open("/box/".into()).file_path("p"), "/box/p.jsonl");
    assert_eq!(Outbox::open("".into()).file_path("p"), "p.jsonl");
}

#[test]
fn a_queue_is_written_one_message_to_a_line() {
    let outbox = Outbox::open("/box".into());
    let (a, b) = (msg("a.txt"), msg("b.txt"));
    let contents = format!("{}\n{}\n", a.to_json(), b.to_json());
    let file = outbox.write_all("p", &vec![a.clone(), b.clone()]);
    assert_eq!(file, QueueFile::Write { path: outbox.file_path("p"), contents: contents.clone() });
    assert_eq!(Outbox::read_all(Some(contents), parse), vec![a, b]);
    assert_eq!(
        outbox.write_all("p", &vec![]),
        QueueFile::Remove { path: outbox.file_path("p") }
    );
}

#[test]
fn lines_that_cannot_be_read_are_skipped() {
    let (a, b) = (msg("a.txt"), msg("b.txt"));
    let contents = format!("{}\r\n\nbroken\n{}", a.to_json(), b.to_json());
    assert_eq!(Outbox::read_all(Some(contents), parse), vec![a, b]);
    assert!(Outbox::read_all(Some(String::new()), parse).is_empty());
    assert!(Outbox::read_all(None, parse).is_empty());
}

#[test]
fn a_message_of_just_the_limit_is_still_pending() {
    let outbox = Outbox::open("/box".into());
    let now = Timestamp::new(1_709_210_096, 5).unwrap();
    let mut at_limit = msg("limit.txt");
    at_limit.timestamp = Timestamp::new(1_709_210_096 - 7 * 86_400, 5).unwrap();
    let mut too_old = msg("old.txt");
    too_old.timestamp = Timestamp::new(1_709_210_096 - 7 * 86_400, 4).unwrap();

    let (pending, file) = outbox.pending("p", vec![at_limit.clone()], now);
    assert_eq!(pending, vec![at_limit.clone()]);
    assert_eq!(file, None);

    let (pending, file) = outbox.pending("p", vec![too_old, at_limit.clone()], now);
    assert_eq!(pending, vec![at_limit.clone()]);
    assert_eq!(file, Some(outbox.write_all("p", &vec![at_limit])));
}

#[test]
fn acknowledging_nothing_does_nothing() {
    let outbox = Outbox::open("/box".into());
    assert_eq!(outbox.acknowledge("p", vec![msg("a.txt")], 0), None);
}

#[test]
fn acknowledging_too_much_empties_the_queue() {
    let outbox = Outbox::open("/box".into());
    let path = outbox.file_path("p");
    assert_eq!(
        outbox.acknowledge("p", vec![msg("a.txt")], usize::MAX),
        Some(QueueFile::Remove { path: path.clone() })
    );
    assert_eq!(outbox.acknowledge("p", vec![], 1), Some(QueueFile::Remove { path }));
}

#[test]
fn acknowledging_in_two_steps_is_acknowledging_at_once() {
    let mut disk = Disk::new();
    for name in ["a", "b", "c", "d"] {
        disk.enqueue("p", &msg(name));
        disk.enqueue("q", &msg(name));
    }
    disk.acknowledge("p", 1);
    disk.acknowledge("p", 2);
    disk.acknowledge("q", 3);
    let paths = |queue: Vec<ChangeMessage>| -> Vec<String> {
        queue.into_iter().map(|message| message.path).collect()
    };
    assert_eq!(paths(disk.queued("p")), vec!["d"]);
    assert_eq!(paths(disk.queued("q")), vec!["d"]);
}

#[test]
fn a_message_is_appended_to_the_file() {
    let mut disk = Disk::new();
    disk.enqueue("p", &msg("a"));
    let before = disk.files[&disk.outbox.file_path("p")].clone();
    let message = msg("b");
    disk.enqueue("p", &message);
    let after = disk.files[&disk.outbox.file_path("p")].clone();
    assert_eq!(after, format!("{before}{}\n", message.to_json()));
}

#[test]
fn delivery_stops_at_the_first_failure() {
    let messages = vec![msg("a"), msg("b"), msg("c")];
    let mut flush = Flush::new(messages.clone());
    assert_eq!(flush.next(), Some(&messages[0]));
    flush.record(true);
    assert_eq!(flush.next(), Some(&messages[1]));
    flush.record(false);
    assert_eq!(flush.next(), None);
    flush.record(true);
    assert_eq!(flush.delivered(), 1);

    let mut flush = Flush::new(messages);
    for _ in 0..4 {
        flush.record(true);
    }
    assert_eq!(flush.next(), None);
    assert_eq!(flush.delivered(), 3);
    assert_eq!(Flush::new(vec![]).next(), None);
}

#[test]
fn each_peer_has_a_file_of_its_own() {
    for dir in ["", "/", "/box", "/box/", "box"] {
        let outbox = Outbox::open(dir.to_string());
        let ids = ["a", "b", "ab", "", "a.jsonl", ".jsonl"];
        for a in ids {
            for b in ids {
                assert_eq!(outbox.file_path(a) == outbox.file_path(b), a == b);
            }
        }
    }
}
