//! Core logic of a local-network file manager: it watches folders for changes, finds other agents
//! on the LAN and tells them of the changes.
//!
//! The library decides; it does not read files, open sockets or keep time. Whoever uses it hands in
//! what was read and carries out what it answers:
//!
//! * `exclude`, `watcher` and `reconcile` turn file system events and directory scans into changes,
//!   while a folder is watched and after it was not;
//! * `watch` and `notify_toast` put a change into a message for peers and into words;
//! * `protocol` signs messages and verifies them;
//! * `discovery`, `peer` and `roster` keep track of who is online and who was ever seen;
//! * `outbox` keeps what a peer has missed;
//! * `config`, `commands` and `tray` hold the settings and answer the user.
//!
//! `text`, `path`, `json`, `hexadecimal`, `timestamp` and `name_map` are what these are made of.

pub mod commands;
pub mod config;
pub mod discovery;
pub mod exclude;
pub mod hexadecimal;
pub mod json;
pub mod name_map;
pub mod notify_toast;
pub mod outbox;
pub mod path;
pub mod peer;
pub mod protocol;
pub mod reconcile;
pub mod roster;
pub mod text;
pub mod timestamp;
pub mod tray;
pub mod watch;
pub mod watcher;

pub use exclude::ExcludeRules;
pub use outbox::Outbox;
pub use peer::{PeerHandle, PeerRegistry};
pub use protocol::{ChangeKind, ChangeMessage, SharedSecret, DEFAULT_PORT};
pub use reconcile::ManifestStore;
pub use roster::Roster;
pub use timestamp::Timestamp;
pub use watcher::ChangeEvent;
