//! Settings, the folders in them and what the user is shown.

use lfsync_core::commands::{add_watched_folder, get_watched_folders, remove_watched_folder};
use lfsync_core::config::{config_path, Config};
use lfsync_core::notify_toast::{change_toast, verb, THIS_MACHINE};
use lfsync_core::protocol::ChangeKind;
use lfsync_core::tray::{menu_action, MenuAction};
use serde_json::Value;

fn parse(contents: &str) -> Option<Config> {
    let value: Value = serde_json::from_str(contents).ok()?;
    let text = |name: &str| value.get(name).and_then(|text| text.as_str()).map(str::to_string);
    let folders = value.get("watched_folders")?.as_array()?;
    Some(Config {
        peer_id: text("peer_id")?,
        watched_folders: folders
            .iter()
            .map(|folder| folder.as_str().map(str::to_string))
            .collect::<Option<Vec<String>>>()?,
        shared_secret: text("shared_secret")?,
    })
}

fn config(folders: &[&str]) -> Config {
    Config {
        peer_id: "peer-1".to_string(),
        watched_folders: folders.iter().map(|folder| folder.to_string()).collect(),
        shared_secret: "secret".to_string(),
    }
}

#[test]
fn fresh_settings_have_a_random_id_and_no_folders() {
    let a = Config::default();
    let b = Config::load(None, parse);
    assert_ne!(a.peer_id, b.peer_id);
    for config in [a, b] {
        assert!(config.watched_folders.is_empty());
        assert_eq!(config.shared_secret, "");
        assert_eq!(config.peer_id.len(), 36);
        for (i, c) in config.peer_id.chars().enumerate() {
            match i {
                8 | 13 | 18 | 23 => assert_eq!(c, '-'),
                14 => assert_eq!(c, '4'),
                19 => assert!("89ab".contains(c)),
                _ => assert!("0123456789abcdef".contains(c)),
            }
        }
    }
}

#[test]
fn saved_settings_load_back() {
    for folders in [vec![], vec!["/a"], vec!["/b", "/a", "C:\\docs \"x\"", "/写真"]] {
        let saved = config(&folders).save();
        let loaded = Config::load(Some(saved), parse);
        assert_eq!(loaded.peer_id, "peer-1");
        assert_eq!(loaded.shared_secret, "secret");
        assert_eq!(get_watched_folders(&loaded), folders);
    }
}

#[test]
fn a_corrupted_file_gives_fresh_settings() {
    for contents in ["", "{}", "nonsense", "{\"peer_id\":\"x\"}"] {
        let loaded = Config::load(Some(contents.to_string()), parse);
        assert_ne!(loaded.peer_id, "x");
        assert_eq!(loaded.peer_id.len(), 36);
        assert!(loaded.watched_folders.is_empty());
    }
}

#[test]
fn settings_are_written_one_to_a_line() {
    assert_eq!(
        config(&[]).save(),
        "{\n  \"peer_id\": \"peer-1\",\n  \"watched_folders\": [],\n  \"shared_secret\": \"secret\"\n}"
    );
    assert_eq!(
        config(&["/a", "/b\"c"]).save(),
        "{\n  \"peer_id\": \"peer-1\",\n  \"watched_folders\": [\n    \"/a\",\n    \"/b\\\"c\"\n  ],\n\
         \x20 \"shared_secret\": \"secret\"\n}"
    );
    let folders = vec!["/a".to_string(), "/b\"c".to_string()];
    let list = serde_json::to_string_pretty(&folders).unwrap().replace('\n', "\n  ");
    assert!(config(&["/a", "/b\"c"]).save().contains(&list));
}

#[test]
fn a_folder_is_added_once() {
    let mut config = config(&["/a"]);
    assert!(add_watched_folder(&mut config, "/b".to_string()));
    assert!(!add_watched_folder(&mut config, "/b".to_string()));
    assert!(!add_watched_folder(&mut config, "/a".to_string()));
    assert_eq!(get_watched_folders(&config), vec!["/a", "/b"]);
    assert_eq!(config.peer_id, "peer-1");
}

#[test]
fn a_folder_is_removed_wherever_it_stands() {
    let mut config = config(&["/b", "/a", "/b", "/c"]);
    remove_watched_folder(&mut config, "/b");
    assert_eq!(get_watched_folders(&config), vec!["/a", "/c"]);
    remove_watched_folder(&mut config, "/x");
    assert_eq!(get_watched_folders(&config), vec!["/a", "/c"]);
    assert_eq!(config.shared_secret, "secret");
}

#[test]
fn removing_a_folder_undoes_adding_it() {
    let mut config = config(&["/a"]);
    add_watched_folder(&mut config, "/b".to_string());
    remove_watched_folder(&mut config, "/b");
    assert_eq!(get_watched_folders(&config), vec!["/a"]);
}

#[test]
fn settings_are_saved_in_a_directory_of_their_own() {
    let separator = std::path::MAIN_SEPARATOR;
    let below = |base: &str| {
        format!("{base}{separator}network-local-file-manager{separator}config.json")
    };
    assert_eq!(config_path(Some("/config".to_string()), "/tmp".to_string()), below("/config"));
    assert_eq!(config_path(None, "/tmp".to_string()), below("/tmp"));
}

#[test]
fn a_toast_tells_who_did_what() {
    let toast = change_toast("desktop-a", "docs/a.txt", ChangeKind::Created);
    assert_eq!(toast.title, "desktop-a");
    assert_eq!(toast.body, "docs/a.txt が作成されました");
    assert_eq!(verb(ChangeKind::Modified), "更新されました");
    assert_eq!(verb(ChangeKind::Removed), "削除されました");
    assert_eq!(verb(ChangeKind::Renamed), "名前が変更されました");
    assert_eq!(THIS_MACHINE, "このPC");
}

#[test]
fn the_tray_menu_shows_and_quits() {
    assert_eq!(menu_action("show"), MenuAction::ShowWindow);
    assert_eq!(menu_action("quit"), MenuAction::Quit);
    assert_eq!(menu_action("other"), MenuAction::Ignore);
}

#[test]
fn a_copy_of_settings_is_equal() {
    let config = config(&["/a", "/b"]);
    let copy = config.clone();
    assert_eq!(copy.peer_id, config.peer_id);
    assert_eq!(copy.watched_folders, config.watched_folders);
    assert_eq!(copy.shared_secret, config.shared_secret);
}
