//! Startup reconciliation: catches this machine up on changes made to a watched folder while its
//! agent was not running, by comparing a fresh directory scan with the manifest saved the last
//! time the folder was watched.
//!
//! This only tells the machine what changed on its own disk while it was offline. It does not
//! tell peers about changes that they missed while they were offline.

use vstd::prelude::*;

use crate::exclude;
use crate::exclude::ExcludeRules;
use crate::name_map::NameMap;
use crate::path;
use crate::path::{join, strip_prefix};
use crate::protocol::ChangeKind;
use crate::text;
use crate::text::{owned, replace_char};
use crate::watcher::ChangeEvent;

verus! {

/// A lightweight fingerprint of one file, cheap enough to keep for every file in a watched tree
/// without hashing file contents.
#[derive(Debug, Clone, Copy, PartialEq, Eq, Structural)]
pub struct FileStamp {
    pub size: u64,
    pub modified_unix_ms: i64,
}

impl FileStamp {
    /// The stamp of a file of `size` bytes that was last modified `modified_ms` milliseconds after
    /// the beginning of 1970, if that is known. The count is cut to 64 bits, and is zero where it
    /// is not known.
    pub fn from_metadata(size: u64, modified_ms: Option<u128>) -> (stamp: Self)
        ensures
            stamp.size == size,
            stamp.modified_unix_ms == match modified_ms {
                Some(ms) => ms as i64,
                None => 0i64,
            },
    {
        let modified_unix_ms: i64 = match modified_ms {
            Some(ms) => ms as i64,
            None => 0,
        };
        FileStamp { size, modified_unix_ms }
    }
}

/// A snapshot of every non-excluded file under a watched root, by its path relative to that root,
/// with forward slashes: as a scan found them, and as live changes were recorded since.
pub struct Manifest {
    entries: NameMap<FileStamp>,
}

impl View for Manifest {
    type V = Map<Seq<char>, FileStamp>;

    closed spec fn view(&self) -> Map<Seq<char>, FileStamp> {
        self.entries@
    }
}

/// The map that `entries` amount to, where a later entry for a path replaces an earlier one.
pub open spec fn map_of(entries: Seq<(String, FileStamp)>) -> Map<Seq<char>, FileStamp>
    decreases entries.len(),
{
    if entries.len() == 0 {
        Map::empty()
    } else {
        map_of(entries.drop_last()).insert(entries.last().0@, entries.last().1)
    }
}

/// `entries` list every file of `files` once, and nothing else.
pub open spec fn lists_files(
    entries: Seq<(String, FileStamp)>,
    files: Map<Seq<char>, FileStamp>,
) -> bool {
    let paths = entries.map_values(|entry: (String, FileStamp)| entry.0@);
    &&& paths.no_duplicates()
    &&& forall|file: Seq<char>| files.contains_key(file) <==> #[trigger] paths.contains(file)
    &&& forall|i: int|
        0 <= i < entries.len() ==> (#[trigger] entries[i]).1 == files[entries[i].0@]
}

impl Default for Manifest {
    /// The manifest of an empty folder.
    fn default() -> (manifest: Self)
        ensures
            manifest@ == Map::<Seq<char>, FileStamp>::empty(),
    {
        Manifest { entries: NameMap::new() }
    }
}

impl Manifest {
    /// The manifest with the given entries.
    pub fn from_entries(entries: Vec<(String, FileStamp)>) -> (manifest: Self)
        ensures
            manifest@ == map_of(entries@),
    {
        let mut manifest = Manifest::default();
        let mut i: usize = 0;
        assert(entries@.take(0) =~= Seq::<(String, FileStamp)>::empty());
        while i < entries.len()
            invariant
                i <= entries@.len(),
                manifest@ == map_of(entries@.take(i as int)),
            decreases entries@.len() - i,
        {
            assert(entries@.take(i + 1).drop_last() =~= entries@.take(i as int));
            manifest.entries.insert(owned(entries[i].0.as_str()), entries[i].1);
            i += 1;
        }
        assert(entries@.take(i as int) =~= entries@);
        manifest
    }

    /// The entries of this manifest, each path once.
    pub fn to_entries(&self) -> (entries: Vec<(String, FileStamp)>)
        ensures
            lists_files(entries@, self@),
    {
        let keys = self.entries.keys();
        let ghost names = text::texts(keys@);
        let mut entries: Vec<(String, FileStamp)> = Vec::new();
        let mut i: usize = 0;
        while i < keys.len()
            invariant
                i <= keys@.len(),
                names == text::texts(keys@),
                names.no_duplicates(),
                forall|name: Seq<char>|
                    self@.contains_key(name) <==> #[trigger] names.contains(name),
                entries@.len() == i,
                forall|j: int| 0 <= j < i ==> (#[trigger] entries@[j]).0@ == names[j],
                forall|j: int| 0 <= j < i ==> (#[trigger] entries@[j]).1 == self@[names[j]],
            decreases keys@.len() - i,
        {
            let name = keys[i].as_str();
            assert(names[i as int] == name@);
            assert(names.contains(name@));
            if let Some(stamp) = self.entries.get(name) {
                entries.push((owned(name), *stamp));
            }
            i += 1;
        }
        assert(entries@.map_values(|entry: (String, FileStamp)| entry.0@) =~= names);
        entries
    }

    /// The manifest that was saved, or an empty one if there is none or it cannot be read.
    pub fn load(saved: Option<Manifest>) -> (manifest: Self)
        ensures
            manifest@ == match saved {
                Some(saved) => saved@,
                None => Map::<Seq<char>, FileStamp>::empty(),
            },
    {
        match saved {
            Some(saved) => saved,
            None => Manifest::default(),
        }
    }

    /// The stamp of the file at `path`, if it is in this manifest.
    pub fn get(&self, path: &str) -> (stamp: Option<FileStamp>)
        ensures
            stamp == if self@.contains_key(path@) {
                Some(self@[path@])
            } else {
                None
            },
    {
        match self.entries.get(path) {
            Some(stamp) => Some(*stamp),
            None => None,
        }
    }
}

/// One entry of a directory walk.
pub struct ScannedEntry {
    /// The whole path, as text.
    pub path: String,
    /// The names of the path's components, where the path is not Unicode text and `path` stands
    /// in for it. A name that is not Unicode text is missing.
    pub components: Option<Vec<Option<String>>>,
    /// Whether the entry is a plain file.
    pub is_file: bool,
    /// The file's stamp, if its metadata could be read.
    pub stamp: Option<FileStamp>,
}

/// The key under which a file with the relative path `relative` is kept.
pub open spec fn key_of(relative: Seq<char>) -> Seq<char> {
    text::with_char_replaced(relative, '\\', '/')
}

/// What a scan keeps of `entry`, given whether its path is excluded and what of its path is below
/// the root.
pub open spec fn kept_of(
    entry: ScannedEntry,
    excluded: bool,
    relative: Option<Seq<char>>,
) -> Option<(Seq<char>, FileStamp)> {
    match (relative, entry.stamp) {
        (Some(relative), Some(stamp)) => if entry.is_file && !excluded {
            Some((key_of(relative), stamp))
        } else {
            None
        },
        _ => None,
    }
}

/// Whether `kept` is what a scan of `root` keeps of `entry`.
pub open spec fn scans_to(
    kept: Option<(Seq<char>, FileStamp)>,
    entry: ScannedEntry,
    root: Seq<char>,
    custom: Seq<Seq<char>>,
) -> bool {
    exists|excluded: bool, relative: Option<Seq<char>>|
        {
            &&& kept == #[trigger] kept_of(entry, excluded, relative)
            &&& exclude::decides_any_path(excluded, custom, entry.path@, entry.components)
            &&& path::is_stripped(relative, entry.path@, root)
        }
}

/// The files that are kept, a later one replacing an earlier one with the same key.
pub open spec fn files_of(kept: Seq<Option<(Seq<char>, FileStamp)>>) -> Map<Seq<char>, FileStamp>
    decreases kept.len(),
{
    if kept.len() == 0 {
        Map::empty()
    } else {
        match kept.last() {
            Some(file) => files_of(kept.drop_last()).insert(file.0, file.1),
            None => files_of(kept.drop_last()),
        }
    }
}

/// Whether `files` are what a scan of `root` that meets `entries` finds.
pub open spec fn is_scan(
    files: Map<Seq<char>, FileStamp>,
    entries: Seq<ScannedEntry>,
    root: Seq<char>,
    custom: Seq<Seq<char>>,
) -> bool {
    exists|kept: Seq<Option<(Seq<char>, FileStamp)>>|
        {
            &&& files == #[trigger] files_of(kept)
            &&& kept.len() == entries.len()
            &&& forall|i: int|
                0 <= i < entries.len() ==> scans_to(#[trigger] kept[i], entries[i], root, custom)
        }
}

/// Builds a fresh manifest of the walk of `root` that met `entries`, skipping anything that is
/// not a readable plain file or that `excludes` matches.
pub fn scan(root: &str, entries: &Vec<ScannedEntry>, excludes: &ExcludeRules) -> (manifest: Manifest)
    ensures
        is_scan(manifest@, entries@, root@, excludes@),
{
    let mut manifest = Manifest::default();
    let ghost mut kept: Seq<Option<(Seq<char>, FileStamp)>> = Seq::empty();
    let mut i: usize = 0;
    while i < entries.len()
        invariant
            i <= entries@.len(),
            kept.len() == i,
            manifest@ == files_of(kept),
            forall|j: int|
                0 <= j < i ==> scans_to(#[trigger] kept[j], entries@[j], root@, excludes@),
        decreases entries@.len() - i,
    {
        let entry = &entries[i];
        let excluded: bool = excludes.is_any_path_excluded(
            entry.path.as_str(),
            &entry.components,
        );
        let relative = strip_prefix(entry.path.as_str(), root);
        let file = kept_entry(entry, excluded, &relative);
        proof {
            let found = kept_of(entries@[i as int], excluded, path::optional_text(relative));
            let before = kept;
            kept = kept.push(found);
            assert(kept.drop_last() =~= before);
            assert(scans_to(found, entries@[i as int], root@, excludes@));
        }
        if let Some((key, stamp)) = file {
            manifest.entries.insert(key, stamp);
        }
        i += 1;
    }
    manifest
}

/// What a scan keeps of `entry`: the key and the stamp of a readable plain file that is not
/// excluded and lies below the root.
pub fn kept_entry(
    entry: &ScannedEntry,
    excluded: bool,
    relative: &Option<String>,
) -> (kept: Option<(String, FileStamp)>)
    ensures
        match kept {
            Some(file) => kept_of(*entry, excluded, path::optional_text(*relative)) == Some(
                (file.0@, file.1),
            ),
            None => kept_of(*entry, excluded, path::optional_text(*relative)) is None,
        },
{
    if !entry.is_file || excluded {
        return None;
    }
    match (relative, entry.stamp) {
        (Some(relative), Some(stamp)) => Some((replace_char(relative.as_str(), '\\', '/'), stamp)),
        _ => None,
    }
}

/// The change at `file` between the manifests `old` and `new`, if there is one.
pub open spec fn change_at(
    old: Map<Seq<char>, FileStamp>,
    new: Map<Seq<char>, FileStamp>,
    file: Seq<char>,
) -> Option<ChangeKind> {
    if new.contains_key(file) {
        if !old.contains_key(file) {
            Some(ChangeKind::Created)
        } else if old[file] != new[file] {
            Some(ChangeKind::Modified)
        } else {
            None
        }
    } else if old.contains_key(file) {
        Some(ChangeKind::Removed)
    } else {
        None
    }
}

/// The paths of a list of changes.
pub open spec fn changed_paths(changes: Seq<(String, ChangeKind)>) -> Seq<Seq<char>> {
    changes.map_values(|change: (String, ChangeKind)| change.0@)
}

/// `changes` are the changes between `old` and `new`, each once, and nothing else.
pub open spec fn lists_changes(
    changes: Seq<(String, ChangeKind)>,
    old: Map<Seq<char>, FileStamp>,
    new: Map<Seq<char>, FileStamp>,
) -> bool {
    &&& changed_paths(changes).no_duplicates()
    &&& forall|file: Seq<char>|
        change_at(old, new, file) is Some <==> #[trigger] changed_paths(changes).contains(file)
    &&& forall|i: int|
        0 <= i < changes.len() ==> change_at(old, new, (#[trigger] changes[i]).0@) == Some(
            changes[i].1,
        )
}

/// The changes between two manifests: new or changed files as `Created` or `Modified`, vanished
/// files as `Removed`.
pub fn changes(old: &Manifest, new: &Manifest) -> (changes: Vec<(String, ChangeKind)>)
    ensures
        lists_changes(changes@, old@, new@),
{
    let mut changes: Vec<(String, ChangeKind)> = Vec::new();
    let new_keys = new.entries.keys();
    let ghost new_names = text::texts(new_keys@);
    let mut i: usize = 0;
    while i < new_keys.len()
        invariant
            i <= new_keys@.len(),
            new_names == text::texts(new_keys@),
            new_names.no_duplicates(),
            forall|name: Seq<char>|
                new@.contains_key(name) <==> #[trigger] new_names.contains(name),
            lists_some_changes(changes@, old@, new@),
            forall|file: Seq<char>| #[trigger]
                changed_paths(changes@).contains(file) <==> (change_at(old@, new@, file) is Some
                    && new_names.take(i as int).contains(file)),
        decreases new_keys@.len() - i,
    {
        let name = new_keys[i].as_str();
        proof {
            text::lemma_take_one_more(new_names, i as int);
            assert(new_names[i as int] == name@);
            assert(new_names.contains(name@));
        }
        if let Some(stamp) = new.get(name) {
            let kind = match old.get(name) {
                None => Some(ChangeKind::Created),
                Some(old_stamp) => if old_stamp != stamp {
                    Some(ChangeKind::Modified)
                } else {
                    None
                },
            };
            if let Some(kind) = kind {
                proof {
                    lemma_one_more_change(changes@, (new_keys@[i as int], kind), old@, new@);
                }
                changes.push((new_keys[i].clone(), kind));
            }
        }
        i += 1;
    }
    assert(new_names.take(i as int) =~= new_names);
    let old_keys = old.entries.keys();
    let ghost old_names = text::texts(old_keys@);
    let mut k: usize = 0;
    assert(old_names.take(0) =~= Seq::<Seq<char>>::empty());
    while k < old_keys.len()
        invariant
            k <= old_keys@.len(),
            old_names == text::texts(old_keys@),
            old_names.no_duplicates(),
            forall|name: Seq<char>|
                old@.contains_key(name) <==> #[trigger] old_names.contains(name),
            lists_some_changes(changes@, old@, new@),
            forall|file: Seq<char>| #[trigger]
                changed_paths(changes@).contains(file) <==> (change_at(old@, new@, file) is Some
                    && (new@.contains_key(file) || old_names.take(k as int).contains(file))),
        decreases old_keys@.len() - k,
    {
        let name = old_keys[k].as_str();
        proof {
            text::lemma_take_one_more(old_names, k as int);
            assert(old_names[k as int] == name@);
            assert(old_names.contains(name@));
        }
        if !new.entries.contains_key(name) {
            proof {
                lemma_one_more_change(
                    changes@,
                    (old_keys@[k as int], ChangeKind::Removed),
                    old@,
                    new@,
                );
            }
            changes.push((old_keys[k].clone(), ChangeKind::Removed));
        }
        k += 1;
    }
    assert(old_names.take(k as int) =~= old_names);
    changes
}

/// `changes` are changes between `old` and `new`, each once.
spec fn lists_some_changes(
    changes: Seq<(String, ChangeKind)>,
    old: Map<Seq<char>, FileStamp>,
    new: Map<Seq<char>, FileStamp>,
) -> bool {
    &&& changed_paths(changes).no_duplicates()
    &&& forall|i: int|
        0 <= i < changes.len() ==> change_at(old, new, (#[trigger] changes[i]).0@) == Some(
            changes[i].1,
        )
}

proof fn lemma_one_more_change(
    changes: Seq<(String, ChangeKind)>,
    change: (String, ChangeKind),
    old: Map<Seq<char>, FileStamp>,
    new: Map<Seq<char>, FileStamp>,
)
    requires
        lists_some_changes(changes, old, new),
        change_at(old, new, change.0@) == Some(change.1),
        !changed_paths(changes).contains(change.0@),
    ensures
        lists_some_changes(changes.push(change), old, new),
        forall|file: Seq<char>| #[trigger]
            changed_paths(changes.push(change)).contains(file) <==> (changed_paths(
                changes,
            ).contains(file) || file == change.0@),
{
    let before = changed_paths(changes);
    let after = changed_paths(changes.push(change));
    assert(after =~= before.push(change.0@));
    assert forall|file: Seq<char>| #[trigger]
        after.contains(file) <==> (before.contains(file) || file == change.0@) by {
        assert(after[before.len() as int] == change.0@);
        if before.contains(file) {
            let j = choose|j: int| 0 <= j < before.len() && before[j] == file;
            assert(after[j] == file);
        }
    }
}

/// `events` are `changes`, at their paths below `root`.
pub open spec fn events_of(
    events: Seq<ChangeEvent>,
    changes: Seq<(String, ChangeKind)>,
    root: Seq<char>,
) -> bool {
    &&& events.len() == changes.len()
    &&& forall|i: int|
        0 <= i < events.len() ==> (#[trigger] events[i]).kind == changes[i].1 && path::is_joined(
            events[i].path@,
            root,
            changes[i].0@,
        )
}

/// `events` report the changes between `old` and `new` at their paths below `root`, each once,
/// and nothing else.
pub open spec fn explains(
    events: Seq<ChangeEvent>,
    root: Seq<char>,
    old: Map<Seq<char>, FileStamp>,
    new: Map<Seq<char>, FileStamp>,
) -> bool {
    exists|changes: Seq<(String, ChangeKind)>| #[trigger]
        lists_changes(changes, old, new) && events_of(events, changes, root)
}

/// Compares two manifests and returns the events needed to explain the difference.
pub fn diff(root: &str, old: &Manifest, new: &Manifest) -> (events: Vec<ChangeEvent>)
    ensures
        explains(events@, root@, old@, new@),
{
    let changes = changes(old, new);
    let mut events: Vec<ChangeEvent> = Vec::new();
    let mut i: usize = 0;
    while i < changes.len()
        invariant
            i <= changes@.len(),
            events@.len() == i,
            forall|j: int|
                0 <= j < i ==> (#[trigger] events@[j]).kind == changes@[j].1 && path::is_joined(
                    events@[j].path@,
                    root@,
                    changes@[j].0@,
                ),
        decreases changes@.len() - i,
    {
        events.push(ChangeEvent { path: join(root, changes[i].0.as_str()), kind: changes[i].1 });
        i += 1;
    }
    assert(lists_changes(changes@, old@, new@) && events_of(events@, changes@, root@));
    events
}

/// The files of a manifest once a live change of kind `kind` at `relative` is recorded, where
/// `found` is the stamp of the plain file that stands there now.
pub open spec fn files_after(
    files: Map<Seq<char>, FileStamp>,
    relative: Option<Seq<char>>,
    kind: ChangeKind,
    found: Option<FileStamp>,
) -> Map<Seq<char>, FileStamp> {
    match relative {
        None => files,
        Some(relative) => if kind == ChangeKind::Removed {
            files.remove(key_of(relative))
        } else {
            match found {
                Some(stamp) => files.insert(key_of(relative), stamp),
                None => files,
            }
        },
    }
}

/// Whether recording a live change touches the manifest, so that it has to be saved.
pub open spec fn is_recorded(
    relative: Option<Seq<char>>,
    kind: ChangeKind,
    found: Option<FileStamp>,
) -> bool {
    relative is Some && (kind == ChangeKind::Removed || found is Some)
}

/// Keeps a watched folder's manifest in sync with reality, so that a restart can tell what changed
/// while the agent was down.
pub struct ManifestStore {
    root: String,
    manifest: Manifest,
}

impl ManifestStore {
    /// The watched folder.
    pub closed spec fn spec_root(self) -> Seq<char> {
        self.root@
    }

    /// The files of the manifest.
    pub closed spec fn files(self) -> Map<Seq<char>, FileStamp> {
        self.manifest@
    }

    /// Compares the manifest that was saved the last time `root` was watched with a walk of the
    /// folder that met `entries`, and takes the walk as the new baseline, which is then to be
    /// saved. Returns the store and any catch-up events: changes that happened while nothing was
    /// watching this folder.
    ///
    /// `saved` is missing where there is no saved manifest or it cannot be read. The very first
    /// time a folder is watched no manifest exists, and there are no catch-up events, rather than
    /// one for every file that was there before.
    pub fn open(
        root: String,
        manifest_existed: bool,
        saved: Option<Manifest>,
        entries: &Vec<ScannedEntry>,
        excludes: &ExcludeRules,
    ) -> (opened: (Self, Vec<ChangeEvent>))
        ensures
            opened.0.spec_root() == root@,
            is_scan(opened.0.files(), entries@, root@, excludes@),
            manifest_existed ==> explains(
                opened.1@,
                root@,
                match saved {
                    Some(saved) => saved@,
                    None => Map::<Seq<char>, FileStamp>::empty(),
                },
                opened.0.files(),
            ),
            !manifest_existed ==> opened.1@.len() == 0,
    {
        let old = Manifest::load(saved);
        let fresh = scan(root.as_str(), entries, excludes);
        let events = if manifest_existed {
            diff(root.as_str(), &old, &fresh)
        } else {
            Vec::new()
        };
        (ManifestStore { root, manifest: fresh }, events)
    }

    /// Updates the manifest for one change already reported by the live watcher, so that a later
    /// restart's catch-up does not report it again. `found` is the stamp of the plain file that
    /// stands at the event's path now: where there is none, because it is already gone again or
    /// is no plain file, only a removal is recorded. Returns whether the manifest is to be saved.
    ///
    /// The event's path is one that the folder's rules keep, as the live watcher's paths are. No
    /// scan meets a file that they ignore, so that one recorded here would count as removed later.
    pub fn record(&mut self, event: &ChangeEvent, found: Option<FileStamp>) -> (changed: bool)
        ensures
            final(self).spec_root() == old(self).spec_root(),
            exists|relative: Option<Seq<char>>|
                {
                    &&& path::is_stripped(relative, event.path@, old(self).spec_root())
                    &&& final(self).files() == #[trigger] files_after(
                        old(self).files(),
                        relative,
                        event.kind,
                        found,
                    )
                    &&& changed == is_recorded(relative, event.kind, found)
                },
    {
        let relative = strip_prefix(event.path.as_str(), self.root.as_str());
        let ghost rest = path::optional_text(relative);
        let changed = self.record_relative(relative, event.kind, found);
        assert(self.files() == files_after(old(self).files(), rest, event.kind, found));
        changed
    }

    /// Records a live change at `relative`, the path below the watched folder if it is below it.
    pub fn record_relative(
        &mut self,
        relative: Option<String>,
        kind: ChangeKind,
        found: Option<FileStamp>,
    ) -> (changed: bool)
        ensures
            final(self).spec_root() == old(self).spec_root(),
            final(self).files() == files_after(
                old(self).files(),
                path::optional_text(relative),
                kind,
                found,
            ),
            changed == is_recorded(path::optional_text(relative), kind, found),
    {
        match relative {
            None => false,
            Some(relative) => {
                let key = replace_char(relative.as_str(), '\\', '/');
                if kind == ChangeKind::Removed {
                    self.manifest.entries.remove(key.as_str());
                    true
                } else {
                    match found {
                        Some(stamp) => {
                            self.manifest.entries.insert(key, stamp);
                            true
                        },
                        None => false,
                    }
                }
            },
        }
    }

    /// The manifest as it stands.
    pub fn manifest(&self) -> (manifest: &Manifest)
        ensures
            manifest@ == self.files(),
    {
        &self.manifest
    }
}

/// A folder in which nothing changed has nothing to report.
pub proof fn law_unchanged_folder_reports_nothing(
    events: Seq<ChangeEvent>,
    root: Seq<char>,
    files: Map<Seq<char>, FileStamp>,
)
    requires
        explains(events, root, files, files),
    ensures
        events.len() == 0,
{
    let changes = choose|changes: Seq<(String, ChangeKind)>| #[trigger]
        lists_changes(changes, files, files) && events_of(events, changes, root);
    if changes.len() > 0 {
        assert(change_at(files, files, changes[0].0@) == Some(changes[0].1));
    }
}

/// A file is left out of the report exactly where it stands in both manifests with the same stamp
/// or in neither of them.
pub proof fn law_only_unchanged_files_go_unreported(
    old: Map<Seq<char>, FileStamp>,
    new: Map<Seq<char>, FileStamp>,
    file: Seq<char>,
)
    ensures
        change_at(old, new, file) is None <==> (old.contains_key(file) <==> new.contains_key(file))
            && (old.contains_key(file) ==> old[file] == new[file]),
{
}

/// The report explains the whole difference: where it is empty, both manifests are the same.
pub proof fn law_empty_report_means_no_change(
    old: Map<Seq<char>, FileStamp>,
    new: Map<Seq<char>, FileStamp>,
    root: Seq<char>,
)
    requires
        explains(Seq::empty(), root, old, new),
    ensures
        old == new,
{
    let changes = choose|changes: Seq<(String, ChangeKind)>| #[trigger]
        lists_changes(changes, old, new) && events_of(Seq::empty(), changes, root);
    assert forall|file: Seq<char>| change_at(old, new, file) is None by {
        assert(!changed_paths(changes).contains(file));
    }
    assert forall|file: Seq<char>| old.contains_key(file) <==> new.contains_key(file) by {
        assert(change_at(old, new, file) is None);
    }
    assert forall|file: Seq<char>| old.contains_key(file) implies old[file] == new[file] by {
        assert(change_at(old, new, file) is None);
    }
    assert(old =~= new);
}

/// A live change that was recorded does not come up again on restart: if the folder still is at
/// that path as it was recorded, the report says nothing of it.
pub proof fn law_recorded_change_is_not_reported_again(
    files: Map<Seq<char>, FileStamp>,
    relative: Seq<char>,
    kind: ChangeKind,
    found: Option<FileStamp>,
    fresh: Map<Seq<char>, FileStamp>,
)
    requires
        is_recorded(Some(relative), kind, found),
        if kind == ChangeKind::Removed {
            !fresh.contains_key(key_of(relative))
        } else {
            fresh.contains_key(key_of(relative)) && fresh[key_of(relative)] == found->0
        },
    ensures
        change_at(files_after(files, Some(relative), kind, found), fresh, key_of(relative)) is None,
{
}

/// Whether a folder with the files `before` has the files `after` once a change of kind `kind`
/// happened at `relative`, where `found` is the stamp of the plain file that stands there then. A
/// change outside the folder leaves it alone, and so does one that touches no plain file.
pub open spec fn happens(
    before: Map<Seq<char>, FileStamp>,
    after: Map<Seq<char>, FileStamp>,
    relative: Option<Seq<char>>,
    kind: ChangeKind,
    found: Option<FileStamp>,
) -> bool {
    match relative {
        None => after == before,
        Some(relative) => {
            let key = key_of(relative);
            &&& after.remove(key) == before.remove(key)
            &&& if kind == ChangeKind::Removed {
                !after.contains_key(key)
            } else {
                match found {
                    Some(stamp) => after.contains_key(key) && after[key] == stamp,
                    None => !before.contains_key(key) && !after.contains_key(key),
                }
            }
        },
    }
}

/// Whether a manifest goes through the states `manifests` as `events` are recorded one after
/// another, where `found` are the stamps that were found and `relatives` the paths below `root`.
pub open spec fn are_recorded(
    manifests: Seq<Map<Seq<char>, FileStamp>>,
    root: Seq<char>,
    events: Seq<ChangeEvent>,
    found: Seq<Option<FileStamp>>,
    relatives: Seq<Option<Seq<char>>>,
) -> bool {
    &&& manifests.len() == events.len() + 1
    &&& found.len() == events.len()
    &&& relatives.len() == events.len()
    &&& forall|i: int|
        0 <= i < events.len() ==> path::is_stripped(
            #[trigger] relatives[i],
            events[i].path@,
            root,
        ) && manifests[i + 1] == files_after(manifests[i], relatives[i], events[i].kind, found[i])
}

/// A restart reports nothing of what was recorded: if each change of the folder, which goes through
/// the states `folders`, was recorded as it happened, the manifest is at the end what a scan of the
/// folder gives, and a comparison of both reports nothing. The states hold the files that a scan
/// keeps, so that no change is one of an ignored file.
pub proof fn law_recorded_changes_are_not_reported_again(
    manifests: Seq<Map<Seq<char>, FileStamp>>,
    folders: Seq<Map<Seq<char>, FileStamp>>,
    root: Seq<char>,
    events: Seq<ChangeEvent>,
    found: Seq<Option<FileStamp>>,
    relatives: Seq<Option<Seq<char>>>,
    reported: Seq<ChangeEvent>,
)
    requires
        are_recorded(manifests, root, events, found, relatives),
        folders.len() == events.len() + 1,
        folders[0] == manifests[0],
        forall|i: int|
            0 <= i < events.len() ==> happens(
                folders[i],
                folders[i + 1],
                #[trigger] relatives[i],
                events[i].kind,
                found[i],
            ),
        explains(reported, root, manifests.last(), folders.last()),
    ensures
        manifests.last() == folders.last(),
        reported.len() == 0,
{
    lemma_manifest_follows_folder(
        manifests,
        folders,
        root,
        events,
        found,
        relatives,
        events.len() as int,
    );
    law_unchanged_folder_reports_nothing(reported, root, folders.last());
}

proof fn lemma_manifest_follows_folder(
    manifests: Seq<Map<Seq<char>, FileStamp>>,
    folders: Seq<Map<Seq<char>, FileStamp>>,
    root: Seq<char>,
    events: Seq<ChangeEvent>,
    found: Seq<Option<FileStamp>>,
    relatives: Seq<Option<Seq<char>>>,
    i: int,
)
    requires
        are_recorded(manifests, root, events, found, relatives),
        folders.len() == events.len() + 1,
        folders[0] == manifests[0],
        forall|j: int|
            0 <= j < events.len() ==> happens(
                folders[j],
                folders[j + 1],
                #[trigger] relatives[j],
                events[j].kind,
                found[j],
            ),
        0 <= i <= events.len(),
    ensures
        manifests[i] == folders[i],
    decreases i,
{
    if i > 0 {
        let j = i - 1;
        lemma_manifest_follows_folder(manifests, folders, root, events, found, relatives, j);
        assert(manifests[j + 1] == files_after(
            manifests[j],
            relatives[j],
            events[j].kind,
            found[j],
        ));
        assert(happens(folders[j], folders[j + 1], relatives[j], events[j].kind, found[j]));
        lemma_record_follows_change(
            folders[j],
            folders[j + 1],
            relatives[j],
            events[j].kind,
            found[j],
        );
    }
}

proof fn lemma_record_follows_change(
    before: Map<Seq<char>, FileStamp>,
    after: Map<Seq<char>, FileStamp>,
    relative: Option<Seq<char>>,
    kind: ChangeKind,
    found: Option<FileStamp>,
)
    requires
        happens(before, after, relative, kind, found),
    ensures
        files_after(before, relative, kind, found) == after,
{
    if let Some(relative) = relative {
        let key = key_of(relative);
        let recorded = files_after(before, Some(relative), kind, found);
        assert forall|file: Seq<char>| recorded.contains_key(file) <==> #[trigger] after.contains_key(
            file,
        ) by {
            if file != key {
                assert(before.remove(key).contains_key(file) <==> after.remove(key).contains_key(
                    file,
                ));
            }
        }
        assert forall|file: Seq<char>| #[trigger] after.contains_key(file) implies recorded[file]
            == after[file] by {
            if file != key {
                assert(before.remove(key)[file] == after.remove(key)[file]);
            }
        }
        assert(recorded =~= after);
    }
}

/// Recording a change leaves what is known of every other file alone.
pub proof fn law_recording_leaves_other_files_alone(
    files: Map<Seq<char>, FileStamp>,
    relative: Seq<char>,
    kind: ChangeKind,
    found: Option<FileStamp>,
    fresh: Map<Seq<char>, FileStamp>,
    file: Seq<char>,
)
    requires
        file != key_of(relative),
    ensures
        change_at(files_after(files, Some(relative), kind, found), fresh, file) == change_at(
            files,
            fresh,
            file,
        ),
{
}

/// A manifest that is saved and loaded again is the same manifest.
pub proof fn law_saved_manifest_loads_back(
    entries: Seq<(String, FileStamp)>,
    files: Map<Seq<char>, FileStamp>,
)
    requires
        lists_files(entries, files),
    ensures
        map_of(entries) == files,
    decreases entries.len(),
{
    let paths = entries.map_values(|entry: (String, FileStamp)| entry.0@);
    if entries.len() == 0 {
        assert forall|file: Seq<char>| !files.contains_key(file) by {
            assert(!paths.contains(file));
        }
        assert(map_of(entries) =~= files);
    } else {
        let last = entries.last();
        let rest = files.remove(last.0@);
        let rest_paths = entries.drop_last().map_values(|entry: (String, FileStamp)| entry.0@);
        assert(rest_paths =~= paths.drop_last());
        assert(paths[paths.len() - 1] == last.0@);
        assert(paths.contains(last.0@));
        assert forall|file: Seq<char>|
            rest.contains_key(file) <==> #[trigger] rest_paths.contains(file) by {
            if rest.contains_key(file) {
                assert(paths.contains(file));
                let i = choose|i: int| 0 <= i < paths.len() && paths[i] == file;
                assert(rest_paths[i] == file);
            }
            if rest_paths.contains(file) {
                let i = choose|i: int| 0 <= i < rest_paths.len() && rest_paths[i] == file;
                assert(paths[i] == file);
                assert(paths.contains(file));
            }
        }
        assert forall|i: int| 0 <= i < entries.drop_last().len() implies (
        #[trigger] entries.drop_last()[i]).1 == rest[entries.drop_last()[i].0@] by {
            assert(entries[i].1 == files[entries[i].0@]);
            assert(paths[i] != paths[paths.len() - 1]);
        }
        law_saved_manifest_loads_back(entries.drop_last(), rest);
        assert(entries[entries.len() - 1].1 == files[last.0@]);
        assert(rest.insert(last.0@, last.1) =~= files);
    }
}

/// A change is what became of the file: removed where it stands in the old manifest alone, created
/// where it stands in the new one alone, modified where it stands in both with different stamps.
/// Every such file is listed, once, and no other.
pub proof fn law_changes_tell_what_became_of_each_file(
    changes: Seq<(String, ChangeKind)>,
    old: Map<Seq<char>, FileStamp>,
    new: Map<Seq<char>, FileStamp>,
    file: Seq<char>,
)
    requires
        lists_changes(changes, old, new),
    ensures
        (exists|i: int|
            0 <= i < changes.len() && (#[trigger] changes[i]).0@ == file && changes[i].1
                == ChangeKind::Removed) <==> old.contains_key(file) && !new.contains_key(file),
        (exists|i: int|
            0 <= i < changes.len() && (#[trigger] changes[i]).0@ == file && changes[i].1
                == ChangeKind::Created) <==> new.contains_key(file) && !old.contains_key(file),
        (exists|i: int|
            0 <= i < changes.len() && (#[trigger] changes[i]).0@ == file && changes[i].1
                == ChangeKind::Modified) <==> old.contains_key(file) && new.contains_key(file) && (
        old[file].size != new[file].size || old[file].modified_unix_ms
            != new[file].modified_unix_ms),
        forall|i: int| 0 <= i < changes.len() ==> (#[trigger] changes[i]).1 != ChangeKind::Renamed,
        forall|i: int, j: int| 0 <= i < j < changes.len() ==> changes[i].0@ != changes[j].0@,
{
    let paths = changed_paths(changes);
    assert forall|i: int, j: int| 0 <= i < j < changes.len() implies changes[i].0@
        != changes[j].0@ by {
        assert(paths[i] != paths[j]);
    }
    assert forall|i: int| 0 <= i < changes.len() implies (#[trigger] changes[i]).1
        != ChangeKind::Renamed by {
        assert(change_at(old, new, changes[i].0@) == Some(changes[i].1));
    }
    if change_at(old, new, file) is Some {
        assert(paths.contains(file));
        let i = choose|i: int| 0 <= i < paths.len() && paths[i] == file;
        assert(changes[i].0@ == file);
        assert(change_at(old, new, changes[i].0@) == Some(changes[i].1));
    }
}

/// The report of a difference has one event for each change, of its kind and for the path of its file
/// below the folder.
pub proof fn law_report_tells_what_became_of_each_file(
    events: Seq<ChangeEvent>,
    root: Seq<char>,
    old: Map<Seq<char>, FileStamp>,
    new: Map<Seq<char>, FileStamp>,
)
    requires
        explains(events, root, old, new),
    ensures
        forall|file: Seq<char>|
            old.contains_key(file) && !new.contains_key(file) ==> exists|i: int|
                0 <= i < events.len() && (#[trigger] events[i]).kind == ChangeKind::Removed
                    && #[trigger] path::is_joined(events[i].path@, root, file),
        forall|file: Seq<char>|
            new.contains_key(file) && !old.contains_key(file) ==> exists|i: int|
                0 <= i < events.len() && (#[trigger] events[i]).kind == ChangeKind::Created
                    && #[trigger] path::is_joined(events[i].path@, root, file),
        forall|file: Seq<char>|
            old.contains_key(file) && new.contains_key(file) && old[file] != new[file] ==> exists|
                i: int,
            |
                0 <= i < events.len() && (#[trigger] events[i]).kind == ChangeKind::Modified
                    && #[trigger] path::is_joined(events[i].path@, root, file),
        forall|i: int|
            0 <= i < events.len() ==> exists|file: Seq<char>| #[trigger]
                path::is_joined((#[trigger] events[i]).path@, root, file) && match events[i].kind {
                    ChangeKind::Removed => old.contains_key(file) && !new.contains_key(file),
                    ChangeKind::Created => new.contains_key(file) && !old.contains_key(file),
                    ChangeKind::Modified => old.contains_key(file) && new.contains_key(file)
                        && old[file] != new[file],
                    ChangeKind::Renamed => false,
                },
{
    let changes = choose|changes: Seq<(String, ChangeKind)>| #[trigger]
        lists_changes(changes, old, new) && events_of(events, changes, root);
    assert forall|file: Seq<char>|
        old.contains_key(file) && !new.contains_key(file) implies exists|i: int|
        0 <= i < events.len() && (#[trigger] events[i]).kind == ChangeKind::Removed
            && #[trigger] path::is_joined(events[i].path@, root, file) by {
        law_changes_tell_what_became_of_each_file(changes, old, new, file);
        let i = choose|i: int|
            0 <= i < changes.len() && (#[trigger] changes[i]).0@ == file && changes[i].1
                == ChangeKind::Removed;
        assert(events[i].kind == changes[i].1);
    }
    assert forall|file: Seq<char>|
        new.contains_key(file) && !old.contains_key(file) implies exists|i: int|
        0 <= i < events.len() && (#[trigger] events[i]).kind == ChangeKind::Created
            && #[trigger] path::is_joined(events[i].path@, root, file) by {
        law_changes_tell_what_became_of_each_file(changes, old, new, file);
        let i = choose|i: int|
            0 <= i < changes.len() && (#[trigger] changes[i]).0@ == file && changes[i].1
                == ChangeKind::Created;
        assert(events[i].kind == changes[i].1);
    }
    assert forall|file: Seq<char>|
        old.contains_key(file) && new.contains_key(file) && old[file] != new[file] implies exists|
        i: int,
    |
        0 <= i < events.len() && (#[trigger] events[i]).kind == ChangeKind::Modified
            && #[trigger] path::is_joined(events[i].path@, root, file) by {
        law_changes_tell_what_became_of_each_file(changes, old, new, file);
        let i = choose|i: int|
            0 <= i < changes.len() && (#[trigger] changes[i]).0@ == file && changes[i].1
                == ChangeKind::Modified;
        assert(events[i].kind == changes[i].1);
    }
    assert forall|i: int| 0 <= i < events.len() implies exists|file: Seq<char>| #[trigger]
        path::is_joined((#[trigger] events[i]).path@, root, file) && match events[i].kind {
            ChangeKind::Removed => old.contains_key(file) && !new.contains_key(file),
            ChangeKind::Created => new.contains_key(file) && !old.contains_key(file),
            ChangeKind::Modified => old.contains_key(file) && new.contains_key(file) && old[file]
                != new[file],
            ChangeKind::Renamed => false,
        } by {
        assert(events[i].kind == changes[i].1);
        let file = changes[i].0@;
        law_changes_tell_what_became_of_each_file(changes, old, new, file);
        assert(path::is_joined(events[i].path@, root, file));
    }
}

/// A scan keeps nothing but plain files that the rules do not ignore, each with its stamp and under its
/// path below the folder, with slashes.
pub proof fn law_scan_keeps_only_watched_files(
    files: Map<Seq<char>, FileStamp>,
    entries: Seq<ScannedEntry>,
    root: Seq<char>,
    custom: Seq<Seq<char>>,
    file: Seq<char>,
)
    requires
        is_scan(files, entries, root, custom),
        files.contains_key(file),
    ensures
        exists|i: int, relative: Seq<char>|
            {
                &&& 0 <= i < entries.len()
                &&& (#[trigger] entries[i]).is_file
                &&& entries[i].stamp == Some(files[file])
                &&& exclude::decides_any_path(
                    false,
                    custom,
                    entries[i].path@,
                    entries[i].components,
                )
                &&& #[trigger] path::is_stripped(Some(relative), entries[i].path@, root)
                &&& file == text::with_char_replaced(relative, '\\', '/')
            },
{
    let kept = choose|kept: Seq<Option<(Seq<char>, FileStamp)>>|
        {
            &&& files == #[trigger] files_of(kept)
            &&& kept.len() == entries.len()
            &&& forall|i: int|
                0 <= i < entries.len() ==> scans_to(#[trigger] kept[i], entries[i], root, custom)
        };
    law_later_file_replaces_an_earlier_one(kept, file);
    let i = choose|i: int|
        0 <= i < kept.len() && (#[trigger] kept[i]) is Some && (kept[i]->0).0 == file && (kept[i]->0).1
            == files[file];
    assert(scans_to(kept[i], entries[i], root, custom));
    let (excluded, relative) = choose|excluded: bool, relative: Option<Seq<char>>|
        {
            &&& kept[i] == #[trigger] kept_of(entries[i], excluded, relative)
            &&& exclude::decides_any_path(
                excluded,
                custom,
                entries[i].path@,
                entries[i].components,
            )
            &&& path::is_stripped(relative, entries[i].path@, root)
        };
    assert(relative is Some && entries[i].is_file && !excluded);
    assert(path::is_stripped(Some(relative->0), entries[i].path@, root));
}

/// What the kept files amount to: each stands under its key, with the stamp that came last for it, and
/// nothing else stands there.
pub proof fn law_later_file_replaces_an_earlier_one(
    kept: Seq<Option<(Seq<char>, FileStamp)>>,
    file: Seq<char>,
)
    ensures
        files_of(kept).contains_key(file) <==> exists|i: int|
            0 <= i < kept.len() && (#[trigger] kept[i]) is Some && (kept[i]->0).0 == file,
        files_of(kept).contains_key(file) ==> exists|i: int|
            {
                &&& 0 <= i < kept.len()
                &&& (#[trigger] kept[i]) is Some
                &&& (kept[i]->0).0 == file
                &&& (kept[i]->0).1 == files_of(kept)[file]
                &&& forall|j: int|
                    i < j < kept.len() ==> !((#[trigger] kept[j]) is Some && (kept[j]->0).0 == file)
            },
    decreases kept.len(),
{
    if kept.len() > 0 {
        let earlier = kept.drop_last();
        let last = kept.len() - 1;
        law_later_file_replaces_an_earlier_one(earlier, file);
        assert(kept[last] == kept.last());
        if kept.last() is Some && (kept.last()->0).0 == file {
            assert((kept[last]->0).1 == files_of(kept)[file]);
        } else {
            assert(files_of(kept).contains_key(file) == files_of(earlier).contains_key(file));
            if exists|i: int| 0 <= i < kept.len() && (#[trigger] kept[i]) is Some && (kept[i]->0).0
                == file {
                let i = choose|i: int|
                    0 <= i < kept.len() && (#[trigger] kept[i]) is Some && (kept[i]->0).0 == file;
                assert(earlier[i] == kept[i]);
            }
            if files_of(earlier).contains_key(file) {
                let i = choose|i: int|
                    {
                        &&& 0 <= i < earlier.len()
                        &&& (#[trigger] earlier[i]) is Some
                        &&& (earlier[i]->0).0 == file
                        &&& (earlier[i]->0).1 == files_of(earlier)[file]
                        &&& forall|j: int|
                            i < j < earlier.len() ==> !((#[trigger] earlier[j]) is Some
                                && (earlier[j]->0).0 == file)
                    };
                assert(kept[i] == earlier[i]);
                assert(files_of(kept)[file] == files_of(earlier)[file]);
                assert forall|j: int| i < j < kept.len() implies !((#[trigger] kept[j]) is Some
                    && (kept[j]->0).0 == file) by {
                    if j < last {
                        assert(earlier[j] == kept[j]);
                    }
                }
            }
        }
    }
}

/// A scan keeps every plain file that is watched: where the metadata of an entry could be read, the
/// rules cannot but keep its path, and all that can be left of it below the folder is `relative`, the
/// file is in the manifest.
pub proof fn law_scan_keeps_every_watched_file(
    files: Map<Seq<char>, FileStamp>,
    entries: Seq<ScannedEntry>,
    root: Seq<char>,
    custom: Seq<Seq<char>>,
    i: int,
    relative: Seq<char>,
)
    requires
        is_scan(files, entries, root, custom),
        0 <= i < entries.len(),
        entries[i].is_file,
        entries[i].stamp is Some,
        forall|excluded: bool| #[trigger]
            exclude::decides_any_path(excluded, custom, entries[i].path@, entries[i].components)
                ==> !excluded,
        forall|rest: Option<Seq<char>>| #[trigger]
            path::is_stripped(rest, entries[i].path@, root) ==> rest == Some(relative),
    ensures
        files.contains_key(text::with_char_replaced(relative, '\\', '/')),
        i == entries.len() - 1 ==> files[text::with_char_replaced(relative, '\\', '/')]
            == entries[i].stamp->0,
{
    let key = text::with_char_replaced(relative, '\\', '/');
    let kept = choose|kept: Seq<Option<(Seq<char>, FileStamp)>>|
        {
            &&& files == #[trigger] files_of(kept)
            &&& kept.len() == entries.len()
            &&& forall|j: int|
                0 <= j < entries.len() ==> scans_to(#[trigger] kept[j], entries[j], root, custom)
        };
    assert(scans_to(kept[i], entries[i], root, custom));
    let (excluded, rest) = choose|excluded: bool, rest: Option<Seq<char>>|
        {
            &&& kept[i] == #[trigger] kept_of(entries[i], excluded, rest)
            &&& exclude::decides_any_path(
                excluded,
                custom,
                entries[i].path@,
                entries[i].components,
            )
            &&& path::is_stripped(rest, entries[i].path@, root)
        };
    assert(rest == Some(relative));
    assert(kept[i] == Some((key, entries[i].stamp->0)));
    law_later_file_replaces_an_earlier_one(kept, key);
    let j = choose|j: int|
        {
            &&& 0 <= j < kept.len()
            &&& (#[trigger] kept[j]) is Some
            &&& (kept[j]->0).0 == key
            &&& (kept[j]->0).1 == files_of(kept)[key]
            &&& forall|k: int|
                j < k < kept.len() ==> !((#[trigger] kept[k]) is Some && (kept[k]->0).0 == key)
        };
    if i == entries.len() - 1 && j < i {
        assert(kept[i] is Some && (kept[i]->0).0 == key);
    }
}

/// What an entry is kept as follows from it alone: a plain file that is not ignored, stands below the
/// folder and has readable metadata is kept under its path with slashes and with that stamp, and
/// anything else is not kept.
pub proof fn law_only_watched_entries_are_kept(
    entry: ScannedEntry,
    excluded: bool,
    relative: Option<Seq<char>>,
)
    ensures
        kept_of(entry, excluded, relative) is Some <==> entry.is_file && !excluded && relative is Some
            && entry.stamp is Some,
        kept_of(entry, excluded, relative) is Some ==> (kept_of(entry, excluded, relative)->0).1
            == entry.stamp->0 && (kept_of(entry, excluded, relative)->0).0 == text::with_char_replaced(
            relative->0,
            '\\',
            '/',
        ),
{
}

/// Recording follows the file: a removal takes it out, anything else sets its stamp where a plain file
/// is found, and nothing changes where none is found or the path is not below the folder. The manifest
/// is to be saved exactly where the path is below the folder and there was something to record.
pub proof fn law_recording_follows_the_file(
    files: Map<Seq<char>, FileStamp>,
    relative: Seq<char>,
    kind: ChangeKind,
    found: Option<FileStamp>,
    other: Seq<char>,
)
    ensures
        ({
            let file = text::with_char_replaced(relative, '\\', '/');
            let after = files_after(files, Some(relative), kind, found);
            &&& kind == ChangeKind::Removed ==> !after.contains_key(file)
            &&& kind != ChangeKind::Removed && found is Some ==> after.contains_key(file)
                && after[file] == found->0
            &&& kind != ChangeKind::Removed && found is None ==> after == files
            &&& other != file ==> after.contains_key(other) == files.contains_key(other)
            &&& other != file && files.contains_key(other) ==> after[other] == files[other]
        }),
        files_after(files, None, kind, found) == files,
        is_recorded(Some(relative), kind, found) <==> kind == ChangeKind::Removed || found is Some,
        !is_recorded(None, kind, found),
{
}

/// Of entries for one path the last counts, and every path that an entry names is in the manifest.
pub proof fn law_last_entry_for_a_path_counts(
    entries: Seq<(String, FileStamp)>,
    path: String,
    stamp: FileStamp,
    file: Seq<char>,
)
    ensures
        map_of(entries.push((path, stamp))).contains_key(path@),
        map_of(entries.push((path, stamp)))[path@] == stamp,
        file != path@ ==> map_of(entries.push((path, stamp))).contains_key(file) == map_of(
            entries,
        ).contains_key(file),
        file != path@ && map_of(entries).contains_key(file) ==> map_of(
            entries.push((path, stamp)),
        )[file] == map_of(entries)[file],
        !map_of(Seq::empty()).contains_key(file),
{
    assert(entries.push((path, stamp)).drop_last() =~= entries);
}

/// The entries that are saved are the files: each stands in one entry, with its stamp, and no entry is
/// of any other file.
pub proof fn law_each_file_is_saved_once(
    entries: Seq<(String, FileStamp)>,
    files: Map<Seq<char>, FileStamp>,
    file: Seq<char>,
)
    requires
        lists_files(entries, files),
    ensures
        files.contains_key(file) <==> exists|i: int|
            0 <= i < entries.len() && (#[trigger] entries[i]).0@ == file && entries[i].1
                == files[file],
        forall|i: int| 0 <= i < entries.len() ==> files.contains_key((#[trigger] entries[i]).0@),
        forall|i: int, j: int| 0 <= i < j < entries.len() ==> entries[i].0@ != entries[j].0@,
{
    let paths = entries.map_values(|entry: (String, FileStamp)| entry.0@);
    if files.contains_key(file) {
        assert(paths.contains(file));
        let i = choose|i: int| 0 <= i < paths.len() && paths[i] == file;
        assert(entries[i].0@ == file && entries[i].1 == files[file]);
    }
    assert forall|i: int| 0 <= i < entries.len() implies files.contains_key(
        (#[trigger] entries[i]).0@,
    ) by {
        assert(paths[i] == entries[i].0@);
        assert(paths.contains(paths[i]));
    }
    assert forall|i: int, j: int| 0 <= i < j < entries.len() implies entries[i].0@
        != entries[j].0@ by {
        assert(paths[i] != paths[j]);
    }
}

/// Each change becomes one event, in its place, of the same kind and at its path below the folder. Where
/// the folder and the path are portable and the path is plain, that is the folder, a separator unless the
/// folder is empty or ends with one, and the path.
pub proof fn law_each_change_becomes_one_event(
    events: Seq<ChangeEvent>,
    changes: Seq<(String, ChangeKind)>,
    root: Seq<char>,
    i: int,
)
    requires
        events_of(events, changes, root),
        0 <= i < events.len(),
    ensures
        events.len() == changes.len(),
        events[i].kind == changes[i].1,
        path::is_joined(events[i].path@, root, changes[i].0@),
        path::is_portable(root) && path::is_portable(changes[i].0@) && path::is_plain_on(
            '/',
            changes[i].0@,
        ) ==> {
            let file = changes[i].0@;
            if root.len() == 0 || root.last() == '/' {
                events[i].path@ == root + file
            } else {
                events[i].path@ == root.push('/') + file || events[i].path@ == root.push('\\') + file
            }
        },
{
    let file = changes[i].0@;
    assert(path::is_joined(events[i].path@, root, file));
    if path::is_portable(root) && path::is_portable(file) && path::is_plain_on('/', file) {
        path::lemma_portable('/', root);
        path::lemma_portable('\\', root);
        path::lemma_portable('/', file);
        path::lemma_portable('\\', file);
        path::lemma_plain_begins_with_a_name('/', file);
        assert(file.contains(file[0]));
        assert(root.len() > 0 ==> root.contains(root.last()));
    }
}

} // verus!
