//! What the settings window asks for: the watched folders and the discovered peers.

use vstd::prelude::*;

use crate::config::Config;
use crate::peer;
use crate::peer::{PeerHandle, PeerRegistry};
use crate::text;
use crate::text::same_text;

verus! {

/// Whether `folders` has the folder `path`.
pub open spec fn has_folder(folders: Seq<String>, path: Seq<char>) -> bool {
    text::texts(folders).contains(path)
}

/// The folders that are watched.
pub fn get_watched_folders(config: &Config) -> (folders: Vec<String>)
    ensures
        folders@ == config.watched_folders@,
{
    let mut folders: Vec<String> = Vec::new();
    let mut i: usize = 0;
    while i < config.watched_folders.len()
        invariant
            i <= config.watched_folders@.len(),
            folders@ == config.watched_folders@.take(i as int),
        decreases config.watched_folders@.len() - i,
    {
        folders.push(config.watched_folders[i].clone());
        assert(config.watched_folders@.take(i + 1) =~= config.watched_folders@.take(i as int).push(
            config.watched_folders@[i as int],
        ));
        i += 1;
    }
    assert(config.watched_folders@.take(i as int) =~= config.watched_folders@);
    folders
}

/// The folders once `path` was added: behind the others, unless it is among them.
pub open spec fn with_folder(folders: Seq<String>, path: String) -> Seq<String> {
    if has_folder(folders, path@) {
        folders
    } else {
        folders.push(path)
    }
}

/// Adds a folder to those that are watched, and tells whether it was not among them. Only then
/// are the settings to be saved and the folder to be watched.
pub fn add_watched_folder(config: &mut Config, path: String) -> (added: bool)
    ensures
        added == !has_folder(old(config).watched_folders@, path@),
        final(config).watched_folders@ == with_folder(old(config).watched_folders@, path),
        final(config).peer_id == old(config).peer_id,
        final(config).shared_secret == old(config).shared_secret,
{
    let ghost names = text::texts(config.watched_folders@);
    let mut i: usize = 0;
    while i < config.watched_folders.len()
        invariant
            *config == *old(config),
            names == text::texts(config.watched_folders@),
            i <= config.watched_folders@.len(),
            forall|j: int| 0 <= j < i ==> #[trigger] names[j] != path@,
        decreases config.watched_folders@.len() - i,
    {
        if same_text(config.watched_folders[i].as_str(), path.as_str()) {
            assert(names[i as int] == path@);
            assert(names.contains(path@));
            return false;
        }
        i += 1;
    }
    config.watched_folders.push(path);
    true
}

/// The folders without `path`.
pub open spec fn without_folder(folders: Seq<String>, path: Seq<char>) -> Seq<String> {
    folders.filter(|folder: String| folder@ != path)
}

/// Takes a folder from those that are watched, if it is among them.
pub fn remove_watched_folder(config: &mut Config, path: &str)
    ensures
        final(config).watched_folders@ == without_folder(old(config).watched_folders@, path@),
        final(config).peer_id == old(config).peer_id,
        final(config).shared_secret == old(config).shared_secret,
{
    let mut kept: Vec<String> = Vec::new();
    let mut i: usize = 0;
    reveal(Seq::filter);
    assert(kept@ =~= without_folder(config.watched_folders@.take(0), path@));
    while i < config.watched_folders.len()
        invariant
            *config == *old(config),
            i <= config.watched_folders@.len(),
            kept@ == without_folder(config.watched_folders@.take(i as int), path@),
        decreases config.watched_folders@.len() - i,
    {
        let folder = config.watched_folders[i].clone();
        assert(config.watched_folders@.take(i + 1).drop_last() =~= config.watched_folders@.take(
            i as int,
        ));
        reveal(Seq::filter);
        if !same_text(folder.as_str(), path) {
            kept.push(folder);
        }
        i += 1;
    }
    assert(config.watched_folders@.take(i as int) =~= config.watched_folders@);
    config.watched_folders = kept;
}

/// What the settings window shows of a peer.
#[derive(Debug, PartialEq)]
pub struct PeerInfo {
    pub hostname: String,
    pub addr: String,
}

/// Whether `shown` shows each of `handles`, in order.
pub open spec fn shows(shown: Seq<PeerInfo>, handles: Seq<PeerHandle>) -> bool {
    &&& shown.len() == handles.len()
    &&& forall|i: int|
        0 <= i < shown.len() ==> (#[trigger] shown[i]).hostname@ == handles[i].hostname@
            && shown[i].addr@ == handles[i].addr@
}

/// Every peer that can be reached, each once.
pub fn get_peers(registry: &PeerRegistry) -> (shown: Vec<PeerInfo>)
    ensures
        exists|handles: Seq<PeerHandle>| #[trigger]
            peer::lists_handles(handles, registry@) && shows(shown@, handles),
{
    let handles = registry.handles();
    let mut shown: Vec<PeerInfo> = Vec::new();
    let mut i: usize = 0;
    while i < handles.len()
        invariant
            i <= handles@.len(),
            shown@.len() == i,
            forall|j: int|
                0 <= j < i ==> (#[trigger] shown@[j]).hostname@ == handles@[j].hostname@
                    && shown@[j].addr@ == handles@[j].addr@,
        decreases handles@.len() - i,
    {
        shown.push(
            PeerInfo { hostname: handles[i].hostname.clone(), addr: handles[i].addr.clone() },
        );
        i += 1;
    }
    shown
}

/// A folder that was added is watched, once, and stays so if it is added again. No other folder
/// comes or goes.
pub proof fn law_added_folder_is_watched_once(folders: Seq<String>, path: String)
    requires
        text::texts(folders).no_duplicates(),
    ensures
        text::texts(with_folder(folders, path)).no_duplicates(),
        with_folder(with_folder(folders, path), path) == with_folder(folders, path),
        forall|other: Seq<char>| #[trigger]
            has_folder(with_folder(folders, path), other) <==> has_folder(folders, other) || other
                == path@,
{
    let names = text::texts(folders);
    let after = text::texts(with_folder(folders, path));
    if !has_folder(folders, path@) {
        assert(after =~= names.push(path@));
        text::lemma_take_one_more(after, names.len() as int);
        assert(after.take(names.len() as int) =~= names);
        assert(after.take(after.len() as int) =~= after);
    }
    assert forall|other: Seq<char>| #[trigger]
        has_folder(with_folder(folders, path), other) <==> has_folder(folders, other) || other
            == path@ by {
        if !has_folder(folders, path@) {
            assert(after.take(after.len() as int).contains(other) <==> (names.contains(other)
                || other == path@));
        }
    }
}

/// A folder that was removed is no longer watched, and every other folder still is.
pub proof fn law_removed_folder_is_not_watched(folders: Seq<String>, path: Seq<char>)
    ensures
        forall|other: Seq<char>| #[trigger]
            has_folder(without_folder(folders, path), other) <==> has_folder(folders, other)
                && other != path,
    decreases folders.len(),
{
    reveal(Seq::filter);
    let names = text::texts(folders);
    let after = text::texts(without_folder(folders, path));
    if folders.len() > 0 {
        let earlier = folders.drop_last();
        let last = folders.last();
        law_removed_folder_is_not_watched(earlier, path);
        let kept = text::texts(without_folder(earlier, path));
        assert(names =~= text::texts(earlier).push(last@));
        if last@ != path {
            assert(after =~= kept.push(last@));
        } else {
            assert(after =~= kept);
        }
        assert forall|other: Seq<char>| #[trigger]
            has_folder(without_folder(folders, path), other) <==> has_folder(folders, other)
                && other != path by {
            lemma_push_contains(text::texts(earlier), last@, other);
            lemma_push_contains(kept, last@, other);
            assert(has_folder(without_folder(earlier, path), other) <==> has_folder(earlier, other)
                && other != path);
        }
    }
}

/// Removing a folder that was just added leaves the folders that were watched before.
pub proof fn law_removal_undoes_addition(folders: Seq<String>, path: String)
    requires
        !has_folder(folders, path@),
    ensures
        without_folder(with_folder(folders, path), path@) == folders,
{
    reveal(Seq::filter);
    assert(folders.push(path).drop_last() =~= folders);
    lemma_nothing_to_remove(folders, path@);
}

proof fn lemma_nothing_to_remove(folders: Seq<String>, path: Seq<char>)
    requires
        !has_folder(folders, path),
    ensures
        without_folder(folders, path) == folders,
    decreases folders.len(),
{
    reveal(Seq::filter);
    if folders.len() > 0 {
        let earlier = folders.drop_last();
        assert(text::texts(folders) =~= text::texts(earlier).push(folders.last()@));
        lemma_push_contains(text::texts(earlier), folders.last()@, path);
        lemma_nothing_to_remove(earlier, path);
        assert(earlier.push(folders.last()) =~= folders);
    } else {
        assert(without_folder(folders, path) =~= folders);
    }
}

proof fn lemma_push_contains(names: Seq<Seq<char>>, name: Seq<char>, other: Seq<char>)
    ensures
        names.push(name).contains(other) <==> names.contains(other) || other == name,
{
    assert(names.push(name)[names.len() as int] == name);
    if names.contains(other) {
        let i = choose|i: int| 0 <= i < names.len() && names[i] == other;
        assert(names.push(name)[i] == other);
    }
}

/// A folder is among the watched ones exactly where one of them is written like it.
pub proof fn law_folder_is_watched_where_it_is_listed(folders: Seq<String>, path: Seq<char>)
    ensures
        has_folder(folders, path) <==> exists|i: int|
            0 <= i < folders.len() && (#[trigger] folders[i])@ == path,
{
    let names = text::texts(folders);
    if has_folder(folders, path) {
        let i = choose|i: int| 0 <= i < names.len() && names[i] == path;
        assert(folders[i]@ == path);
    }
    if exists|i: int| 0 <= i < folders.len() && (#[trigger] folders[i])@ == path {
        let i = choose|i: int| 0 <= i < folders.len() && (#[trigger] folders[i])@ == path;
        assert(names[i] == path);
    }
}

/// A folder that is added stands behind all others, which stay where they were. One that is watched
/// already changes nothing.
pub proof fn law_added_folder_stands_last(folders: Seq<String>, path: String)
    ensures
        ({
            let after = with_folder(folders, path);
            let listed = exists|i: int| 0 <= i < folders.len() && (#[trigger] folders[i])@ == path@;
            &&& listed ==> after == folders
            &&& !listed ==> after.len() == folders.len() + 1 && after[folders.len() as int] == path
            &&& forall|i: int| 0 <= i < folders.len() ==> #[trigger] after[i] == folders[i]
        }),
{
    law_folder_is_watched_where_it_is_listed(folders, path@);
}

/// Removing a folder takes out just the entries that are written like it, and the others keep their
/// order: they are those at the places that come out, among which a place is exactly where another
/// folder stands.
pub proof fn law_other_folders_keep_their_order(folders: Seq<String>, path: Seq<char>) -> (places: Seq<
    int,
>)
    ensures
        places.len() == without_folder(folders, path).len(),
        forall|k: int, l: int| 0 <= k < l < places.len() ==> places[k] < places[l],
        forall|k: int|
            0 <= k < places.len() ==> 0 <= #[trigger] places[k] < folders.len() && without_folder(
                folders,
                path,
            )[k] == folders[places[k]],
        forall|i: int|
            0 <= i < folders.len() ==> (places.contains(i) <==> (#[trigger] folders[i])@ != path),
    decreases folders.len(),
{
    reveal(Seq::filter);
    if folders.len() == 0 {
        Seq::empty()
    } else {
        let last = folders.len() - 1;
        let less = folders.drop_last();
        let earlier = law_other_folders_keep_their_order(less, path);
        if folders[last]@ != path {
            let places = earlier.push(last);
            assert forall|i: int| 0 <= i < folders.len() implies (places.contains(i) <==> (
            #[trigger] folders[i])@ != path) by {
                if i < last {
                    assert(less[i] == folders[i]);
                    if earlier.contains(i) {
                        let k = choose|k: int| 0 <= k < earlier.len() && earlier[k] == i;
                        assert(places[k] == i);
                    }
                    if places.contains(i) {
                        let k = choose|k: int| 0 <= k < places.len() && places[k] == i;
                        assert(earlier[k] == i);
                    }
                } else {
                    assert(places[earlier.len() as int] == last);
                }
            }
            assert forall|k: int| 0 <= k < places.len() implies 0 <= #[trigger] places[k]
                < folders.len() && without_folder(folders, path)[k] == folders[places[k]] by {
                if k < earlier.len() {
                    assert(earlier[k] == places[k]);
                }
            }
            assert forall|k: int, l: int| 0 <= k < l < places.len() implies places[k] < places[l] by {
                if l == earlier.len() {
                    assert(earlier[k] < last);
                }
            }
            places
        } else {
            assert forall|i: int| 0 <= i < folders.len() implies (earlier.contains(i) <==> (
            #[trigger] folders[i])@ != path) by {
                if i < last {
                    assert(less[i] == folders[i]);
                } else if earlier.contains(i) {
                    let k = choose|k: int| 0 <= k < earlier.len() && earlier[k] == i;
                    assert(earlier[k] < last);
                }
            }
            earlier
        }
    }
}

/// The settings window shows every peer that can be reached, with its hostname and its address, and as
/// many peers as there are. What it shows at the place `at` is such a peer.
pub proof fn law_every_peer_is_shown(
    shown: Seq<PeerInfo>,
    handles: Seq<PeerHandle>,
    online: Map<Seq<char>, (Seq<char>, Seq<char>)>,
    at: int,
)
    requires
        peer::lists_handles(handles, online),
        shows(shown, handles),
    ensures
        shown.len() == online.dom().len(),
        forall|id: Seq<char>| #[trigger]
            online.contains_key(id) ==> exists|i: int|
                0 <= i < shown.len() && (#[trigger] shown[i]).hostname@ == online[id].0
                    && shown[i].addr@ == online[id].1,
        0 <= at < shown.len() ==> exists|id: Seq<char>| #[trigger]
            online.contains_key(id) && shown[at].hostname@ == online[id].0 && shown[at].addr@
                == online[id].1,
{
    let ids = peer::ids_of(handles);
    ids.unique_seq_to_set();
    assert(ids.to_set() =~= online.dom()) by {
        assert forall|id: Seq<char>| ids.to_set().contains(id) <==> #[trigger] online.dom().contains(
            id,
        ) by {
            assert(online.contains_key(id) <==> ids.contains(id));
        }
    }
    assert forall|id: Seq<char>| #[trigger] online.contains_key(id) implies exists|i: int|
        0 <= i < shown.len() && (#[trigger] shown[i]).hostname@ == online[id].0 && shown[i].addr@
            == online[id].1 by {
        peer::law_each_peer_has_one_handle(handles, online, id);
        let i = choose|i: int|
            0 <= i < handles.len() && (#[trigger] handles[i]).peer_id@ == id
                && handles[i].hostname@ == online[id].0 && handles[i].addr@ == online[id].1;
        assert(shown[i].hostname@ == online[id].0);
    }
    if 0 <= at < shown.len() {
        let id = handles[at].peer_id@;
        peer::law_each_peer_has_one_handle(handles, online, id);
        assert(peer::name_and_address(handles[at]) == online[id]);
        assert(shown[at].hostname@ == online[id].0);
        assert(online.contains_key(id));
    }
}

} // verus!
