//! Wires the changes of a watched folder into the messages that are sent to peers.

use std::collections::hash_map::DefaultHasher;
use std::hash::{Hash, Hasher};

use vstd::prelude::*;

use crate::hexadecimal;
use crate::path;
use crate::path::strip_prefix;
use crate::protocol::ChangeMessage;
use crate::text;
use crate::text::{owned, replace_char};
use crate::timestamp::Timestamp;
use crate::watcher::ChangeEvent;

verus! {

/// How long a path must be quiet before its change is reported, in nanoseconds. Coalesces the
/// burst of events a single save typically produces.
pub const DEBOUNCE: u128 = 800_000_000;

/// What `std::hash::Hash::hash` writes into a hasher for a text.
pub uninterp spec fn hashed_bytes(folder: Seq<char>) -> Seq<Seq<u8>>;

/// Calls `std::hash::Hash::hash` on a text.
///
/// Claimed: what is written into the hasher, behind all that was written before, is a function of
/// the text. Another release of the standard library may have another function.
#[verifier::external_body]
fn hash_into(folder: &str, hasher: &mut DefaultHasher)
    ensures
        final(hasher)@ == old(hasher)@ + hashed_bytes(folder@),
{
    folder.hash(hasher);
}

/// The hash of a text, by the default hasher of the standard library.
pub open spec fn default_hash(folder: Seq<char>) -> u64 {
    <DefaultHasher as vstd::std_specs::hash::DefaultHasherAdditionalSpecFns>::spec_finish(
        hashed_bytes(folder),
    )
}

fn hash_of(folder: &str) -> (hash: u64)
    ensures
        hash == default_hash(folder@),
{
    let mut hasher = DefaultHasher::new();
    hash_into(folder, &mut hasher);
    assert(hasher@ =~= hashed_bytes(folder@));
    hasher.finish()
}

/// The name of the manifest file for a folder with the hash `hash`: its sixteen hexadecimal
/// digits.
pub open spec fn filename_for(hash: u64) -> Seq<char> {
    hexadecimal::digits(hash as nat, 16) + ".json"@
}

/// The name of the manifest file for a folder with the hash `hash`.
pub fn filename_for_hash(hash: u64) -> (name: String)
    ensures
        name@ == filename_for(hash),
{
    let mut name = String::new();
    hexadecimal::push_digits(&mut name, hash, 16);
    name.append(".json");
    assert(name@ =~= filename_for(hash));
    name
}

/// A short, filesystem-safe identifier for a watched folder's manifest file. It is stable, and
/// unique enough to avoid collisions across the handful of folders that a person watches.
pub fn manifest_filename(folder: &str) -> (name: String)
    ensures
        name@ == filename_for(default_hash(folder@)),
{
    filename_for_hash(hash_of(folder))
}

/// How `full_path` is shown where `rest` is what is left of it below the watched folder, if it is
/// below it: with slashes, and in full where it is not.
pub open spec fn shown_path(rest: Option<Seq<char>>, full_path: Seq<char>) -> Seq<char> {
    match rest {
        Some(rest) => text::with_char_replaced(rest, '\\', '/'),
        None => text::with_char_replaced(full_path, '\\', '/'),
    }
}

/// Whether `shown` shows `full_path` relative to the folder `root`.
pub open spec fn is_relative_display(
    shown: Seq<char>,
    root: Seq<char>,
    full_path: Seq<char>,
) -> bool {
    exists|rest: Option<Seq<char>>| #[trigger]
        path::is_stripped(rest, full_path, root) && shown == shown_path(rest, full_path)
}

/// How `full_path` is shown where `rest` is what is left of it below the watched folder.
pub fn display_path(rest: Option<String>, full_path: &str) -> (shown: String)
    ensures
        shown@ == shown_path(path::optional_text(rest), full_path@),
{
    match rest {
        Some(rest) => replace_char(rest.as_str(), '\\', '/'),
        None => replace_char(full_path, '\\', '/'),
    }
}

/// `full_path` relative to the folder `root`, with forward slashes, or all of it where it is not
/// below `root`.
pub fn relative_display_path(root: &str, full_path: &str) -> (shown: String)
    ensures
        is_relative_display(shown@, root@, full_path@),
{
    let rest = strip_prefix(full_path, root);
    assert(path::is_stripped(path::optional_text(rest), full_path@, root@));
    display_path(rest, full_path)
}

/// The message that tells peers of a change in the folder `root`, seen by the agent `peer_id` on
/// the machine `hostname` at the time `now`.
pub fn describe_change(
    peer_id: &str,
    hostname: &str,
    root: &str,
    event: &ChangeEvent,
    now: Timestamp,
) -> (message: ChangeMessage)
    ensures
        message.peer_id@ == peer_id@,
        message.hostname@ == hostname@,
        is_relative_display(message.path@, root@, event.path@),
        message.kind == event.kind,
        message.timestamp == now,
{
    ChangeMessage {
        peer_id: owned(peer_id),
        hostname: owned(hostname),
        path: relative_display_path(root, event.path.as_str()),
        kind: event.kind,
        timestamp: now,
    }
}

/// Two folders have the same manifest file only where they have the same hash.
pub proof fn law_manifest_files_differ_where_hashes_do(folder: Seq<char>, other: Seq<char>)
    ensures
        filename_for(default_hash(folder)) == filename_for(default_hash(other)) <==> default_hash(
            folder,
        ) == default_hash(other),
{
    let name = filename_for(default_hash(folder));
    let other_name = filename_for(default_hash(other));
    let digits = hexadecimal::digits(default_hash(folder) as nat, 16);
    let other_digits = hexadecimal::digits(default_hash(other) as nat, 16);
    hexadecimal::lemma_digit_count(default_hash(folder) as nat, 16);
    hexadecimal::lemma_digit_count(default_hash(other) as nat, 16);
    if name == other_name {
        assert(name.take(16) =~= digits);
        assert(other_name.take(16) =~= other_digits);
        hexadecimal::law_sixteen_digits_are_unique(default_hash(folder), default_hash(other));
    }
}

/// A file below the watched folder is shown by its path below it, with slashes: joining them gave
/// the path in the first place. `rest` is what is left of the path on the platform with the main
/// separator `separator`. This holds of all text on Unix, and on Windows of text without a prefix.
pub proof fn law_path_below_root_is_shown_relative(
    separator: char,
    rest: Option<Seq<char>>,
    root: Seq<char>,
    relative: Seq<char>,
)
    requires
        path::is_platform(separator),
        path::has_no_prefix(separator, root),
        path::is_plain_on(separator, relative),
        path::is_stripped_on(
            separator,
            rest,
            path::joined_text(separator, root, relative),
            root,
        ),
    ensures
        shown_path(rest, path::joined_text(separator, root, relative)) == text::with_char_replaced(
            relative,
            '\\',
            '/',
        ),
{
    path::lemma_plain_begins_with_a_name(separator, relative);
    path::lemma_glued(separator, separator, root, relative);
    assert(path::joined_text(separator, root, relative) == path::glued(
        separator,
        separator,
        root,
        relative,
    ));
}

/// A file below the watched folder is shown by its path below it on whatever platform, where both
/// are portable.
pub proof fn law_portable_path_below_root_is_shown_relative(
    shown: Seq<char>,
    root: Seq<char>,
    relative: Seq<char>,
)
    requires
        path::is_portable(root),
        path::is_portable(relative),
        path::is_plain_on('/', relative),
        is_relative_display(shown, root, path::joined_text('/', root, relative)),
    ensures
        shown == relative,
{
    let full_path = path::joined_text('/', root, relative);
    let rest = choose|rest: Option<Seq<char>>| #[trigger]
        path::is_stripped(rest, full_path, root) && shown == shown_path(rest, full_path);
    path::lemma_portable('/', root);
    path::lemma_portable('\\', root);
    path::lemma_portable('/', relative);
    path::lemma_portable('\\', relative);
    path::lemma_joined_is_portable(root, relative);
    path::lemma_portable('\\', full_path);
    path::lemma_plain_begins_with_a_name('/', relative);
    assert(root.len() > 0 ==> root.contains(root.last()));
    assert(full_path == path::glued('/', '/', root, relative));
    assert(full_path == path::glued('\\', '/', root, relative));
    assert(rest == Some(relative));
    assert forall|i: int| 0 <= i < relative.len() implies relative[i] != '\\' by {
        assert(relative.contains(relative[i]));
    }
    assert(shown =~= relative);
}

/// No path is shown with a backslash.
pub proof fn law_shown_path_has_no_backslash(
    shown: Seq<char>,
    root: Seq<char>,
    full_path: Seq<char>,
)
    requires
        is_relative_display(shown, root, full_path),
    ensures
        !shown.contains('\\'),
{
}

/// A manifest file is called by sixteen hexadecimal digits, those of the hash with the highest in
/// front, and ends in `.json`.
pub proof fn law_manifest_file_is_named_by_sixteen_digits(hash: u64, i: int)
    requires
        0 <= i < 16,
    ensures
        filename_for(hash).len() == 21,
        filename_for(hash)[15 - i] == hexadecimal::digit(
            ((hash as int) / vstd::arithmetic::power::pow(16, i as nat)) % 16,
        ),
        filename_for(hash).skip(16) == seq!['.', 'j', 's', 'o', 'n'],
{
    hexadecimal::law_digits_stand_by_their_places(hash as nat, 16, i);
    reveal_strlit(".json");
    assert(filename_for(hash).skip(16) =~= seq!['.', 'j', 's', 'o', 'n']);
}

/// A path is shown by what is left of it below the folder, and where nothing is by itself. Either way
/// each backslash is shown as a slash, and every other character as it is.
pub proof fn law_path_is_shown_with_slashes(rest: Seq<char>, full_path: Seq<char>)
    ensures
        shown_path(Some(rest), full_path).len() == rest.len(),
        forall|i: int|
            0 <= i < rest.len() ==> #[trigger] shown_path(Some(rest), full_path)[i] == if rest[i]
                == '\\' {
                '/'
            } else {
                rest[i]
            },
        shown_path(None, full_path).len() == full_path.len(),
        forall|i: int|
            0 <= i < full_path.len() ==> #[trigger] shown_path(None, full_path)[i] == if full_path[i]
                == '\\' {
                '/'
            } else {
                full_path[i]
            },
{
}

/// A path is shown in full exactly by what the folder leaves of it: where there is only one rest, or
/// none, the path is shown by that.
pub proof fn law_shown_path_is_what_the_folder_leaves(
    shown: Seq<char>,
    root: Seq<char>,
    full_path: Seq<char>,
    rest: Option<Seq<char>>,
)
    requires
        is_relative_display(shown, root, full_path),
        forall|other: Option<Seq<char>>| #[trigger]
            path::is_stripped(other, full_path, root) ==> other == rest,
    ensures
        rest is Some ==> shown == text::with_char_replaced(rest->0, '\\', '/'),
        rest is None ==> shown == text::with_char_replaced(full_path, '\\', '/'),
{
}

} // verus!
