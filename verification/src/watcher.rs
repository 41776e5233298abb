//! Debouncing of filesystem events: a burst of events for one path becomes one change.

use vstd::prelude::*;

use crate::exclude;
use crate::exclude::ExcludeRules;
use crate::name_map::NameMap;
use crate::path;
use crate::path::path_key;
use crate::protocol::ChangeKind;
use crate::text;
use crate::text::owned;

verus! {

/// A debounced, classified filesystem change under a watched root.
#[derive(Debug, PartialEq, Eq)]
pub struct ChangeEvent {
    pub path: String,
    pub kind: ChangeKind,
}

impl Clone for ChangeEvent {
    fn clone(&self) -> (copy: Self)
        ensures
            copy == *self,
    {
        ChangeEvent { path: self.path.clone(), kind: self.kind }
    }
}

/// What a raw filesystem event tells of, before it is classified.
#[derive(Debug, Clone, Copy, PartialEq, Eq, Structural)]
pub enum EventKind {
    Any,
    Access,
    Create,
    Modify,
    Remove,
    Other,
}

/// A path that a raw event names.
#[derive(Debug)]
pub struct EventPath {
    /// The whole path, as text.
    pub path: String,
    /// What stands for the path where it is not Unicode text, and `path` stands in for it.
    pub unreadable: Option<UnreadablePath>,
}

/// What is known of a path that is not Unicode text.
#[derive(Debug)]
pub struct UnreadablePath {
    /// The names of its components. A name that is not Unicode text is missing.
    pub components: Vec<Option<String>>,
    /// A text by which the path is known, the same for every way to write its components.
    pub key: String,
}

/// A path that a change was seen at.
#[derive(Debug)]
pub struct ObservedPath {
    /// The path as it was written.
    pub path: String,
    /// The text by which the path is known, the same for every way to write its components.
    pub key: String,
}

impl ObservedPath {
    /// The path `path`.
    pub fn new(path: String) -> (observed: Self)
        ensures
            observed.path == path,
            path::is_key(observed.key@, path@),
    {
        let key = path_key(path.as_str());
        ObservedPath { path, key }
    }
}

/// Whether `observed` is the path `path`.
pub open spec fn observes(observed: ObservedPath, path: EventPath) -> bool {
    &&& observed.path@ == path.path@
    &&& match path.unreadable {
        Some(unreadable) => observed.key@ == unreadable.key@,
        None => path::is_key(observed.key@, path.path@),
    }
}

/// Whether `excluded` is what rules with the user's names `custom` decide for `path`.
pub open spec fn decides_event_path(
    excluded: bool,
    custom: Seq<Seq<char>>,
    path: EventPath,
) -> bool {
    match path.unreadable {
        Some(unreadable) => excluded == exclude::any_readable_name_excluded(
            custom,
            unreadable.components@,
        ),
        None => exclude::decides_path(excluded, custom, path.path@),
    }
}

/// The items that are not marked in `marks`, in order.
pub open spec fn unmarked<T>(items: Seq<T>, marks: Seq<bool>) -> Seq<T>
    decreases items.len(),
{
    if items.len() == 0 {
        Seq::empty()
    } else if marks[items.len() - 1] {
        unmarked(items.drop_last(), marks)
    } else {
        unmarked(items.drop_last(), marks).push(items.last())
    }
}

/// Whether `kept` are the paths among `paths` that rules with the user's names `custom` do not
/// ignore, in order.
pub open spec fn are_unexcluded(
    kept: Seq<ObservedPath>,
    paths: Seq<EventPath>,
    custom: Seq<Seq<char>>,
) -> bool {
    exists|observed: Seq<ObservedPath>, excluded: Seq<bool>|
        {
            &&& kept == #[trigger] unmarked(observed, excluded)
            &&& observed.len() == paths.len()
            &&& excluded.len() == paths.len()
            &&& forall|i: int|
                0 <= i < paths.len() ==> decides_event_path(#[trigger] excluded[i], custom, paths[i])
                    && (!excluded[i] ==> observes(observed[i], paths[i]))
        }
}

/// The paths among `paths` whose changes are worth reporting, in order.
pub fn unexcluded(paths: &Vec<EventPath>, excludes: &ExcludeRules) -> (kept: Vec<ObservedPath>)
    ensures
        are_unexcluded(kept@, paths@, excludes@),
{
    let ghost mut observed: Seq<ObservedPath> = Seq::empty();
    let ghost mut excluded: Seq<bool> = Seq::empty();
    let mut kept: Vec<ObservedPath> = Vec::new();
    let mut i: usize = 0;
    while i < paths.len()
        invariant
            i <= paths@.len(),
            observed.len() == i,
            excluded.len() == i,
            kept@ == unmarked(observed, excluded),
            forall|j: int|
                0 <= j < i ==> decides_event_path(#[trigger] excluded[j], excludes@, paths@[j]) && (
                !excluded[j] ==> observes(observed[j], paths@[j])),
        decreases paths@.len() - i,
    {
        let path = paths[i].path.as_str();
        let skip = match &paths[i].unreadable {
            Some(unreadable) => excludes.readable_names_excluded(&unreadable.components),
            None => excludes.is_excluded(path),
        };
        let ghost seen = observed;
        let ghost before = excluded;
        let ghost mut item: ObservedPath = arbitrary();
        if !skip {
            let found = match &paths[i].unreadable {
                Some(unreadable) => ObservedPath {
                    path: owned(path),
                    key: owned(unreadable.key.as_str()),
                },
                None => ObservedPath::new(owned(path)),
            };
            proof {
                item = found;
            }
            kept.push(found);
        }
        proof {
            observed = observed.push(item);
            excluded = excluded.push(skip);
            assert(observed.drop_last() =~= seen);
            lemma_unmarked_by_front(seen, before, excluded);
        }
        i += 1;
    }
    kept
}

proof fn lemma_unmarked_by_front<T>(items: Seq<T>, marks: Seq<bool>, longer: Seq<bool>)
    requires
        items.len() <= marks.len() <= longer.len(),
        forall|i: int| 0 <= i < marks.len() ==> marks[i] == #[trigger] longer[i],
    ensures
        unmarked(items, marks) == unmarked(items, longer),
    decreases items.len(),
{
    if items.len() > 0 {
        lemma_unmarked_by_front(items.drop_last(), marks, longer);
    }
}

/// The change that a raw event stands for, if it stands for one.
pub open spec fn change_of(kind: EventKind) -> Option<ChangeKind> {
    match kind {
        EventKind::Create => Some(ChangeKind::Created),
        EventKind::Modify => Some(ChangeKind::Modified),
        EventKind::Remove => Some(ChangeKind::Removed),
        _ => None,
    }
}

/// The change that a raw event stands for, if it stands for one.
pub fn classify(kind: &EventKind) -> (change: Option<ChangeKind>)
    ensures
        change == change_of(*kind),
{
    match kind {
        EventKind::Create => Some(ChangeKind::Created),
        EventKind::Modify => Some(ChangeKind::Modified),
        EventKind::Remove => Some(ChangeKind::Removed),
        _ => None,
    }
}

/// The kind that two kinds seen for one path amount to: the later one, except that a new file
/// stays new while it is being written.
pub open spec fn merged(existing: ChangeKind, incoming: ChangeKind) -> ChangeKind {
    if existing == ChangeKind::Created && incoming == ChangeKind::Modified {
        ChangeKind::Created
    } else {
        incoming
    }
}

/// Combines two change kinds seen for the same path within one debounce window.
///
/// A create followed by the modify events that naturally happen while a file is being written is
/// still reported as `Created`: the interesting fact is that the file is new. A later `Removed`
/// always wins, since that reflects the path's true final state.
pub fn merge_kind(existing: ChangeKind, incoming: ChangeKind) -> (kind: ChangeKind)
    ensures
        kind == merged(existing, incoming),
{
    match incoming {
        ChangeKind::Removed => ChangeKind::Removed,
        ChangeKind::Created => ChangeKind::Created,
        ChangeKind::Modified => if existing == ChangeKind::Created {
            ChangeKind::Created
        } else {
            ChangeKind::Modified
        },
        ChangeKind::Renamed => ChangeKind::Renamed,
    }
}

/// A change of a path as it is seen: the path as it was written, the kind of the change and the time
/// in nanoseconds of one clock.
pub struct Sighting {
    pub path: Seq<char>,
    pub kind: ChangeKind,
    pub seen_at: u128,
}

/// A change that waits for its path to be quiet.
#[derive(Debug)]
pub struct PendingChange {
    pub path: String,
    pub kind: ChangeKind,
    pub seen_at: u128,
}

impl View for PendingChange {
    type V = Sighting;

    open spec fn view(&self) -> Sighting {
        Sighting { path: self.path@, kind: self.kind, seen_at: self.seen_at }
    }
}

/// The keys and the texts of `paths`.
pub open spec fn keyed_texts(paths: Seq<ObservedPath>) -> Seq<(Seq<char>, Seq<char>)> {
    paths.map_values(|path: ObservedPath| (path.key@, path.path@))
}

/// The changes that wait, each under the key of its path, after an event of kind `kind` for the path
/// `path` with the key `key` at the time `now`. A path that waits stays as it was written first.
pub open spec fn after_event(
    pending: Map<Seq<char>, Sighting>,
    key: Seq<char>,
    path: Seq<char>,
    kind: ChangeKind,
    now: u128,
) -> Map<Seq<char>, Sighting> {
    if pending.contains_key(key) {
        pending.insert(
            key,
            Sighting {
                path: pending[key].path,
                kind: merged(pending[key].kind, kind),
                seen_at: now,
            },
        )
    } else {
        pending.insert(key, Sighting { path, kind, seen_at: now })
    }
}

/// The changes that wait, after an event of kind `kind` for each of `paths` in turn, which are given
/// with their keys in front.
pub open spec fn after_events(
    pending: Map<Seq<char>, Sighting>,
    paths: Seq<(Seq<char>, Seq<char>)>,
    kind: ChangeKind,
    now: u128,
) -> Map<Seq<char>, Sighting>
    decreases paths.len(),
{
    if paths.len() == 0 {
        pending
    } else {
        after_event(
            after_events(pending, paths.drop_last(), kind, now),
            paths.last().0,
            paths.last().1,
            kind,
            now,
        )
    }
}

/// Whether a change has been quiet for `debounce` at the time `now`. A clock that stands behind
/// the event has seen no quiet at all.
pub open spec fn is_due(change: Sighting, debounce: u128, now: u128) -> bool {
    if now > change.seen_at {
        now - change.seen_at >= debounce
    } else {
        debounce == 0
    }
}

/// The changes among `pending` that are due.
pub open spec fn due(
    pending: Map<Seq<char>, Sighting>,
    debounce: u128,
    now: u128,
) -> Map<Seq<char>, Sighting> {
    pending.restrict(pending.dom().filter(|key: Seq<char>| is_due(pending[key], debounce, now)))
}

/// The changes among `pending` that are not due.
pub open spec fn not_due(
    pending: Map<Seq<char>, Sighting>,
    debounce: u128,
    now: u128,
) -> Map<Seq<char>, Sighting> {
    pending.restrict(pending.dom().filter(|key: Seq<char>| !is_due(pending[key], debounce, now)))
}

/// `events` report every change in `changes` once, and nothing else. `keys` are the keys that the
/// changes stood under.
pub open spec fn reports(
    events: Seq<ChangeEvent>,
    keys: Seq<Seq<char>>,
    changes: Map<Seq<char>, Sighting>,
) -> bool {
    &&& events.len() == keys.len()
    &&& keys.no_duplicates()
    &&& forall|key: Seq<char>| changes.contains_key(key) <==> #[trigger] keys.contains(key)
    &&& forall|i: int|
        0 <= i < events.len() ==> (#[trigger] events[i]).path@ == changes[keys[i]].path
            && events[i].kind == changes[keys[i]].kind
}

/// What the event source hands over when it is asked for the next event.
pub enum Signal {
    /// An event of one kind for some paths.
    Event { kind: EventKind, paths: Vec<ObservedPath> },
    /// An event that could not be read.
    Failed,
    /// No event for a while.
    Quiet,
    /// There will be no more events.
    Closed,
}

/// What is to be done after a signal: report `events`, and stop if `stop` is set. `keys` are the
/// keys of the paths that are reported.
pub struct Step {
    pub events: Vec<ChangeEvent>,
    pub keys: Vec<String>,
    pub stop: bool,
}

/// The changes that wait once `signal` has been taken in at the time `received_at`.
pub open spec fn after_signal(
    pending: Map<Seq<char>, Sighting>,
    signal: Signal,
    received_at: u128,
) -> Map<Seq<char>, Sighting> {
    match signal {
        Signal::Event { kind, paths } => match change_of(kind) {
            Some(change) => after_events(pending, keyed_texts(paths@), change, received_at),
            None => pending,
        },
        _ => pending,
    }
}

/// One round of collecting: what came in and when, and what was reported and when.
pub struct Round {
    pub signal: Signal,
    pub received_at: u128,
    pub checked_at: u128,
    pub events: Vec<ChangeEvent>,
    pub keys: Vec<String>,
}

/// Whether `round` leads from the changes `before` that wait to the changes `after`: what its
/// signal brings is merged in, then all that is due is reported and the rest goes on waiting. When
/// there will be no more events all that waits is reported.
pub open spec fn steps_to(
    before: Map<Seq<char>, Sighting>,
    after: Map<Seq<char>, Sighting>,
    debounce: u128,
    round: Round,
) -> bool {
    if round.signal is Closed {
        &&& reports(round.events@, text::texts(round.keys@), before)
        &&& after == Map::<Seq<char>, Sighting>::empty()
    } else {
        let waiting = after_signal(before, round.signal, round.received_at);
        &&& reports(
            round.events@,
            text::texts(round.keys@),
            due(waiting, debounce, round.checked_at),
        )
        &&& after == not_due(waiting, debounce, round.checked_at)
    }
}

/// Collects raw events into changes, each of which is reported once its path has been quiet. Paths
/// are the same where their components are.
pub struct Debouncer {
    debounce: u128,
    pending: NameMap<PendingChange>,
}

impl Debouncer {
    /// How long a path has to be quiet, in nanoseconds.
    pub closed spec fn spec_debounce(self) -> u128 {
        self.debounce
    }

    /// The changes that wait, by the keys of their paths.
    pub closed spec fn waiting(self) -> Map<Seq<char>, Sighting> {
        self.pending@.map_values(|change: PendingChange| change@)
    }

    /// A collector in which nothing waits.
    pub fn new(debounce: u128) -> (debouncer: Self)
        ensures
            debouncer.spec_debounce() == debounce,
            debouncer.waiting() == Map::<Seq<char>, Sighting>::empty(),
    {
        let debouncer = Debouncer { debounce, pending: NameMap::new() };
        assert(debouncer.waiting() =~= Map::<Seq<char>, Sighting>::empty());
        debouncer
    }

    fn observe(&mut self, paths: &Vec<ObservedPath>, kind: ChangeKind, now: u128)
        ensures
            final(self).spec_debounce() == old(self).spec_debounce(),
            final(self).waiting() == after_events(
                old(self).waiting(),
                keyed_texts(paths@),
                kind,
                now,
            ),
    {
        let ghost all = keyed_texts(paths@);
        let ghost before = self.waiting();
        let mut i: usize = 0;
        assert(all.take(0) =~= Seq::<(Seq<char>, Seq<char>)>::empty());
        while i < paths.len()
            invariant
                i <= paths@.len(),
                all == keyed_texts(paths@),
                self.spec_debounce() == old(self).spec_debounce(),
                self.waiting() == after_events(before, all.take(i as int), kind, now),
            decreases paths@.len() - i,
        {
            let key = paths[i].key.as_str();
            let change = match self.pending.get(key) {
                Some(existing) => PendingChange {
                    path: owned(existing.path.as_str()),
                    kind: merge_kind(existing.kind, kind),
                    seen_at: now,
                },
                None => PendingChange {
                    path: owned(paths[i].path.as_str()),
                    kind,
                    seen_at: now,
                },
            };
            let ghost waiting = self.waiting();
            assert(all.take(i + 1).drop_last() =~= all.take(i as int));
            assert(all.take(i + 1).last() == (key@, paths@[i as int].path@));
            self.pending.insert(owned(key), change);
            assert(self.waiting() =~= waiting.insert(key@, change@));
            i += 1;
        }
        assert(all.take(i as int) =~= all);
    }

    /// Takes the changes out that are due at the time `now`, or all of them, and hands out their
    /// keys too.
    fn take_changes(&mut self, all: bool, now: u128) -> (taken: (Vec<ChangeEvent>, Vec<String>))
        ensures
            final(self).spec_debounce() == old(self).spec_debounce(),
            all ==> reports(taken.0@, text::texts(taken.1@), old(self).waiting()),
            all ==> final(self).waiting() == Map::<Seq<char>, Sighting>::empty(),
            !all ==> reports(
                taken.0@,
                text::texts(taken.1@),
                due(old(self).waiting(), old(self).spec_debounce(), now),
            ),
            !all ==> final(self).waiting() == not_due(
                old(self).waiting(),
                old(self).spec_debounce(),
                now,
            ),
    {
        let ghost before = self.waiting();
        let names = self.pending.keys();
        let ghost known = text::texts(names@);
        let mut events: Vec<ChangeEvent> = Vec::new();
        let mut keys: Vec<String> = Vec::new();
        let mut kept: NameMap<PendingChange> = NameMap::new();
        let mut i: usize = 0;
        assert(known.take(0) =~= Seq::<Seq<char>>::empty());
        while i < names.len()
            invariant
                i <= names@.len(),
                known == text::texts(names@),
                known.no_duplicates(),
                before == self.waiting(),
                self.spec_debounce() == old(self).spec_debounce(),
                forall|key: Seq<char>|
                    before.contains_key(key) <==> #[trigger] known.contains(key),
                events@.len() == keys@.len(),
                text::texts(keys@).no_duplicates(),
                forall|key: Seq<char>| #[trigger]
                    text::texts(keys@).contains(key) <==> (before.contains_key(key) && known.take(
                        i as int,
                    ).contains(key) && (all || is_due(before[key], self.spec_debounce(), now))),
                forall|j: int|
                    0 <= j < events@.len() ==> (#[trigger] events@[j]).path@
                        == before[keys@[j]@].path && events@[j].kind == before[keys@[j]@].kind,
                forall|key: Seq<char>| #[trigger]
                    kept@.contains_key(key) <==> (before.contains_key(key) && known.take(
                        i as int,
                    ).contains(key) && !(all || is_due(before[key], self.spec_debounce(), now))),
                forall|key: Seq<char>| #[trigger]
                    kept@.contains_key(key) ==> kept@[key]@ == before[key],
            decreases names@.len() - i,
        {
            let key = names[i].as_str();
            assert(known[i as int] == key@);
            assert(known.contains(key@));
            proof {
                text::lemma_take_one_more(known, i as int);
            }
            if let Some(change) = self.pending.get(key) {
                assert(before[key@] == change@);
                let quiet: u128 = if now > change.seen_at {
                    now - change.seen_at
                } else {
                    0
                };
                if all || quiet >= self.debounce {
                    let ghost earlier = text::texts(keys@);
                    events.push(ChangeEvent { path: owned(change.path.as_str()), kind: change.kind });
                    keys.push(owned(key));
                    proof {
                        let after = text::texts(keys@);
                        assert(after =~= earlier.push(key@));
                        assert(!earlier.contains(key@));
                        text::lemma_take_one_more(after, earlier.len() as int);
                        assert(after.take(earlier.len() as int) =~= earlier);
                        assert(after.take(after.len() as int) =~= after);
                    }
                } else {
                    kept.insert(
                        owned(key),
                        PendingChange {
                            path: owned(change.path.as_str()),
                            kind: change.kind,
                            seen_at: change.seen_at,
                        },
                    );
                }
            }
            i += 1;
        }
        assert(known.take(i as int) =~= known);
        let ghost debounce = self.spec_debounce();
        let ghost taken = text::texts(keys@);
        self.pending = kept;
        assert(self.waiting() =~= if all {
            Map::<Seq<char>, Sighting>::empty()
        } else {
            not_due(before, debounce, now)
        });
        proof {
            let reported = if all {
                before
            } else {
                due(before, debounce, now)
            };
            assert forall|j: int| 0 <= j < events@.len() implies (#[trigger] events@[j]).path@
                == reported[taken[j]].path && events@[j].kind == reported[taken[j]].kind by {
                assert(taken[j] == keys@[j]@);
                assert(taken.contains(taken[j]));
            }
        }
        (events, keys)
    }

    /// Takes in the next signal, which came at the time `received_at`, and hands out the changes
    /// that are due at the time `checked_at`.
    ///
    /// Events for the same path are merged into one change, which is handed out once the path has
    /// been quiet for the debounce time. When the source is closed everything is handed out.
    pub fn step(&mut self, signal: Signal, received_at: u128, checked_at: u128) -> (step: Step)
        ensures
            final(self).spec_debounce() == old(self).spec_debounce(),
            step.stop == (signal is Closed),
            steps_to(
                old(self).waiting(),
                final(self).waiting(),
                old(self).spec_debounce(),
                Round { signal, received_at, checked_at, events: step.events, keys: step.keys },
            ),
    {
        match signal {
            Signal::Event { kind, paths } => {
                if let Some(change) = classify(&kind) {
                    self.observe(&paths, change, received_at);
                }
            },
            Signal::Failed => {},
            Signal::Quiet => {},
            Signal::Closed => {
                let (events, keys) = self.take_changes(true, checked_at);
                return Step { events, keys, stop: true };
            },
        }
        let (events, keys) = self.take_changes(false, checked_at);
        Step { events, keys, stop: false }
    }
}

/// The kind that a history of kinds for one path amounts to.
pub open spec fn merged_all(history: Seq<ChangeKind>) -> ChangeKind
    recommends
        history.len() > 0,
    decreases history.len(),
{
    if history.len() <= 1 {
        history[0]
    } else {
        merged(merged_all(history.drop_last()), history.last())
    }
}

/// The kind that sightings of one path amount to.
pub open spec fn kind_of_history(changes: Seq<Sighting>) -> ChangeKind {
    merged_all(changes.map_values(|change: Sighting| change.kind))
}

/// What sightings of one path amount to: one change, of the merged kind and as old as the last of
/// them, of the path as it was written first.
pub open spec fn one_change(changes: Seq<Sighting>) -> Sighting
    recommends
        changes.len() > 0,
{
    Sighting {
        path: changes[0].path,
        kind: kind_of_history(changes),
        seen_at: changes.last().seen_at,
    }
}

/// The changes that wait, after sightings of the path with the key `key`.
pub open spec fn after_burst(
    pending: Map<Seq<char>, Sighting>,
    key: Seq<char>,
    burst: Seq<Sighting>,
) -> Map<Seq<char>, Sighting>
    decreases burst.len(),
{
    if burst.len() == 0 {
        pending
    } else {
        after_event(
            after_burst(pending, key, burst.drop_last()),
            key,
            burst.last().path,
            burst.last().kind,
            burst.last().seen_at,
        )
    }
}

/// A burst of events for a path becomes a single change, and leaves other paths alone.
pub proof fn law_burst_becomes_one_change(
    pending: Map<Seq<char>, Sighting>,
    key: Seq<char>,
    burst: Seq<Sighting>,
)
    requires
        !pending.contains_key(key),
        burst.len() > 0,
    ensures
        after_burst(pending, key, burst) == pending.insert(key, one_change(burst)),
    decreases burst.len(),
{
    let kinds = burst.map_values(|change: Sighting| change.kind);
    let earlier = burst.drop_last();
    if earlier.len() == 0 {
        assert(after_burst(pending, key, earlier) == pending);
    } else {
        law_burst_becomes_one_change(pending, key, earlier);
        assert(kinds.drop_last() =~= earlier.map_values(|change: Sighting| change.kind));
    }
    assert(after_burst(pending, key, burst) =~= pending.insert(key, one_change(burst)));
}

/// A later removal wins, whatever came before it.
pub proof fn law_removal_wins(history: Seq<ChangeKind>)
    requires
        history.len() > 0,
        history.last() == ChangeKind::Removed,
    ensures
        merged_all(history) == ChangeKind::Removed,
{
}

/// A new file stays new while it is being written.
pub proof fn law_new_file_stays_new(history: Seq<ChangeKind>)
    requires
        history.len() > 0,
        history[0] == ChangeKind::Created,
        forall|i: int| 0 < i < history.len() ==> #[trigger] history[i] == ChangeKind::Modified,
    ensures
        merged_all(history) == ChangeKind::Created,
    decreases history.len(),
{
    if history.len() > 1 {
        law_new_file_stays_new(history.drop_last());
    }
}

/// No change is lost and none is handed out twice: each one that waits is either due or goes on
/// waiting, as it was.
pub proof fn law_each_change_is_due_or_waits(
    pending: Map<Seq<char>, Sighting>,
    debounce: u128,
    now: u128,
)
    ensures
        due(pending, debounce, now).union_prefer_right(not_due(pending, debounce, now)) == pending,
        due(pending, debounce, now).dom().disjoint(not_due(pending, debounce, now).dom()),
{
    assert(due(pending, debounce, now).union_prefer_right(not_due(pending, debounce, now))
        =~= pending);
}

/// A change is handed out only once its path has been quiet for the debounce time.
pub proof fn law_only_quiet_paths_are_reported(
    events: Seq<ChangeEvent>,
    keys: Seq<Seq<char>>,
    pending: Map<Seq<char>, Sighting>,
    debounce: u128,
    now: u128,
    i: int,
)
    requires
        reports(events, keys, due(pending, debounce, now)),
        0 <= i < events.len(),
    ensures
        pending.contains_key(keys[i]),
        pending[keys[i]].path == events[i].path@,
        pending[keys[i]].kind == events[i].kind,
        debounce > 0 ==> pending[keys[i]].seen_at + debounce <= now,
{
    assert(keys.contains(keys[i]));
    assert(events[i].kind == due(pending, debounce, now)[keys[i]].kind);
}

/// Two ways to write one path are one path: where both have the same components, an event for one
/// and then for the other leaves a single change waiting. This holds of all text on Unix, and on
/// Windows of text without a prefix.
pub proof fn law_paths_with_the_same_components_are_one(
    separator: char,
    pending: Map<Seq<char>, Sighting>,
    path: Seq<char>,
    other: Seq<char>,
    kind: ChangeKind,
    other_kind: ChangeKind,
    now: u128,
    later: u128,
)
    requires
        path::is_platform(separator),
        path::has_no_prefix(separator, path),
        path::has_no_prefix(separator, other),
        path::components_text(separator, path) == path::components_text(separator, other),
        !pending.contains_key(path::key_on(separator, path)),
    ensures
        after_event(
            after_event(pending, path::key_on(separator, path), path, kind, now),
            path::key_on(separator, other),
            other,
            other_kind,
            later,
        ) == pending.insert(
            path::key_on(separator, path),
            Sighting { path, kind: merged(kind, other_kind), seen_at: later },
        ),
{
    let key = path::key_on(separator, path);
    path::law_key_tells_the_components(separator, path, other);
    assert(after_event(
        after_event(pending, key, path, kind, now),
        key,
        other,
        other_kind,
        later,
    ) =~= pending.insert(
        key,
        Sighting { path, kind: merged(kind, other_kind), seen_at: later },
    ));
}

/// How often `key` stands among `keys`.
pub open spec fn occurrences(keys: Seq<Seq<char>>, key: Seq<char>) -> nat
    decreases keys.len(),
{
    if keys.len() == 0 {
        0
    } else {
        occurrences(keys.drop_last(), key) + if keys.last() == key {
            1nat
        } else {
            0
        }
    }
}

/// The keys of paths that are given with their keys in front.
pub open spec fn keys_of(paths: Seq<(Seq<char>, Seq<char>)>) -> Seq<Seq<char>> {
    paths.map_values(|path: (Seq<char>, Seq<char>)| path.0)
}

/// The keys of the paths that a signal tells of a change of. An event that stands for no change
/// tells of none, and neither does any other signal.
pub open spec fn changed_keys(signal: Signal) -> Seq<Seq<char>> {
    match signal {
        Signal::Event { kind, paths } => if change_of(kind) is Some {
            keys_of(keyed_texts(paths@))
        } else {
            Seq::empty()
        },
        _ => Seq::empty(),
    }
}

/// How often a change of the path with the key `key` came in.
pub open spec fn times_received(rounds: Seq<Round>, key: Seq<char>) -> nat
    decreases rounds.len(),
{
    if rounds.len() == 0 {
        0
    } else {
        times_received(rounds.drop_last(), key) + occurrences(
            changed_keys(rounds.last().signal),
            key,
        )
    }
}

/// How often a change of the path with the key `key` was reported.
pub open spec fn times_reported(rounds: Seq<Round>, key: Seq<char>) -> nat
    decreases rounds.len(),
{
    if rounds.len() == 0 {
        0
    } else {
        times_reported(rounds.drop_last(), key) + occurrences(
            text::texts(rounds.last().keys@),
            key,
        )
    }
}

/// Whether `rounds` lead through the states `waiting`, from the first to the last.
pub open spec fn is_run(
    waiting: Seq<Map<Seq<char>, Sighting>>,
    debounce: u128,
    rounds: Seq<Round>,
) -> bool {
    &&& waiting.len() == rounds.len() + 1
    &&& forall|i: int|
        0 <= i < rounds.len() ==> steps_to(
            waiting[i],
            waiting[i + 1],
            debounce,
            #[trigger] rounds[i],
        )
}

proof fn lemma_run_without_its_last_round(
    waiting: Seq<Map<Seq<char>, Sighting>>,
    debounce: u128,
    rounds: Seq<Round>,
)
    requires
        is_run(waiting, debounce, rounds),
        rounds.len() > 0,
    ensures
        is_run(waiting.drop_last(), debounce, rounds.drop_last()),
        steps_to(waiting[rounds.len() - 1], waiting.last(), debounce, rounds.last()),
        waiting.drop_last().last() == waiting[rounds.len() - 1],
{
    assert forall|i: int| 0 <= i < rounds.len() - 1 implies steps_to(
        waiting.drop_last()[i],
        waiting.drop_last()[i + 1],
        debounce,
        #[trigger] rounds.drop_last()[i],
    ) by {
        assert(steps_to(waiting[i], waiting[i + 1], debounce, rounds[i]));
    }
    assert(rounds.last() == rounds[rounds.len() - 1]);
}

proof fn lemma_occurrences(paths: Seq<Seq<char>>, key: Seq<char>)
    ensures
        occurrences(paths, key) > 0 <==> paths.contains(key),
        paths.no_duplicates() ==> occurrences(paths, key) <= 1,
    decreases paths.len(),
{
    if paths.len() > 0 {
        let less = paths.drop_last();
        lemma_occurrences(less, key);
        assert(paths.last() == paths[paths.len() - 1]);
        if less.contains(key) {
            let i = choose|i: int| 0 <= i < less.len() && less[i] == key;
            assert(paths[i] == key);
        }
        if paths.contains(key) && paths.last() != key {
            let i = choose|i: int| 0 <= i < paths.len() && paths[i] == key;
            assert(less[i] == key);
        }
        if paths.no_duplicates() {
            assert forall|i: int, j: int| 0 <= i < less.len() && 0 <= j < less.len() && i != j implies less[i]
                != less[j] by {
                assert(paths[i] != paths[j]);
            }
            if paths.last() == key && less.contains(key) {
                let i = choose|i: int| 0 <= i < less.len() && less[i] == key;
                assert(paths[i] == paths[paths.len() - 1]);
            }
        }
    }
}

proof fn lemma_waiting_after_events(
    pending: Map<Seq<char>, Sighting>,
    paths: Seq<(Seq<char>, Seq<char>)>,
    kind: ChangeKind,
    now: u128,
    key: Seq<char>,
)
    ensures
        after_events(pending, paths, kind, now).contains_key(key) <==> pending.contains_key(key)
            || keys_of(paths).contains(key),
    decreases paths.len(),
{
    if paths.len() > 0 {
        lemma_waiting_after_events(pending, paths.drop_last(), kind, now, key);
        lemma_occurrences(keys_of(paths), key);
        lemma_occurrences(keys_of(paths.drop_last()), key);
        assert(keys_of(paths).drop_last() =~= keys_of(paths.drop_last()));
        assert(keys_of(paths).last() == paths.last().0);
    }
}

/// A round hands out of a path no more than came in or waited, and loses none.
proof fn lemma_round_keeps_count(
    before: Map<Seq<char>, Sighting>,
    after: Map<Seq<char>, Sighting>,
    debounce: u128,
    round: Round,
    key: Seq<char>,
)
    requires
        steps_to(before, after, debounce, round),
    ensures
        ({
            let came = occurrences(changed_keys(round.signal), key);
            let went = occurrences(text::texts(round.keys@), key);
            &&& went <= 1
            &&& went > 0 ==> !after.contains_key(key)
            &&& went > 0 || after.contains_key(key) <==> came > 0 || before.contains_key(key)
        }),
{
    lemma_occurrences(changed_keys(round.signal), key);
    lemma_occurrences(text::texts(round.keys@), key);
    let waiting = after_signal(before, round.signal, round.received_at);
    match round.signal {
        Signal::Event { kind, paths } => {
            if let Some(change) = change_of(kind) {
                lemma_waiting_after_events(
                    before,
                    keyed_texts(paths@),
                    change,
                    round.received_at,
                    key,
                );
            }
        },
        _ => {},
    }
    if !(round.signal is Closed) {
        assert(waiting.contains_key(key) <==> due(waiting, debounce, round.checked_at).contains_key(
            key,
        ) || not_due(waiting, debounce, round.checked_at).contains_key(key));
    }
}

proof fn lemma_run_keeps_count(
    waiting: Seq<Map<Seq<char>, Sighting>>,
    debounce: u128,
    rounds: Seq<Round>,
    key: Seq<char>,
)
    requires
        is_run(waiting, debounce, rounds),
        !waiting[0].contains_key(key),
    ensures
        times_reported(rounds, key) + (if waiting.last().contains_key(key) {
            1nat
        } else {
            0
        }) <= times_received(rounds, key),
        times_received(rounds, key) > 0 ==> times_reported(rounds, key) > 0
            || waiting.last().contains_key(key),
    decreases rounds.len(),
{
    if rounds.len() > 0 {
        lemma_run_without_its_last_round(waiting, debounce, rounds);
        lemma_run_keeps_count(waiting.drop_last(), debounce, rounds.drop_last(), key);
        lemma_round_keeps_count(
            waiting[rounds.len() - 1],
            waiting.last(),
            debounce,
            rounds.last(),
            key,
        );
    }
}

/// A whole run reports what came in: where nothing waits at its beginning and there are no more
/// events at its end, the paths that are reported are those that a change came in of, and none of
/// them is reported more often than it came in.
pub proof fn law_run_reports_what_came_in(
    waiting: Seq<Map<Seq<char>, Sighting>>,
    debounce: u128,
    rounds: Seq<Round>,
    key: Seq<char>,
)
    requires
        is_run(waiting, debounce, rounds),
        waiting[0] == Map::<Seq<char>, Sighting>::empty(),
        rounds.len() > 0,
        rounds.last().signal is Closed,
    ensures
        times_reported(rounds, key) > 0 <==> times_received(rounds, key) > 0,
        times_reported(rounds, key) <= times_received(rounds, key),
        waiting.last() == Map::<Seq<char>, Sighting>::empty(),
{
    lemma_run_without_its_last_round(waiting, debounce, rounds);
    lemma_run_keeps_count(waiting, debounce, rounds, key);
}

/// The changes of the path with the key `key` that an event of kind `kind` for `paths` at the time
/// `now` tells of.
pub open spec fn mentions(
    paths: Seq<(Seq<char>, Seq<char>)>,
    key: Seq<char>,
    kind: ChangeKind,
    now: u128,
) -> Seq<Sighting>
    decreases paths.len(),
{
    if paths.len() == 0 {
        Seq::empty()
    } else {
        let earlier = mentions(paths.drop_last(), key, kind, now);
        if paths.last().0 == key {
            earlier.push(Sighting { path: paths.last().1, kind, seen_at: now })
        } else {
            earlier
        }
    }
}

/// The changes of the path with the key `key` that a round brings in.
pub open spec fn round_mentions(round: Round, key: Seq<char>) -> Seq<Sighting> {
    match round.signal {
        Signal::Event { kind, paths } => match change_of(kind) {
            Some(change) => mentions(keyed_texts(paths@), key, change, round.received_at),
            None => Seq::empty(),
        },
        _ => Seq::empty(),
    }
}

/// The changes of the path with the key `key` that came in.
pub open spec fn history(rounds: Seq<Round>, key: Seq<char>) -> Seq<Sighting>
    decreases rounds.len(),
{
    if rounds.len() == 0 {
        Seq::empty()
    } else {
        history(rounds.drop_last(), key) + round_mentions(rounds.last(), key)
    }
}

/// Whether the path with the key `key` waits with what `changes` amount to, or does not wait where
/// there are none.
spec fn waits_with(
    waiting: Map<Seq<char>, Sighting>,
    key: Seq<char>,
    changes: Seq<Sighting>,
) -> bool {
    if changes.len() == 0 {
        !waiting.contains_key(key)
    } else {
        &&& waiting.contains_key(key)
        &&& waiting[key] == one_change(changes)
    }
}

proof fn lemma_waits_with_more(
    waiting: Map<Seq<char>, Sighting>,
    key: Seq<char>,
    changes: Seq<Sighting>,
    paths: Seq<(Seq<char>, Seq<char>)>,
    kind: ChangeKind,
    now: u128,
)
    requires
        waits_with(waiting, key, changes),
    ensures
        waits_with(
            after_events(waiting, paths, kind, now),
            key,
            changes + mentions(paths, key, kind, now),
        ),
        forall|i: int|
            0 <= i < mentions(paths, key, kind, now).len() ==> (#[trigger] mentions(
                paths,
                key,
                kind,
                now,
            )[i]).seen_at == now,
    decreases paths.len(),
{
    if paths.len() == 0 {
        assert(changes + mentions(paths, key, kind, now) =~= changes);
    } else {
        lemma_waits_with_more(waiting, key, changes, paths.drop_last(), kind, now);
        let earlier = changes + mentions(paths.drop_last(), key, kind, now);
        let all = changes + mentions(paths, key, kind, now);
        if paths.last().0 == key {
            let last = Sighting { path: paths.last().1, kind, seen_at: now };
            assert(all =~= earlier.push(last));
            let kinds = all.map_values(|change: Sighting| change.kind);
            assert(kinds.drop_last() =~= earlier.map_values(|change: Sighting| change.kind));
            assert(kinds.last() == kind);
        }
    }
}

/// Whether the clock never goes back in `rounds`: each round is over when the next signal comes.
pub open spec fn in_time(rounds: Seq<Round>) -> bool {
    &&& forall|i: int|
        0 <= i < rounds.len() ==> (#[trigger] rounds[i]).received_at <= rounds[i].checked_at
    &&& forall|i: int, j: int|
        0 <= i < j < rounds.len() ==> (#[trigger] rounds[i]).checked_at <= (
        #[trigger] rounds[j]).received_at
}

/// What comes in later comes behind, and not before the rounds so far are over.
proof fn lemma_history_grows(rounds: Seq<Round>, key: Seq<char>, k: int, n: int)
    requires
        in_time(rounds),
        0 <= k <= n <= rounds.len(),
    ensures
        history(rounds.take(k), key).is_prefix_of(history(rounds.take(n), key)),
        forall|i: int|
            0 <= i < history(rounds.take(k), key).len() && k > 0 ==> (#[trigger] history(
                rounds.take(k),
                key,
            )[i]).seen_at <= rounds[k - 1].checked_at,
        forall|i: int|
            history(rounds.take(k), key).len() <= i < history(rounds.take(n), key).len() && k > 0
                ==> (#[trigger] history(rounds.take(n), key)[i]).seen_at >= rounds[k - 1].checked_at,
    decreases n, k,
{
    if n > k {
        lemma_history_grows(rounds, key, k, n - 1);
        let earlier = history(rounds.take(n - 1), key);
        let more = round_mentions(rounds[n - 1], key);
        assert(rounds.take(n).drop_last() =~= rounds.take(n - 1));
        assert(rounds.take(n).last() == rounds[n - 1]);
        assert(history(rounds.take(n), key) == earlier + more);
        lemma_round_mentions_have_its_time(rounds[n - 1], key);
        let start = history(rounds.take(k), key);
        assert(start =~= (earlier + more).subrange(0, start.len() as int)) by {
            assert(start =~= earlier.subrange(0, start.len() as int));
        }
        assert forall|i: int|
            start.len() <= i < (earlier + more).len() && k > 0 implies (#[trigger] (earlier
            + more)[i]).seen_at >= rounds[k - 1].checked_at by {
            if i < earlier.len() {
                assert((earlier + more)[i] == earlier[i]);
            } else {
                assert((earlier + more)[i] == more[i - earlier.len()]);
            }
        }
    } else {
        let start = history(rounds.take(k), key);
        assert(start =~= start.subrange(0, start.len() as int));
        if k > 0 {
            lemma_history_grows(rounds, key, k - 1, k - 1);
            let earlier = history(rounds.take(k - 1), key);
            let more = round_mentions(rounds[k - 1], key);
            assert(rounds.take(k).drop_last() =~= rounds.take(k - 1));
            assert(start == earlier + more);
            lemma_round_mentions_have_its_time(rounds[k - 1], key);
            assert forall|i: int| 0 <= i < start.len() implies (#[trigger] start[i]).seen_at
                <= rounds[k - 1].checked_at by {
                if i < earlier.len() {
                    assert(start[i] == earlier[i]);
                    assert(k - 1 > 0);
                    assert(rounds[k - 2].checked_at <= rounds[k - 1].received_at);
                } else {
                    assert(start[i] == more[i - earlier.len()]);
                }
            }
        }
    }
}

proof fn lemma_round_mentions_have_its_time(round: Round, key: Seq<char>)
    ensures
        forall|i: int|
            0 <= i < round_mentions(round, key).len() ==> (#[trigger] round_mentions(
                round,
                key,
            )[i]).seen_at == round.received_at,
{
    if let Signal::Event { kind, paths } = round.signal {
        if let Some(change) = change_of(kind) {
            lemma_waits_with_more(
                Map::empty(),
                key,
                Seq::empty(),
                keyed_texts(paths@),
                change,
                round.received_at,
            );
        }
    }
}

/// Whether `changes` are one burst: each comes less than the debounce time after the one before it.
pub open spec fn is_burst(changes: Seq<Sighting>, debounce: u128) -> bool {
    forall|i: int, j: int|
        0 <= i && j == i + 1 && j < changes.len() ==> (#[trigger] changes[j]).seen_at < (
        #[trigger] changes[i]).seen_at + debounce
}

/// Whether `round` reports `change` of the path with the key `key`.
pub open spec fn tells_of(round: Round, key: Seq<char>, change: Sighting) -> bool {
    exists|i: int|
        0 <= i < round.events@.len() && round.keys@[i]@ == key && (#[trigger] round.events@[i]).path@
            == change.path && round.events@[i].kind == change.kind
}

/// What becomes of a path in one round that is not the last.
proof fn lemma_round_on_path(
    before: Map<Seq<char>, Sighting>,
    after: Map<Seq<char>, Sighting>,
    debounce: u128,
    round: Round,
    key: Seq<char>,
    changes: Seq<Sighting>,
)
    requires
        steps_to(before, after, debounce, round),
        !(round.signal is Closed),
        waits_with(before, key, changes),
    ensures
        ({
            let all = changes + round_mentions(round, key);
            if all.len() > 0 && is_due(one_change(all), debounce, round.checked_at) {
                &&& !after.contains_key(key)
                &&& occurrences(text::texts(round.keys@), key) == 1
                &&& tells_of(round, key, one_change(all))
            } else {
                &&& waits_with(after, key, all)
                &&& occurrences(text::texts(round.keys@), key) == 0
            }
        }),
{
    let all = changes + round_mentions(round, key);
    let waiting = after_signal(before, round.signal, round.received_at);
    assert(waits_with(waiting, key, all)) by {
        if round_mentions(round, key).len() == 0 {
            assert(all =~= changes);
        }
        if let Signal::Event { kind, paths } = round.signal {
            if let Some(change) = change_of(kind) {
                lemma_waits_with_more(
                    before,
                    key,
                    changes,
                    keyed_texts(paths@),
                    change,
                    round.received_at,
                );
            }
        }
    }
    lemma_occurrences(text::texts(round.keys@), key);
    let ready = due(waiting, debounce, round.checked_at);
    if ready.contains_key(key) {
        assert(text::texts(round.keys@).contains(key));
        let i = choose|i: int|
            0 <= i < text::texts(round.keys@).len() && text::texts(round.keys@)[i] == key;
        assert(round.events@[i].path@ == ready[key].path);
        assert(tells_of(round, key, ready[key]));
    } else {
        assert(!text::texts(round.keys@).contains(key));
    }
}

/// Whether the burst `changes` of the path with the key `key` was reported by one of `rounds`, once
/// it was over.
pub open spec fn is_reported(
    rounds: Seq<Round>,
    debounce: u128,
    key: Seq<char>,
    changes: Seq<Sighting>,
) -> bool {
    exists|i: int|
        0 <= i < rounds.len() && tells_of(#[trigger] rounds[i], key, one_change(changes))
            && rounds[i].checked_at >= changes.last().seen_at + debounce
}

proof fn lemma_burst_waits_or_was_reported(
    waiting: Seq<Map<Seq<char>, Sighting>>,
    debounce: u128,
    rounds: Seq<Round>,
    key: Seq<char>,
    k: int,
)
    requires
        is_run(waiting, debounce, rounds),
        in_time(rounds),
        forall|i: int| 0 <= i < rounds.len() ==> !((#[trigger] rounds[i]).signal is Closed),
        !waiting[0].contains_key(key),
        is_burst(history(rounds, key), debounce),
        0 <= k <= rounds.len(),
    ensures
        ({
            let whole = history(rounds, key);
            let so_far = history(rounds.take(k), key);
            ||| {
                &&& waits_with(waiting[k], key, so_far)
                &&& times_reported(rounds.take(k), key) == 0
                &&& k > 0 && so_far == whole && whole.len() > 0 ==> rounds[k - 1].checked_at
                    < whole.last().seen_at + debounce
            }
            ||| {
                &&& so_far == whole
                &&& whole.len() > 0
                &&& !waiting[k].contains_key(key)
                &&& times_reported(rounds.take(k), key) == 1
                &&& is_reported(rounds.take(k), debounce, key, whole)
            }
        }),
    decreases k,
{
    let whole = history(rounds, key);
    let so_far = history(rounds.take(k), key);
    if k > 0 {
        let m = k - 1;
        let round = rounds[m];
        let earlier = history(rounds.take(m), key);
        lemma_burst_waits_or_was_reported(waiting, debounce, rounds, key, m);
        lemma_history_grows(rounds, key, k, rounds.len() as int);
        assert(rounds.take(rounds.len() as int) =~= rounds);
        assert(rounds.take(k).drop_last() =~= rounds.take(m));
        assert(rounds.take(k).last() == round);
        assert(so_far == earlier + round_mentions(round, key));
        assert(steps_to(waiting[m], waiting[k], debounce, round));
        assert(so_far =~= whole.subrange(0, so_far.len() as int));
        if waits_with(waiting[m], key, earlier) && times_reported(rounds.take(m), key) == 0 {
            lemma_round_on_path(waiting[m], waiting[k], debounce, round, key, earlier);
            if so_far.len() > 0 && so_far.len() < whole.len() {
                let last = so_far.len() - 1;
                assert(whole[last] == so_far.last());
                assert(whole[last + 1].seen_at < whole[last].seen_at + debounce);
                assert(whole[last + 1].seen_at >= round.checked_at);
            } else if so_far.len() == whole.len() {
                assert(so_far =~= whole);
                if whole.len() > 0 {
                    assert(so_far[so_far.len() - 1].seen_at <= round.checked_at);
                    if !waiting[k].contains_key(key) {
                        assert(rounds.take(k)[m] == round);
                        assert(is_reported(rounds.take(k), debounce, key, whole));
                    }
                }
            }
        } else {
            assert(round_mentions(round, key).len() == 0);
            let none = Seq::<Sighting>::empty();
            assert(none + round_mentions(round, key) =~= none);
            assert(so_far =~= whole);
            lemma_round_on_path(waiting[m], waiting[k], debounce, round, key, none);
            let i = choose|i: int|
                0 <= i < m && tells_of(
                    #[trigger] rounds.take(m)[i],
                    key,
                    one_change(whole),
                ) && rounds.take(m)[i].checked_at >= whole.last().seen_at + debounce;
            assert(rounds.take(k)[i] == rounds.take(m)[i]);
            assert(is_reported(rounds.take(k), debounce, key, whole));
        }
    } else {
        assert(rounds.take(0) =~= Seq::<Round>::empty());
    }
}

/// A burst is one change: where the events for a path, however it is written, come less than the
/// debounce time apart, and some round is over when it has been quiet for that time, it is reported
/// once, with the merged kind of all of them, as it was written first and not before that time.
/// Whatever comes in for other paths does not matter.
pub proof fn law_burst_is_reported_once(
    waiting: Seq<Map<Seq<char>, Sighting>>,
    debounce: u128,
    rounds: Seq<Round>,
    key: Seq<char>,
)
    requires
        is_run(waiting, debounce, rounds),
        in_time(rounds),
        forall|i: int| 0 <= i < rounds.len() ==> !((#[trigger] rounds[i]).signal is Closed),
        !waiting[0].contains_key(key),
        history(rounds, key).len() > 0,
        is_burst(history(rounds, key), debounce),
        rounds.last().checked_at >= history(rounds, key).last().seen_at + debounce,
    ensures
        times_reported(rounds, key) == 1,
        is_reported(rounds, debounce, key, history(rounds, key)),
        !waiting.last().contains_key(key),
{
    lemma_burst_waits_or_was_reported(waiting, debounce, rounds, key, rounds.len() as int);
    assert(rounds.take(rounds.len() as int) =~= rounds);
}

/// Each path of an event counts by itself: `kept` are the paths at the places `places`, in order, and
/// a place is among them exactly where the rules do not ignore the path that stands there, whatever
/// they decide for the others. The path and its text stay as they were.
pub proof fn law_each_path_of_an_event_counts_by_itself(
    kept: Seq<ObservedPath>,
    paths: Seq<EventPath>,
    custom: Seq<Seq<char>>,
)
    requires
        are_unexcluded(kept, paths, custom),
    ensures
        exists|places: Seq<int>, ignored: Seq<bool>|
            {
                &&& #[trigger] places.len() == kept.len()
                &&& #[trigger] ignored.len() == paths.len()
                &&& forall|k: int, l: int| 0 <= k < l < places.len() ==> places[k] < places[l]
                &&& forall|i: int| 0 <= i < paths.len() ==> (!ignored[i] <==> places.contains(i))
                &&& forall|k: int|
                    0 <= k < places.len() ==> 0 <= #[trigger] places[k] < paths.len()
                        && kept[k].path@ == paths[places[k]].path@ && match paths[places[k]].unreadable {
                        Some(unreadable) => kept[k].key@ == unreadable.key@,
                        None => path::is_key(kept[k].key@, paths[places[k]].path@),
                    }
                &&& forall|i: int|
                    0 <= i < paths.len() ==> match (#[trigger] paths[i]).unreadable {
                        Some(unreadable) => ignored[i] == exclude::any_readable_name_excluded(
                            custom,
                            unreadable.components@,
                        ),
                        None => exclude::decides_path(ignored[i], custom, paths[i].path@),
                    }
            },
{
    let (observed, excluded) = choose|observed: Seq<ObservedPath>, excluded: Seq<bool>|
        {
            &&& kept == #[trigger] unmarked(observed, excluded)
            &&& observed.len() == paths.len()
            &&& excluded.len() == paths.len()
            &&& forall|i: int|
                0 <= i < paths.len() ==> decides_event_path(#[trigger] excluded[i], custom, paths[i])
                    && (!excluded[i] ==> observes(observed[i], paths[i]))
        };
    let places = lemma_unmarked_places(observed, excluded);
    assert(places.len() == kept.len());
    assert(excluded.len() == paths.len());
    assert forall|i: int| 0 <= i < paths.len() implies match (#[trigger] paths[i]).unreadable {
        Some(unreadable) => excluded[i] == exclude::any_readable_name_excluded(
            custom,
            unreadable.components@,
        ),
        None => exclude::decides_path(excluded[i], custom, paths[i].path@),
    } by {
        assert(decides_event_path(excluded[i], custom, paths[i]));
    }
    assert forall|k: int| 0 <= k < places.len() implies 0 <= #[trigger] places[k] < paths.len()
        && kept[k].path@ == paths[places[k]].path@ && match paths[places[k]].unreadable {
        Some(unreadable) => kept[k].key@ == unreadable.key@,
        None => path::is_key(kept[k].key@, paths[places[k]].path@),
    } by {
        assert(!excluded[places[k]]);
        assert(observes(observed[places[k]], paths[places[k]]));
    }
}

/// The places of the items that are not marked.
proof fn lemma_unmarked_places<T>(items: Seq<T>, marks: Seq<bool>) -> (places: Seq<int>)
    requires
        items.len() <= marks.len(),
    ensures
        places.len() == unmarked(items, marks).len(),
        forall|k: int, l: int| 0 <= k < l < places.len() ==> places[k] < places[l],
        forall|k: int|
            0 <= k < places.len() ==> 0 <= #[trigger] places[k] < items.len() && !marks[places[k]]
                && unmarked(items, marks)[k] == items[places[k]],
        forall|i: int| 0 <= i < items.len() ==> (!marks[i] <==> places.contains(i)),
    decreases items.len(),
{
    if items.len() == 0 {
        Seq::empty()
    } else {
        let last = items.len() - 1;
        let earlier = lemma_unmarked_places(items.drop_last(), marks);
        if marks[last] {
            assert forall|i: int| 0 <= i < items.len() implies (!marks[i] <==> earlier.contains(
                i,
            )) by {
                if i == last && earlier.contains(i) {
                    let k = choose|k: int| 0 <= k < earlier.len() && earlier[k] == i;
                    assert(earlier[k] < last);
                }
            }
            earlier
        } else {
            let places = earlier.push(last);
            assert forall|i: int| 0 <= i < items.len() implies (!marks[i] <==> places.contains(
                i,
            )) by {
                assert(places[earlier.len() as int] == last);
                if earlier.contains(i) {
                    let k = choose|k: int| 0 <= k < earlier.len() && earlier[k] == i;
                    assert(places[k] == i);
                }
                if places.contains(i) && i != last {
                    let k = choose|k: int| 0 <= k < places.len() && places[k] == i;
                    assert(earlier[k] == i);
                }
            }
            assert forall|k: int| 0 <= k < places.len() implies 0 <= #[trigger] places[k] < items.len()
                && !marks[places[k]] && unmarked(items, marks)[k] == items[places[k]] by {
                if k < earlier.len() {
                    assert(earlier[k] == places[k]);
                }
            }
            assert forall|k: int, l: int| 0 <= k < l < places.len() implies places[k] < places[l] by {
                if l == earlier.len() {
                    assert(earlier[k] < last);
                }
            }
            places
        }
    }
}

/// Each path of an event brings in its own key and text, in its place, for the three kinds of events
/// that stand for a change. No other event and no other signal brings any in.
pub proof fn law_signal_brings_in_all_its_paths(
    kind: EventKind,
    paths: Vec<ObservedPath>,
    other: Signal,
)
    requires
        !(other is Event),
    ensures
        ({
            let keys = changed_keys(Signal::Event { kind, paths });
            if kind == EventKind::Create || kind == EventKind::Modify || kind == EventKind::Remove {
                &&& keys.len() == paths@.len()
                &&& forall|i: int| 0 <= i < paths@.len() ==> #[trigger] keys[i] == paths@[i].key@
            } else {
                keys.len() == 0
            }
        }),
        changed_keys(other).len() == 0,
        keyed_texts(paths@).len() == paths@.len(),
        forall|i: int|
            0 <= i < paths@.len() ==> #[trigger] keyed_texts(paths@)[i] == (
                paths@[i].key@,
                paths@[i].path@,
            ),
{
}

/// An event merges into what waits for its path: the change keeps the path as it was written first,
/// takes the time of the event, and is of the kind of the event, but that a created file that is
/// modified stays created. What waits for other paths stays as it is.
pub proof fn law_event_merges_into_what_waits(
    pending: Map<Seq<char>, Sighting>,
    key: Seq<char>,
    path: Seq<char>,
    kind: ChangeKind,
    now: u128,
    other: Seq<char>,
)
    requires
        other != key,
    ensures
        ({
            let after = after_event(pending, key, path, kind, now);
            &&& after.contains_key(key)
            &&& after[key].seen_at == now
            &&& !pending.contains_key(key) ==> after[key].path == path && after[key].kind == kind
            &&& pending.contains_key(key) ==> after[key].path == pending[key].path
            &&& pending.contains_key(key) && pending[key].kind == ChangeKind::Created && kind
                == ChangeKind::Modified ==> after[key].kind == ChangeKind::Created
            &&& pending.contains_key(key) && !(pending[key].kind == ChangeKind::Created && kind
                == ChangeKind::Modified) ==> after[key].kind == kind
            &&& after.contains_key(other) == pending.contains_key(other)
            &&& pending.contains_key(other) ==> after[other] == pending[other]
        }),
{
}

/// A path is due exactly once it has been quiet for the debounce time, where the clock does not stand
/// behind its last event. What is not due waits as it was.
pub proof fn law_path_is_due_once_it_was_quiet(
    pending: Map<Seq<char>, Sighting>,
    debounce: u128,
    now: u128,
    key: Seq<char>,
)
    requires
        pending.contains_key(key) ==> pending[key].seen_at <= now,
    ensures
        due(pending, debounce, now).contains_key(key) <==> pending.contains_key(key)
            && pending[key].seen_at + debounce <= now,
        not_due(pending, debounce, now).contains_key(key) <==> pending.contains_key(key) && now
            < pending[key].seen_at + debounce,
        due(pending, debounce, now).contains_key(key) ==> due(pending, debounce, now)[key]
            == pending[key],
        not_due(pending, debounce, now).contains_key(key) ==> not_due(pending, debounce, now)[key]
            == pending[key],
{
}

/// A clock that stands behind the last event of a path has seen no quiet: the path goes on waiting,
/// unless no quiet is asked for.
pub proof fn law_path_is_not_due_before_its_time(
    pending: Map<Seq<char>, Sighting>,
    debounce: u128,
    now: u128,
    key: Seq<char>,
)
    requires
        pending.contains_key(key),
        now < pending[key].seen_at,
    ensures
        due(pending, debounce, now).contains_key(key) <==> debounce == 0,
        not_due(pending, debounce, now).contains_key(key) <==> debounce > 0,
{
}

/// When there will be no more events, a burst that was not reported yet is reported then, as one
/// change of the merged kind, of the path as it was written first.
pub proof fn law_closing_reports_the_burst_that_waits(
    waiting: Seq<Map<Seq<char>, Sighting>>,
    debounce: u128,
    rounds: Seq<Round>,
    key: Seq<char>,
    after: Map<Seq<char>, Sighting>,
    closing: Round,
)
    requires
        is_run(waiting, debounce, rounds),
        in_time(rounds),
        forall|i: int| 0 <= i < rounds.len() ==> !((#[trigger] rounds[i]).signal is Closed),
        !waiting[0].contains_key(key),
        history(rounds, key).len() > 0,
        is_burst(history(rounds, key), debounce),
        times_reported(rounds, key) == 0,
        closing.signal is Closed,
        steps_to(waiting.last(), after, debounce, closing),
    ensures
        exists|i: int|
            0 <= i < closing.events@.len() && closing.keys@[i]@ == key && (
            #[trigger] closing.events@[i]).path@ == history(rounds, key)[0].path
                && closing.events@[i].kind == kind_of_history(history(rounds, key)),
        !after.contains_key(key),
{
    lemma_burst_waits_or_was_reported(waiting, debounce, rounds, key, rounds.len() as int);
    assert(rounds.take(rounds.len() as int) =~= rounds);
    let keys = text::texts(closing.keys@);
    assert(waiting.last().contains_key(key));
    assert(keys.contains(key));
    let i = choose|i: int| 0 <= i < keys.len() && keys[i] == key;
    assert(closing.keys@[i]@ == key);
    assert(closing.events@[i].path@ == waiting.last()[key].path);
}

/// What a round reports are the changes that it may report, each once and as it waited.
pub proof fn law_report_is_what_waited(
    events: Seq<ChangeEvent>,
    keys: Seq<Seq<char>>,
    changes: Map<Seq<char>, Sighting>,
    key: Seq<char>,
)
    requires
        reports(events, keys, changes),
    ensures
        events.len() == keys.len(),
        changes.contains_key(key) <==> exists|i: int|
            0 <= i < events.len() && #[trigger] keys[i] == key && events[i].path@ == changes[key].path
                && events[i].kind == changes[key].kind,
        forall|i: int, j: int| 0 <= i < j < keys.len() ==> keys[i] != keys[j],
{
    if changes.contains_key(key) {
        assert(keys.contains(key));
        let i = choose|i: int| 0 <= i < keys.len() && keys[i] == key;
        assert(events[i].path@ == changes[keys[i]].path);
    }
    if exists|i: int| 0 <= i < events.len() && #[trigger] keys[i] == key {
        assert(keys.contains(key));
    }
}

/// A history of events is merged from its beginning: one event is of its own kind, and each further
/// one counts as it is, but that a created file that is modified stays created.
pub proof fn law_histories_are_merged_in_order(history: Seq<ChangeKind>, kind: ChangeKind)
    requires
        history.len() > 0,
    ensures
        merged_all(seq![kind]) == kind,
        merged_all(history.push(kind)) == if merged_all(history) == ChangeKind::Created && kind
            == ChangeKind::Modified {
            ChangeKind::Created
        } else {
            kind
        },
{
    assert(history.push(kind).drop_last() =~= history);
}

/// A raw event stands for the change that its name says, and an event of any other kind for none.
pub proof fn law_raw_event_stands_for_its_change(kind: EventKind)
    ensures
        change_of(kind) == Some(ChangeKind::Created) <==> kind == EventKind::Create,
        change_of(kind) == Some(ChangeKind::Modified) <==> kind == EventKind::Modify,
        change_of(kind) == Some(ChangeKind::Removed) <==> kind == EventKind::Remove,
        change_of(kind) != Some(ChangeKind::Renamed),
{
}

/// An event is taken in for every path that it names, and for no other: such a path waits from the time
/// of the event on, as it was written first, with the change that the event stands for, but that a
/// created file that is modified stays created. Any other path waits as it did, and so does every path
/// where the signal is no event.
pub proof fn law_event_is_taken_in_for_just_its_paths(
    pending: Map<Seq<char>, Sighting>,
    kind: EventKind,
    change: ChangeKind,
    paths: Vec<ObservedPath>,
    received_at: u128,
    key: Seq<char>,
)
    requires
        change_of(kind) == Some(change),
    ensures
        ({
            let after = after_signal(pending, Signal::Event { kind, paths }, received_at);
            let named = exists|i: int| 0 <= i < paths@.len() && (#[trigger] paths@[i]).key@ == key;
            &&& named ==> after.contains_key(key) && after[key].seen_at == received_at
            &&& named && pending.contains_key(key) ==> after[key].path == pending[key].path
            &&& named && !pending.contains_key(key) ==> exists|i: int|
                {
                    &&& 0 <= i < paths@.len()
                    &&& (#[trigger] paths@[i]).key@ == key
                    &&& after[key].path == paths@[i].path@
                    &&& forall|j: int| 0 <= j < i ==> (#[trigger] paths@[j]).key@ != key
                }
            &&& named ==> after[key].kind == if pending.contains_key(key) && pending[key].kind
                == ChangeKind::Created && change == ChangeKind::Modified {
                ChangeKind::Created
            } else {
                change
            }
            &&& !named ==> after.contains_key(key) == pending.contains_key(key)
            &&& !named && pending.contains_key(key) ==> after[key] == pending[key]
        }),
        after_signal(pending, Signal::Failed, received_at) == pending,
        after_signal(pending, Signal::Quiet, received_at) == pending,
{
    let texts = keyed_texts(paths@);
    lemma_events_on_key(pending, texts, change, received_at, key);
    if exists|i: int| 0 <= i < paths@.len() && (#[trigger] paths@[i]).key@ == key {
        let i = choose|i: int| 0 <= i < paths@.len() && (#[trigger] paths@[i]).key@ == key;
        assert(texts[i].0 == key);
        if !pending.contains_key(key) {
            let after = after_events(pending, texts, change, received_at);
            let first = choose|first: int|
                {
                    &&& 0 <= first < texts.len()
                    &&& (#[trigger] texts[first]).0 == key
                    &&& after[key].path == texts[first].1
                    &&& forall|j: int| 0 <= j < first ==> (#[trigger] texts[j]).0 != key
                };
            assert(paths@[first].key@ == key);
            assert forall|j: int| 0 <= j < first implies (#[trigger] paths@[j]).key@ != key by {
                assert(texts[j].0 != key);
            }
        }
    } else {
        assert forall|i: int| 0 <= i < texts.len() implies (#[trigger] texts[i]).0 != key by {
            assert(paths@[i].key@ != key);
        }
    }
}

proof fn lemma_events_on_key(
    pending: Map<Seq<char>, Sighting>,
    paths: Seq<(Seq<char>, Seq<char>)>,
    change: ChangeKind,
    now: u128,
    key: Seq<char>,
)
    ensures
        ({
            let after = after_events(pending, paths, change, now);
            let named = exists|i: int| 0 <= i < paths.len() && (#[trigger] paths[i]).0 == key;
            &&& named ==> after.contains_key(key) && after[key].seen_at == now
            &&& named && pending.contains_key(key) ==> after[key].path == pending[key].path
            &&& named && !pending.contains_key(key) ==> exists|i: int|
                {
                    &&& 0 <= i < paths.len()
                    &&& (#[trigger] paths[i]).0 == key
                    &&& after[key].path == paths[i].1
                    &&& forall|j: int| 0 <= j < i ==> (#[trigger] paths[j]).0 != key
                }
            &&& named ==> after[key].kind == if pending.contains_key(key) && pending[key].kind
                == ChangeKind::Created && change == ChangeKind::Modified {
                ChangeKind::Created
            } else {
                change
            }
            &&& !named ==> after.contains_key(key) == pending.contains_key(key)
            &&& !named && pending.contains_key(key) ==> after[key] == pending[key]
        }),
    decreases paths.len(),
{
    if paths.len() > 0 {
        let less = paths.drop_last();
        let last = paths.len() - 1;
        let before = after_events(pending, less, change, now);
        let after = after_events(pending, paths, change, now);
        lemma_events_on_key(pending, less, change, now, key);
        assert(paths[last] == paths.last());
        let named_before = exists|i: int| 0 <= i < less.len() && (#[trigger] less[i]).0 == key;
        if named_before {
            let i = choose|i: int| 0 <= i < less.len() && (#[trigger] less[i]).0 == key;
            assert(paths[i].0 == key);
            if !pending.contains_key(key) {
                let first = choose|first: int|
                    {
                        &&& 0 <= first < less.len()
                        &&& (#[trigger] less[first]).0 == key
                        &&& before[key].path == less[first].1
                        &&& forall|j: int| 0 <= j < first ==> (#[trigger] less[j]).0 != key
                    };
                assert(paths[first].0 == key && after[key].path == paths[first].1);
                assert forall|j: int| 0 <= j < first implies (#[trigger] paths[j]).0 != key by {
                    assert(less[j].0 != key);
                }
            }
        } else {
            assert forall|j: int| 0 <= j < last implies (#[trigger] paths[j]).0 != key by {
                assert(less[j].0 != key);
            }
        }
    }
}

/// A round that brings no event reports just the paths that have been quiet for the debounce time, each
/// as it waited, and all others go on waiting as they were.
pub proof fn law_quiet_round_reports_just_what_is_due(
    before: Map<Seq<char>, Sighting>,
    after: Map<Seq<char>, Sighting>,
    debounce: u128,
    round: Round,
    key: Seq<char>,
)
    requires
        steps_to(before, after, debounce, round),
        round.signal is Quiet || round.signal is Failed,
        before.contains_key(key),
        before[key].seen_at <= round.checked_at,
    ensures
        before[key].seen_at + debounce <= round.checked_at ==> {
            &&& !after.contains_key(key)
            &&& exists|i: int|
                0 <= i < round.events@.len() && round.keys@[i]@ == key && (
                #[trigger] round.events@[i]).path@ == before[key].path && round.events@[i].kind
                    == before[key].kind
        },
        before[key].seen_at + debounce > round.checked_at ==> {
            &&& after.contains_key(key)
            &&& after[key] == before[key]
            &&& forall|i: int| 0 <= i < round.keys@.len() ==> (#[trigger] round.keys@[i])@ != key
        },
{
    let keys = text::texts(round.keys@);
    let ready = due(before, debounce, round.checked_at);
    if before[key].seen_at + debounce <= round.checked_at {
        assert(ready.contains_key(key));
        law_report_is_what_waited(round.events@, keys, ready, key);
        let i = choose|i: int|
            0 <= i < round.events@.len() && #[trigger] keys[i] == key && round.events@[i].path@
                == ready[key].path && round.events@[i].kind == ready[key].kind;
        assert(round.keys@[i]@ == key);
        assert(round.events@[i].path@ == before[key].path);
    } else {
        assert forall|i: int| 0 <= i < round.keys@.len() implies (#[trigger] round.keys@[i])@
            != key by {
            assert(keys[i] == round.keys@[i]@);
            assert(keys.contains(keys[i]));
            assert(ready.contains_key(keys[i]));
        }
    }
}

/// A round without further events reports all that waits and leaves nothing waiting. No round reports
/// a path that neither waited nor came in with it.
pub proof fn law_round_reports_nothing_out_of_the_blue(
    before: Map<Seq<char>, Sighting>,
    after: Map<Seq<char>, Sighting>,
    debounce: u128,
    round: Round,
    key: Seq<char>,
)
    requires
        steps_to(before, after, debounce, round),
    ensures
        round.signal is Closed && before.contains_key(key) ==> exists|i: int|
            0 <= i < round.events@.len() && round.keys@[i]@ == key && (
            #[trigger] round.events@[i]).path@ == before[key].path && round.events@[i].kind
                == before[key].kind,
        round.signal is Closed ==> !after.contains_key(key),
        !before.contains_key(key) && !changed_keys(round.signal).contains(key)
            ==> !after.contains_key(key) && forall|i: int|
            0 <= i < round.keys@.len() ==> (#[trigger] round.keys@[i])@ != key,
{
    let keys = text::texts(round.keys@);
    if round.signal is Closed && before.contains_key(key) {
        law_report_is_what_waited(round.events@, keys, before, key);
        let i = choose|i: int|
            0 <= i < round.events@.len() && #[trigger] keys[i] == key && round.events@[i].path@
                == before[key].path && round.events@[i].kind == before[key].kind;
        assert(round.keys@[i]@ == key);
        assert(round.events@[i].path@ == before[key].path);
    }
    if !before.contains_key(key) && !changed_keys(round.signal).contains(key) {
        let waiting = after_signal(before, round.signal, round.received_at);
        if let Signal::Event { kind, paths } = round.signal {
            if let Some(change) = change_of(kind) {
                let texts = keyed_texts(paths@);
                lemma_events_on_key(before, texts, change, round.received_at, key);
                assert forall|i: int| 0 <= i < texts.len() implies (#[trigger] texts[i]).0 != key by {
                    assert(changed_keys(round.signal)[i] == texts[i].0);
                }
            }
        }
        assert(!waiting.contains_key(key));
        assert forall|i: int| 0 <= i < round.keys@.len() implies (#[trigger] round.keys@[i])@
            != key by {
            assert(keys[i] == round.keys@[i]@);
            assert(keys.contains(keys[i]));
        }
    }
}

} // verus!
