//! LAN peer discovery via mDNS, so that agents can find each other without any central server.

use vstd::prelude::*;

use crate::name_map::NameMap;
use crate::peer::PeerRegistry;
use crate::roster;
use crate::text;
use crate::text::{owned, same_text, trim_end_matches};

verus! {

/// mDNS service type advertised by every agent instance.
pub const SERVICE_TYPE: &'static str = "_lfsync._tcp.local.";

/// The name under which an agent is advertised: its hostname and its peer id.
pub fn instance_name(hostname: &str, peer_id: &str) -> (name: String)
    ensures
        name@ == hostname@ + "-"@ + peer_id@,
{
    let mut name = owned(hostname);
    name.append("-");
    name.append(peer_id);
    name
}

/// The host name under which an agent is advertised.
pub fn host_fqdn(hostname: &str) -> (name: String)
    ensures
        name@ == hostname@ + ".local."@,
{
    let mut name = owned(hostname);
    name.append(".local.");
    name
}

/// What is known of an agent once its announcement is resolved.
pub struct ResolvedPeer {
    /// The full mDNS name of the announcement.
    pub fullname: String,
    /// The advertised host name.
    pub hostname: String,
    /// The announced peer id, if there is one.
    pub peer_id: Option<String>,
    /// The addresses at which the agent listens, each with its port.
    pub addrs: Vec<String>,
}

/// What browsing the LAN brings up.
pub enum DiscoveryEvent {
    /// An agent was found.
    Resolved(ResolvedPeer),
    /// The announcement with the given full name is gone.
    Removed { fullname: String },
    /// Anything else.
    Other,
}

/// What became of an event.
#[derive(Debug, PartialEq)]
pub enum DiscoveryOutcome {
    /// The agent announced no peer id, and is ignored.
    WithoutPeerId,
    /// The announcement is this agent's own.
    OwnAnnouncement,
    /// The agent has no address, and is ignored.
    WithoutAddress { peer_id: String },
    /// The peer is online.
    Discovered { peer_id: String, hostname: String, addr: String },
    /// The peer went offline.
    WentOffline { peer_id: String },
    /// Nothing came of the event.
    Ignored,
}

/// The hostname for display of an advertised host name.
pub open spec fn display_hostname(advertised: Seq<char>) -> Seq<char> {
    text::without_suffixes(advertised, ".local."@)
}

/// Whether a resolved announcement is one of another agent that can be reached.
pub open spec fn is_reachable_peer(info: ResolvedPeer, own_peer_id: Seq<char>) -> bool {
    &&& info.peer_id is Some
    &&& info.peer_id->0@ != own_peer_id
    &&& info.addrs@.len() > 0
}

/// The peers that are online after `event`, by peer id, where `fullnames` are the peer ids of the
/// announcements that were seen.
pub open spec fn online_after(
    online: Map<Seq<char>, (Seq<char>, Seq<char>)>,
    fullnames: Map<Seq<char>, Seq<char>>,
    event: DiscoveryEvent,
    own_peer_id: Seq<char>,
) -> Map<Seq<char>, (Seq<char>, Seq<char>)> {
    match event {
        DiscoveryEvent::Resolved(info) => if is_reachable_peer(info, own_peer_id) {
            online.insert(info.peer_id->0@, (display_hostname(info.hostname@), info.addrs@[0]@))
        } else {
            online
        },
        DiscoveryEvent::Removed { fullname } => if fullnames.contains_key(fullname@) {
            online.remove(fullnames[fullname@])
        } else {
            online
        },
        DiscoveryEvent::Other => online,
    }
}

/// The peer ids of the announcements that were seen, after `event`.
pub open spec fn fullnames_after(
    fullnames: Map<Seq<char>, Seq<char>>,
    event: DiscoveryEvent,
    own_peer_id: Seq<char>,
) -> Map<Seq<char>, Seq<char>> {
    match event {
        DiscoveryEvent::Resolved(info) => if is_reachable_peer(info, own_peer_id) {
            fullnames.insert(info.fullname@, info.peer_id->0@)
        } else {
            fullnames
        },
        DiscoveryEvent::Removed { fullname } => fullnames.remove(fullname@),
        DiscoveryEvent::Other => fullnames,
    }
}

/// Whether `outcome` tells what becomes of `event`.
pub open spec fn tells(
    outcome: DiscoveryOutcome,
    fullnames: Map<Seq<char>, Seq<char>>,
    event: DiscoveryEvent,
    own_peer_id: Seq<char>,
) -> bool {
    match event {
        DiscoveryEvent::Resolved(info) => match info.peer_id {
            None => outcome is WithoutPeerId,
            Some(id) => if id@ == own_peer_id {
                outcome is OwnAnnouncement
            } else if info.addrs@.len() == 0 {
                outcome matches DiscoveryOutcome::WithoutAddress { peer_id } && peer_id@ == id@
            } else {
                outcome matches DiscoveryOutcome::Discovered { peer_id, hostname, addr } && peer_id@
                    == id@ && hostname@ == display_hostname(info.hostname@) && addr@
                    == info.addrs@[0]@
            },
        },
        DiscoveryEvent::Removed { fullname } => if fullnames.contains_key(fullname@) {
            outcome matches DiscoveryOutcome::WentOffline { peer_id } && peer_id@
                == fullnames[fullname@]
        } else {
            outcome is Ignored
        },
        DiscoveryEvent::Other => outcome is Ignored,
    }
}

/// Keeps `registry` up to date as peers appear and disappear. `fullname_to_peer_id` remembers
/// whose announcement was which, since an announcement that is gone only leaves its full name.
pub fn handle_event(
    event: DiscoveryEvent,
    registry: &mut PeerRegistry,
    own_peer_id: &str,
    fullname_to_peer_id: &mut NameMap<String>,
) -> (outcome: DiscoveryOutcome)
    ensures
        final(registry)@ == online_after(
            old(registry)@,
            roster::text_values(old(fullname_to_peer_id)@),
            event,
            own_peer_id@,
        ),
        roster::text_values(final(fullname_to_peer_id)@) == fullnames_after(
            roster::text_values(old(fullname_to_peer_id)@),
            event,
            own_peer_id@,
        ),
        tells(outcome, roster::text_values(old(fullname_to_peer_id)@), event, own_peer_id@),
{
    let ghost before = fullname_to_peer_id@;
    match event {
        DiscoveryEvent::Resolved(info) => {
            let remote_peer_id = match info.peer_id {
                Some(id) => id,
                None => {
                    return DiscoveryOutcome::WithoutPeerId;
                },
            };
            if same_text(remote_peer_id.as_str(), own_peer_id) {
                return DiscoveryOutcome::OwnAnnouncement;
            }
            if info.addrs.len() == 0 {
                return DiscoveryOutcome::WithoutAddress { peer_id: remote_peer_id };
            }
            let addr = info.addrs[0].clone();
            let hostname = trim_end_matches(info.hostname.as_str(), ".local.");
            fullname_to_peer_id.insert(info.fullname, owned(remote_peer_id.as_str()));
            registry.upsert(remote_peer_id.as_str(), hostname.as_str(), addr.as_str());
            assert(roster::text_values(fullname_to_peer_id@) =~= roster::text_values(
                before,
            ).insert(info.fullname@, remote_peer_id@));
            DiscoveryOutcome::Discovered { peer_id: remote_peer_id, hostname, addr }
        },
        DiscoveryEvent::Removed { fullname } => {
            let peer_id = match fullname_to_peer_id.get(fullname.as_str()) {
                Some(id) => owned(id.as_str()),
                None => {
                    assert(roster::text_values(before).remove(fullname@) =~= roster::text_values(
                        before,
                    ));
                    return DiscoveryOutcome::Ignored;
                },
            };
            fullname_to_peer_id.remove(fullname.as_str());
            registry.remove(peer_id.as_str());
            assert(roster::text_values(fullname_to_peer_id@) =~= roster::text_values(
                before,
            ).remove(fullname@));
            DiscoveryOutcome::WentOffline { peer_id }
        },
        DiscoveryEvent::Other => DiscoveryOutcome::Ignored,
    }
}

/// This agent never lists itself: its own announcement changes nothing.
pub proof fn law_own_announcement_changes_nothing(
    online: Map<Seq<char>, (Seq<char>, Seq<char>)>,
    fullnames: Map<Seq<char>, Seq<char>>,
    info: ResolvedPeer,
    own_peer_id: Seq<char>,
)
    requires
        info.peer_id is Some,
        info.peer_id->0@ == own_peer_id,
    ensures
        online_after(online, fullnames, DiscoveryEvent::Resolved(info), own_peer_id) == online,
        fullnames_after(fullnames, DiscoveryEvent::Resolved(info), own_peer_id) == fullnames,
{
}

/// No event ever puts this agent itself among its peers.
pub proof fn law_agent_is_never_its_own_peer(
    online: Map<Seq<char>, (Seq<char>, Seq<char>)>,
    fullnames: Map<Seq<char>, Seq<char>>,
    event: DiscoveryEvent,
    own_peer_id: Seq<char>,
)
    requires
        !online.contains_key(own_peer_id),
    ensures
        !online_after(online, fullnames, event, own_peer_id).contains_key(own_peer_id),
{
}

/// A peer that was found and whose announcement then goes away is no longer listed, and the
/// others are as they were.
pub proof fn law_removal_undoes_discovery(
    online: Map<Seq<char>, (Seq<char>, Seq<char>)>,
    fullnames: Map<Seq<char>, Seq<char>>,
    info: ResolvedPeer,
    gone: String,
    own_peer_id: Seq<char>,
)
    requires
        is_reachable_peer(info, own_peer_id),
        gone@ == info.fullname@,
    ensures
        ({
            let found = DiscoveryEvent::Resolved(info);
            let lost = DiscoveryEvent::Removed { fullname: gone };
            let online_then = online_after(online, fullnames, found, own_peer_id);
            let fullnames_then = fullnames_after(fullnames, found, own_peer_id);
            &&& online_after(online_then, fullnames_then, lost, own_peer_id) == online.remove(
                info.peer_id->0@,
            )
            &&& fullnames_after(fullnames_then, lost, own_peer_id) == fullnames.remove(
                info.fullname@,
            )
        }),
{
    let id = info.peer_id->0@;
    assert(online.insert(id, (display_hostname(info.hostname@), info.addrs@[0]@)).remove(id)
        =~= online.remove(id));
    assert(fullnames.insert(info.fullname@, id).remove(info.fullname@) =~= fullnames.remove(
        info.fullname@,
    ));
}

/// Once the announcement of a peer that can be reached is resolved, the peer is online under the
/// hostname and the first address of this very announcement, whatever was known of it before. The
/// announcement is remembered as its own. Everything about the others stays as it was.
pub proof fn law_announcement_is_taken_as_it_stands(
    online: Map<Seq<char>, (Seq<char>, Seq<char>)>,
    fullnames: Map<Seq<char>, Seq<char>>,
    info: ResolvedPeer,
    own_peer_id: Seq<char>,
    other: Seq<char>,
)
    requires
        info.peer_id is Some,
        info.peer_id->0@ != own_peer_id,
        info.addrs@.len() > 0,
    ensures
        ({
            let id = info.peer_id->0@;
            let event = DiscoveryEvent::Resolved(info);
            let after = online_after(online, fullnames, event, own_peer_id);
            let fullnames_then = fullnames_after(fullnames, event, own_peer_id);
            &&& after.contains_key(id)
            &&& after[id].0 == display_hostname(info.hostname@)
            &&& after[id].1 == info.addrs@[0]@
            &&& other != id ==> after.contains_key(other) == online.contains_key(other)
            &&& other != id && online.contains_key(other) ==> after[other] == online[other]
            &&& fullnames_then.contains_key(info.fullname@)
            &&& fullnames_then[info.fullname@] == id
            &&& other != info.fullname@ ==> fullnames_then.contains_key(other)
                == fullnames.contains_key(other)
            &&& other != info.fullname@ && fullnames.contains_key(other) ==> fullnames_then[other]
                == fullnames[other]
        }),
{
}

/// A peer is known by its last announcement: where it is announced twice, only the second counts.
pub proof fn law_last_announcement_counts(
    online: Map<Seq<char>, (Seq<char>, Seq<char>)>,
    fullnames: Map<Seq<char>, Seq<char>>,
    first: ResolvedPeer,
    second: ResolvedPeer,
    own_peer_id: Seq<char>,
)
    requires
        first.peer_id is Some,
        second.peer_id is Some,
        first.peer_id->0@ == second.peer_id->0@,
        first.peer_id->0@ != own_peer_id,
        second.addrs@.len() > 0,
    ensures
        online_after(
            online_after(online, fullnames, DiscoveryEvent::Resolved(first), own_peer_id),
            fullnames_after(fullnames, DiscoveryEvent::Resolved(first), own_peer_id),
            DiscoveryEvent::Resolved(second),
            own_peer_id,
        ) == online_after(online, fullnames, DiscoveryEvent::Resolved(second), own_peer_id),
{
    let event = DiscoveryEvent::Resolved(second);
    let once = online_after(online, fullnames, DiscoveryEvent::Resolved(first), own_peer_id);
    let then = fullnames_after(fullnames, DiscoveryEvent::Resolved(first), own_peer_id);
    assert(online_after(once, then, event, own_peer_id) =~= online_after(
        online,
        fullnames,
        event,
        own_peer_id,
    ));
}

/// An announcement without a peer id, one without an address and this agent's own change nothing, and
/// neither does anything that is no announcement.
pub proof fn law_other_announcements_change_nothing(
    online: Map<Seq<char>, (Seq<char>, Seq<char>)>,
    fullnames: Map<Seq<char>, Seq<char>>,
    info: ResolvedPeer,
    own_peer_id: Seq<char>,
)
    requires
        info.peer_id is None || info.peer_id->0@ == own_peer_id || info.addrs@.len() == 0,
    ensures
        online_after(online, fullnames, DiscoveryEvent::Resolved(info), own_peer_id) == online,
        fullnames_after(fullnames, DiscoveryEvent::Resolved(info), own_peer_id) == fullnames,
        online_after(online, fullnames, DiscoveryEvent::Other, own_peer_id) == online,
        fullnames_after(fullnames, DiscoveryEvent::Other, own_peer_id) == fullnames,
{
}

/// Once an announcement is gone, the peer whose it was is offline and the announcement is forgotten.
/// All other peers and announcements stay as they were, and where it was never seen, everything does.
pub proof fn law_only_the_announcement_that_is_gone_counts(
    online: Map<Seq<char>, (Seq<char>, Seq<char>)>,
    fullnames: Map<Seq<char>, Seq<char>>,
    gone: String,
    own_peer_id: Seq<char>,
    other: Seq<char>,
)
    ensures
        ({
            let event = DiscoveryEvent::Removed { fullname: gone };
            let after = online_after(online, fullnames, event, own_peer_id);
            let fullnames_then = fullnames_after(fullnames, event, own_peer_id);
            &&& fullnames.contains_key(gone@) ==> !after.contains_key(fullnames[gone@])
            &&& fullnames.contains_key(gone@) && other == fullnames[gone@] || after.contains_key(
                other,
            ) == online.contains_key(other)
            &&& after.contains_key(other) ==> after[other] == online[other]
            &&& !fullnames_then.contains_key(gone@)
            &&& other != gone@ ==> fullnames_then.contains_key(other) == fullnames.contains_key(other)
            &&& fullnames_then.contains_key(other) ==> fullnames_then[other] == fullnames[other]
        }),
{
}

/// A host name is shown without the `.local.` that it is advertised with, and no other part of it is
/// dropped: the advertised name is the shown one and that ending some number of times, and the shown
/// one does not end so.
pub proof fn law_shown_hostname_lacks_just_the_local_ending(advertised: Seq<char>)
    ensures
        ({
            let shown = display_hostname(advertised);
            let ending = seq!['.', 'l', 'o', 'c', 'a', 'l', '.'];
            &&& shown.is_prefix_of(advertised)
            &&& !ending.is_suffix_of(shown)
            &&& (advertised.len() - shown.len()) % 7 == 0
            &&& forall|i: int|
                shown.len() <= i < advertised.len() ==> #[trigger] advertised[i] == ending[(i
                    - shown.len()) % 7]
        }),
{
    let ending = seq!['.', 'l', 'o', 'c', 'a', 'l', '.'];
    reveal_strlit(".local.");
    assert(".local."@ =~= ending);
    assert(ending.len() == 7);
    text::law_suffixes_are_taken_off_whole(advertised, ending);
}

/// An outcome says what became of the event: just a peer that is online now is told as discovered, with
/// what the registry has of it, and just a peer that is taken out as gone offline.
pub proof fn law_outcome_tells_what_became_of_the_event(
    outcome: DiscoveryOutcome,
    online: Map<Seq<char>, (Seq<char>, Seq<char>)>,
    fullnames: Map<Seq<char>, Seq<char>>,
    event: DiscoveryEvent,
    own_peer_id: Seq<char>,
)
    requires
        tells(outcome, fullnames, event, own_peer_id),
    ensures
        outcome is WithoutPeerId <==> event is Resolved && event->Resolved_0.peer_id is None,
        outcome is OwnAnnouncement <==> event is Resolved && event->Resolved_0.peer_id is Some
            && event->Resolved_0.peer_id->0@ == own_peer_id,
        outcome is WithoutAddress <==> event is Resolved && event->Resolved_0.peer_id is Some
            && event->Resolved_0.peer_id->0@ != own_peer_id && event->Resolved_0.addrs@.len() == 0,
        outcome is Discovered <==> event is Resolved && event->Resolved_0.peer_id is Some
            && event->Resolved_0.peer_id->0@ != own_peer_id && event->Resolved_0.addrs@.len() > 0,
        outcome is WentOffline <==> event is Removed && fullnames.contains_key(event->fullname@),
        outcome matches DiscoveryOutcome::WithoutAddress { peer_id } ==> peer_id@
            == event->Resolved_0.peer_id->0@,
        outcome matches DiscoveryOutcome::Discovered { peer_id, hostname, addr } ==> {
            let after = online_after(online, fullnames, event, own_peer_id);
            &&& peer_id@ == event->Resolved_0.peer_id->0@
            &&& after.contains_key(peer_id@)
            &&& after[peer_id@] == (hostname@, addr@)
        },
        outcome matches DiscoveryOutcome::WentOffline { peer_id } ==> peer_id@
            == fullnames[event->fullname@] && !online_after(
            online,
            fullnames,
            event,
            own_peer_id,
        ).contains_key(peer_id@),
{
}

} // verus!
