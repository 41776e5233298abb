//! The peers that can be reached, and whom a change is sent to.

use vstd::prelude::*;

use crate::name_map::NameMap;
use crate::protocol::DEFAULT_PORT;
use crate::roster::Roster;
use crate::text;
use crate::text::owned;

verus! {

/// A discovered peer's address and display name.
#[derive(Debug, PartialEq)]
pub struct PeerHandle {
    pub peer_id: String,
    pub hostname: String,
    /// The socket address, written as the platform prints it.
    pub addr: String,
}

impl Clone for PeerHandle {
    fn clone(&self) -> (copy: Self)
        ensures
            copy == *self,
    {
        PeerHandle {
            peer_id: self.peer_id.clone(),
            hostname: self.hostname.clone(),
            addr: self.addr.clone(),
        }
    }
}

/// The hostname and the address of a peer.
pub open spec fn name_and_address(handle: PeerHandle) -> (Seq<char>, Seq<char>) {
    (handle.hostname@, handle.addr@)
}

/// The peer ids of `handles`.
pub open spec fn ids_of(handles: Seq<PeerHandle>) -> Seq<Seq<char>> {
    handles.map_values(|handle: PeerHandle| handle.peer_id@)
}

/// `handles` list every peer of `peers` with its hostname and address once, and nothing else.
pub open spec fn lists_handles(
    handles: Seq<PeerHandle>,
    peers: Map<Seq<char>, (Seq<char>, Seq<char>)>,
) -> bool {
    &&& crate::roster::are_keys(ids_of(handles), peers)
    &&& forall|i: int|
        0 <= i < handles.len() ==> name_and_address(#[trigger] handles[i])
            == peers[handles[i].peer_id@]
}

/// The known peers that can be reached, by their stable peer id.
pub struct PeerRegistry {
    peers: NameMap<PeerHandle>,
}

impl View for PeerRegistry {
    type V = Map<Seq<char>, (Seq<char>, Seq<char>)>;

    /// The hostname and the address of each peer.
    closed spec fn view(&self) -> Map<Seq<char>, (Seq<char>, Seq<char>)> {
        self.peers@.map_values(|handle: PeerHandle| name_and_address(handle))
    }
}

impl Default for PeerRegistry {
    /// A registry without peers.
    fn default() -> (registry: Self)
        ensures
            registry@ == Map::<Seq<char>, (Seq<char>, Seq<char>)>::empty(),
    {
        PeerRegistry::new()
    }
}

impl PeerRegistry {
    /// Each handle stands under its own peer id.
    #[verifier::type_invariant]
    spec fn handles_stand_under_their_ids(self) -> bool {
        forall|id: Seq<char>| #[trigger]
            self.peers@.contains_key(id) ==> self.peers@[id].peer_id@ == id
    }

    /// A registry without peers.
    pub fn new() -> (registry: Self)
        ensures
            registry@ == Map::<Seq<char>, (Seq<char>, Seq<char>)>::empty(),
    {
        let registry = PeerRegistry { peers: NameMap::new() };
        assert(registry@ =~= Map::<Seq<char>, (Seq<char>, Seq<char>)>::empty());
        registry
    }

    /// Adds the peer, or replaces what was known of it.
    pub fn upsert(&mut self, peer_id: &str, hostname: &str, addr: &str)
        ensures
            final(self)@ == old(self)@.insert(peer_id@, (hostname@, addr@)),
    {
        proof {
            use_type_invariant(&*self);
        }
        let handle = PeerHandle {
            peer_id: owned(peer_id),
            hostname: owned(hostname),
            addr: owned(addr),
        };
        let mut peers: NameMap<PeerHandle> = NameMap::new();
        std::mem::swap(&mut peers, &mut self.peers);
        peers.insert(owned(peer_id), handle);
        self.peers = peers;
        assert(self@ =~= old(self)@.insert(peer_id@, (hostname@, addr@)));
    }

    /// Takes the peer away, if it is there.
    pub fn remove(&mut self, peer_id: &str)
        ensures
            final(self)@ == old(self)@.remove(peer_id@),
    {
        proof {
            use_type_invariant(&*self);
        }
        let mut peers: NameMap<PeerHandle> = NameMap::new();
        std::mem::swap(&mut peers, &mut self.peers);
        peers.remove(peer_id);
        self.peers = peers;
        assert(self@ =~= old(self)@.remove(peer_id@));
    }

    /// Whether the peer is there.
    pub fn contains(&self, peer_id: &str) -> (found: bool)
        ensures
            found == self@.contains_key(peer_id@),
    {
        self.peers.contains_key(peer_id)
    }

    /// Every peer, each once.
    pub fn handles(&self) -> (handles: Vec<PeerHandle>)
        ensures
            lists_handles(handles@, self@),
    {
        proof {
            use_type_invariant(self);
        }
        let keys = self.peers.keys();
        let ghost names = text::texts(keys@);
        let mut handles: Vec<PeerHandle> = Vec::new();
        let mut i: usize = 0;
        while i < keys.len()
            invariant
                i <= keys@.len(),
                names == text::texts(keys@),
                crate::roster::are_keys(names, self.peers@),
                self.handles_stand_under_their_ids(),
                handles@.len() == i,
                forall|j: int| 0 <= j < i ==> (#[trigger] handles@[j]).peer_id@ == names[j],
                forall|j: int| 0 <= j < i ==> #[trigger] handles@[j] == self.peers@[names[j]],
            decreases keys@.len() - i,
        {
            let name = keys[i].as_str();
            assert(names[i as int] == name@);
            assert(names.contains(name@));
            if let Some(handle) = self.peers.get(name) {
                handles.push(handle.clone());
            }
            i += 1;
        }
        assert(ids_of(handles@) =~= names);
        assert forall|j: int| 0 <= j < handles@.len() implies name_and_address(
            #[trigger] handles@[j],
        ) == self@[handles@[j].peer_id@] by {
            assert(names.contains(names[j]));
        }
        handles
    }

    /// The address of every peer.
    pub fn addrs(&self) -> (addrs: Vec<String>)
        ensures
            exists|handles: Seq<PeerHandle>| #[trigger]
                lists_handles(handles, self@) && text::texts(addrs@) == addresses_of(handles),
    {
        let handles = self.handles();
        let mut addrs: Vec<String> = Vec::new();
        let mut i: usize = 0;
        while i < handles.len()
            invariant
                i <= handles@.len(),
                addrs@.len() == i,
                forall|j: int| 0 <= j < i ==> (#[trigger] addrs@[j])@ == handles@[j].addr@,
            decreases handles@.len() - i,
        {
            addrs.push(handles[i].addr.clone());
            i += 1;
        }
        assert(text::texts(addrs@) =~= addresses_of(handles@));
        addrs
    }

    /// How many peers there are.
    pub fn len(&self) -> (len: usize)
        ensures
            self@.dom().finite(),
            len == self@.len(),
    {
        assert(self@.dom() =~= self.peers@.dom());
        self.peers.len()
    }

    /// Whether there is no peer.
    pub fn is_empty(&self) -> (empty: bool)
        ensures
            empty == (self@ == Map::<Seq<char>, (Seq<char>, Seq<char>)>::empty()),
    {
        let empty = self.peers.is_empty();
        proof {
            assert(self@.dom() =~= self.peers@.dom());
            if empty {
                assert(self@ =~= Map::<Seq<char>, (Seq<char>, Seq<char>)>::empty());
            } else {
                if self@ == Map::<Seq<char>, (Seq<char>, Seq<char>)>::empty() {
                    assert(self.peers@.dom() =~= Set::<Seq<char>>::empty());
                    assert(self.peers@ =~= Map::<Seq<char>, PeerHandle>::empty());
                }
            }
        }
        empty
    }
}

/// The addresses of `handles`.
pub open spec fn addresses_of(handles: Seq<PeerHandle>) -> Seq<Seq<char>> {
    handles.map_values(|handle: PeerHandle| handle.addr@)
}

/// How a change reaches one peer.
#[derive(Debug, PartialEq)]
pub enum Delivery {
    /// The peer is online: the change is sent to its address, and kept for it if that fails.
    Send { peer_id: String, addr: String },
    /// The peer is known but offline: the change is kept for it.
    Keep { peer_id: String },
}

/// The peer that a delivery is for.
pub open spec fn receiver(delivery: Delivery) -> Seq<char> {
    match delivery {
        Delivery::Send { peer_id, .. } => peer_id@,
        Delivery::Keep { peer_id } => peer_id@,
    }
}

/// The peers that `deliveries` are for.
pub open spec fn receivers(deliveries: Seq<Delivery>) -> Seq<Seq<char>> {
    deliveries.map_values(|delivery: Delivery| receiver(delivery))
}

/// Whether `delivery` is right for its peer: who is online is sent the change at its address, who
/// is only known has it kept.
pub open spec fn suits(
    delivery: Delivery,
    online: Map<Seq<char>, (Seq<char>, Seq<char>)>,
    known: Map<Seq<char>, Seq<char>>,
) -> bool {
    match delivery {
        Delivery::Send { peer_id, addr } => online.contains_key(peer_id@) && online[peer_id@].1
            == addr@,
        Delivery::Keep { peer_id } => !online.contains_key(peer_id@) && known.contains_key(
            peer_id@,
        ),
    }
}

/// Whether `deliveries` bring a change to every peer that is online or known, each once.
pub open spec fn reaches_everyone(
    deliveries: Seq<Delivery>,
    online: Map<Seq<char>, (Seq<char>, Seq<char>)>,
    known: Map<Seq<char>, Seq<char>>,
) -> bool {
    &&& receivers(deliveries).no_duplicates()
    &&& forall|id: Seq<char>| #[trigger]
        receivers(deliveries).contains(id) <==> (online.contains_key(id) || known.contains_key(id))
    &&& forall|i: int| 0 <= i < deliveries.len() ==> suits(#[trigger] deliveries[i], online, known)
}

/// Plans the broadcast of a change: to every peer that is online, and for every peer that was ever
/// seen and is offline now.
pub fn plan_broadcast(registry: &PeerRegistry, roster: &Roster) -> (deliveries: Vec<Delivery>)
    ensures
        reaches_everyone(deliveries@, registry@, roster@),
{
    let handles = registry.handles();
    let ghost online_ids = ids_of(handles@);
    let mut deliveries: Vec<Delivery> = Vec::new();
    let mut i: usize = 0;
    while i < handles.len()
        invariant
            i <= handles@.len(),
            online_ids == ids_of(handles@),
            lists_handles(handles@, registry@),
            receivers(deliveries@) == online_ids.take(i as int),
            forall|j: int|
                0 <= j < deliveries@.len() ==> suits(
                    #[trigger] deliveries@[j],
                    registry@,
                    roster@,
                ),
        decreases handles@.len() - i,
    {
        let delivery = Delivery::Send {
            peer_id: handles[i].peer_id.clone(),
            addr: handles[i].addr.clone(),
        };
        proof {
            assert(online_ids[i as int] == handles@[i as int].peer_id@);
            assert(online_ids.contains(online_ids[i as int]));
            assert(name_and_address(handles@[i as int]) == registry@[handles@[i as int].peer_id@]);
            assert(suits(delivery, registry@, roster@));
            assert(receivers(deliveries@.push(delivery)) =~= receivers(deliveries@).push(
                receiver(delivery),
            ));
            assert(online_ids.take(i + 1) =~= online_ids.take(i as int).push(
                online_ids[i as int],
            ));
        }
        deliveries.push(delivery);
        i += 1;
    }
    assert(online_ids.take(i as int) =~= online_ids);
    let ids = roster.peer_ids();
    let ghost known_ids = text::texts(ids@);
    let mut k: usize = 0;
    assert(known_ids.take(0) =~= Seq::<Seq<char>>::empty());
    while k < ids.len()
        invariant
            k <= ids@.len(),
            known_ids == text::texts(ids@),
            crate::roster::are_keys(known_ids, roster@),
            receivers(deliveries@).no_duplicates(),
            forall|id: Seq<char>| #[trigger]
                receivers(deliveries@).contains(id) <==> (registry@.contains_key(id)
                    || known_ids.take(k as int).contains(id)),
            forall|j: int|
                0 <= j < deliveries@.len() ==> suits(
                    #[trigger] deliveries@[j],
                    registry@,
                    roster@,
                ),
        decreases ids@.len() - k,
    {
        let id = ids[k].as_str();
        proof {
            assert(known_ids[k as int] == id@);
            assert(known_ids.contains(id@));
            crate::text::lemma_take_one_more(known_ids, k as int);
        }
        if !registry.contains(id) {
            let delivery = Delivery::Keep { peer_id: owned(id) };
            proof {
                let before = receivers(deliveries@);
                let after = receivers(deliveries@.push(delivery));
                assert(after =~= before.push(id@));
                assert(!before.contains(id@));
                crate::text::lemma_take_one_more(after, before.len() as int);
                assert(after.take(before.len() as int) =~= before);
                assert(after.take(after.len() as int) =~= after);
            }
            deliveries.push(delivery);
        }
        k += 1;
    }
    assert(known_ids.take(k as int) =~= known_ids);
    deliveries
}

/// The peer for which a change is to be kept once `delivery` was carried out, where `sent` tells
/// whether the change was sent: everyone whom it did not reach.
pub fn undelivered_to(delivery: Delivery, sent: bool) -> (peer_id: Option<String>)
    ensures
        match peer_id {
            None => delivery is Send && sent,
            Some(id) => !(delivery is Send && sent) && id@ == receiver(delivery),
        },
{
    match delivery {
        Delivery::Send { peer_id, .. } => if sent {
            None
        } else {
            Some(peer_id)
        },
        Delivery::Keep { peer_id } => Some(peer_id),
    }
}

/// The port to listen on next, where `tried` could not be bound: the default port first, then any
/// that is free, then none.
pub open spec fn next_port(tried: Option<u16>) -> Option<u16> {
    match tried {
        None => Some(DEFAULT_PORT),
        Some(port) => if port == DEFAULT_PORT {
            Some(0u16)
        } else {
            None
        },
    }
}

/// The port to listen on next, where `tried` could not be bound. Port zero stands for any port
/// that is free. Where there is none left, nothing can be received from peers.
pub fn next_bind_port(tried: Option<u16>) -> (port: Option<u16>)
    ensures
        port == next_port(tried),
{
    match tried {
        None => Some(DEFAULT_PORT),
        Some(port) => if port == DEFAULT_PORT {
            Some(0)
        } else {
            None
        },
    }
}

/// A peer that went away is gone, whatever was known of it, and the others stay as they were.
pub proof fn law_removed_peer_is_gone(
    peers: Map<Seq<char>, (Seq<char>, Seq<char>)>,
    peer_id: Seq<char>,
    hostname: Seq<char>,
    addr: Seq<char>,
)
    ensures
        !peers.insert(peer_id, (hostname, addr)).remove(peer_id).contains_key(peer_id),
        peers.insert(peer_id, (hostname, addr)).remove(peer_id) == peers.remove(peer_id),
{
    assert(peers.insert(peer_id, (hostname, addr)).remove(peer_id) =~= peers.remove(peer_id));
}

/// A broadcast sends to every peer that is online and to nobody else: a change that is kept for a
/// peer is not sent to it.
pub proof fn law_broadcast_sends_to_whoever_is_online(
    deliveries: Seq<Delivery>,
    online: Map<Seq<char>, (Seq<char>, Seq<char>)>,
    known: Map<Seq<char>, Seq<char>>,
    i: int,
)
    requires
        reaches_everyone(deliveries, online, known),
        0 <= i < deliveries.len(),
    ensures
        deliveries[i] is Send <==> online.contains_key(receiver(deliveries[i])),
{
    assert(suits(deliveries[i], online, known));
}

/// The handles are the peers: each peer has one, with its hostname and its address, and there is none
/// of anyone else.
pub proof fn law_each_peer_has_one_handle(
    handles: Seq<PeerHandle>,
    peers: Map<Seq<char>, (Seq<char>, Seq<char>)>,
    peer_id: Seq<char>,
)
    requires
        lists_handles(handles, peers),
    ensures
        peers.contains_key(peer_id) <==> exists|i: int|
            0 <= i < handles.len() && (#[trigger] handles[i]).peer_id@ == peer_id
                && handles[i].hostname@ == peers[peer_id].0 && handles[i].addr@ == peers[peer_id].1,
        forall|i: int| 0 <= i < handles.len() ==> peers.contains_key((#[trigger] handles[i]).peer_id@),
        forall|i: int, j: int|
            0 <= i < j < handles.len() ==> handles[i].peer_id@ != handles[j].peer_id@,
{
    let ids = ids_of(handles);
    crate::roster::law_each_name_is_one_key(ids, peers, peer_id);
    if peers.contains_key(peer_id) {
        let i = choose|i: int| 0 <= i < ids.len() && #[trigger] ids[i] == peer_id;
        assert(name_and_address(handles[i]) == peers[handles[i].peer_id@]);
        assert(handles[i].peer_id@ == peer_id);
    }
    assert forall|i: int| 0 <= i < handles.len() implies peers.contains_key(
        (#[trigger] handles[i]).peer_id@,
    ) by {
        assert(peers.contains_key(ids[i]));
    }
    assert forall|i: int, j: int| 0 <= i < j < handles.len() implies handles[i].peer_id@
        != handles[j].peer_id@ by {
        assert(ids[i] != ids[j]);
    }
}

/// There is one address for each peer: as many as there are handles, each the one of the handle at its
/// place.
pub proof fn law_each_handle_gives_its_address(handles: Seq<PeerHandle>)
    ensures
        addresses_of(handles).len() == handles.len(),
        forall|i: int|
            0 <= i < handles.len() ==> #[trigger] addresses_of(handles)[i] == handles[i].addr@,
{
}

/// A broadcast is planned for everyone, once: whoever is online is sent the change at the address that
/// is known, whoever is known but offline has it kept, and nobody else has anything. Each peer has one
/// delivery.
pub proof fn law_broadcast_is_planned_for_everyone(
    deliveries: Seq<Delivery>,
    online: Map<Seq<char>, (Seq<char>, Seq<char>)>,
    known: Map<Seq<char>, Seq<char>>,
    id: Seq<char>,
)
    requires
        reaches_everyone(deliveries, online, known),
    ensures
        online.contains_key(id) <==> exists|i: int|
            0 <= i < deliveries.len() && (#[trigger] deliveries[i] matches Delivery::Send {
                peer_id,
                addr,
            } && peer_id@ == id && addr@ == online[id].1),
        !online.contains_key(id) && known.contains_key(id) <==> exists|i: int|
            0 <= i < deliveries.len() && (#[trigger] deliveries[i] matches Delivery::Keep { peer_id }
                && peer_id@ == id),
        forall|i: int, j: int|
            0 <= i < j < deliveries.len() ==> receiver(deliveries[i]) != receiver(deliveries[j]),
{
    let ids = receivers(deliveries);
    if online.contains_key(id) || known.contains_key(id) {
        assert(ids.contains(id));
        let i = choose|i: int| 0 <= i < ids.len() && ids[i] == id;
        assert(suits(deliveries[i], online, known));
        assert(receiver(deliveries[i]) == id);
    }
    assert forall|i: int| 0 <= i < deliveries.len() implies suits(
        #[trigger] deliveries[i],
        online,
        known,
    ) by {}
    assert forall|i: int, j: int| 0 <= i < j < deliveries.len() implies receiver(deliveries[i])
        != receiver(deliveries[j]) by {
        assert(ids[i] != ids[j]);
    }
}

/// A delivery is for the peer that it names.
pub proof fn law_delivery_is_for_whom_it_names(peer_id: String, addr: String)
    ensures
        receiver(Delivery::Send { peer_id, addr }) == peer_id@,
        receiver(Delivery::Keep { peer_id }) == peer_id@,
{
}

/// Port 47821 is tried first, then any free port, and after that none: whatever is tried from the
/// beginning, the second port is the last one.
pub proof fn law_two_ports_are_tried(tried: u16)
    ensures
        next_port(None) == Some(47821u16),
        tried == 47821 ==> next_port(Some(tried)) == Some(0u16),
        tried != 47821 ==> next_port(Some(tried)) is None,
{
}

} // verus!
