//! A durable memory of every peer this agent has ever discovered on the LAN, whether or not it is
//! online right now.
//!
//! [`crate::peer::PeerRegistry`] only tracks peers that can be reached, and forgets a peer once it
//! goes offline. [`crate::outbox::Outbox`] needs to know for whom to keep messages even then.

use vstd::prelude::*;

use crate::name_map::NameMap;
use crate::text;
use crate::text::{owned, same_text};

verus! {

/// The map that pairs of peer ids and hostnames amount to, where a later pair for an id replaces
/// an earlier one.
pub open spec fn map_of(pairs: Seq<(String, String)>) -> Map<Seq<char>, Seq<char>>
    decreases pairs.len(),
{
    if pairs.len() == 0 {
        Map::empty()
    } else {
        map_of(pairs.drop_last()).insert(pairs.last().0@, pairs.last().1@)
    }
}

/// The texts of the values of a map.
pub open spec fn text_values(map: Map<Seq<char>, String>) -> Map<Seq<char>, Seq<char>> {
    map.map_values(|value: String| value@)
}

/// `names` are the keys of `map`, each once.
pub open spec fn are_keys<V>(names: Seq<Seq<char>>, map: Map<Seq<char>, V>) -> bool {
    &&& names.no_duplicates()
    &&& forall|name: Seq<char>| map.contains_key(name) <==> #[trigger] names.contains(name)
}

/// `pairs` list every peer of `peers` with its hostname once, and nothing else.
pub open spec fn lists_peers(
    pairs: Seq<(String, String)>,
    peers: Map<Seq<char>, Seq<char>>,
) -> bool {
    &&& are_keys(pairs.map_values(|pair: (String, String)| pair.0@), peers)
    &&& forall|i: int| 0 <= i < pairs.len() ==> (#[trigger] pairs[i]).1@ == peers[pairs[i].0@]
}

/// Every peer ever seen, with the hostname it was last seen under.
pub struct Roster {
    peers: NameMap<String>,
}

impl View for Roster {
    type V = Map<Seq<char>, Seq<char>>;

    /// The last known hostname of each peer id.
    closed spec fn view(&self) -> Map<Seq<char>, Seq<char>> {
        text_values(self.peers@)
    }
}

impl Roster {
    /// The roster that was saved as pairs of peer ids and hostnames, or an empty one if there is
    /// none yet or it cannot be read.
    pub fn load(saved: Option<Vec<(String, String)>>) -> (roster: Self)
        ensures
            roster@ == match saved {
                Some(pairs) => map_of(pairs@),
                None => Map::<Seq<char>, Seq<char>>::empty(),
            },
    {
        let mut roster = Roster { peers: NameMap::new() };
        assert(roster@ =~= Map::<Seq<char>, Seq<char>>::empty());
        if let Some(pairs) = saved {
            let mut i: usize = 0;
            assert(pairs@.take(0) =~= Seq::<(String, String)>::empty());
            while i < pairs.len()
                invariant
                    i <= pairs@.len(),
                    roster@ == map_of(pairs@.take(i as int)),
                decreases pairs@.len() - i,
            {
                assert(pairs@.take(i + 1).drop_last() =~= pairs@.take(i as int));
                let ghost before = roster.peers@;
                roster.peers.insert(owned(pairs[i].0.as_str()), owned(pairs[i].1.as_str()));
                assert(roster@ =~= text_values(before).insert(
                    pairs@[i as int].0@,
                    pairs@[i as int].1@,
                ));
                i += 1;
            }
            assert(pairs@.take(i as int) =~= pairs@);
        }
        roster
    }

    /// Records that `peer_id`, displayed as `hostname`, has been seen. Returns whether that is
    /// news, so that the roster is to be saved.
    pub fn remember(&mut self, peer_id: &str, hostname: &str) -> (changed: bool)
        ensures
            final(self)@ == old(self)@.insert(peer_id@, hostname@),
            changed == !(old(self)@.contains_key(peer_id@) && old(self)@[peer_id@] == hostname@),
    {
        if let Some(known) = self.peers.get(peer_id) {
            if same_text(known.as_str(), hostname) {
                assert(self@.insert(peer_id@, hostname@) =~= self@);
                return false;
            }
        }
        let ghost before = self.peers@;
        self.peers.insert(owned(peer_id), owned(hostname));
        assert(self@ =~= text_values(before).insert(peer_id@, hostname@));
        true
    }

    /// Every peer id ever remembered, each once.
    pub fn peer_ids(&self) -> (ids: Vec<String>)
        ensures
            are_keys(text::texts(ids@), self@),
    {
        self.peers.keys()
    }

    /// The peer ids with their hostnames, each id once, as they are saved.
    pub fn to_entries(&self) -> (pairs: Vec<(String, String)>)
        ensures
            lists_peers(pairs@, self@),
    {
        let keys = self.peers.keys();
        let ghost names = text::texts(keys@);
        let mut pairs: Vec<(String, String)> = Vec::new();
        let mut i: usize = 0;
        while i < keys.len()
            invariant
                i <= keys@.len(),
                names == text::texts(keys@),
                are_keys(names, self@),
                pairs@.len() == i,
                forall|j: int| 0 <= j < i ==> (#[trigger] pairs@[j]).0@ == names[j],
                forall|j: int| 0 <= j < i ==> (#[trigger] pairs@[j]).1@ == self@[names[j]],
            decreases keys@.len() - i,
        {
            let name = keys[i].as_str();
            assert(names[i as int] == name@);
            assert(names.contains(name@));
            if let Some(hostname) = self.peers.get(name) {
                pairs.push((owned(name), owned(hostname.as_str())));
            }
            i += 1;
        }
        assert(pairs@.map_values(|pair: (String, String)| pair.0@) =~= names);
        pairs
    }
}

/// Remembering a peer again under the same hostname changes nothing and is no news.
pub proof fn law_remembering_twice_is_remembering_once(
    peers: Map<Seq<char>, Seq<char>>,
    peer_id: Seq<char>,
    hostname: Seq<char>,
)
    ensures
        peers.insert(peer_id, hostname).insert(peer_id, hostname) == peers.insert(
            peer_id,
            hostname,
        ),
        peers.insert(peer_id, hostname).contains_key(peer_id),
        peers.insert(peer_id, hostname)[peer_id] == hostname,
{
    assert(peers.insert(peer_id, hostname).insert(peer_id, hostname) =~= peers.insert(
        peer_id,
        hostname,
    ));
}

/// A roster that is saved and loaded again is the same roster.
pub proof fn law_saved_roster_loads_back(
    pairs: Seq<(String, String)>,
    peers: Map<Seq<char>, Seq<char>>,
)
    requires
        lists_peers(pairs, peers),
    ensures
        map_of(pairs) == peers,
    decreases pairs.len(),
{
    let ids = pairs.map_values(|pair: (String, String)| pair.0@);
    if pairs.len() == 0 {
        assert forall|id: Seq<char>| !peers.contains_key(id) by {
            assert(!ids.contains(id));
        }
        assert(map_of(pairs) =~= peers);
    } else {
        let last = pairs.last();
        let rest = peers.remove(last.0@);
        let rest_ids = pairs.drop_last().map_values(|pair: (String, String)| pair.0@);
        assert(rest_ids =~= ids.drop_last());
        assert(ids[ids.len() - 1] == last.0@);
        assert(ids.contains(last.0@));
        assert forall|id: Seq<char>| rest.contains_key(id) <==> #[trigger] rest_ids.contains(id) by {
            if rest.contains_key(id) {
                assert(ids.contains(id));
                let i = choose|i: int| 0 <= i < ids.len() && ids[i] == id;
                assert(rest_ids[i] == id);
            }
            if rest_ids.contains(id) {
                let i = choose|i: int| 0 <= i < rest_ids.len() && rest_ids[i] == id;
                assert(ids[i] == id);
                assert(ids.contains(id));
            }
        }
        assert forall|i: int| 0 <= i < pairs.drop_last().len() implies (
        #[trigger] pairs.drop_last()[i]).1@ == rest[pairs.drop_last()[i].0@] by {
            assert(pairs[i].1@ == peers[pairs[i].0@]);
            assert(ids[i] != ids[ids.len() - 1]);
        }
        law_saved_roster_loads_back(pairs.drop_last(), rest);
        assert(pairs[pairs.len() - 1].1@ == peers[last.0@]);
        assert(rest.insert(last.0@, last.1@) =~= peers);
    }
}

/// No peer is ever forgotten: who was known before another peer is remembered is known after it.
pub proof fn law_no_peer_is_forgotten(
    peers: Map<Seq<char>, Seq<char>>,
    known: Seq<char>,
    peer_id: Seq<char>,
    hostname: Seq<char>,
)
    requires
        peers.contains_key(known),
    ensures
        peers.insert(peer_id, hostname).contains_key(known),
        known != peer_id ==> peers.insert(peer_id, hostname)[known] == peers[known],
{
}

/// Of pairs for one peer the last counts, and every peer that a pair names is in the roster.
pub proof fn law_last_pair_for_a_peer_counts(
    pairs: Seq<(String, String)>,
    peer_id: String,
    hostname: String,
    other: Seq<char>,
)
    ensures
        ({
            let after = map_of(pairs.push((peer_id, hostname)));
            &&& after.contains_key(peer_id@)
            &&& after[peer_id@] == hostname@
            &&& other != peer_id@ ==> after.contains_key(other) == map_of(pairs).contains_key(other)
            &&& other != peer_id@ && map_of(pairs).contains_key(other) ==> after[other] == map_of(
                pairs,
            )[other]
        }),
        !map_of(Seq::empty()).contains_key(other),
{
    assert(pairs.push((peer_id, hostname)).drop_last() =~= pairs);
}

/// The texts of values stand under the names of the values.
pub proof fn law_texts_stand_under_their_names(map: Map<Seq<char>, String>, name: Seq<char>)
    ensures
        text_values(map).contains_key(name) <==> map.contains_key(name),
        map.contains_key(name) ==> text_values(map)[name] == map[name]@,
{
}

/// Each name with a value stands among the keys at one place, and every key has a value.
pub proof fn law_each_name_is_one_key<V>(names: Seq<Seq<char>>, map: Map<Seq<char>, V>, name: Seq<char>)
    requires
        are_keys(names, map),
    ensures
        map.contains_key(name) <==> exists|i: int| 0 <= i < names.len() && #[trigger] names[i] == name,
        forall|i: int| 0 <= i < names.len() ==> map.contains_key(#[trigger] names[i]),
        forall|i: int, j: int| 0 <= i < j < names.len() ==> names[i] != names[j],
{
    assert(map.contains_key(name) <==> names.contains(name));
    assert forall|i: int| 0 <= i < names.len() implies map.contains_key(#[trigger] names[i]) by {
        assert(names.contains(names[i]));
    }
}

/// The pairs that are saved are the peers: each stands in one pair, with its hostname, and no pair is
/// of anyone else.
pub proof fn law_each_peer_is_saved_once(
    pairs: Seq<(String, String)>,
    peers: Map<Seq<char>, Seq<char>>,
    peer_id: Seq<char>,
)
    requires
        lists_peers(pairs, peers),
    ensures
        peers.contains_key(peer_id) <==> exists|i: int|
            0 <= i < pairs.len() && (#[trigger] pairs[i]).0@ == peer_id && pairs[i].1@
                == peers[peer_id],
        forall|i: int| 0 <= i < pairs.len() ==> peers.contains_key((#[trigger] pairs[i]).0@),
        forall|i: int, j: int| 0 <= i < j < pairs.len() ==> pairs[i].0@ != pairs[j].0@,
{
    let ids = pairs.map_values(|pair: (String, String)| pair.0@);
    law_each_name_is_one_key(ids, peers, peer_id);
    if peers.contains_key(peer_id) {
        let i = choose|i: int| 0 <= i < ids.len() && #[trigger] ids[i] == peer_id;
        assert(pairs[i].0@ == peer_id && pairs[i].1@ == peers[peer_id]);
    }
    assert forall|i: int| 0 <= i < pairs.len() implies peers.contains_key(
        (#[trigger] pairs[i]).0@,
    ) by {
        assert(peers.contains_key(ids[i]));
    }
    assert forall|i: int, j: int| 0 <= i < j < pairs.len() implies pairs[i].0@ != pairs[j].0@ by {
        assert(ids[i] != ids[j]);
    }
}

} // verus!
