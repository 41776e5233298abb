//! Discovery, the registry of peers and whom a change is sent to.

use lfsync_core::commands::{get_peers, PeerInfo};
use lfsync_core::discovery::{
    handle_event, host_fqdn, instance_name, DiscoveryEvent, DiscoveryOutcome, ResolvedPeer,
    SERVICE_TYPE,
};
use lfsync_core::name_map::NameMap;
use lfsync_core::peer::{
    next_bind_port, plan_broadcast, undelivered_to, Delivery, PeerHandle, PeerRegistry,
};
use lfsync_core::roster::Roster;

fn resolved(fullname: &str, hostname: &str, peer_id: Option<&str>, addrs: &[&str]) -> DiscoveryEvent {
    DiscoveryEvent::Resolved(ResolvedPeer {
        fullname: fullname.to_string(),
        hostname: hostname.to_string(),
        peer_id: peer_id.map(str::to_string),
        addrs: addrs.iter().map(|addr| addr.to_string()).collect(),
    })
}

#[test]
fn a_registry_keeps_the_latest_of_each_peer() {
    let mut registry = PeerRegistry::default();
    assert!(registry.is_empty());
    assert_eq!(registry.len(), 0);

    registry.upsert("peer-a", "laptop", "10.0.0.1:47821");
    registry.upsert("peer-b", "desktop", "10.0.0.2:47821");
    registry.upsert("peer-a", "laptop-2", "10.0.0.3:1");
    assert_eq!(registry.len(), 2);
    assert!(!registry.is_empty());
    assert!(registry.contains("peer-a"));
    assert!(!registry.contains("peer-c"));

    let mut addrs = registry.addrs();
    addrs.sort();
    assert_eq!(addrs, vec!["10.0.0.2:47821", "10.0.0.3:1"]);

    registry.remove("peer-b");
    registry.remove("peer-c");
    assert_eq!(
        registry.handles(),
        vec![PeerHandle {
            peer_id: "peer-a".to_string(),
            hostname: "laptop-2".to_string(),
            addr: "10.0.0.3:1".to_string(),
        }]
    );
    assert_eq!(
        get_peers(&registry),
        vec![PeerInfo { hostname: "laptop-2".to_string(), addr: "10.0.0.3:1".to_string() }]
    );
}

#[test]
fn a_peer_is_found_and_lost() {
    let mut registry = PeerRegistry::new();
    let mut fullnames: NameMap<String> = NameMap::new();
    let found = resolved("full-a", "laptop.local.", Some("peer-a"), &["10.0.0.1:1", "10.0.0.2:1"]);
    assert_eq!(
        handle_event(found, &mut registry, "me", &mut fullnames),
        DiscoveryOutcome::Discovered {
            peer_id: "peer-a".to_string(),
            hostname: "laptop".to_string(),
            addr: "10.0.0.1:1".to_string(),
        }
    );
    assert!(registry.contains("peer-a"));
    assert_eq!(fullnames.get("full-a"), Some(&"peer-a".to_string()));

    let lost = DiscoveryEvent::Removed { fullname: "full-a".to_string() };
    assert_eq!(
        handle_event(lost, &mut registry, "me", &mut fullnames),
        DiscoveryOutcome::WentOffline { peer_id: "peer-a".to_string() }
    );
    assert!(registry.is_empty());
    assert!(fullnames.is_empty());
}

#[test]
fn announcements_that_are_no_peers_are_ignored() {
    let mut registry = PeerRegistry::new();
    let mut fullnames: NameMap<String> = NameMap::new();
    for (event, outcome) in [
        (resolved("f", "h.local.", None, &["10.0.0.1:1"]), DiscoveryOutcome::WithoutPeerId),
        (resolved("f", "h.local.", Some("me"), &["10.0.0.1:1"]), DiscoveryOutcome::OwnAnnouncement),
        (resolved("f", "h.local.", Some("me"), &[]), DiscoveryOutcome::OwnAnnouncement),
        (
            resolved("f", "h.local.", Some("peer-a"), &[]),
            DiscoveryOutcome::WithoutAddress { peer_id: "peer-a".to_string() },
        ),
        (DiscoveryEvent::Removed { fullname: "f".to_string() }, DiscoveryOutcome::Ignored),
        (DiscoveryEvent::Other, DiscoveryOutcome::Ignored),
    ] {
        assert_eq!(handle_event(event, &mut registry, "me", &mut fullnames), outcome);
    }
    assert!(registry.is_empty());
    assert!(fullnames.is_empty());
}

#[test]
fn the_domain_is_not_shown() {
    let mut registry = PeerRegistry::new();
    let mut fullnames: NameMap<String> = NameMap::new();
    for (advertised, shown) in [
        ("laptop.local.", "laptop"),
        ("laptop.local.local.", "laptop.local"),
        ("laptop.local..local.", "laptop"),
        ("laptop", "laptop"),
        (".local.", ""),
    ] {
        handle_event(
            resolved("f", advertised, Some("peer-a"), &["10.0.0.1:1"]),
            &mut registry,
            "me",
            &mut fullnames,
        );
        assert_eq!(registry.handles()[0].hostname, shown);
    }
}

#[test]
fn an_agent_is_advertised_by_its_name_and_id() {
    assert_eq!(SERVICE_TYPE, "_lfsync._tcp.local.");
    assert_eq!(instance_name("laptop", "peer-1"), "laptop-peer-1");
    assert_eq!(host_fqdn("laptop"), "laptop.local.");
}

#[test]
fn a_change_is_sent_to_who_is_online_and_kept_for_the_others() {
    let mut registry = PeerRegistry::new();
    let mut roster = Roster::load(None);
    registry.upsert("peer-a", "laptop", "10.0.0.1:1");
    registry.upsert("peer-new", "tablet", "10.0.0.2:1");
    roster.remember("peer-a", "laptop");
    roster.remember("peer-b", "desktop");

    let deliveries = plan_broadcast(&registry, &roster);
    assert_eq!(deliveries.len(), 3);
    let send = |peer_id: &str, addr: &str| Delivery::Send {
        peer_id: peer_id.to_string(),
        addr: addr.to_string(),
    };
    assert!(deliveries.contains(&send("peer-a", "10.0.0.1:1")));
    assert!(deliveries.contains(&send("peer-new", "10.0.0.2:1")));
    assert!(deliveries.contains(&Delivery::Keep { peer_id: "peer-b".to_string() }));
    assert!(plan_broadcast(&PeerRegistry::new(), &Roster::load(None)).is_empty());
}

#[test]
fn a_taken_port_is_replaced_by_any_free_one() {
    assert_eq!(next_bind_port(None), Some(47821));
    assert_eq!(next_bind_port(Some(47821)), Some(0));
    assert_eq!(next_bind_port(Some(0)), None);
}

#[test]
fn a_change_is_kept_for_whom_it_did_not_reach() {
    let send = || Delivery::Send { peer_id: "a".to_string(), addr: "10.0.0.1:1".to_string() };
    assert_eq!(undelivered_to(send(), true), None);
    assert_eq!(undelivered_to(send(), false), Some("a".to_string()));
    let keep = Delivery::Keep { peer_id: "b".to_string() };
    assert_eq!(undelivered_to(keep, false), Some("b".to_string()));
}
