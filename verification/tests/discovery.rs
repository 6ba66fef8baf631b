use fluqsr::discovery::beacon::{clean_label, handle_announcement};
use fluqsr::discovery::mdns::{device_id_from_fullname, sanitize_instance_name, to_peer};
use fluqsr::discovery::{
    is_multicast_v4, Announcement, AnnouncementKind, DiscoveredPeer, DiscoverySource, IpAddress,
    PeerRegistry, DEFAULT_TRANSFER_PORT, MDNS_SERVICE_TYPE, MULTICAST_GROUP,
};

fn peer(id: &str, name: &str) -> DiscoveredPeer {
    DiscoveredPeer {
        device_id: id.into(),
        device_name: name.into(),
        platform: "linux".into(),
        address: IpAddress::V4([192, 168, 1, 20]),
        port: DEFAULT_TRANSFER_PORT,
        source: DiscoverySource::Beacon,
        last_seen_secs: 0,
        fingerprint_hint: None,
    }
}

fn announcement(id: &str, name: &str, kind: AnnouncementKind) -> Announcement {
    Announcement {
        v: 1,
        kind,
        device_id: id.into(),
        device_name: name.into(),
        platform: "windows".into(),
        port: DEFAULT_TRANSFER_PORT,
        fingerprint_hint: None,
    }
}

#[test]
fn labels_are_bounded_and_stripped() {
    assert_eq!(clean_label("Laptop", "fallback"), "Laptop");
    assert_eq!(clean_label("  spaced  ", "fallback"), "spaced");
    assert_eq!(clean_label("", "fallback"), "fallback");
    assert_eq!(clean_label("   ", "fallback"), "fallback");
}

#[test]
fn labels_drop_control_characters() {
    let cleaned = clean_label("Lap\u{1b}top\u{7}", "fallback");
    assert_eq!(cleaned, "Laptop");
    assert!(!cleaned.chars().any(|c| c.is_control()));
}

#[test]
fn labels_cannot_smuggle_newlines_or_nulls() {
    let cleaned = clean_label("Laptop\n\r\0evil", "fallback");
    assert_eq!(cleaned, "Laptopevil");
}

#[test]
fn absurdly_long_labels_are_truncated() {
    let cleaned = clean_label(&"a".repeat(10_000), "fallback");
    assert_eq!(cleaned.chars().count(), 64);
}

#[test]
fn instance_names_are_dns_safe() {
    let name = sanitize_instance_name("3f2a-9c11-BEEF");
    assert!(name.starts_with("fluqsr-"));
    assert!(name.chars().all(|ch| ch.is_ascii_alphanumeric() || ch == '-'));
}

#[test]
fn instance_names_strip_hostile_characters() {
    let name = sanitize_instance_name("../../evil name.local");
    assert!(!name.contains('.'));
    assert!(!name.contains('/'));
    assert!(!name.contains(' '));
}

#[test]
fn an_empty_device_id_still_yields_a_usable_name() {
    let name = sanitize_instance_name("");
    assert!(name.starts_with("fluqsr-"));
    assert!(name.len() > "fluqsr-".len());
}

#[test]
fn instance_names_are_bounded() {
    assert!(sanitize_instance_name(&"a".repeat(500)).len() <= 48 + "fluqsr-".len());
}

#[test]
fn device_id_round_trips_through_the_fullname() {
    let device_id = "3f2a9c11";
    let instance = sanitize_instance_name(device_id);
    let fullname = format!("{instance}.{MDNS_SERVICE_TYPE}");
    assert_eq!(device_id_from_fullname(&fullname).as_deref(), Some(device_id));
}

#[test]
fn a_foreign_fullname_yields_nothing() {
    assert!(device_id_from_fullname("someoneelse._http._tcp.local.").is_none());
    assert!(device_id_from_fullname("fluqsr-._fluqsr._tcp.local.").is_none());
}

#[test]
fn records_a_new_peer() {
    let mut registry = PeerRegistry::new("me".into());
    assert!(registry.observe(peer("them", "Laptop")));
    assert_eq!(registry.snapshot().len(), 1);
}

#[test]
fn ignores_our_own_announcements() {
    let mut registry = PeerRegistry::new("me".into());
    assert!(!registry.observe(peer("me", "This Device")));
    assert!(registry.snapshot().is_empty());
}

#[test]
fn repeat_sightings_do_not_duplicate() {
    let mut registry = PeerRegistry::new("me".into());
    assert!(registry.observe(peer("them", "Laptop")));
    assert!(!registry.observe(peer("them", "Laptop")));
    assert_eq!(registry.snapshot().len(), 1);
}

#[test]
fn a_peer_found_by_both_transports_appears_once() {
    let mut registry = PeerRegistry::new("me".into());
    registry.observe(peer("them", "Laptop"));
    let mut via_mdns = peer("them", "Laptop");
    via_mdns.source = DiscoverySource::Mdns;
    registry.observe(via_mdns);
    assert_eq!(
        registry.snapshot().len(),
        1,
        "the same device seen twice must merge, not double up"
    );
}

#[test]
fn a_renamed_peer_updates_in_place() {
    let mut registry = PeerRegistry::new("me".into());
    registry.observe(peer("them", "Laptop"));
    registry.observe(peer("them", "Athar's Laptop"));
    let list = registry.snapshot();
    assert_eq!(list.len(), 1);
    assert_eq!(list[0].device_name, "Athar's Laptop");
}

#[test]
fn peers_sort_by_name() {
    let mut registry = PeerRegistry::new("me".into());
    registry.observe(peer("c", "Zebra"));
    registry.observe(peer("a", "apple"));
    registry.observe(peer("b", "Mango"));
    let names: Vec<_> = registry.snapshot().into_iter().map(|p| p.device_name).collect();
    assert_eq!(names, vec!["apple", "Mango", "Zebra"]);
}

#[test]
fn forgetting_removes_a_peer() {
    let mut registry = PeerRegistry::new("me".into());
    registry.observe(peer("them", "Laptop"));
    registry.forget("them");
    assert!(registry.snapshot().is_empty());
}

#[test]
fn fresh_peers_survive_eviction() {
    let mut registry = PeerRegistry::new("me".into());
    registry.observe(peer("them", "Laptop"));
    registry.evict_stale();
    assert_eq!(registry.snapshot().len(), 1);
}

#[test]
fn the_multicast_group_stays_link_local() {
    assert_eq!(MULTICAST_GROUP[0], 239);
    assert!(is_multicast_v4(MULTICAST_GROUP));
}

#[test]
fn only_class_d_addresses_are_multicast() {
    assert!(is_multicast_v4([224, 0, 0, 1]));
    assert!(!is_multicast_v4([192, 168, 1, 1]));
    assert!(!is_multicast_v4([240, 0, 0, 1]));
}

#[test]
fn stale_peers_are_dropped_by_age() {
    let mut registry = PeerRegistry::new("me".into());
    registry.observe(peer("old", "Old"));
    registry.observe(peer("new", "New"));
    // Ages in the order the registry keeps its entries: by first sighting.
    assert!(registry.retain_fresh(&vec![16, 2]));
    let list = registry.snapshot();
    assert_eq!(list.len(), 1);
    assert_eq!(list[0].device_id, "new");
    assert!(!registry.retain_fresh(&vec![14]));
    assert!(registry.retain_fresh(&vec![15]));
    assert!(registry.snapshot().is_empty());
}

#[test]
fn a_snapshot_reports_the_given_ages() {
    let mut registry = PeerRegistry::new("me".into());
    registry.observe(peer("b", "beta"));
    registry.observe(peer("a", "Alpha"));
    let list = registry.snapshot_at(&vec![7, 3]);
    assert_eq!(list[0].device_id, "a");
    assert_eq!(list[0].last_seen_secs, 3);
    assert_eq!(list[1].last_seen_secs, 7);
}

#[test]
fn a_first_announcement_gets_one_reply() {
    let mut registry = PeerRegistry::new("me".into());
    let ours = announcement("me", "Mine", AnnouncementKind::Announce);
    let source = IpAddress::V4([10, 0, 0, 5]);

    let reply = handle_announcement(
        &mut registry,
        &ours,
        announcement("them", " Their\u{7}s ", AnnouncementKind::Announce),
        source,
    )
    .expect("a new peer is answered");
    assert_eq!(reply.kind, AnnouncementKind::Reply);
    assert_eq!(reply.device_id, "me");

    let recorded = registry.get("them").unwrap();
    assert_eq!(recorded.device_name, "Theirs");
    assert_eq!(recorded.address, source);

    assert!(handle_announcement(
        &mut registry,
        &ours,
        announcement("them", "Theirs", AnnouncementKind::Announce),
        source
    )
    .is_none());
    assert!(handle_announcement(
        &mut registry,
        &ours,
        announcement("other", "Other", AnnouncementKind::Reply),
        source
    )
    .is_none());
    assert_eq!(registry.snapshot().len(), 2);
}

#[test]
fn a_goodbye_drops_the_peer_and_our_own_echo_is_ignored() {
    let mut registry = PeerRegistry::new("me".into());
    let ours = announcement("me", "Mine", AnnouncementKind::Announce);
    let source = IpAddress::V4([10, 0, 0, 5]);
    handle_announcement(&mut registry, &ours, announcement("them", "T", AnnouncementKind::Announce), source);
    assert!(handle_announcement(&mut registry, &ours, ours.clone(), source).is_none());
    assert!(registry.get("me").is_none());
    handle_announcement(&mut registry, &ours, announcement("them", "T", AnnouncementKind::Goodbye), source);
    assert!(registry.get("them").is_none());
}

#[test]
fn a_resolved_service_prefers_ipv4_and_its_txt_id() {
    let v6 = IpAddress::V6([0xfe80, 0, 0, 0, 0, 0, 0, 1]);
    let v4 = IpAddress::V4([192, 168, 0, 9]);
    let found = to_peer(
        Some("peer-id"),
        Some("  "),
        Some("linux!"),
        "fluqsr-other._fluqsr._tcp.local.",
        &vec![v6, v4],
        4000,
        "me",
    )
    .unwrap();
    assert_eq!(found.device_id, "peer-id");
    assert_eq!(found.device_name, "Unknown device");
    assert_eq!(found.platform, "linux");
    assert_eq!(found.address, v4);
    assert_eq!(found.port, 4000);
    assert_eq!(found.source, DiscoverySource::Mdns);
}

#[test]
fn a_resolved_service_of_our_own_or_without_address_is_dropped() {
    let v4 = IpAddress::V4([192, 168, 0, 9]);
    assert!(to_peer(Some("me"), None, None, "x", &vec![v4], 1, "me").is_none());
    assert!(to_peer(Some("them"), None, None, "x", &vec![], 1, "me").is_none());
    let from_name = to_peer(None, None, None, "fluqsr-abc._fluqsr._tcp.local.", &vec![v4], 1, "me")
        .unwrap();
    assert_eq!(from_name.device_id, "abc");
    assert_eq!(from_name.platform, "unknown");
}

#[test]
fn a_second_transport_does_not_churn_the_source() {
    let mut registry = PeerRegistry::new("me".into());
    assert!(registry.observe(peer("them", "Laptop")));
    let mut via_mdns = peer("them", "Laptop (mDNS)");
    via_mdns.source = DiscoverySource::Mdns;
    via_mdns.port = 1;
    assert!(!registry.observe(via_mdns));
    assert_eq!(registry.snapshot().len(), 1);
    let kept = registry.get("them").unwrap();
    assert_eq!(kept.source, DiscoverySource::Beacon);
    assert_eq!(kept.port, DEFAULT_TRANSFER_PORT);
    assert_eq!(kept.device_name, "Laptop (mDNS)");
}

#[test]
fn a_long_device_id_round_trips_through_the_fullname() {
    let id = format!("{}-{}", "a1".repeat(20), "b2c3d4e");
    assert_eq!(id.len(), 48);
    let fullname = format!("{}.{}", sanitize_instance_name(&id), MDNS_SERVICE_TYPE);
    assert_eq!(device_id_from_fullname(&fullname), Some(id));
}
