use fluqsr::crypto::{DeviceKey, Fingerprint};
use fluqsr::error::Error;
use fluqsr::trust::{TrustStore, TrustVerdict, TrustedPeer};

fn fingerprint() -> Fingerprint {
    DeviceKey::generate().unwrap().fingerprint()
}

#[test]
fn unknown_peers_are_not_trusted() {
    let store = TrustStore::load(Vec::new());
    assert_eq!(store.verify("nobody", &fingerprint()), TrustVerdict::Unknown);
}

#[test]
fn paired_peers_are_trusted() {
    let mut store = TrustStore::new();
    let fp = fingerprint();
    store.pair("laptop", "Athar's Laptop", fp);
    assert!(matches!(store.verify("laptop", &fp), TrustVerdict::Trusted(_)));
}

#[test]
fn a_substituted_key_is_reported_as_a_mismatch() {
    let mut store = TrustStore::new();
    let genuine = fingerprint();
    let attacker = fingerprint();
    store.pair("laptop", "Athar's Laptop", genuine);
    match store.verify("laptop", &attacker) {
        TrustVerdict::Mismatch { expected } => assert_eq!(expected, genuine),
        other => panic!("expected a mismatch, got {other:?}"),
    }
    assert!(!store.is_trusted("laptop", &attacker));
}

#[test]
fn pins_survive_a_restart() {
    let fp = fingerprint();
    let mut store = TrustStore::new();
    store.pair("phone", "Pixel", fp);
    let reloaded = TrustStore::load(store.to_stored());
    assert!(reloaded.is_trusted("phone", &fp));
    assert_eq!(reloaded.list().len(), 1);
}

#[test]
fn forgetting_a_peer_revokes_trust() {
    let mut store = TrustStore::new();
    let fp = fingerprint();
    store.pair("phone", "Pixel", fp);
    store.forget("phone");
    assert_eq!(store.verify("phone", &fp), TrustVerdict::Unknown);
    assert!(TrustStore::load(store.to_stored()).list().is_empty());
}

#[test]
fn auto_accept_is_off_until_explicitly_enabled() {
    let mut store = TrustStore::new();
    let fp = fingerprint();
    store.pair("desk", "Desktop", fp);
    assert!(
        !store.auto_accepts("desk", &fp),
        "pairing alone must not grant silent acceptance"
    );
    store.set_auto_accept("desk", true).unwrap();
    assert!(store.auto_accepts("desk", &fp));
}

#[test]
fn auto_accept_does_not_apply_to_a_substituted_key() {
    let mut store = TrustStore::new();
    let genuine = fingerprint();
    store.pair("desk", "Desktop", genuine);
    store.set_auto_accept("desk", true).unwrap();
    assert!(
        !store.auto_accepts("desk", &fingerprint()),
        "auto-accept must be gated on the pinned key, not the device ID"
    );
}

#[test]
fn renaming_a_peer_keeps_its_pin() {
    let mut store = TrustStore::new();
    let fp = fingerprint();
    store.pair("phone", "Pixel", fp);
    assert!(store.refresh_name("phone", "Pixel 9"));
    assert!(store.is_trusted("phone", &fp));
    assert_eq!(store.get("phone").unwrap().device_name, "Pixel 9");
    assert!(!store.refresh_name("phone", "Pixel 9"));
    assert!(!store.refresh_name("nobody", "Name"));
}

#[test]
fn auto_accept_for_an_unknown_peer_is_an_error() {
    let mut store = TrustStore::new();
    assert!(matches!(
        store.set_auto_accept("ghost", true),
        Err(Error::UnknownPeer(id)) if id == "ghost"
    ));
}

#[test]
fn the_list_is_ordered_by_name_ignoring_case() {
    let mut store = TrustStore::new();
    store.pair("c", "zebra", fingerprint());
    store.pair("a", "Apple", fingerprint());
    store.pair("b", "mango", fingerprint());
    let names: Vec<String> = store.list().into_iter().map(|p| p.device_name).collect();
    assert_eq!(names, vec!["Apple", "mango", "zebra"]);
}

#[test]
fn a_later_stored_entry_replaces_an_earlier_one() {
    let first = fingerprint();
    let second = fingerprint();
    let stored = vec![
        TrustedPeer {
            device_id: "d".into(),
            device_name: "Old".into(),
            fingerprint: first,
            paired_at: 1,
            auto_accept: true,
        },
        TrustedPeer {
            device_id: "d".into(),
            device_name: "New".into(),
            fingerprint: second,
            paired_at: 2,
            auto_accept: false,
        },
    ];
    let store = TrustStore::load(stored);
    assert_eq!(store.list().len(), 1);
    assert!(store.is_trusted("d", &second));
    assert!(!store.is_trusted("d", &first));
    assert_eq!(store.get("d").unwrap().device_name, "New");
}

#[test]
fn pairing_records_the_time_and_the_key() {
    let mut store = TrustStore::new();
    let fp = fingerprint();
    let peer = store.pair("p", "Phone", fp);
    assert_eq!(peer.fingerprint, fp);
    assert!(!peer.auto_accept);
    assert!(peer.paired_at > 1_600_000_000);
}

#[test]
fn pairing_at_a_time_records_it_and_unknown_peers_are_named() {
    let key = DeviceKey::generate().unwrap().fingerprint();
    let mut store = TrustStore::new();
    let peer = store.pair_at("phone", "Pixel", key, 1_700_000_000);
    assert_eq!(peer.paired_at, 1_700_000_000);
    assert!(!peer.auto_accept);
    assert_eq!(store.get("phone").unwrap().paired_at, 1_700_000_000);
    match store.set_auto_accept("ghost", true) {
        Err(Error::UnknownPeer(id)) => assert_eq!(id, "ghost"),
        other => panic!("unexpected {other:?}"),
    }
}
