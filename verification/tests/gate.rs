use fluqsr::crypto::{pairing_code, DeviceKey, Fingerprint};
use fluqsr::device::Identity;
use fluqsr::error::Error;
use fluqsr::protocol::{Hello, PROTOCOL_VERSION};
use fluqsr::transfer::gate::{check, finish_pairing, GateDecision};
use fluqsr::transfer::Direction;
use fluqsr::trust::TrustStore;

fn hello(device_id: &str) -> Hello {
    Hello {
        protocol_version: PROTOCOL_VERSION,
        device_id: device_id.into(),
        device_name: "Peer Laptop".into(),
        platform: "linux".into(),
    }
}

fn fingerprint() -> Fingerprint {
    DeviceKey::generate().unwrap().fingerprint()
}

#[test]
fn a_pinned_peer_passes_without_prompting() {
    let mut trust = TrustStore::new();
    let own = fingerprint();
    let peer_fp = fingerprint();
    trust.pair("peer", "Peer Laptop", peer_fp);
    let result = check(&mut trust, &own, &peer_fp, &hello("peer"), Direction::Receive);
    assert!(
        matches!(result, GateDecision::Proceed(_)),
        "a pinned peer must not require re-approval"
    );
}

#[test]
fn a_substituted_key_is_refused_outright() {
    let mut trust = TrustStore::new();
    let own = fingerprint();
    let genuine = fingerprint();
    let attacker = fingerprint();
    trust.pair("peer", "Peer Laptop", genuine);

    let result = check(&mut trust, &own, &attacker, &hello("peer"), Direction::Receive);
    match result {
        GateDecision::Refuse { warning, error } => {
            assert!(matches!(error, Error::IdentityMismatch { .. }));
            assert_eq!(warning.expected_fingerprint, genuine.to_hex());
            assert_eq!(warning.presented_fingerprint, attacker.to_hex());
        }
        other => panic!("expected a refusal, got {other:?}"),
    }
    assert_eq!(
        trust.get("peer").unwrap().fingerprint,
        genuine,
        "a refused connection must not overwrite the pin"
    );
}

#[test]
fn an_unknown_peer_is_pinned_once_confirmed() {
    let mut trust = TrustStore::new();
    let own = fingerprint();
    let peer_fp = fingerprint();
    let request = match check(&mut trust, &own, &peer_fp, &hello("peer"), Direction::Receive) {
        GateDecision::AskPairing(request) => request,
        other => panic!("expected a pairing prompt, got {other:?}"),
    };
    assert_eq!(request.pairing_code, pairing_code(&own, &peer_fp));
    assert_eq!(request.peer_fingerprint, peer_fp.to_hex());
    assert_eq!(request.request_id.len(), 36);
    assert_eq!(request.direction, Direction::Receive);

    assert!(finish_pairing(&mut trust, &hello("peer"), peer_fp, true).is_ok());
    assert!(trust.is_trusted("peer", &peer_fp));
}

#[test]
fn a_declined_pairing_pins_nothing() {
    let mut trust = TrustStore::new();
    let peer_fp = fingerprint();
    let result = finish_pairing(&mut trust, &hello("peer"), peer_fp, false);
    assert!(matches!(result, Err(Error::Declined(_))));
    assert!(
        trust.get("peer").is_none(),
        "declining must leave the trust store untouched"
    );
}

#[test]
fn both_sides_of_a_pairing_see_the_same_code() {
    let a = Identity::generate("a").unwrap();
    let b = Identity::generate("b").unwrap();
    assert_eq!(
        pairing_code(&a.fingerprint(), &b.fingerprint()),
        pairing_code(&b.fingerprint(), &a.fingerprint())
    );
}

#[test]
fn a_pinned_peer_that_renamed_itself_is_followed() {
    let mut trust = TrustStore::new();
    let own = fingerprint();
    let fp = fingerprint();
    trust.pair("peer", "Old Name", fp);
    match check(&mut trust, &own, &fp, &hello("peer"), Direction::Send) {
        GateDecision::Proceed(peer) => assert_eq!(peer.device_name, "Old Name"),
        other => panic!("expected to proceed, got {other:?}"),
    }
    assert_eq!(trust.get("peer").unwrap().device_name, "Peer Laptop");
}

#[test]
fn the_mismatch_error_names_both_keys_in_short_form() {
    let mut trust = TrustStore::new();
    let genuine = fingerprint();
    let attacker = fingerprint();
    trust.pair("peer", "P", genuine);
    match check(&mut trust, &fingerprint(), &attacker, &hello("peer"), Direction::Receive) {
        GateDecision::Refuse { error: Error::IdentityMismatch { device_id, expected, actual }, .. } => {
            assert_eq!(device_id, "peer");
            assert_eq!(expected, genuine.to_short());
            assert_eq!(actual, attacker.to_short());
        }
        other => panic!("expected a mismatch, got {other:?}"),
    }
}
