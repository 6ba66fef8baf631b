use fluqsr::device::Identity;
use fluqsr::error::Error;
use fluqsr::tls::{PeerIdentity, SNI_NAME};

#[test]
fn peer_identity_matches_the_presenting_device() {
    let identity = Identity::generate("me").unwrap();
    let bundle = identity.key.certificate(&identity.device_id).unwrap();
    let certs = vec![bundle.cert_der];
    let peer = PeerIdentity::from_certs(Some(&certs)).unwrap();
    assert_eq!(peer.fingerprint, identity.fingerprint());
}

#[test]
fn a_missing_certificate_is_an_error_not_an_absence() {
    assert!(PeerIdentity::from_certs(None).is_err());
    assert!(PeerIdentity::from_certs(Some(&Vec::new())).is_err());
    assert!(matches!(
        PeerIdentity::from_certs(None),
        Err(Error::Certificate(m)) if m == "peer presented no certificate"
    ));
}

#[test]
fn different_devices_produce_different_peer_identities() {
    let a = Identity::generate("a").unwrap();
    let b = Identity::generate("b").unwrap();
    let cert_a = vec![a.key.certificate(&a.device_id).unwrap().cert_der];
    let cert_b = vec![b.key.certificate(&b.device_id).unwrap().cert_der];
    assert_ne!(
        PeerIdentity::from_certs(Some(&cert_a)).unwrap().fingerprint,
        PeerIdentity::from_certs(Some(&cert_b)).unwrap().fingerprint
    );
}

#[test]
fn server_name_is_constructible() {
    assert_eq!(SNI_NAME, "fluqsr.local");
}

#[test]
fn only_the_first_certificate_counts() {
    let a = Identity::generate("a").unwrap();
    let cert = a.key.certificate(&a.device_id).unwrap().cert_der;
    let chain = vec![cert, b"junk".to_vec()];
    assert_eq!(
        PeerIdentity::from_certs(Some(&chain)).unwrap().fingerprint,
        a.fingerprint()
    );
    let bad_first = vec![b"junk".to_vec()];
    assert!(matches!(
        PeerIdentity::from_certs(Some(&bad_first)),
        Err(Error::Certificate(_))
    ));
}
