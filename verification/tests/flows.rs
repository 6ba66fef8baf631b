use fluqsr::crypto::{DeviceKey, Fingerprint};
use fluqsr::error::Error;
use fluqsr::protocol::{
    Accept, AcceptedFile, Control, FileComplete, Frame, Hello, Offer, OfferedFile, Reject,
    TransferComplete, PROTOCOL_VERSION,
};
use fluqsr::transfer::gate::GateDecision;
use fluqsr::transfer::recv::{Inbound, OfferNext, PathFacts, ReceiveStep};
use fluqsr::transfer::send::Outbound;
use fluqsr::transfer::{Direction, FileEntry, OfferDecision, Status, TransferManager};
use fluqsr::trust::TrustStore;

fn hello(device_id: &str, version: u32) -> Control {
    Control::Hello(Hello {
        protocol_version: version,
        device_id: device_id.into(),
        device_name: "Peer".into(),
        platform: "linux".into(),
    })
}

fn fingerprint() -> Fingerprint {
    DeviceKey::generate().unwrap().fingerprint()
}

fn offer() -> Control {
    Control::Offer(Offer {
        transfer_id: "t1".into(),
        total_bytes: 3,
        files: vec![OfferedFile { index: 0, path: "a.txt".into(), size: 3 }],
    })
}

fn root() -> Vec<String> {
    vec!["/".to_string(), "inbox".to_string()]
}

#[test]
fn a_pinned_auto_accept_peer_goes_straight_to_planning() {
    let own = fingerprint();
    let theirs = fingerprint();
    let mut trust = TrustStore::new();
    trust.pair("peer", "Peer", theirs);
    trust.set_auto_accept("peer", true).unwrap();
    let mut manager = TransferManager::new();

    let mut inbound = Inbound::new(theirs);
    assert!(matches!(
        inbound.greet(hello("peer", PROTOCOL_VERSION), &mut trust, &own).unwrap(),
        GateDecision::Proceed(_)
    ));
    assert!(matches!(
        inbound.receive_offer(offer(), "10.0.0.2:1", &mut manager, &trust).unwrap(),
        OfferNext::Proceed { .. }
    ));
    let facts = vec![PathFacts { resolved_parent: Some(root()), partial_len: None }];
    assert_eq!(inbound.offer().files.len(), 1);
    let (planned, failed) = inbound.plan(&root(), &root(), &facts, &mut manager);
    assert!(failed.is_none());
    match planned.unwrap() {
        Control::Accept(accept) => assert_eq!(accept.files.len(), 1),
        other => panic!("expected an accept, got {other:?}"),
    }
    let step = inbound.frame(false, Some(Frame::Data { index: 0, bytes: b"abc".to_vec() }));
    assert!(matches!(step, Ok(ReceiveStep::Write { position: 0, open: true, .. })));
    assert_eq!(inbound.planned(0).final_path, vec!["/", "inbox", "a.txt"]);
    let fin = Some(Frame::Control(Control::FileComplete(FileComplete { index: 0, hash: "h".into() })));
    assert!(matches!(inbound.frame(false, fin), Ok(ReceiveStep::Finish { .. })));
    let done = Some(Frame::Control(Control::TransferComplete(TransferComplete { transfer_id: "t1".into() })));
    assert!(matches!(inbound.frame(false, done), Ok(ReceiveStep::Done)));
}

#[test]
fn an_unapproved_offer_asks_the_user_and_a_decline_rejects() {
    let own = fingerprint();
    let theirs = fingerprint();
    let mut trust = TrustStore::new();
    trust.pair("peer", "Peer", theirs);
    let mut manager = TransferManager::new();

    let mut inbound = Inbound::new(theirs);
    inbound.greet(hello("peer", PROTOCOL_VERSION), &mut trust, &own).unwrap();
    match inbound.receive_offer(offer(), "10.0.0.2:1", &mut manager, &trust).unwrap() {
        OfferNext::Ask { prompt, awaiting, .. } => {
            assert_eq!(prompt.channel(), "transfer://offer");
            assert_eq!(awaiting.unwrap().status, Status::AwaitingApproval);
        }
        other => panic!("expected a prompt, got {other:?}"),
    }
    let declined = OfferDecision::Decline(Some("declined on the other device".into()));
    match inbound.decide(declined, &mut manager) {
        Some((Control::Reject(Reject { transfer_id, reason }), progress)) => {
            assert_eq!(transfer_id, "t1");
            assert_eq!(reason.as_deref(), Some("declined on the other device"));
            assert_eq!(progress.unwrap().status, Status::Declined);
        }
        other => panic!("expected a reject, got {other:?}"),
    }
}

#[test]
fn an_unknown_peer_is_asked_to_pair_and_a_decline_closes() {
    let mut trust = TrustStore::new();
    let mut inbound = Inbound::new(fingerprint());
    match inbound.greet(hello("stranger", PROTOCOL_VERSION), &mut trust, &fingerprint()).unwrap() {
        GateDecision::AskPairing(request) => assert_eq!(request.direction, Direction::Receive),
        other => panic!("expected a pairing prompt, got {other:?}"),
    }
    assert!(matches!(inbound.paired(false, &mut trust), Err(Error::Declined(_))));
    assert!(trust.get("stranger").is_none());
}

#[test]
fn a_version_mismatch_or_a_stray_message_closes_the_connection() {
    let mut trust = TrustStore::new();
    let mut inbound = Inbound::new(fingerprint());
    assert!(inbound
        .greet(hello("x", PROTOCOL_VERSION + 1), &mut trust, &fingerprint())
        .is_err());

    let theirs = fingerprint();
    trust.pair("peer", "Peer", theirs);
    let mut manager = TransferManager::new();
    let mut inbound = Inbound::new(theirs);
    inbound.greet(hello("peer", PROTOCOL_VERSION), &mut trust, &fingerprint()).unwrap();
    assert!(matches!(
        inbound.receive_offer(hello("peer", PROTOCOL_VERSION), "10.0.0.2:1", &mut manager, &trust),
        Err(Error::Protocol(m)) if m == "expected an Offer from 10.0.0.2:1, got Hello"
    ));
    assert!(manager.list().is_empty());
}

#[test]
fn a_send_offers_only_after_authentication_and_streams_what_was_accepted() {
    let own = fingerprint();
    let theirs = fingerprint();
    let mut trust = TrustStore::new();
    trust.pair("peer", "Peer", theirs);
    let files = vec![
        FileEntry { index: 0, source: "/a".into(), relative: "a".into(), size: 2 },
        FileEntry { index: 1, source: "/b".into(), relative: "b".into(), size: 5 },
    ];
    let mut outbound = Outbound::new("t1".into(), files, theirs);
    assert!(matches!(
        outbound.greet(hello("peer", PROTOCOL_VERSION), &mut trust, &own).unwrap(),
        GateDecision::Proceed(_)
    ));
    match outbound.offer(false).unwrap() {
        Control::Offer(o) => {
            assert_eq!(o.total_bytes, 7);
            assert_eq!(o.files.len(), 2);
        }
        other => panic!("expected an offer, got {other:?}"),
    }
    let accept = Control::Accept(Accept {
        transfer_id: "t1".into(),
        files: vec![AcceptedFile { index: 1, resume_offset: 2 }],
    });
    let out = outbound.answer(accept).unwrap();
    assert_eq!(out.len(), 1);
    assert_eq!(outbound.file(out[0].position).relative, "b");
    assert!(matches!(outbound.streamed(), Control::TransferComplete(_)));
    let confirm = Control::TransferComplete(TransferComplete { transfer_id: "t1".into() });
    assert!(outbound.confirm(confirm).is_ok());
}

#[test]
fn a_substituted_key_stops_a_send_before_the_offer() {
    let mut trust = TrustStore::new();
    trust.pair("peer", "Peer", fingerprint());
    let mut outbound = Outbound::new("t1".into(), Vec::new(), fingerprint());
    assert!(matches!(
        outbound.greet(hello("peer", PROTOCOL_VERSION), &mut trust, &fingerprint()).unwrap(),
        GateDecision::Refuse { .. }
    ));
}

#[test]
fn a_rejected_or_cancelled_send_stops() {
    let theirs = fingerprint();
    let mut trust = TrustStore::new();
    trust.pair("peer", "Peer", theirs);
    let mut outbound = Outbound::new("t1".into(), Vec::new(), theirs);
    outbound.greet(hello("peer", PROTOCOL_VERSION), &mut trust, &fingerprint()).unwrap();
    outbound.offer(false).unwrap();
    let reject = Control::Reject(Reject { transfer_id: "t1".into(), reason: Some("no".into()) });
    assert!(matches!(outbound.answer(reject), Err(Error::Declined(Some(r))) if r == "no"));

    let mut outbound = Outbound::new("t2".into(), Vec::new(), theirs);
    outbound.greet(hello("peer", PROTOCOL_VERSION), &mut trust, &fingerprint()).unwrap();
    assert!(matches!(outbound.offer(true), Err(Error::Cancelled)));
}

#[test]
fn a_refused_path_fails_the_transfer_in_the_table() {
    let own = fingerprint();
    let theirs = fingerprint();
    let mut trust = TrustStore::new();
    trust.pair("peer", "Peer", theirs);
    trust.set_auto_accept("peer", true).unwrap();
    let mut manager = TransferManager::new();
    let mut inbound = Inbound::new(theirs);
    inbound.greet(hello("peer", PROTOCOL_VERSION), &mut trust, &own).unwrap();
    let evil = Control::Offer(Offer {
        transfer_id: "t2".into(),
        total_bytes: 1,
        files: vec![OfferedFile { index: 0, path: "../../escaped.txt".into(), size: 1 }],
    });
    inbound.receive_offer(evil, "10.0.0.2:1", &mut manager, &trust).unwrap();
    let facts = vec![PathFacts { resolved_parent: None, partial_len: None }];
    let (planned, failed) = inbound.plan(&root(), &root(), &facts, &mut manager);
    assert!(matches!(planned, Err(Error::UnsafePath(_))));
    assert_eq!(failed.unwrap().status, Status::Failed);
    let listed = manager.list();
    assert_eq!(listed.len(), 1);
    assert_eq!(listed[0].transfer_id, "t2");
    assert_eq!(listed[0].status, Status::Failed);
}

#[test]
fn a_greeting_that_is_not_a_current_hello_closes_the_connection() {
    let mut trust = TrustStore::new();
    let mut inbound = Inbound::new(fingerprint());
    let old = inbound.greet(hello("peer", PROTOCOL_VERSION + 1), &mut trust, &fingerprint());
    assert!(matches!(old, Err(Error::Protocol(_))));
    let mut inbound = Inbound::new(fingerprint());
    let wrong = inbound.greet(offer(), &mut trust, &fingerprint());
    assert!(matches!(wrong, Err(Error::Protocol(_))));
}

#[test]
fn the_consent_prompt_names_the_pinned_peer_and_a_decline_is_recorded() {
    let own = fingerprint();
    let theirs = fingerprint();
    let mut trust = TrustStore::new();
    trust.pair("peer", "Pinned Name", theirs);
    let mut manager = TransferManager::new();
    let mut inbound = Inbound::new(theirs);
    inbound.greet(hello("peer", PROTOCOL_VERSION), &mut trust, &own).unwrap();
    match inbound.receive_offer(offer(), "10.0.0.2:1", &mut manager, &trust).unwrap() {
        OfferNext::Ask { prompt: fluqsr::transfer::TransferEvent::Offer(p), .. } => {
            assert_eq!(p.peer_device_id, "peer");
            assert_eq!(p.peer_name, "Pinned Name");
            assert_eq!(p.peer_fingerprint, theirs.to_hex());
            assert_eq!(p.file_count, 1);
            assert_eq!(p.preview, vec!["a.txt".to_string()]);
        }
        other => panic!("expected an offer prompt, got {other:?}"),
    }
    inbound.decide(OfferDecision::Decline(None), &mut manager);
    let listed = manager.list();
    assert_eq!(listed[0].status, Status::Declined);
}
