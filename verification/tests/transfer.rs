use fluqsr::error::Error;
use fluqsr::transfer::{
    bytes_per_second, due_for_update, Direction, IncomingOffer, OfferDecision, PairingRequest,
    PromptOutcome, Status, TransferEvent, TransferManager,
};

fn offer(id: &str) -> IncomingOffer {
    IncomingOffer {
        transfer_id: id.into(),
        peer_device_id: "peer".into(),
        peer_name: "Laptop".into(),
        peer_fingerprint: "ab".repeat(32),
        file_count: 1,
        total_bytes: 10,
        preview: vec!["a.txt".into()],
    }
}

fn pairing(id: &str) -> PairingRequest {
    PairingRequest {
        request_id: id.into(),
        peer_device_id: "peer".into(),
        peer_name: "Laptop".into(),
        peer_fingerprint: "ab".repeat(32),
        pairing_code: "123456".into(),
        direction: Direction::Receive,
    }
}

#[test]
fn registering_a_transfer_makes_it_listable() {
    let mut manager = TransferManager::new();
    manager.register("t1", Direction::Send, "peer", "Laptop", 2, 100);
    let list = manager.list();
    assert_eq!(list.len(), 1);
    assert_eq!(list[0].status, Status::Connecting);
    assert_eq!(list[0].total_bytes, 100);
}

#[test]
fn progress_accumulates() {
    let mut manager = TransferManager::new();
    manager.register("t1", Direction::Send, "peer", "Laptop", 1, 100);
    manager.advance("t1", 40);
    manager.advance("t1", 35);
    assert_eq!(manager.list()[0].transferred_bytes, 75);
}

#[test]
fn completion_snaps_the_counter_to_the_total() {
    let mut manager = TransferManager::new();
    manager.register("t1", Direction::Send, "peer", "Laptop", 1, 100);
    manager.advance("t1", 99);
    manager.complete("t1");
    let progress = &manager.list()[0];
    assert_eq!(progress.status, Status::Completed);
    assert_eq!(
        progress.transferred_bytes, progress.total_bytes,
        "a finished transfer must not display as stuck at 99%"
    );
}

#[test]
fn cancelling_sets_the_flag_and_the_status() {
    let mut manager = TransferManager::new();
    manager.register("t1", Direction::Send, "peer", "Laptop", 1, 100);
    manager.cancel("t1").unwrap();
    assert!(manager.is_cancelled("t1"));
    assert_eq!(manager.list()[0].status, Status::Cancelled);
}

#[test]
fn cancelling_an_unknown_transfer_errors() {
    assert!(TransferManager::new().cancel("nope").is_err());
}

#[test]
fn failures_carry_their_reason() {
    let mut manager = TransferManager::new();
    manager.register("t1", Direction::Receive, "peer", "Laptop", 1, 100);
    manager.fail("t1", "connection reset");
    let progress = &manager.list()[0];
    assert_eq!(progress.status, Status::Failed);
    assert_eq!(progress.error.as_deref(), Some("connection reset"));
}

#[test]
fn clearing_keeps_only_live_transfers() {
    let mut manager = TransferManager::new();
    manager.register("done", Direction::Send, "p", "L", 1, 10);
    manager.register("live", Direction::Send, "p", "L", 1, 10);
    manager.complete("done");
    manager.clear_finished();
    let list = manager.list();
    assert_eq!(list.len(), 1);
    assert_eq!(list[0].transfer_id, "live");
}

#[test]
fn an_offer_resolves_with_the_users_answer() {
    let mut manager = TransferManager::new();
    let event = manager.open_offer(offer("t1"));
    assert_eq!(event.channel(), "transfer://offer");
    let decision = manager.resolve_offer("t1", OfferDecision::Accept).unwrap();
    assert!(matches!(decision, OfferDecision::Accept));
    assert!(matches!(
        manager.close_offer("t1", PromptOutcome::Answered(decision)),
        OfferDecision::Accept
    ));
    assert!(matches!(
        manager.resolve_offer("t1", OfferDecision::Accept),
        Err(Error::UnknownTransfer(_))
    ));
}

#[test]
fn cancelling_while_awaiting_approval_declines_the_offer() {
    let mut manager = TransferManager::new();
    manager.register("t1", Direction::Receive, "peer", "Laptop", 1, 10);
    manager.open_offer(offer("t1"));
    let (_, decline) = manager.cancel("t1").unwrap();
    assert!(
        matches!(decline, Some(OfferDecision::Decline(Some(ref reason))) if reason == "cancelled"),
        "a cancel must unblock the prompt rather than leave it hanging"
    );
    assert!(manager.resolve_offer("t1", OfferDecision::Accept).is_err());
}

#[test]
fn pairing_resolves_with_the_users_answer() {
    let mut manager = TransferManager::new();
    let event = manager.open_pairing(pairing("p1"));
    assert_eq!(event.channel(), "transfer://pairing");
    let answer = manager.resolve_pairing("p1", true).unwrap();
    assert!(manager.close_pairing("p1", PromptOutcome::Answered(answer)));
}

#[test]
fn an_unanswered_prompt_defaults_to_no() {
    let mut manager = TransferManager::new();
    manager.open_offer(offer("t1"));
    match manager.close_offer("t1", PromptOutcome::TimedOut) {
        OfferDecision::Decline(Some(reason)) => {
            assert_eq!(reason, "timed out waiting for a response")
        }
        other => panic!("expected a decline, got {other:?}"),
    }
    assert!(manager.resolve_offer("t1", OfferDecision::Accept).is_err());
    match manager.close_offer("t2", PromptOutcome::Dropped) {
        OfferDecision::Decline(Some(reason)) => assert_eq!(reason, "no response"),
        other => panic!("expected a decline, got {other:?}"),
    }

    manager.open_pairing(pairing("p1"));
    assert!(!manager.close_pairing("p1", PromptOutcome::TimedOut));
    assert!(!manager.close_pairing("p2", PromptOutcome::Dropped));
    assert!(matches!(
        manager.resolve_pairing("p1", true),
        Err(Error::Other(m)) if m == "no pairing in progress for p1"
    ));
}

#[test]
fn status_changes_report_the_new_status() {
    let mut manager = TransferManager::new();
    manager.register("t1", Direction::Receive, "peer", "Laptop", 3, 30);
    let p = manager.set_status("t1", Status::AwaitingApproval).unwrap();
    assert_eq!(p.status, Status::AwaitingApproval);
    let p = manager.begin_file("t1", "a.txt").unwrap();
    assert_eq!(p.status, Status::Active);
    assert_eq!(p.current_file.as_deref(), Some("a.txt"));
    let p = manager.finish_file("t1").unwrap();
    assert_eq!(p.files_completed, 1);
    assert!(manager.set_status("unknown", Status::Active).is_none());
    assert!(!manager.is_cancelled("t1"));
    assert!(!manager.is_cancelled("unknown"));
}

#[test]
fn terminal_statuses_are_the_finished_ones() {
    assert!(Status::Completed.is_terminal());
    assert!(Status::Declined.is_terminal());
    assert!(Status::Cancelled.is_terminal());
    assert!(Status::Failed.is_terminal());
    assert!(!Status::Connecting.is_terminal());
    assert!(!Status::AwaitingApproval.is_terminal());
    assert!(!Status::Active.is_terminal());
}

#[test]
fn events_map_to_their_channels() {
    let mut manager = TransferManager::new();
    let progress = manager.register("t1", Direction::Send, "p", "L", 1, 1);
    assert_eq!(TransferEvent::Progress(progress).channel(), "transfer://progress");
    let warning = fluqsr::transfer::IdentityWarning {
        peer_device_id: "p".into(),
        peer_name: "L".into(),
        expected_fingerprint: "a".into(),
        presented_fingerprint: "b".into(),
    };
    assert_eq!(
        manager.warn_identity_mismatch(warning).channel(),
        "security://identity-mismatch"
    );
}

#[test]
fn the_rate_is_bytes_over_elapsed_time() {
    assert_eq!(bytes_per_second(1000, 2, 0), 500);
    assert_eq!(bytes_per_second(1000, 0, 50_000), 0);
    assert_eq!(bytes_per_second(1000, 0, 500_000), 2000);
    assert_eq!(bytes_per_second(u64::MAX, 0, 50_001), u64::MAX);
}

#[test]
fn updates_are_throttled_to_ten_a_second() {
    assert!(!due_for_update(0, 99_999));
    assert!(due_for_update(0, 100_000));
    assert!(due_for_update(1, 0));
}

#[test]
fn re_registering_replaces_the_old_entry() {
    let mut manager = TransferManager::new();
    manager.register("t1", Direction::Send, "p", "L", 1, 10);
    manager.complete("t1");
    manager.register("t1", Direction::Receive, "p", "L", 2, 20);
    let list = manager.list();
    assert_eq!(list.len(), 1);
    assert_eq!(list[0].status, Status::Connecting);
    assert_eq!(list[0].total_bytes, 20);
}

use fluqsr::transfer::{collect_files, count_files, ContentHash, Listing, MAX_WALK_DEPTH};

fn file(name: &str, size: u64) -> Listing {
    Listing::File { name: Some(name.into()), source: format!("/src/{name}"), size }
}

fn dir(name: &str, children: Vec<Listing>) -> Listing {
    Listing::Dir { name: Some(name.into()), children }
}

#[test]
fn collects_a_single_file() {
    let entries = collect_files(&vec![file("notes.txt", 5)]);
    assert_eq!(entries.len(), 1);
    assert_eq!(entries[0].relative, "notes.txt");
    assert_eq!(entries[0].size, 5);
    assert_eq!(entries[0].source, "/src/notes.txt");
}

#[test]
fn collects_a_folder_and_keeps_its_structure() {
    let project = dir(
        "project",
        vec![file("README.md", 6), dir("src", vec![file("main.rs", 12)])],
    );
    let entries = collect_files(&vec![project]);
    let mut paths: Vec<_> = entries.iter().map(|e| e.relative.clone()).collect();
    paths.sort();
    assert_eq!(paths, vec!["project/README.md", "project/src/main.rs"]);
}

#[test]
fn file_indices_are_unique_and_sequential() {
    let many = dir("many", (0..5).map(|n| file(&format!("{n}.txt"), 1)).collect());
    let entries = collect_files(&vec![many]);
    let indices: Vec<_> = entries.iter().map(|e| e.index).collect();
    assert_eq!(indices, vec![0, 1, 2, 3, 4]);
}

#[test]
fn empty_files_are_included() {
    let entries = collect_files(&vec![file("empty.bin", 0)]);
    assert_eq!(entries.len(), 1);
    assert_eq!(entries[0].size, 0);
}

#[test]
fn symlinks_are_not_followed() {
    let shared = dir("shared", vec![Listing::Other, file("ok.txt", 4)]);
    let entries = collect_files(&vec![shared, Listing::Other]);
    let paths: Vec<_> = entries.iter().map(|e| e.relative.clone()).collect();
    assert_eq!(paths, vec!["shared/ok.txt"]);
}

#[test]
fn nameless_selections_get_generic_names() {
    let entries = collect_files(&vec![
        Listing::File { name: None, source: "/".into(), size: 1 },
        Listing::Dir { name: None, children: vec![file("x", 1)] },
    ]);
    let paths: Vec<_> = entries.iter().map(|e| e.relative.clone()).collect();
    assert_eq!(paths, vec!["file", "folder/x"]);
}

#[test]
fn folders_deeper_than_the_limit_are_not_walked() {
    let mut tree = file("deep.txt", 1);
    for level in 0..=MAX_WALK_DEPTH {
        tree = dir(&format!("d{level}"), vec![tree]);
    }
    // The innermost folder sits one level beyond the limit.
    assert!(collect_files(&vec![tree]).is_empty());

    let mut shallow = file("deep.txt", 1);
    for level in 0..MAX_WALK_DEPTH {
        shallow = dir(&format!("d{level}"), vec![shallow]);
    }
    assert_eq!(collect_files(&vec![shallow]).len(), 1);
}

#[test]
fn a_content_hash_is_the_blake3_hex_of_everything_taken_in() {
    let mut whole = ContentHash::new();
    whole.update(b"first-half-second-half");
    let expected = blake3::hash(b"first-half-second-half").to_hex().to_string();
    assert_eq!(whole.hex(), expected);

    let mut pieces = ContentHash::new();
    pieces.update(b"first-half-");
    pieces.update(b"second-half");
    assert_eq!(pieces.hex(), expected);

    let empty = ContentHash::new();
    assert_eq!(empty.hex(), blake3::hash(b"").to_hex().to_string());
    assert_ne!(empty.hex(), expected);
    assert_eq!(expected.len(), 64);
}

#[test]
fn counting_a_selection_agrees_with_expanding_it() {
    let selection = vec![
        file("a.txt", 1),
        Listing::Other,
        dir("docs", vec![file("b.md", 2), Listing::Other, dir("img", vec![file("c.png", 3)])]),
        dir("empty", vec![]),
    ];
    assert_eq!(count_files(&selection), 3);
    assert_eq!(collect_files(&selection).len(), 3);
    assert_eq!(count_files(&vec![]), 0);

    let mut tree = file("deep.txt", 1);
    for depth in 0..=MAX_WALK_DEPTH {
        tree = dir(&format!("d{depth}"), vec![tree, file("here.txt", 1)]);
    }
    let selection = vec![tree];
    assert_eq!(count_files(&selection) as usize, collect_files(&selection).len());
}
