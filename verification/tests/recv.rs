use fluqsr::crypto::Fingerprint;
use fluqsr::error::Error;
use fluqsr::protocol::{Cancel, Control, FileComplete, Frame, Offer, OfferedFile, TransferComplete};
use fluqsr::transfer::recv::{
    accept_for, build_plan, check_integrity, incoming_offer, preview, settle_receive, PathFacts,
    PlannedFile, ReceiveSession, ReceiveStep, SIZE_OVERRUN_ALLOWANCE,
};
use fluqsr::transfer::{Direction, Status, TransferManager};

fn offer(paths: &[(&str, u64)]) -> Offer {
    Offer {
        transfer_id: "t1".into(),
        total_bytes: paths.iter().map(|(_, size)| size).sum(),
        files: paths
            .iter()
            .enumerate()
            .map(|(index, (path, size))| OfferedFile {
                index: index as u32,
                path: (*path).to_string(),
                size: *size,
            })
            .collect(),
    }
}

fn root() -> Vec<String> {
    vec!["/".to_string(), "inbox".to_string()]
}

/// What the filesystem says of a fresh, empty receive folder.
fn fresh(n: usize) -> Vec<PathFacts> {
    (0..n)
        .map(|_| PathFacts { resolved_parent: Some(root()), partial_len: None })
        .collect()
}

fn plan_for(paths: &[(&str, u64)]) -> Vec<PlannedFile> {
    build_plan(&offer(paths), &root(), &root(), &fresh(paths.len())).unwrap()
}

fn data(index: u32, bytes: &[u8]) -> Option<Frame> {
    Some(Frame::Data { index, bytes: bytes.to_vec() })
}

fn complete(index: u32) -> Option<Frame> {
    Some(Frame::Control(Control::FileComplete(FileComplete { index, hash: "h".into() })))
}

fn done() -> Option<Frame> {
    Some(Frame::Control(Control::TransferComplete(TransferComplete { transfer_id: "t1".into() })))
}

#[test]
fn plans_ordinary_files() {
    let plan = plan_for(&[("a.txt", 10), ("sub/b.txt", 20)]);
    assert_eq!(plan.len(), 2);
    assert!(plan[0].final_path.starts_with(&root()));
    assert!(plan[1].final_path.starts_with(&root()));
    assert_eq!(plan[1].final_path, vec!["/", "inbox", "sub", "b.txt"]);
    assert_eq!(plan[1].partial, vec!["/", "inbox", "sub", "b.txt.fluqsr-part"]);
}

#[test]
fn refuses_a_traversal_in_an_offer() {
    for evil in [
        "../escaped.txt",
        "../../../../etc/passwd",
        "/etc/passwd",
        "C:/Windows/System32/evil.dll",
    ] {
        let result = build_plan(&offer(&[(evil, 10)]), &root(), &root(), &fresh(1));
        assert!(result.is_err(), "planning must reject {evil} rather than write it");
        assert!(matches!(result, Err(Error::UnsafePath(_))));
    }
}

#[test]
fn every_planned_path_stays_inside_the_receive_folder() {
    let plan = plan_for(&[("deep/nested/tree/file.bin", 1), ("top.txt", 1)]);
    for file in &plan {
        assert!(file.final_path.starts_with(&root()));
        assert!(file.final_path.len() > root().len());
        assert!(file.final_path[root().len()..]
            .iter()
            .all(|c| !c.is_empty() && c != "." && c != ".." && !c.contains('/')));
    }
}

#[test]
fn rejects_a_duplicate_file_index() {
    let mut duplicated = offer(&[("a.txt", 1), ("b.txt", 1)]);
    duplicated.files[1].index = 0;
    assert!(matches!(
        build_plan(&duplicated, &root(), &root(), &fresh(2)),
        Err(Error::Protocol(_))
    ));
}

#[test]
fn a_fresh_file_starts_at_offset_zero() {
    let plan = plan_for(&[("a.txt", 100)]);
    assert_eq!(plan[0].resume_offset, 0);
}

#[test]
fn an_interrupted_file_resumes_from_its_partial() {
    let facts = vec![PathFacts { resolved_parent: Some(root()), partial_len: Some(512) }];
    let plan = build_plan(&offer(&[("movie.mkv", 4096)]), &root(), &root(), &facts).unwrap();
    assert_eq!(plan[0].resume_offset, 512);
}

#[test]
fn an_oversized_partial_restarts_instead_of_resuming() {
    let facts = vec![PathFacts { resolved_parent: Some(root()), partial_len: Some(9999) }];
    let plan = build_plan(&offer(&[("a.txt", 100)]), &root(), &root(), &facts).unwrap();
    assert_eq!(plan[0].resume_offset, 0);
    let whole = vec![PathFacts { resolved_parent: Some(root()), partial_len: Some(100) }];
    let plan = build_plan(&offer(&[("a.txt", 100)]), &root(), &root(), &whole).unwrap();
    assert_eq!(plan[0].resume_offset, 0);
}

#[test]
fn declared_size_is_recorded_for_progress() {
    let plan = plan_for(&[("a.txt", 4242)]);
    assert_eq!(plan[0].declared_size, 4242);
}

#[test]
fn the_first_bad_file_decides_the_error() {
    let mut o = offer(&[("a.txt", 1), ("a.txt", 1), ("../x", 1)]);
    o.files[1].index = 0;
    assert!(matches!(build_plan(&o, &root(), &root(), &fresh(3)), Err(Error::Protocol(_))));
    let o = offer(&[("a.txt", 1), ("../x", 1)]);
    assert!(matches!(build_plan(&o, &root(), &root(), &fresh(2)), Err(Error::UnsafePath(_))));
}

#[test]
fn a_parent_resolving_outside_the_folder_fails_the_plan() {
    let facts = vec![PathFacts {
        resolved_parent: Some(vec!["/".to_string(), "etc".to_string()]),
        partial_len: None,
    }];
    assert!(matches!(
        build_plan(&offer(&[("link/x", 1)]), &root(), &root(), &facts),
        Err(Error::UnsafePath(_))
    ));
}

#[test]
fn the_prompt_previews_the_first_eight_names() {
    let names: Vec<String> = (0..12).map(|i| format!("f{i}.txt")).collect();
    let pairs: Vec<(&str, u64)> = names.iter().map(|n| (n.as_str(), 1)).collect();
    let o = offer(&pairs);
    let p = preview(&o);
    assert_eq!(p.len(), 8);
    assert_eq!(p[7], "f7.txt");
    let fp = Fingerprint::from_spki_der(b"k");
    let prompt = incoming_offer(&o, "peer", "Laptop", &fp);
    assert_eq!(prompt.file_count, 12);
    assert_eq!(prompt.total_bytes, 12);
    assert_eq!(prompt.peer_fingerprint, fp.to_hex());
    assert_eq!(prompt.preview.len(), 8);
}

#[test]
fn the_accept_lists_each_planned_file_with_its_offset() {
    let facts = vec![
        PathFacts { resolved_parent: Some(root()), partial_len: Some(5) },
        PathFacts { resolved_parent: Some(root()), partial_len: None },
    ];
    let plan = build_plan(&offer(&[("a", 10), ("b", 10)]), &root(), &root(), &facts).unwrap();
    let accept = accept_for("t1", &plan);
    assert_eq!(accept.transfer_id, "t1");
    assert_eq!(accept.files.len(), 2);
    assert_eq!((accept.files[0].index, accept.files[0].resume_offset), (0, 5));
    assert_eq!((accept.files[1].index, accept.files[1].resume_offset), (1, 0));
}

#[test]
fn a_sender_cannot_exceed_the_size_it_offered() {
    let mut session = ReceiveSession::new(plan_for(&[("small.bin", 10)]));
    let chunk = vec![0u8; 1024 * 1024];
    let mut hit_limit = false;
    for _ in 0..64 {
        if session.on_frame(false, Some(Frame::Data { index: 0, bytes: chunk.clone() })).is_err() {
            hit_limit = true;
            break;
        }
    }
    assert!(hit_limit, "writing far beyond the declared size must be refused");
}

#[test]
fn a_file_that_grew_slightly_is_still_accepted() {
    let mut session = ReceiveSession::new(plan_for(&[("log.txt", 4)]));
    assert!(session.on_frame(false, data(0, b"more than four bytes")).is_ok());
}

#[test]
fn the_allowance_is_exactly_sixteen_mebibytes() {
    let mut session = ReceiveSession::new(plan_for(&[("f", 0)]));
    let limit = SIZE_OVERRUN_ALLOWANCE as usize;
    assert!(session.on_frame(false, Some(Frame::Data { index: 0, bytes: vec![0; limit] })).is_ok());
    assert!(matches!(session.on_frame(false, data(0, b"x")), Err(Error::Protocol(_))));
}

#[test]
fn files_open_lazily_and_finish_once() {
    let mut session = ReceiveSession::new(plan_for(&[("a", 3), ("b", 0)]));
    match session.on_frame(false, data(0, b"abc")).unwrap() {
        ReceiveStep::Write { position, open, bytes } => {
            assert_eq!(position, 0);
            assert!(open);
            assert_eq!(bytes, b"abc");
        }
        other => panic!("expected a write, got {other:?}"),
    }
    match session.on_frame(false, data(0, b"")).unwrap() {
        ReceiveStep::Write { open, .. } => assert!(!open),
        other => panic!("expected a write, got {other:?}"),
    }
    // Incomplete files make the end of the transfer an error.
    assert!(session.on_frame(false, done()).is_err());
    match session.on_frame(false, complete(0)).unwrap() {
        ReceiveStep::Finish { position, open, hash } => {
            assert_eq!(position, 0);
            assert!(!open);
            assert_eq!(hash, "h");
        }
        other => panic!("expected a finish, got {other:?}"),
    }
    // A zero-byte file sends no data: completing it opens it.
    match session.on_frame(false, complete(1)).unwrap() {
        ReceiveStep::Finish { position, open, .. } => {
            assert_eq!(position, 1);
            assert!(open);
        }
        other => panic!("expected a finish, got {other:?}"),
    }
    assert!(matches!(session.on_frame(false, done()).unwrap(), ReceiveStep::Done));
    assert_eq!(session.planned(1).final_path, vec!["/", "inbox", "b"]);
}

#[test]
fn unoffered_indices_and_stray_messages_are_protocol_errors() {
    let mut session = ReceiveSession::new(plan_for(&[("a", 3)]));
    assert!(matches!(session.on_frame(false, data(7, b"x")), Err(Error::Protocol(_))));
    assert!(matches!(session.on_frame(false, complete(7)), Err(Error::Protocol(_))));
    let stray = Some(Frame::Control(Control::Offer(offer(&[("z", 1)]))));
    assert!(matches!(session.on_frame(false, stray), Err(Error::Protocol(_))));
    assert!(matches!(
        session.on_frame(false, None),
        Err(Error::Protocol(m)) if m == "the sender disconnected before the transfer finished"
    ));
}

#[test]
fn a_sender_backing_out_is_a_decline_and_a_user_cancel_wins() {
    let mut session = ReceiveSession::new(plan_for(&[("a", 3)]));
    let cancel = Some(Frame::Control(Control::Cancel(Cancel {
        transfer_id: "t1".into(),
        reason: Some("changed my mind".into()),
    })));
    assert!(matches!(
        session.on_frame(false, cancel),
        Err(Error::Declined(Some(r))) if r == "changed my mind"
    ));
    assert!(matches!(session.on_frame(true, data(0, b"a")), Err(Error::Cancelled)));
}

#[test]
fn a_resumed_file_counts_its_prefix_against_the_limit() {
    let facts = vec![PathFacts { resolved_parent: Some(root()), partial_len: Some(9) }];
    let plan = build_plan(&offer(&[("a", 10)]), &root(), &root(), &facts).unwrap();
    let mut session = ReceiveSession::new(plan);
    let room = SIZE_OVERRUN_ALLOWANCE as usize + 1;
    assert!(session.on_frame(false, Some(Frame::Data { index: 0, bytes: vec![0; room] })).is_ok());
    assert!(session.on_frame(false, data(0, b"z")).is_err());
}

#[test]
fn a_corrupt_file_is_discarded_not_kept() {
    assert!(check_integrity("abc", "abc", "x").is_ok());
    assert!(matches!(
        check_integrity("abc", "abd", "inbox/x.txt"),
        Err(Error::Protocol(m)) if m == "inbox/x.txt failed its integrity check and was discarded"
    ));
}

#[test]
fn a_finished_receive_records_its_outcome() {
    let mut manager = TransferManager::new();
    manager.register("t1", Direction::Receive, "p", "L", 1, 50);
    let p = settle_receive(&mut manager, "t1", &Ok(())).unwrap();
    assert_eq!(p.status, Status::Completed);
    assert_eq!(p.transferred_bytes, 50);

    manager.register("t2", Direction::Receive, "p", "L", 1, 50);
    let p = settle_receive(&mut manager, "t2", &Err(Error::Cancelled)).unwrap();
    assert_eq!(p.status, Status::Cancelled);

    manager.register("t3", Direction::Receive, "p", "L", 1, 50);
    let p = settle_receive(&mut manager, "t3", &Err(Error::Declined(Some("no".into())))).unwrap();
    assert_eq!(p.status, Status::Failed);
    assert_eq!(p.error.as_deref(), Some("transfer declined by peer: no"));

    assert!(settle_receive(&mut manager, "unknown", &Ok(())).is_none());
}
