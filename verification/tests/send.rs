use fluqsr::error::Error;
use fluqsr::protocol::{Accept, AcceptedFile, Cancel, Control, Reject, TransferComplete};
use fluqsr::transfer::send::{
    build_offer, FileStream, SendStep, expect_accept, expect_completion, plan_sends, settle_send,
};
use fluqsr::transfer::{Direction, FileEntry, Status, TransferManager};

fn entry(index: u32, relative: &str, size: u64) -> FileEntry {
    FileEntry { index, source: format!("/home/me/{relative}"), relative: relative.into(), size }
}

fn accept(files: &[(u32, u64)]) -> Accept {
    Accept {
        transfer_id: "t1".into(),
        files: files
            .iter()
            .map(|&(index, resume_offset)| AcceptedFile { index, resume_offset })
            .collect(),
    }
}

#[test]
fn the_offer_lists_every_file_and_the_total() {
    let files = vec![entry(0, "a.txt", 10), entry(1, "dir/b.bin", 32)];
    let offer = build_offer("t1", &files);
    assert_eq!(offer.transfer_id, "t1");
    assert_eq!(offer.total_bytes, 42);
    assert_eq!(offer.files.len(), 2);
    assert_eq!(offer.files[1].path, "dir/b.bin");
    assert_eq!(offer.files[1].index, 1);
    assert_eq!(offer.files[1].size, 32);
}

#[test]
fn a_reject_is_a_decline_with_the_peers_reason() {
    let reply = Control::Reject(Reject { transfer_id: "t1".into(), reason: Some("busy".into()) });
    assert!(matches!(
        expect_accept(reply, "Laptop"),
        Err(Error::Declined(Some(r))) if r == "busy"
    ));
    let reply = Control::TransferComplete(TransferComplete { transfer_id: "t1".into() });
    assert!(matches!(
        expect_accept(reply, "Laptop"),
        Err(Error::Protocol(m)) if m == "expected Accept or Reject from Laptop, got TransferComplete"
    ));
    assert!(expect_accept(Control::Accept(accept(&[(0, 0)])), "Laptop").is_ok());
}

#[test]
fn only_the_receivers_confirmation_completes_a_send() {
    let ok = Control::TransferComplete(TransferComplete { transfer_id: "t1".into() });
    assert!(expect_completion(ok).is_ok());
    let cancel = Control::Cancel(Cancel { transfer_id: "t1".into(), reason: None });
    assert!(matches!(expect_completion(cancel), Err(Error::Declined(None))));
    assert!(matches!(
        expect_completion(Control::Accept(accept(&[]))),
        Err(Error::Protocol(_))
    ));
}

#[test]
fn files_stream_in_the_order_the_receiver_accepted_them() {
    let files = vec![entry(0, "a", 1), entry(5, "b", 1), entry(9, "c", 1)];
    let out = plan_sends(&files, &accept(&[(9, 0), (0, 100)])).unwrap();
    assert_eq!(out.len(), 2);
    assert_eq!((out[0].position, out[0].resume_offset), (2, 0));
    assert_eq!((out[1].position, out[1].resume_offset), (0, 100));
}

#[test]
fn an_index_that_was_never_offered_is_a_protocol_error() {
    let files = vec![entry(0, "a", 1)];
    assert!(matches!(
        plan_sends(&files, &accept(&[(0, 0), (3, 0)])),
        Err(Error::Protocol(m)) if m == "peer accepted file index 3 which was never offered"
    ));
}

#[test]
fn a_finished_send_records_its_outcome() {
    let mut manager = TransferManager::new();
    manager.register("t1", Direction::Send, "", "Laptop", 1, 10);
    assert_eq!(settle_send(&mut manager, "t1", &Ok(())).unwrap().status, Status::Completed);
    manager.register("t2", Direction::Send, "", "Laptop", 1, 10);
    assert_eq!(
        settle_send(&mut manager, "t2", &Err(Error::Declined(None))).unwrap().status,
        Status::Declined
    );
    manager.register("t3", Direction::Send, "", "Laptop", 1, 10);
    assert_eq!(
        settle_send(&mut manager, "t3", &Err(Error::Cancelled)).unwrap().status,
        Status::Cancelled
    );
    manager.register("t4", Direction::Send, "", "Laptop", 1, 10);
    let p = settle_send(&mut manager, "t4", &Err(Error::Other("timed out".into()))).unwrap();
    assert_eq!(p.status, Status::Failed);
    assert_eq!(p.error.as_deref(), Some("timed out"));
}

#[test]
fn errors_read_as_their_messages() {
    assert_eq!(Error::Protocol("bad".into()).message(), "protocol error: bad");
    assert_eq!(Error::Declined(None).message(), "transfer declined by peer");
    assert_eq!(Error::Cancelled.message(), "transfer cancelled");
    assert_eq!(
        Error::IdentityMismatch {
            device_id: "d".into(),
            expected: "e".into(),
            actual: "a".into()
        }
        .message(),
        "identity mismatch for d: expected e, got a"
    );
}

#[test]
fn a_resumed_file_hashes_its_prefix_and_sends_the_rest() {
    let mut stream = FileStream::new(7, 4);
    assert_eq!(stream.next_read_len(512), 4);
    assert!(matches!(stream.on_read(false, b"firs".to_vec()), Ok(SendStep::Skipped)));
    assert_eq!(stream.next_read_len(512), 512);
    match stream.on_read(false, b"t-half".to_vec()) {
        Ok(SendStep::Data { index, bytes }) => {
            assert_eq!(index, 7);
            assert_eq!(bytes, b"t-half".to_vec());
        }
        other => panic!("unexpected {other:?}"),
    }
    match stream.on_read(false, Vec::new()) {
        Ok(SendStep::Complete(Control::FileComplete(c))) => {
            assert_eq!(c.index, 7);
            assert_eq!(c.hash, blake3::hash(b"first-half").to_hex().to_string());
        }
        other => panic!("unexpected {other:?}"),
    }
}

#[test]
fn a_file_that_shrank_or_a_cancel_stops_the_stream() {
    let mut shrunk = FileStream::new(1, 10);
    match shrunk.on_read(false, Vec::new()) {
        Err(Error::Other(m)) => {
            assert_eq!(m, "the file changed since the interrupted transfer; send it again")
        }
        other => panic!("unexpected {other:?}"),
    }
    let mut fresh = FileStream::new(2, 0);
    assert!(matches!(fresh.on_read(true, b"x".to_vec()), Err(Error::Cancelled)));
    let mut empty = FileStream::new(3, 0);
    match empty.on_read(false, Vec::new()) {
        Ok(SendStep::Complete(Control::FileComplete(c))) => {
            assert_eq!(c.hash, blake3::hash(b"").to_hex().to_string())
        }
        other => panic!("unexpected {other:?}"),
    }
}
