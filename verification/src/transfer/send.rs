//! The sending half of a transfer: what is offered, what the peer's answers
//! mean, and what is streamed.
use vstd::prelude::*;

use super::gate::{check, finish_pairing, gate_outcome, pairing_finished, GateDecision};
use super::{blake3_hex, ContentHash, Direction, FileEntry, ProgressView, Status, TransferManager};
use crate::crypto::Fingerprint;
use crate::trust::{verdict_of, TrustStore, TrustedPeer};
use crate::error::{message_of, Error, Result};
use crate::protocol::{
    accepted_hello, check_hello, control_name, Accept, FileComplete, AcceptedFile, Control, Hello, Offer, OfferedFile,
    TransferComplete,
};
use crate::text::{push_decimal, push_str, string_from_chars, string_of};

verus! {

/// Seconds to wait for a peer to accept the connection.
pub const CONNECT_TIMEOUT_SECS: u64 = 10;

/// The sum of the sizes of the first `n` files.
pub open spec fn size_sum(files: Seq<FileEntry>, n: int) -> nat
    decreases n,
{
    if n <= 0 {
        0
    } else {
        size_sum(files, n - 1) + files[n - 1].size as nat
    }
}

proof fn lemma_size_sum_monotone(files: Seq<FileEntry>, a: int, b: int)
    requires
        0 <= a <= b,
    ensures
        size_sum(files, a) <= size_sum(files, b),
    decreases b - a,
{
    if a < b {
        lemma_size_sum_monotone(files, a, b - 1);
    }
}

/// `offer` offers `files` under `transfer_id`: each file's index, wire path
/// and size, in order, and their total size.
pub open spec fn offer_for(transfer_id: Seq<char>, files: Seq<FileEntry>, offer: Offer) -> bool {
    &&& offer.transfer_id@ == transfer_id
    &&& offer.total_bytes == size_sum(files, files.len() as int)
    &&& offer.files@.len() == files.len()
    &&& forall|i: int|
        0 <= i < files.len() ==> {
            &&& #[trigger] offer.files@[i].index == files[i].index
            &&& offer.files@[i].path@ == files[i].relative@
            &&& offer.files@[i].size == files[i].size
        }
}

/// The offer for a list of files: each file's index, wire path and size, in
/// order, and their total size.
pub fn build_offer(transfer_id: &str, files: &Vec<FileEntry>) -> (res: Offer)
    requires
        size_sum(files@, files@.len() as int) <= u64::MAX,
    ensures
        offer_for(transfer_id@, files@, res),
{
    let mut offered: Vec<OfferedFile> = Vec::new();
    let mut total: u64 = 0;
    let mut i: usize = 0;
    while i < files.len()
        invariant
            i <= files@.len(),
            size_sum(files@, files@.len() as int) <= u64::MAX,
            total == size_sum(files@, i as int),
            offered@.len() == i,
            forall|j: int|
                0 <= j < i ==> {
                    &&& #[trigger] offered@[j].index == files@[j].index
                    &&& offered@[j].path@ == files@[j].relative@
                    &&& offered@[j].size == files@[j].size
                },
        decreases files@.len() - i,
    {
        proof {
            lemma_size_sum_monotone(files@, i + 1, files@.len() as int);
        }
        total = total + files[i].size;
        offered.push(
            OfferedFile {
                index: files[i].index,
                path: files[i].relative.clone(),
                size: files[i].size,
            },
        );
        i = i + 1;
    }
    Offer { transfer_id: string_of(transfer_id), files: offered, total_bytes: total }
}

/// The peer's answer to an offer: an `Accept` goes ahead, a `Reject` is a
/// decline with the peer's reason, anything else is a protocol error.
pub fn expect_accept(reply: Control, peer_name: &str) -> (res: Result<Accept>)
    ensures
        match reply {
            Control::Accept(a) => res matches Ok(r) && r == a,
            Control::Reject(r) => res matches Err(Error::Declined(reason)) && reason == r.reason,
            _ => res matches Err(Error::Protocol(_)),
        },
{
    match reply {
        Control::Accept(accept) => Ok(accept),
        Control::Reject(reject) => Err(Error::Declined(reject.reason)),
        other => {
            let mut v: Vec<char> = Vec::new();
            push_str(&mut v, "expected Accept or Reject from ");
            push_str(&mut v, peer_name);
            push_str(&mut v, ", got ");
            push_str(&mut v, control_name(&other));
            Err(Error::Protocol(string_from_chars(&v)))
        },
    }
}

/// The receiver's last word. A transfer is only finished once the receiver
/// has verified and committed every file and says so.
pub fn expect_completion(reply: Control) -> (res: Result<()>)
    ensures
        match reply {
            Control::TransferComplete(_) => res is Ok,
            Control::Cancel(c) => res matches Err(Error::Declined(reason)) && reason == c.reason,
            _ => res matches Err(Error::Protocol(_)),
        },
{
    match reply {
        Control::TransferComplete(_) => Ok(()),
        Control::Cancel(cancel) => Err(Error::Declined(cancel.reason)),
        other => {
            let mut v: Vec<char> = Vec::new();
            push_str(&mut v, "expected the receiver to confirm completion, got ");
            push_str(&mut v, control_name(&other));
            Err(Error::Protocol(string_from_chars(&v)))
        },
    }
}

/// One file to stream: its position in the file list, and how many of its
/// bytes the receiver already holds.
#[derive(Debug, Clone, Copy)]
pub struct Outgoing {
    pub position: usize,
    pub resume_offset: u64,
}

/// The first position in `files` with the given index, if any.
pub open spec fn first_with_index(files: Seq<FileEntry>, index: u32) -> Option<int>
    decreases files.len(),
{
    if files.len() == 0 {
        None
    } else {
        match first_with_index(files.drop_last(), index) {
            Some(p) => Some(p),
            None => if files.last().index == index {
                Some(files.len() - 1)
            } else {
                None
            },
        }
    }
}

proof fn lemma_first_with_index(files: Seq<FileEntry>, index: u32)
    ensures
        match first_with_index(files, index) {
            Some(p) => 0 <= p < files.len() && files[p].index == index && forall|q: int|
                0 <= q < p ==> files[q].index != index,
            None => forall|q: int| 0 <= q < files.len() ==> files[q].index != index,
        },
    decreases files.len(),
{
    if files.len() > 0 {
        let d = files.drop_last();
        lemma_first_with_index(d, index);
        assert forall|q: int| 0 <= q < d.len() implies #[trigger] d[q] == files[q] by {}
        match first_with_index(d, index) {
            Some(p) => {
                assert(first_with_index(files, index) == Some(p));
                assert(files[p] == d[p]);
                assert forall|q: int| 0 <= q < p implies files[q].index != index by {
                    assert(files[q] == d[q]);
                }
            },
            None => {
                assert forall|q: int| 0 <= q < files.len() - 1 implies files[q].index != index by {
                    assert(files[q] == d[q]);
                }
                assert(files.last() == files[files.len() - 1]);
            },
        }
    }
}

fn position_of(files: &Vec<FileEntry>, index: u32) -> (res: Option<usize>)
    ensures
        match res {
            Some(p) => first_with_index(files@, index) == Some(p as int),
            None => first_with_index(files@, index) is None,
        },
{
    proof {
        lemma_first_with_index(files@, index);
    }
    let mut p: usize = 0;
    while p < files.len()
        invariant
            p <= files@.len(),
            forall|q: int| 0 <= q < p ==> files@[q].index != index,
        decreases files@.len() - p,
    {
        if files[p].index == index {
            proof {
                lemma_first_with_index(files@, index);
                let f = first_with_index(files@, index);
                if f is None {
                    assert(files@[p as int].index == index);
                } else {
                    let fp = f->0;
                    if fp < p {
                        assert(files@[fp].index != index);
                    }
                    if fp > p {
                        assert(files@[p as int].index != index);
                    }
                }
            }
            return Some(p);
        }
        p = p + 1;
    }
    proof {
        lemma_first_with_index(files@, index);
        if first_with_index(files@, index) is Some {
            let fp = first_with_index(files@, index)->0;
            assert(files@[fp].index != index);
        }
    }
    None
}

/// What `plan_sends` makes of an `Accept` for `files`: the positions to
/// stream, in the accepted order, or a protocol error when an accepted index
/// was never offered.
pub open spec fn sends_planned(files: Seq<FileEntry>, accept: Accept, res: Result<Vec<Outgoing>>) -> bool {
    match res {
        Ok(out) => {
            &&& forall|i: int|
                0 <= i < accept.files@.len() ==> first_with_index(
                    files,
                    #[trigger] accept.files@[i].index,
                ) is Some
            &&& out@.len() == accept.files@.len()
            &&& forall|i: int|
                0 <= i < out@.len() ==> {
                    &&& Some(#[trigger] out@[i].position as int) == first_with_index(
                        files,
                        accept.files@[i].index,
                    )
                    &&& out@[i].resume_offset == accept.files@[i].resume_offset
                }
        },
        Err(e) => {
            &&& e is Protocol
            &&& exists|i: int|
                0 <= i < accept.files@.len() && first_with_index(
                    files,
                    #[trigger] accept.files@[i].index,
                ) is None
        },
    }
}

/// What to stream, in the order the receiver accepted the files. The
/// receiver chooses which files it wants, so an index that was never offered
/// is a protocol error rather than something to guess at.
pub fn plan_sends(files: &Vec<FileEntry>, accept: &Accept) -> (res: Result<Vec<Outgoing>>)
    ensures
        sends_planned(files@, *accept, res),
{
    let mut out: Vec<Outgoing> = Vec::new();
    let mut i: usize = 0;
    while i < accept.files.len()
        invariant
            i <= accept.files@.len(),
            out@.len() == i,
            forall|j: int|
                0 <= j < i ==> first_with_index(files@, #[trigger] accept.files@[j].index) is Some,
            forall|j: int|
                0 <= j < i ==> {
                    &&& Some(#[trigger] out@[j].position as int) == first_with_index(
                        files@,
                        accept.files@[j].index,
                    )
                    &&& out@[j].resume_offset == accept.files@[j].resume_offset
                },
        decreases accept.files@.len() - i,
    {
        let accepted: AcceptedFile = accept.files[i];
        match position_of(files, accepted.index) {
            Some(p) => {
                out.push(Outgoing { position: p, resume_offset: accepted.resume_offset });
            },
            None => {
                let mut v: Vec<char> = Vec::new();
                push_str(&mut v, "peer accepted file index ");
                push_decimal(&mut v, accepted.index as u64);
                push_str(&mut v, " which was never offered");
                return Err(Error::Protocol(string_from_chars(&v)));
            },
        }
        i = i + 1;
    }
    Ok(out)
}

// ---------------------------------------------------------------------------
// Streaming one file
// ---------------------------------------------------------------------------

/// What to do with the bytes just read from the file being sent.
#[derive(Debug)]
pub enum SendStep {
    /// Bytes the receiver already holds: they went into the hash and are not
    /// sent.
    Skipped,
    /// Send these bytes of file `index`.
    Data { index: u32, bytes: Vec<u8> },
    /// The file is read to its end: send this `FileComplete`.
    Complete(Control),
}

/// One file on its way out: its index, how many of its first bytes the
/// receiver already holds and have not been read back yet, and the hash of
/// everything read so far. The hash covers the resumed prefix too, so the
/// receiver can check the whole file it ends up with.
pub struct FileStream {
    index: u32,
    prefix_left: u64,
    hash: ContentHash,
    finished: bool,
}

/// What the sender says when a file shrank below the bytes the receiver
/// already holds.
pub open spec fn changed_file_message() -> Seq<char> {
    "the file changed since the interrupted transfer; send it again"@
}

impl FileStream {
    /// The index of the file on the wire.
    pub closed spec fn the_index(&self) -> u32 {
        self.index
    }

    /// How many bytes of the resumed prefix are still to be read.
    pub closed spec fn prefix_left(&self) -> nat {
        self.prefix_left as nat
    }

    /// Everything read from the file so far, in order.
    pub closed spec fn taken_in(&self) -> Seq<u8> {
        self.hash.taken_in()
    }

    /// Whether the file's completion has been produced.
    pub closed spec fn finished(&self) -> bool {
        self.finished
    }

    /// Streaming of file `index`, of which the receiver already holds the
    /// first `resume_offset` bytes.
    pub fn new(index: u32, resume_offset: u64) -> (res: FileStream)
        ensures
            res.the_index() == index,
            res.prefix_left() == resume_offset,
            res.taken_in() == Seq::<u8>::empty(),
            !res.finished(),
    {
        FileStream { index, prefix_left: resume_offset, hash: ContentHash::new(), finished: false }
    }

    /// How many bytes to read next into a buffer of `buffer_len`: no more
    /// than what is left of the resumed prefix while there is some.
    pub fn next_read_len(&self, buffer_len: usize) -> (res: usize)
        ensures
            self.prefix_left() > 0 && self.prefix_left() < buffer_len ==> res == self.prefix_left(),
            !(self.prefix_left() > 0 && self.prefix_left() < buffer_len) ==> res == buffer_len,
    {
        if self.prefix_left > 0 && self.prefix_left < buffer_len as u64 {
            self.prefix_left as usize
        } else {
            buffer_len
        }
    }

    /// Decides what the bytes just read mean; an empty read is the end of the
    /// file. `cancelled` is whether the user cancelled before the read.
    pub fn on_read(&mut self, cancelled: bool, bytes: Vec<u8>) -> (res: Result<SendStep>)
        requires
            !old(self).finished(),
            old(self).prefix_left() > 0 ==> bytes@.len() <= old(self).prefix_left(),
        ensures
            final(self).the_index() == old(self).the_index(),
            old(self).prefix_left() > 0 && bytes@.len() == 0 ==> {
                &&& res matches Err(Error::Other(m)) && m@ == changed_file_message()
                &&& *final(self) == *old(self)
            },
            old(self).prefix_left() > 0 && bytes@.len() > 0 ==> {
                &&& res matches Ok(SendStep::Skipped)
                &&& final(self).taken_in() == old(self).taken_in() + bytes@
                &&& final(self).prefix_left() == old(self).prefix_left() - bytes@.len()
                &&& !final(self).finished()
            },
            old(self).prefix_left() == 0 && cancelled ==> {
                &&& res matches Err(Error::Cancelled)
                &&& *final(self) == *old(self)
            },
            old(self).prefix_left() == 0 && !cancelled && bytes@.len() == 0 ==> {
                &&& res matches Ok(SendStep::Complete(Control::FileComplete(c)))
                &&& c.index == old(self).the_index()
                &&& c.hash@ == blake3_hex(old(self).taken_in())
                &&& final(self).finished()
                &&& final(self).taken_in() == old(self).taken_in()
            },
            old(self).prefix_left() == 0 && !cancelled && bytes@.len() > 0 ==> {
                &&& res matches Ok(SendStep::Data { index, bytes: sent })
                &&& index == old(self).the_index()
                &&& sent == bytes
                &&& final(self).taken_in() == old(self).taken_in() + bytes@
                &&& final(self).prefix_left() == 0
                &&& !final(self).finished()
            },
    {
        if self.prefix_left > 0 {
            if bytes.len() == 0 {
                return Err(
                    Error::Other(
                        string_of("the file changed since the interrupted transfer; send it again"),
                    ),
                );
            }
            self.hash.update(bytes.as_slice());
            self.prefix_left = self.prefix_left - bytes.len() as u64;
            return Ok(SendStep::Skipped);
        }
        if cancelled {
            return Err(Error::Cancelled);
        }
        if bytes.len() == 0 {
            self.finished = true;
            return Ok(
                SendStep::Complete(
                    Control::FileComplete(FileComplete { index: self.index, hash: self.hash.hex() }),
                ),
            );
        }
        self.hash.update(bytes.as_slice());
        Ok(SendStep::Data { index: self.index, bytes })
    }
}

/// The status a finished send leaves its transfer in: completed on success,
/// cancelled or declined when that is how it ended, failed otherwise.
pub open spec fn send_settles(outcome: Result<()>, before: ProgressView, after: ProgressView) -> bool {
    match outcome {
        Ok(()) => after == (ProgressView {
            status: Status::Completed,
            current_file: None,
            transferred_bytes: before.total_bytes,
            ..before
        }),
        Err(Error::Cancelled) => after == (ProgressView { status: Status::Cancelled, ..before }),
        Err(Error::Declined(_)) => after == (ProgressView { status: Status::Declined, ..before }),
        Err(e) => after == (ProgressView {
            status: Status::Failed,
            error: Some(message_of(e)),
            current_file: None,
            ..before
        }),
    }
}

/// Records how a send ended and returns the progress to report (`None` for
/// a transfer that is not tracked).
pub fn settle_send(manager: &mut TransferManager, transfer_id: &str, outcome: &Result<()>) -> (res:
    Option<super::TransferProgress>)
    requires
        old(manager).wf(),
    ensures
        final(manager).wf(),
        final(manager).prompts() == old(manager).prompts(),
        !old(manager)@.contains_key(transfer_id@) ==> res is None && final(manager)@ == old(manager)@,
        old(manager)@.contains_key(transfer_id@) ==> (res matches Some(p) && send_settles(
            *outcome,
            old(manager)@[transfer_id@].progress,
            p@,
        ) && final(manager)@ == old(manager)@.insert(
            transfer_id@,
            super::state_view(p@, old(manager)@[transfer_id@].cancelled),
        )),
{
    match outcome {
        Ok(()) => manager.complete(transfer_id),
        Err(Error::Cancelled) => manager.set_status(transfer_id, Status::Cancelled),
        Err(Error::Declined(_)) => manager.set_status(transfer_id, Status::Declined),
        Err(e) => {
            let message = e.message();
            manager.fail(transfer_id, message.as_str())
        },
    }
}

// ---------------------------------------------------------------------------
// One outgoing connection, from greeting to the receiver's confirmation
// ---------------------------------------------------------------------------

/// Where an outgoing connection stands.
#[derive(Debug, Clone, Copy, PartialEq, Eq, Structural)]
pub enum OutboundStage {
    /// Waiting for the peer's `Hello`.
    Greeting,
    /// The user is comparing pairing codes with an unknown device.
    AwaitingPairing,
    /// The peer is authenticated; the offer may go out.
    Offering,
    /// The offer is out; waiting for the far side's user to answer.
    AwaitingAnswer,
    /// Streaming the accepted files.
    Streaming,
    /// Everything is sent; waiting for the receiver to confirm.
    Confirming,
    /// Nothing more happens on this connection.
    Closed,
}

/// The sending side of one connection. Nothing about the files is sent
/// until the peer is authenticated, and nothing of their contents until the
/// peer accepted the offer.
pub struct Outbound {
    stage: OutboundStage,
    transfer_id: String,
    files: Vec<FileEntry>,
    presented: Fingerprint,
    hello: Option<Hello>,
    peer_name: String,
    /// The presented key was pinned to the peer's device ID when it greeted
    /// us, or the user confirmed the pairing code for it.
    authenticated: Ghost<bool>,
    /// The peer answered the offer with an `Accept`.
    accepted: Ghost<bool>,
}

impl Outbound {
    pub closed spec fn stage(&self) -> OutboundStage {
        self.stage
    }

    pub closed spec fn presented(&self) -> Fingerprint {
        self.presented
    }

    pub closed spec fn authenticated(&self) -> bool {
        self.authenticated@
    }

    pub closed spec fn accepted(&self) -> bool {
        self.accepted@
    }

    pub closed spec fn the_files(&self) -> Seq<FileEntry> {
        self.files@
    }

    /// The ID of the transfer this connection carries.
    pub closed spec fn the_transfer_id(&self) -> Seq<char> {
        self.transfer_id@
    }

    /// The peer's `Hello`, once it greeted us.
    pub closed spec fn peer_hello(&self) -> Hello {
        self.hello->0
    }

    pub closed spec fn wf(&self) -> bool {
        &&& size_sum(self.files@, self.files@.len() as int) <= u64::MAX
        &&& (self.stage == OutboundStage::AwaitingPairing || self.stage == OutboundStage::Offering)
            ==> self.hello is Some
        &&& (self.stage == OutboundStage::Offering || self.stage == OutboundStage::AwaitingAnswer
            || self.stage == OutboundStage::Streaming || self.stage == OutboundStage::Confirming)
            ==> self.authenticated@
        &&& (self.stage == OutboundStage::Streaming || self.stage == OutboundStage::Confirming)
            ==> self.accepted@
    }

    /// A connection to send `files` over, whose TLS handshake completed with
    /// the peer proving it holds the key of `presented`.
    pub fn new(transfer_id: String, files: Vec<FileEntry>, presented: Fingerprint) -> (res: Outbound)
        requires
            size_sum(files@, files@.len() as int) <= u64::MAX,
        ensures
            res.wf(),
            res.stage() == OutboundStage::Greeting,
            res.presented() == presented,
            res.the_files() == files@,
            res.the_transfer_id() == transfer_id@,
    {
        Outbound {
            stage: OutboundStage::Greeting,
            transfer_id,
            files,
            presented,
            hello: None,
            peer_name: String::new(),
            authenticated: Ghost(false),
            accepted: Ghost(false),
        }
    }

    /// The peer's reply to our `Hello`, and the trust check's verdict on it.
    pub fn greet(&mut self, reply: Control, trust: &mut TrustStore, own: &Fingerprint) -> (res:
        Result<GateDecision>)
        requires
            old(self).wf(),
            old(self).stage() == OutboundStage::Greeting,
            old(trust).wf(),
        ensures
            final(self).wf(),
            final(trust).wf(),
            final(self).presented() == old(self).presented(),
            final(self).the_files() == old(self).the_files(),
            res is Err ==> final(self).stage() == OutboundStage::Closed && final(trust)@ == old(trust)@,
            res is Ok ==> reply is Hello,
            res matches Ok(decision) ==> (decision is Proceed) == (verdict_of(
                old(trust)@,
                (reply->Hello_0).device_id@,
                old(self).presented()@,
            ) is Trusted),
            res matches Ok(decision) ==> (decision is Proceed ==> final(self).stage()
                == OutboundStage::Offering && final(self).authenticated()),
            res matches Ok(decision) ==> (decision is Refuse ==> final(self).stage()
                == OutboundStage::Closed),
            res matches Ok(decision) ==> (decision is AskPairing ==> final(self).stage()
                == OutboundStage::AwaitingPairing),
            res matches Ok(decision) ==> (!(decision is Proceed) ==> final(trust)@ == old(trust)@),
            final(self).the_transfer_id() == old(self).the_transfer_id(),
            match accepted_hello(reply) {
                Some(h) => res matches Ok(decision) && final(self).peer_hello() == h && gate_outcome(
                    old(trust)@,
                    final(trust)@,
                    own@,
                    old(self).presented()@,
                    h,
                    Direction::Send,
                    decision,
                ),
                None => res matches Err(Error::Protocol(_)),
            },
    {
        let hello = match check_hello(reply) {
            Ok(h) => h,
            Err(e) => {
                self.stage = OutboundStage::Closed;
                return Err(e);
            },
        };
        let decision = check(trust, own, &self.presented, &hello, Direction::Send);
        match &decision {
            GateDecision::Proceed(peer) => {
                self.peer_name = peer.device_name.clone();
                self.authenticated = Ghost(true);
                self.stage = OutboundStage::Offering;
            },
            GateDecision::Refuse { .. } => {
                self.stage = OutboundStage::Closed;
            },
            GateDecision::AskPairing(_) => {
                self.stage = OutboundStage::AwaitingPairing;
            },
        }
        self.hello = Some(hello);
        Ok(decision)
    }

    /// The user's answer to the pairing prompt.
    pub fn paired(&mut self, confirmed: bool, trust: &mut TrustStore) -> (res: Result<TrustedPeer>)
        requires
            old(self).wf(),
            old(self).stage() == OutboundStage::AwaitingPairing,
            old(trust).wf(),
        ensures
            final(self).wf(),
            final(trust).wf(),
            final(self).presented() == old(self).presented(),
            final(self).the_files() == old(self).the_files(),
            confirmed ==> (res matches Ok(peer) && peer.fingerprint == old(self).presented()
                && final(self).stage() == OutboundStage::Offering && final(self).authenticated()),
            !confirmed ==> (res matches Err(Error::Declined(_)) && final(trust)@ == old(trust)@
                && final(self).stage() == OutboundStage::Closed),
            final(self).the_transfer_id() == old(self).the_transfer_id(),
            final(self).peer_hello() == old(self).peer_hello(),
            pairing_finished(
                old(trust)@,
                final(trust)@,
                old(self).peer_hello(),
                old(self).presented(),
                confirmed,
                res,
            ),
    {
        let result = match &self.hello {
            Some(hello) => finish_pairing(trust, hello, self.presented, confirmed),
            None => Err(Error::Cancelled),
        };
        match &result {
            Ok(peer) => {
                self.peer_name = peer.device_name.clone();
                self.authenticated = Ghost(true);
                self.stage = OutboundStage::Offering;
            },
            Err(_) => {
                self.stage = OutboundStage::Closed;
            },
        }
        result
    }

    /// The offer to send, unless the user cancelled meanwhile. It goes out
    /// only to an authenticated peer.
    pub fn offer(&mut self, cancelled: bool) -> (res: Result<Control>)
        requires
            old(self).wf(),
            old(self).stage() == OutboundStage::Offering,
        ensures
            final(self).wf(),
            final(self).the_files() == old(self).the_files(),
            cancelled ==> (res matches Err(Error::Cancelled) && final(self).stage()
                == OutboundStage::Closed),
            !cancelled ==> (res matches Ok(Control::Offer(o)) && offer_for(
                old(self).the_transfer_id(),
                old(self).the_files(),
                o,
            ) && final(self).stage() == OutboundStage::AwaitingAnswer),
            final(self).the_transfer_id() == old(self).the_transfer_id(),
            res is Ok ==> final(self).authenticated(),
    {
        if cancelled {
            self.stage = OutboundStage::Closed;
            return Err(Error::Cancelled);
        }
        let offer = build_offer(self.transfer_id.as_str(), &self.files);
        self.stage = OutboundStage::AwaitingAnswer;
        Ok(Control::Offer(offer))
    }

    /// The far side's answer to the offer: what to stream, in order. A
    /// decline, or an answer that makes no sense, closes the connection.
    pub fn answer(&mut self, reply: Control) -> (res: Result<Vec<Outgoing>>)
        requires
            old(self).wf(),
            old(self).stage() == OutboundStage::AwaitingAnswer,
        ensures
            final(self).wf(),
            final(self).the_files() == old(self).the_files(),
            res is Ok ==> reply is Accept && final(self).stage() == OutboundStage::Streaming
                && final(self).accepted(),
            res matches Ok(out) ==> forall|i: int|
                0 <= i < out@.len() ==> #[trigger] out@[i].position < old(self).the_files().len(),
            res is Err ==> final(self).stage() == OutboundStage::Closed,
            final(self).the_transfer_id() == old(self).the_transfer_id(),
            match reply {
                Control::Accept(a) => sends_planned(old(self).the_files(), a, res),
                Control::Reject(r) => res matches Err(Error::Declined(reason)) && reason
                    == r.reason,
                _ => res matches Err(Error::Protocol(_)),
            },
    {
        let accept = match expect_accept(reply, self.peer_name.as_str()) {
            Ok(a) => a,
            Err(e) => {
                self.stage = OutboundStage::Closed;
                return Err(e);
            },
        };
        match plan_sends(&self.files, &accept) {
            Ok(out) => {
                proof {
                    assert forall|i: int| 0 <= i < out@.len() implies #[trigger] out@[i].position
                        < self.files@.len() by {
                        lemma_first_with_index(self.files@, accept.files@[i].index);
                    }
                }
                self.accepted = Ghost(true);
                self.stage = OutboundStage::Streaming;
                Ok(out)
            },
            Err(e) => {
                self.stage = OutboundStage::Closed;
                Err(e)
            },
        }
    }

    /// The file at `position` of the list being sent.
    pub fn file(&self, position: usize) -> (res: &FileEntry)
        requires
            position < self.the_files().len(),
        ensures
            *res == self.the_files()[position as int],
    {
        &self.files[position]
    }

    /// Every accepted file is streamed: the message that says so.
    pub fn streamed(&mut self) -> (res: Control)
        requires
            old(self).wf(),
            old(self).stage() == OutboundStage::Streaming,
        ensures
            final(self).wf(),
            final(self).stage() == OutboundStage::Confirming,
            res matches Control::TransferComplete(t) && t.transfer_id@ == old(self).the_transfer_id(),
    {
        self.stage = OutboundStage::Confirming;
        Control::TransferComplete(TransferComplete { transfer_id: self.transfer_id.clone() })
    }

    /// The receiver's last word: only its confirmation completes the send.
    pub fn confirm(&mut self, reply: Control) -> (res: Result<()>)
        requires
            old(self).wf(),
            old(self).stage() == OutboundStage::Confirming,
        ensures
            final(self).wf(),
            final(self).stage() == OutboundStage::Closed,
            res is Ok <==> reply is TransferComplete,
            res is Ok ==> old(self).authenticated() && old(self).accepted(),
    {
        self.stage = OutboundStage::Closed;
        expect_completion(reply)
    }

    /// Closes the connection.
    pub fn close(&mut self)
        requires
            old(self).wf(),
        ensures
            final(self).wf(),
            final(self).stage() == OutboundStage::Closed,
    {
        self.stage = OutboundStage::Closed;
    }
}

} // verus!
