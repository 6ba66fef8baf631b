//! The receiving half of a transfer.
//!
//! This side handles data chosen entirely by someone else, so the order is
//! deliberate: authenticate, then get consent, then validate every path, and
//! only then write, accepting nothing beyond what the user approved.
use vstd::prelude::*;

use super::gate::{check, finish_pairing, gate_outcome, pairing_finished, GateDecision};
use super::{
    state_view, Direction, IncomingOffer, OfferDecision, ProgressView, Status, TransferEvent,
    TransferManager, TransferProgress,
};
use crate::crypto::{hex_lower, Fingerprint};
use crate::error::{message_of, Error, Result};
use crate::paths::{
    lemma_resolved_path_is_inside, partial_path, plain_component, resolve_within,
    safe_path, safe_relative_path, starts_with,
};
use crate::protocol::{
    accepted_hello, check_hello, control_name, Accept, AcceptedFile, Control, Frame, Hello, Offer,
    OfferedFile, Reject,
};
use crate::trust::{auto_accepts_of, verdict_of, TrustStore, TrustedPeer, VerdictView};
use crate::text::{push_decimal, push_str, str_eq, string_from_chars, string_of};

verus! {

/// How many file names the accept prompt shows before summarising.
pub const PREVIEW_LIMIT: usize = 8;

/// Slack allowed above a file's declared size before the transfer is
/// aborted (16 MiB): a file may legitimately grow a little between being
/// offered and being read, but a sender must not stream unbounded data into
/// a transfer the user approved as small.
pub const SIZE_OVERRUN_ALLOWANCE: u64 = 16777216;

// ---------------------------------------------------------------------------
// The accept prompt
// ---------------------------------------------------------------------------

/// The first few paths of an offer, for the prompt. Not the whole list: an
/// offer can hold tens of thousands of files.
pub fn preview(offer: &Offer) -> (res: Vec<String>)
    ensures
        res@.len() == if offer.files@.len() < PREVIEW_LIMIT {
            offer.files@.len()
        } else {
            PREVIEW_LIMIT as nat
        },
        forall|i: int| 0 <= i < res@.len() ==> #[trigger] res@[i]@ == offer.files@[i].path@,
{
    let mut res: Vec<String> = Vec::new();
    let mut i: usize = 0;
    while i < offer.files.len() && i < PREVIEW_LIMIT
        invariant
            i <= offer.files@.len(),
            i <= PREVIEW_LIMIT,
            res@.len() == i,
            forall|j: int| 0 <= j < i ==> #[trigger] res@[j]@ == offer.files@[j].path@,
        decreases offer.files@.len() - i,
    {
        res.push(offer.files[i].path.clone());
        i = i + 1;
    }
    res
}

/// `prompt` is the accept prompt for `offer` from the peer with ID
/// `peer_device_id` and name `peer_name` that presented `presented`.
pub open spec fn offer_prompt(
    prompt: IncomingOffer,
    offer: Offer,
    peer_device_id: Seq<char>,
    peer_name: Seq<char>,
    presented: Seq<u8>,
) -> bool {
    &&& prompt.transfer_id@ == offer.transfer_id@
    &&& prompt.peer_device_id@ == peer_device_id
    &&& prompt.peer_name@ == peer_name
    &&& prompt.peer_fingerprint@ == hex_lower(presented)
    &&& prompt.file_count == offer.files@.len()
    &&& prompt.total_bytes == offer.total_bytes
    &&& prompt.preview@.len() == if offer.files@.len() < PREVIEW_LIMIT {
        offer.files@.len()
    } else {
        PREVIEW_LIMIT as nat
    }
    &&& forall|i: int|
        0 <= i < prompt.preview@.len() ==> #[trigger] prompt.preview@[i]@ == offer.files@[i].path@
}

/// The prompt an offer from an authenticated peer raises.
pub fn incoming_offer(
    offer: &Offer,
    peer_device_id: &str,
    peer_name: &str,
    presented: &Fingerprint,
) -> (res: IncomingOffer)
    ensures
        offer_prompt(res, *offer, peer_device_id@, peer_name@, presented@),
{
    IncomingOffer {
        transfer_id: offer.transfer_id.clone(),
        peer_device_id: string_of(peer_device_id),
        peer_name: string_of(peer_name),
        peer_fingerprint: presented.to_hex(),
        file_count: offer.files.len(),
        total_bytes: offer.total_bytes,
        preview: preview(offer),
    }
}

// ---------------------------------------------------------------------------
// Planning: every path is validated before a byte is written
// ---------------------------------------------------------------------------

/// What the filesystem says about one offered file's destination.
#[derive(Debug, Clone)]
pub struct PathFacts {
    /// The deepest existing parent of the destination, with its links
    /// resolved, as components; `None` when there is none.
    pub resolved_parent: Option<Vec<String>>,
    /// The length of a partial file left behind by an earlier attempt, if
    /// there is one.
    pub partial_len: Option<u64>,
}

/// A validated destination for one incoming file.
#[derive(Debug, Clone)]
pub struct PlannedFile {
    pub index: u32,
    /// Where the bytes accumulate while in flight, as components.
    pub partial: Vec<String>,
    /// Where the file lands once its hash checks out, as components.
    pub final_path: Vec<String>,
    pub resume_offset: u64,
    pub declared_size: u64,
}

/// Why an offered file cannot be planned.
pub enum PlanFault {
    /// Its path is unsafe, or it would land outside the receive folder.
    Path,
    /// An earlier file of the offer has the same index.
    Duplicate,
}

/// Where to resume from: only from a partial that is shorter than what is
/// offered. A longer one belongs to something else, and its bytes would
/// corrupt this file.
pub open spec fn resume_offset_of(partial_len: Option<u64>, size: u64) -> u64 {
    match partial_len {
        Some(len) => if len < size {
            len
        } else {
            0
        },
        None => 0,
    }
}

/// The in-progress name of a destination: its last component with
/// `.fluqsr-part` appended.
pub open spec fn partial_of(final_path: Seq<Seq<char>>) -> Seq<Seq<char>> {
    final_path.update(final_path.len() - 1, final_path.last() + ".fluqsr-part"@)
}

/// What keeps file `i` of an offer from being planned, if anything.
pub open spec fn file_fault(
    files: Seq<OfferedFile>,
    facts: Seq<PathFacts>,
    canonical_root: Seq<Seq<char>>,
    i: int,
) -> Option<PlanFault> {
    if safe_path(files[i].path@) is None {
        Some(PlanFault::Path)
    } else {
        match facts[i].resolved_parent {
            None => Some(PlanFault::Path),
            Some(parent) => if !starts_with(parent.deep_view(), canonical_root) {
                Some(PlanFault::Path)
            } else if exists|j: int| 0 <= j < i && files[j].index == files[i].index {
                Some(PlanFault::Duplicate)
            } else {
                None
            },
        }
    }
}

/// The destination planned for file `i` of an offer.
pub open spec fn planned_as(
    p: PlannedFile,
    file: OfferedFile,
    facts: PathFacts,
    root: Seq<Seq<char>>,
) -> bool {
    let final_path = root + (safe_path(file.path@)->0);
    &&& p.index == file.index
    &&& p.final_path.deep_view() == final_path
    &&& p.partial.deep_view() == partial_of(final_path)
    &&& p.resume_offset == resume_offset_of(facts.partial_len, file.size)
    &&& p.declared_size == file.size
}

fn resume_offset(partial_len: Option<u64>, size: u64) -> (res: u64)
    ensures
        res == resume_offset_of(partial_len, size),
{
    match partial_len {
        Some(len) => if len < size {
            len
        } else {
            0
        },
        None => 0,
    }
}

fn partial_components(final_path: &Vec<String>) -> (res: Vec<String>)
    requires
        final_path@.len() > 0,
    ensures
        res.deep_view() == partial_of(final_path.deep_view()),
{
    let n = final_path.len();
    let mut res: Vec<String> = Vec::new();
    let mut i: usize = 0;
    while i < n - 1
        invariant
            n == final_path@.len(),
            i <= n - 1,
            res@.len() == i,
            forall|k: int| 0 <= k < i ==> res@[k]@ == final_path@[k]@,
        decreases n - 1 - i,
    {
        res.push(final_path[i].clone());
        i = i + 1;
    }
    res.push(partial_path(final_path[n - 1].as_str()));
    assert(res.deep_view() =~= partial_of(final_path.deep_view()));
    res
}

fn reused_index(index: u32) -> (res: Error)
    ensures
        res is Protocol,
{
    let mut v: Vec<char> = Vec::new();
    push_str(&mut v, "offer reuses file index ");
    push_decimal(&mut v, index as u64);
    Error::Protocol(string_from_chars(&v))
}

/// No offered file is at fault.
pub open spec fn plan_clean(
    files: Seq<OfferedFile>,
    facts: Seq<PathFacts>,
    canonical_root: Seq<Seq<char>>,
) -> bool {
    forall|i: int| 0 <= i < files.len() ==> file_fault(files, facts, canonical_root, i) is None
}

/// `e` is the error for the first offered file at fault.
pub open spec fn first_fault_error(
    files: Seq<OfferedFile>,
    facts: Seq<PathFacts>,
    canonical_root: Seq<Seq<char>>,
    e: Error,
) -> bool {
    exists|k: int|
        {
            &&& 0 <= k < files.len()
            &&& forall|i: int| 0 <= i < k ==> file_fault(files, facts, canonical_root, i) is None
            &&& #[trigger] file_fault(files, facts, canonical_root, k) matches Some(fault)
            &&& fault is Path ==> e is UnsafePath
            &&& fault is Duplicate ==> e is Protocol
        }
}

/// `plan` holds the destination of each offered file, in the offer's order,
/// with no index twice.
pub open spec fn plan_of(
    plan: Seq<PlannedFile>,
    files: Seq<OfferedFile>,
    facts: Seq<PathFacts>,
    root: Seq<Seq<char>>,
) -> bool {
    &&& distinct_indices(plan)
    &&& plan.len() == files.len()
    &&& forall|i: int| 0 <= i < plan.len() ==> planned_as(#[trigger] plan[i], files[i], facts[i], root)
}

/// `accept` accepts the planned files of transfer `transfer_id`, each with
/// its resume offset, in the plan's order.
pub open spec fn accepts(accept: Accept, transfer_id: Seq<char>, plan: Seq<PlannedFile>) -> bool {
    &&& accept.transfer_id@ == transfer_id
    &&& accept.files@.len() == plan.len()
    &&& forall|i: int|
        0 <= i < plan.len() ==> #[trigger] accept.files@[i] == (AcceptedFile {
            index: plan[i].index,
            resume_offset: plan[i].resume_offset,
        })
}

/// Turns an offer into validated destinations under the receive folder
/// `root`, before anything is written. `canonical_root` and `facts` (one per
/// offered file, in order) are what the filesystem says; see
/// `resolve_within`.
///
/// A path that fails validation fails the whole transfer rather than being
/// skipped: a sender trying to write outside the receive folder is not
/// having an accident. The first file at fault decides the error.
pub fn build_plan(
    offer: &Offer,
    root: &Vec<String>,
    canonical_root: &Vec<String>,
    facts: &Vec<PathFacts>,
) -> (res: Result<Vec<PlannedFile>>)
    requires
        facts@.len() == offer.files@.len(),
    ensures
        match res {
            Ok(plan) => {
                &&& distinct_indices(plan@)
                &&& forall|i: int|
                    0 <= i < offer.files@.len() ==> file_fault(
                        offer.files@,
                        facts@,
                        canonical_root.deep_view(),
                        i,
                    ) is None
                &&& plan@.len() == offer.files@.len()
                &&& forall|i: int|
                    0 <= i < plan@.len() ==> planned_as(
                        #[trigger] plan@[i],
                        offer.files@[i],
                        facts@[i],
                        root.deep_view(),
                    )
            },
            Err(e) => exists|k: int|
                {
                    &&& 0 <= k < offer.files@.len()
                    &&& forall|i: int|
                        0 <= i < k ==> file_fault(
                            offer.files@,
                            facts@,
                            canonical_root.deep_view(),
                            i,
                        ) is None
                    &&& #[trigger] file_fault(
                        offer.files@,
                        facts@,
                        canonical_root.deep_view(),
                        k,
                    ) matches Some(fault)
                    &&& fault is Path ==> e is UnsafePath
                    &&& fault is Duplicate ==> e is Protocol
                },
        },
{
    let ghost files = offer.files@;
    let ghost croot = canonical_root.deep_view();
    let mut plan: Vec<PlannedFile> = Vec::new();
    let mut i: usize = 0;
    while i < offer.files.len()
        invariant
            files == offer.files@,
            croot == canonical_root.deep_view(),
            facts@.len() == files.len(),
            i <= files.len(),
            plan@.len() == i,
            forall|j: int| 0 <= j < i ==> file_fault(files, facts@, croot, j) is None,
            forall|j: int|
                0 <= j < i ==> planned_as(#[trigger] plan@[j], files[j], facts@[j], root.deep_view()),
        decreases files.len() - i,
    {
        let file = &offer.files[i];
        let relative = match safe_relative_path(file.path.as_str()) {
            Ok(r) => r,
            Err(e) => {
                assert(file_fault(files, facts@, croot, i as int) matches Some(PlanFault::Path));
                return Err(e);
            },
        };
        let parent = match &facts[i].resolved_parent {
            Some(p) => Some(p),
            None => None,
        };
        let candidate = match resolve_within(root, &relative, canonical_root, parent) {
            Ok(c) => c,
            Err(e) => {
                assert(file_fault(files, facts@, croot, i as int) matches Some(PlanFault::Path));
                return Err(e);
            },
        };
        proof {
            lemma_resolved_path_is_inside(root.deep_view(), file.path@, candidate.deep_view());
        }
        let mut j: usize = 0;
        while j < plan.len()
            invariant
                j <= plan@.len(),
                plan@.len() == i,
                i < files.len(),
                file == files[i as int],
                files == offer.files@,
                croot == canonical_root.deep_view(),
                facts@.len() == files.len(),
                safe_path(file.path@) is Some,
                facts@[i as int].resolved_parent matches Some(p) && starts_with(p.deep_view(), croot),
                forall|k: int| 0 <= k < i ==> file_fault(files, facts@, croot, k) is None,
                forall|k: int|
                    0 <= k < i ==> planned_as(
                        #[trigger] plan@[k],
                        files[k],
                        facts@[k],
                        root.deep_view(),
                    ),
                forall|k: int| 0 <= k < j ==> files[k].index != file.index,
            decreases plan@.len() - j,
        {
            if plan[j].index == file.index {
                assert(planned_as(plan@[j as int], files[j as int], facts@[j as int], root.deep_view()));
                assert(file_fault(files, facts@, croot, i as int) matches Some(
                    PlanFault::Duplicate,
                ));
                return Err(reused_index(file.index));
            }
            assert(planned_as(plan@[j as int], files[j as int], facts@[j as int], root.deep_view()));
            j = j + 1;
        }
        let partial = partial_components(&candidate);
        let planned = PlannedFile {
            index: file.index,
            partial,
            final_path: candidate,
            resume_offset: resume_offset(facts[i].partial_len, file.size),
            declared_size: file.size,
        };
        plan.push(planned);
        proof {
            assert(file_fault(files, facts@, croot, i as int) is None);
            assert forall|k: int| 0 <= k < i + 1 implies planned_as(
                #[trigger] plan@[k],
                files[k],
                facts@[k],
                root.deep_view(),
            ) by {}
        }
        i = i + 1;
    }
    proof {
        lemma_plan_indices_distinct(files, facts@, croot, plan@, root.deep_view());
    }
    Ok(plan)
}

/// Every destination of a plan lies inside the receive folder: the root,
/// then at least one plain component.
pub proof fn lemma_planned_paths_stay_inside(
    p: PlannedFile,
    file: OfferedFile,
    facts: PathFacts,
    root: Seq<Seq<char>>,
)
    requires
        safe_path(file.path@) is Some,
        planned_as(p, file, facts, root),
    ensures
        starts_with(p.final_path.deep_view(), root),
        p.final_path.deep_view().len() > root.len(),
        forall|i: int|
            root.len() <= i < p.final_path.deep_view().len() ==> plain_component(
                #[trigger] p.final_path.deep_view()[i],
            ),
{
    lemma_resolved_path_is_inside(root, file.path@, p.final_path.deep_view());
}

/// The `Accept` for a plan: each planned file with its resume offset, in
/// the plan's order.
pub fn accept_for(transfer_id: &str, plan: &Vec<PlannedFile>) -> (res: Accept)
    ensures
        res.transfer_id@ == transfer_id@,
        res.files@.len() == plan@.len(),
        forall|i: int|
            0 <= i < plan@.len() ==> #[trigger] res.files@[i] == (AcceptedFile {
                index: plan@[i].index,
                resume_offset: plan@[i].resume_offset,
            }),
{
    let mut files: Vec<AcceptedFile> = Vec::new();
    let mut i: usize = 0;
    while i < plan.len()
        invariant
            i <= plan@.len(),
            files@.len() == i,
            forall|k: int|
                0 <= k < i ==> #[trigger] files@[k] == (AcceptedFile {
                    index: plan@[k].index,
                    resume_offset: plan@[k].resume_offset,
                }),
        decreases plan@.len() - i,
    {
        files.push(AcceptedFile { index: plan[i].index, resume_offset: plan[i].resume_offset });
        i = i + 1;
    }
    Accept { transfer_id: string_of(transfer_id), files }
}

/// No two planned files share an index.
pub open spec fn distinct_indices(plan: Seq<PlannedFile>) -> bool {
    forall|j: int, k: int|
        0 <= j < plan.len() && 0 <= k < plan.len() && j != k ==> #[trigger] plan[j].index
            != #[trigger] plan[k].index
}

/// A plan with no fault has no repeated index.
pub proof fn lemma_plan_indices_distinct(
    files: Seq<OfferedFile>,
    facts: Seq<PathFacts>,
    canonical_root: Seq<Seq<char>>,
    plan: Seq<PlannedFile>,
    root: Seq<Seq<char>>,
)
    requires
        plan.len() == files.len(),
        facts.len() == files.len(),
        forall|i: int| 0 <= i < files.len() ==> file_fault(files, facts, canonical_root, i) is None,
        forall|i: int| 0 <= i < plan.len() ==> planned_as(#[trigger] plan[i], files[i], facts[i], root),
    ensures
        distinct_indices(plan),
{
    assert forall|j: int, k: int|
        0 <= j < plan.len() && 0 <= k < plan.len() && j != k implies #[trigger] plan[j].index
            != #[trigger] plan[k].index by {
        assert(planned_as(plan[j], files[j], facts[j], root));
        assert(planned_as(plan[k], files[k], facts[k], root));
        if j < k {
            assert(file_fault(files, facts, canonical_root, k) is None);
        } else {
            assert(file_fault(files, facts, canonical_root, j) is None);
        }
    }
}

// ---------------------------------------------------------------------------
// Receiving: the decisions of the receive loop
// ---------------------------------------------------------------------------

/// The most a file may grow to: its declared size plus the allowance, capped
/// at `u64::MAX`.
pub open spec fn limit_of(declared: u64) -> u64 {
    if declared + SIZE_OVERRUN_ALLOWANCE > u64::MAX {
        u64::MAX
    } else {
        (declared + SIZE_OVERRUN_ALLOWANCE) as u64
    }
}

/// `a + b`, saturating at `u64::MAX`.
pub open spec fn saturating_sum(a: u64, b: nat) -> u64 {
    if a + b > u64::MAX {
        u64::MAX
    } else {
        (a + b) as u64
    }
}

/// How many files are open.
pub open spec fn open_count(state: Seq<Option<u64>>) -> nat
    decreases state.len(),
{
    if state.len() == 0 {
        0
    } else {
        open_count(state.drop_last()) + if state.last() is Some {
            1nat
        } else {
            0nat
        }
    }
}

/// What to do with the frame just read.
#[derive(Debug)]
pub enum ReceiveStep {
    /// Append `bytes` to planned file `position`, opening it first when
    /// `open` says so (files are opened lazily, so an offer of many files
    /// does not exhaust the descriptors up front).
    Write { position: usize, open: bool, bytes: Vec<u8> },
    /// Flush planned file `position`, check it against `hash` and move it
    /// into place; create it first when `open` says so (a zero-byte file
    /// sends no data).
    Finish { position: usize, open: bool, hash: String },
    /// The sender is done and every file was completed.
    Done,
}

/// What a session's answer to a frame is, and the state it moves to, given
/// its plan and the state before: `ReceiveSession::on_frame` in full.
pub open spec fn frame_outcome(
    plan: Seq<PlannedFile>,
    before: Seq<Option<u64>>,
    after: Seq<Option<u64>>,
    cancelled: bool,
    frame: Option<Frame>,
    res: Result<ReceiveStep>,
) -> bool {
    &&& cancelled ==> (res matches Err(Error::Cancelled) && after == before)
    &&& !cancelled && frame is None ==> {
            &&& res matches Err(Error::Protocol(m))
            &&& m@ == "the sender disconnected before the transfer finished"@
            &&& after == before
        }
    &&& !cancelled ==> (frame matches Some(Frame::Data { index, bytes }) ==> {
            &&& (forall|k: int|
                0 <= k < plan.len() ==> plan[k].index != index) ==> (
            res matches Err(Error::Protocol(_)) && after == before)
            &&& forall|k: int|
                0 <= k < plan.len() && plan[k].index == index ==> {
                    let held = match before[k] {
                        Some(w) => w,
                        None => plan[k].resume_offset,
                    };
                    let grown = saturating_sum(held, bytes@.len());
                    if grown > limit_of(plan[k].declared_size) {
                        &&& res matches Err(Error::Protocol(m))
                        &&& m@
                            == "the sender exceeded the file size it offered; transfer aborted"@
                        &&& after == before
                    } else {
                        &&& res matches Ok(ReceiveStep::Write { position, open, bytes: b })
                        &&& position == k
                        &&& open == (before[k] is None)
                        &&& b == bytes
                        &&& after == before.update(k, Some(grown))
                    }
                }
        })
    &&& !cancelled ==> (frame matches Some(Frame::Control(Control::FileComplete(complete)))
            ==> {
            &&& (forall|k: int|
                0 <= k < plan.len() ==> plan[k].index
                    != complete.index) ==> (res matches Err(Error::Protocol(_)) && after == before)
            &&& forall|k: int|
                0 <= k < plan.len() && plan[k].index == complete.index
                    ==> {
                    &&& res matches Ok(ReceiveStep::Finish { position, open, hash })
                    &&& position == k
                    &&& open == (before[k] is None)
                    &&& hash == complete.hash
                    &&& after == before.update(k, None)
                }
        })
    &&& !cancelled ==> (frame matches Some(Frame::Control(Control::TransferComplete(_)))
            ==> {
            &&& after == before
            &&& open_count(before) == 0 ==> (res matches Ok(ReceiveStep::Done))
            &&& open_count(before) > 0 ==> (res matches Err(Error::Protocol(_)))
        })
    &&& !cancelled ==> (frame matches Some(Frame::Control(Control::Cancel(c))) ==> {
            &&& res matches Err(Error::Declined(reason)) && reason == c.reason
            &&& after == before
        })
    &&& !cancelled ==> (frame matches Some(Frame::Control(other)) ==> !(other is FileComplete
            || other is TransferComplete || other is Cancel) ==> {
            &&& res matches Err(Error::Protocol(_))
            &&& after == before
        })
}

/// The receive loop's state: the plan, and for each planned file whether it
/// is open and how many bytes it holds so far (a resumed prefix included).
pub struct ReceiveSession {
    plan: Vec<PlannedFile>,
    written: Vec<Option<u64>>,
}

impl ReceiveSession {
    pub closed spec fn plan(&self) -> Seq<PlannedFile> {
        self.plan@
    }

    /// Per planned file: `Some(bytes held)` while it is open.
    pub closed spec fn state(&self) -> Seq<Option<u64>> {
        self.written@
    }

    /// No file ever holds more than its declared size plus the allowance.
    pub closed spec fn wf(&self) -> bool {
        &&& self.written@.len() == self.plan@.len()
        &&& distinct_indices(self.plan@)
        &&& forall|k: int|
            0 <= k < self.written@.len() ==> (#[trigger] self.written@[k] matches Some(w) ==> w
                <= limit_of(self.plan@[k].declared_size))
    }

    /// A session over a plan, with nothing open yet.
    pub fn new(plan: Vec<PlannedFile>) -> (res: ReceiveSession)
        requires
            distinct_indices(plan@),
        ensures
            res.wf(),
            res.plan() == plan@,
            res.state().len() == plan@.len(),
            forall|k: int| 0 <= k < plan@.len() ==> #[trigger] res.state()[k] is None,
    {
        let mut written: Vec<Option<u64>> = Vec::new();
        let mut i: usize = 0;
        while i < plan.len()
            invariant
                i <= plan@.len(),
                written@.len() == i,
                forall|k: int| 0 <= k < i ==> #[trigger] written@[k] is None,
            decreases plan@.len() - i,
        {
            written.push(None);
            i = i + 1;
        }
        ReceiveSession { plan, written }
    }

    /// The planned file at `position`.
    pub fn planned(&self, position: usize) -> (res: &PlannedFile)
        requires
            position < self.plan().len(),
        ensures
            *res == self.plan()[position as int],
    {
        &self.plan[position]
    }

    fn find(&self, index: u32) -> (res: Option<usize>)
        requires
            self.wf(),
        ensures
            match res {
                Some(k) => k < self.plan@.len() && self.plan@[k as int].index == index,
                None => forall|k: int| 0 <= k < self.plan@.len() ==> self.plan@[k].index != index,
            },
    {
        let mut k: usize = 0;
        while k < self.plan.len()
            invariant
                k <= self.plan@.len(),
                forall|j: int| 0 <= j < k ==> self.plan@[j].index != index,
            decreases self.plan@.len() - k,
        {
            if self.plan[k].index == index {
                return Some(k);
            }
            k = k + 1;
        }
        None
    }

    fn count_open(&self) -> (res: usize)
        requires
            self.wf(),
        ensures
            res == open_count(self.written@),
    {
        let mut n: usize = 0;
        let mut k: usize = 0;
        while k < self.written.len()
            invariant
                k <= self.written@.len(),
                n == open_count(self.written@.take(k as int)),
                n <= k,
            decreases self.written@.len() - k,
        {
            proof {
                assert(self.written@.take(k + 1).drop_last() =~= self.written@.take(k as int));
            }
            if self.written[k].is_some() {
                n = n + 1;
            }
            k = k + 1;
        }
        assert(self.written@.take(k as int) =~= self.written@);
        n
    }

    fn on_file_complete(&mut self, index: u32, hash: String) -> (res: Result<ReceiveStep>)
        requires
            old(self).wf(),
        ensures
            final(self).wf(),
            final(self).plan() == old(self).plan(),
            (forall|k: int| 0 <= k < old(self).plan().len() ==> old(self).plan()[k].index != index)
                ==> (res matches Err(Error::Protocol(_)) && final(self).state() == old(self).state()),
            forall|k: int|
                0 <= k < old(self).plan().len() && old(self).plan()[k].index == index ==> {
                    &&& res matches Ok(ReceiveStep::Finish { position, open, hash: h })
                    &&& position == k
                    &&& open == (old(self).state()[k] is None)
                    &&& h == hash
                    &&& final(self).state() == old(self).state().update(k, None)
                },
    {
        match self.find(index) {
            None => {
                let mut v: Vec<char> = Vec::new();
                push_str(&mut v, "completion for unoffered file index ");
                push_decimal(&mut v, index as u64);
                Err(Error::Protocol(string_from_chars(&v)))
            },
            Some(k) => {
                assert(old(self).plan()[k as int].index == index);
                let open = self.written[k].is_none();
                self.written.set(k, None);
                proof {
                    assert forall|j: int| 0 <= j < self.written@.len() implies (
                    #[trigger] self.written@[j] matches Some(w) ==> w <= limit_of(
                        self.plan@[j].declared_size,
                    )) by {
                        if j != k {
                            assert(self.written@[j] == old(self).written@[j]);
                        }
                    }
                    assert forall|j: int|
                        0 <= j < old(self).plan().len() && old(self).plan()[j].index
                            == index implies j == k by {
                        if j != k {
                            assert(old(self).plan()[j].index != old(self).plan()[k as int].index);
                        }
                    }
                }
                Ok(ReceiveStep::Finish { position: k, open, hash })
            },
        }
    }

    /// Decides what the frame just read means. `cancelled` is whether the
    /// user cancelled the transfer since the last frame.
    #[verifier::spinoff_prover]
    #[verifier::rlimit(40)]
    pub fn on_frame(&mut self, cancelled: bool, frame: Option<Frame>) -> (res: Result<ReceiveStep>)
        requires
            old(self).wf(),
        ensures
            final(self).wf(),
            final(self).plan() == old(self).plan(),
            frame_outcome(old(self).plan(), old(self).state(), final(self).state(), cancelled, frame, res),
    {
        if cancelled {
            return Err(Error::Cancelled);
        }
        match frame {
            None => Err(
                Error::Protocol(string_of("the sender disconnected before the transfer finished")),
            ),
            Some(Frame::Data { index, bytes }) => {
                match self.find(index) {
                    None => {
                        let mut v: Vec<char> = Vec::new();
                        push_str(&mut v, "received data for unoffered file index ");
                        push_decimal(&mut v, index as u64);
                        Err(Error::Protocol(string_from_chars(&v)))
                    },
                    Some(k) => {
                        assert(old(self).plan()[k as int].index == index);
                        let open = self.written[k].is_none();
                        let held = match self.written[k] {
                            Some(w) => w,
                            None => self.plan[k].resume_offset,
                        };
                        let len = bytes.len() as u64;
                        let after = held.saturating_add(len);
                        let declared = self.plan[k].declared_size;
                        let limit = declared.saturating_add(SIZE_OVERRUN_ALLOWANCE);
                        if after > limit {
                            return Err(
                                Error::Protocol(
                                    string_of(
                                        "the sender exceeded the file size it offered; transfer aborted",
                                    ),
                                ),
                            );
                        }
                        self.written.set(k, Some(after));
                        proof {
                            assert forall|j: int| 0 <= j < self.written@.len() implies (
                            #[trigger] self.written@[j] matches Some(w) ==> w <= limit_of(
                                self.plan@[j].declared_size,
                            )) by {
                                if j != k {
                                    assert(self.written@[j] == old(self).written@[j]);
                                }
                            }
                            assert forall|j: int|
                                0 <= j < old(self).plan().len() && old(self).plan()[j].index
                                    == index implies j == k by {
                                if j != k {
                                    assert(old(self).plan()[j].index != old(self).plan()[k as int].index);
                                }
                            }
                        }
                        Ok(ReceiveStep::Write { position: k, open, bytes })
                    },
                }
            },
            Some(Frame::Control(Control::FileComplete(complete))) => {
                self.on_file_complete(complete.index, complete.hash)
            },
            Some(Frame::Control(Control::TransferComplete(_))) => {
                // Anything still open never got its completion message, so
                // its contents cannot be verified.
                let n = self.count_open();
                if n > 0 {
                    let mut v: Vec<char> = Vec::new();
                    push_decimal(&mut v, n as u64);
                    push_str(&mut v, " file(s) ended without a completion message");
                    Err(Error::Protocol(string_from_chars(&v)))
                } else {
                    Ok(ReceiveStep::Done)
                }
            },
            Some(Frame::Control(Control::Cancel(cancel))) => Err(Error::Declined(cancel.reason)),
            Some(Frame::Control(other)) => {
                let mut v: Vec<char> = Vec::new();
                push_str(&mut v, "unexpected ");
                push_str(&mut v, control_name(&other));
                push_str(&mut v, " during transfer");
                Err(Error::Protocol(string_from_chars(&v)))
            },
        }
    }
}

/// The disk-fill guard: in every state the receive loop can reach, no open
/// file holds more than its declared size plus the allowance.
pub proof fn lemma_no_file_exceeds_its_allowance(session: ReceiveSession)
    requires
        session.wf(),
    ensures
        forall|k: int|
            0 <= k < session.state().len() ==> (#[trigger] session.state()[k] matches Some(w)
                ==> w <= limit_of(session.plan()[k].declared_size)),
{
}

/// Whether a received file is the one that was sent: its BLAKE3 hash (hex)
/// against the one the sender declared. A mismatch means corrupt, truncated
/// or tampered-with content, and the file is discarded.
pub fn check_integrity(actual: &str, expected: &str, final_path: &str) -> (res: Result<()>)
    ensures
        actual@ == expected@ ==> res is Ok,
        actual@ != expected@ ==> (res matches Err(Error::Protocol(m)) && m@ == final_path@
            + " failed its integrity check and was discarded"@),
{
    if str_eq(actual, expected) {
        Ok(())
    } else {
        let mut v: Vec<char> = Vec::new();
        push_str(&mut v, final_path);
        push_str(&mut v, " failed its integrity check and was discarded");
        Err(Error::Protocol(string_from_chars(&v)))
    }
}

/// The status a finished receive leaves its transfer in: completed on
/// success, cancelled when the user cancelled, failed otherwise (a sender
/// that backs out mid-transfer included).
pub open spec fn receive_settles(
    outcome: Result<()>,
    before: ProgressView,
    after: ProgressView,
) -> bool {
    match outcome {
        Ok(()) => after == (ProgressView {
            status: Status::Completed,
            current_file: None,
            transferred_bytes: before.total_bytes,
            ..before
        }),
        Err(Error::Cancelled) => after == (ProgressView { status: Status::Cancelled, ..before }),
        Err(e) => after == (ProgressView {
            status: Status::Failed,
            error: Some(message_of(e)),
            current_file: None,
            ..before
        }),
    }
}

/// Records how a receive ended and returns the progress to report (`None`
/// for a transfer that is not tracked).
pub fn settle_receive(manager: &mut TransferManager, transfer_id: &str, outcome: &Result<()>) -> (res:
    Option<TransferProgress>)
    requires
        old(manager).wf(),
    ensures
        final(manager).wf(),
        final(manager).prompts() == old(manager).prompts(),
        !old(manager)@.contains_key(transfer_id@) ==> res is None && final(manager)@ == old(manager)@,
        old(manager)@.contains_key(transfer_id@) ==> (res matches Some(p) && receive_settles(
            *outcome,
            old(manager)@[transfer_id@].progress,
            p@,
        ) && final(manager)@ == old(manager)@.insert(
            transfer_id@,
            state_view(p@, old(manager)@[transfer_id@].cancelled),
        )),
{
    match outcome {
        Ok(()) => manager.complete(transfer_id),
        Err(Error::Cancelled) => manager.set_status(transfer_id, Status::Cancelled),
        Err(e) => {
            let message = e.message();
            manager.fail(transfer_id, message.as_str())
        },
    }
}

// ---------------------------------------------------------------------------
// One incoming connection, from greeting to the last frame
// ---------------------------------------------------------------------------

/// Where an incoming connection stands.
#[derive(Debug, Clone, Copy, PartialEq, Eq, Structural)]
pub enum InboundStage {
    /// Waiting for the peer's `Hello`.
    Greeting,
    /// The user is comparing pairing codes with an unknown device.
    AwaitingPairing,
    /// The peer is authenticated; waiting for what it wants to send.
    AwaitingOffer,
    /// The user is being asked about the offer.
    AwaitingConsent,
    /// The offer is accepted; its paths are about to be validated.
    Planning,
    /// Files are arriving.
    Receiving,
    /// Nothing more happens on this connection.
    Closed,
}

/// What to do once an offer has arrived.
#[derive(Debug)]
pub enum OfferNext {
    /// The peer is pinned and marked auto-accept: go on to planning.
    Proceed { progress: TransferProgress },
    /// Ask the user: emit these, then wait for the answer.
    Ask { progress: TransferProgress, awaiting: Option<TransferProgress>, prompt: TransferEvent },
}

/// The receiving side of one connection. The order of its stages is the
/// point: the peer is authenticated, then the user (or a standing
/// auto-accept for that very key) consents, then every path is validated,
/// and only then is anything written.
pub struct Inbound {
    stage: InboundStage,
    presented: Fingerprint,
    hello: Option<Hello>,
    peer_name: String,
    offer: Option<Offer>,
    session: Option<ReceiveSession>,
    /// The presented key was pinned to the peer's device ID when it greeted
    /// us, or the user confirmed the pairing code for it.
    authenticated: Ghost<bool>,
    /// The user accepted the offer, or the pinned peer is marked
    /// auto-accept for the presented key.
    consented: Ghost<bool>,
}

impl Inbound {
    pub closed spec fn stage(&self) -> InboundStage {
        self.stage
    }

    pub closed spec fn presented(&self) -> Fingerprint {
        self.presented
    }

    pub closed spec fn authenticated(&self) -> bool {
        self.authenticated@
    }

    pub closed spec fn consented(&self) -> bool {
        self.consented@
    }

    /// The peer's `Hello`, once it greeted us.
    pub closed spec fn peer_hello(&self) -> Hello {
        self.hello->0
    }

    /// The peer's display name as the trust store knows it, once it is
    /// authenticated.
    pub closed spec fn the_peer_name(&self) -> Seq<char> {
        self.peer_name@
    }

    /// The offer, once it arrived.
    pub closed spec fn the_offer(&self) -> Offer {
        self.offer->0
    }

    /// The receive loop's state, once receiving.
    pub closed spec fn the_session(&self) -> ReceiveSession {
        self.session->0
    }

    pub closed spec fn wf(&self) -> bool {
        &&& (self.stage == InboundStage::AwaitingPairing || self.stage
            == InboundStage::AwaitingOffer || self.stage == InboundStage::AwaitingConsent
            || self.stage == InboundStage::Planning || self.stage == InboundStage::Receiving)
            ==> self.hello is Some
        &&& (self.stage == InboundStage::Greeting || self.stage == InboundStage::AwaitingPairing
            || self.stage == InboundStage::AwaitingOffer || self.stage
            == InboundStage::AwaitingConsent) ==> !self.consented@
        &&& (self.stage == InboundStage::AwaitingOffer || self.stage
            == InboundStage::AwaitingConsent || self.stage == InboundStage::Planning
            || self.stage == InboundStage::Receiving) ==> self.authenticated@
        &&& (self.stage == InboundStage::AwaitingConsent || self.stage == InboundStage::Planning
            || self.stage == InboundStage::Receiving) ==> self.offer is Some
        &&& (self.stage == InboundStage::Planning || self.stage == InboundStage::Receiving)
            ==> self.consented@
        &&& self.stage == InboundStage::Receiving ==> (self.session matches Some(session)
            && session.wf())
    }

    /// A connection whose TLS handshake completed with the peer proving it
    /// holds the key of `presented`.
    pub fn new(presented: Fingerprint) -> (res: Inbound)
        ensures
            res.wf(),
            res.stage() == InboundStage::Greeting,
            res.presented() == presented,
            !res.authenticated(),
            !res.consented(),
    {
        Inbound {
            stage: InboundStage::Greeting,
            presented,
            hello: None,
            peer_name: String::new(),
            offer: None,
            session: None,
            authenticated: Ghost(false),
            consented: Ghost(false),
        }
    }

    /// The peer's reply to our `Hello`, and the trust check's verdict on it. A
    /// refused or malformed greeting closes the connection; an unknown
    /// device is asked about.
    #[verifier::spinoff_prover]
    #[verifier::rlimit(40)]
    pub fn greet(&mut self, reply: Control, trust: &mut TrustStore, own: &Fingerprint) -> (res:
        Result<GateDecision>)
        requires
            old(self).wf(),
            old(self).stage() == InboundStage::Greeting,
            old(trust).wf(),
        ensures
            final(self).wf(),
            final(trust).wf(),
            final(self).presented() == old(self).presented(),
            res is Ok ==> !final(self).consented(),
            res is Err ==> final(self).stage() == InboundStage::Closed && final(trust)@ == old(trust)@,
            res is Ok ==> reply is Hello && final(self).peer_hello() == reply->Hello_0,
            res matches Ok(decision) ==> (decision is Proceed) == (verdict_of(
                old(trust)@,
                final(self).peer_hello().device_id@,
                old(self).presented()@,
            ) is Trusted),
            res matches Ok(decision) ==> (decision is AskPairing) == (verdict_of(
                old(trust)@,
                final(self).peer_hello().device_id@,
                old(self).presented()@,
            ) is Unknown),
            res matches Ok(decision) ==> (decision is Proceed ==> final(self).stage()
                == InboundStage::AwaitingOffer && final(self).authenticated()),
            res matches Ok(GateDecision::Proceed(peer)) ==> final(self).the_peer_name()
                == peer.device_name@,
            res matches Ok(decision) ==> (decision is Refuse ==> final(self).stage()
                == InboundStage::Closed),
            res matches Ok(decision) ==> (decision is AskPairing ==> final(self).stage()
                == InboundStage::AwaitingPairing && !final(self).authenticated()),
            res matches Ok(decision) ==> (!(decision is Proceed) ==> final(trust)@ == old(trust)@),
            match accepted_hello(reply) {
                Some(h) => res matches Ok(decision) && final(self).peer_hello() == h && gate_outcome(
                    old(trust)@,
                    final(trust)@,
                    own@,
                    old(self).presented()@,
                    h,
                    Direction::Receive,
                    decision,
                ),
                None => res matches Err(Error::Protocol(_)),
            },
    {
        let hello = match check_hello(reply) {
            Ok(h) => h,
            Err(e) => {
                self.stage = InboundStage::Closed;
                return Err(e);
            },
        };
        let decision = check(trust, own, &self.presented, &hello, Direction::Receive);
        match &decision {
            GateDecision::Proceed(peer) => {
                self.peer_name = peer.device_name.clone();
                self.authenticated = Ghost(true);
                self.stage = InboundStage::AwaitingOffer;
            },
            GateDecision::Refuse { .. } => {
                self.stage = InboundStage::Closed;
            },
            GateDecision::AskPairing(_) => {
                self.authenticated = Ghost(false);
                self.stage = InboundStage::AwaitingPairing;
            },
        }
        self.hello = Some(hello);
        Ok(decision)
    }

    /// The user's answer to the pairing prompt: the presented key is pinned
    /// and the connection goes on, or nothing is pinned and it closes.
    pub fn paired(&mut self, confirmed: bool, trust: &mut TrustStore) -> (res: Result<TrustedPeer>)
        requires
            old(self).wf(),
            old(self).stage() == InboundStage::AwaitingPairing,
            old(trust).wf(),
        ensures
            final(self).wf(),
            final(trust).wf(),
            final(self).presented() == old(self).presented(),
            final(self).peer_hello() == old(self).peer_hello(),
            confirmed ==> !final(self).consented(),
            confirmed ==> (res matches Ok(peer) && peer.fingerprint == old(self).presented()
                && final(trust)@ == old(trust)@.insert(old(self).peer_hello().device_id@, peer@)
                && final(self).stage() == InboundStage::AwaitingOffer && final(self).authenticated()
                && final(self).the_peer_name() == peer.device_name@),
            !confirmed ==> {
                &&& res matches Err(Error::Declined(_))
                &&& final(trust)@ == old(trust)@
                &&& final(self).stage() == InboundStage::Closed
            },
            pairing_finished(
                old(trust)@,
                final(trust)@,
                old(self).peer_hello(),
                old(self).presented(),
                confirmed,
                res,
            ),
    {
        let result = match &self.hello {
            Some(hello) => finish_pairing(trust, hello, self.presented, confirmed),
            None => Err(Error::Cancelled),
        };
        match &result {
            Ok(peer) => {
                self.peer_name = peer.device_name.clone();
                self.authenticated = Ghost(true);
                self.stage = InboundStage::AwaitingOffer;
            },
            Err(_) => {
                self.stage = InboundStage::Closed;
            },
        }
        result
    }

    /// The peer's next message, which must be its offer. The transfer is
    /// registered; then either the pinned peer's standing auto-accept for
    /// this very key lets it through, or the user is asked.
    pub fn receive_offer(
        &mut self,
        reply: Control,
        remote: &str,
        manager: &mut TransferManager,
        trust: &TrustStore,
    ) -> (res: Result<OfferNext>)
        requires
            old(self).wf(),
            old(self).stage() == InboundStage::AwaitingOffer,
            old(manager).wf(),
            trust.wf(),
        ensures
            final(self).wf(),
            final(manager).wf(),
            final(self).presented() == old(self).presented(),
            final(self).peer_hello() == old(self).peer_hello(),
            final(self).authenticated() == old(self).authenticated(),
            !(reply is Offer) ==> (res matches Err(Error::Protocol(_)) && final(self).stage()
                == InboundStage::Closed && final(manager)@ == old(manager)@),
            reply matches Control::Offer(o) ==> {
                let auto = auto_accepts_of(
                    trust@,
                    old(self).peer_hello().device_id@,
                    old(self).presented()@,
                );
                let registered = ProgressView {
                    transfer_id: o.transfer_id@,
                    direction: Direction::Receive,
                    peer_device_id: old(self).peer_hello().device_id@,
                    peer_name: old(self).the_peer_name(),
                    status: Status::Connecting,
                    total_bytes: o.total_bytes,
                    transferred_bytes: 0,
                    file_count: o.files@.len() as usize,
                    files_completed: 0,
                    current_file: None,
                    bytes_per_second: 0,
                    error: None,
                };
                &&& final(self).the_offer() == o
                &&& final(manager)@.contains_key(o.transfer_id@)
                &&& res matches Ok(next) && match next {
                    OfferNext::Proceed { progress } => progress@ == registered,
                    OfferNext::Ask { progress, awaiting, .. } => progress@ == registered && (
                    awaiting matches Some(a) && a@ == (ProgressView {
                        status: Status::AwaitingApproval,
                        ..registered
                    })),
                }
                &&& final(manager)@ == old(manager)@.insert(
                    o.transfer_id@,
                    state_view(
                        if auto {
                            registered
                        } else {
                            ProgressView { status: Status::AwaitingApproval, ..registered }
                        },
                        false,
                    ),
                )
                &&& auto ==> (res matches Ok(OfferNext::Proceed { .. }) && final(self).stage()
                    == InboundStage::Planning && final(self).consented())
                &&& !auto ==> (res matches Ok(OfferNext::Ask { prompt, .. }) && (
                prompt matches TransferEvent::Offer(p) && offer_prompt(
                    p,
                    o,
                    old(self).peer_hello().device_id@,
                    old(self).the_peer_name(),
                    old(self).presented()@,
                )) && final(self).stage() == InboundStage::AwaitingConsent
                    && final(manager).prompts().0.contains(o.transfer_id@))
            },
    {
        let offer = match reply {
            Control::Offer(o) => o,
            other => {
                let mut v: Vec<char> = Vec::new();
                push_str(&mut v, "expected an Offer from ");
                push_str(&mut v, remote);
                push_str(&mut v, ", got ");
                push_str(&mut v, control_name(&other));
                self.stage = InboundStage::Closed;
                return Err(Error::Protocol(string_from_chars(&v)));
            },
        };
        let (device_id, auto) = match &self.hello {
            Some(h) => (h.device_id.clone(), trust.auto_accepts(h.device_id.as_str(), &self.presented)),
            None => (String::new(), false),
        };
        let progress = manager.register(
            offer.transfer_id.as_str(),
            Direction::Receive,
            device_id.as_str(),
            self.peer_name.as_str(),
            offer.files.len(),
            offer.total_bytes,
        );
        if auto {
            self.consented = Ghost(true);
            self.offer = Some(offer);
            self.stage = InboundStage::Planning;
            return Ok(OfferNext::Proceed { progress });
        }
        let awaiting = manager.set_status(offer.transfer_id.as_str(), Status::AwaitingApproval);
        let prompt = manager.open_offer(
            incoming_offer(&offer, device_id.as_str(), self.peer_name.as_str(), &self.presented),
        );
        self.offer = Some(offer);
        self.stage = InboundStage::AwaitingConsent;
        Ok(OfferNext::Ask { progress, awaiting, prompt })
    }

    /// The user's answer. A decline closes the connection with a `Reject` to
    /// send, and the transfer is recorded as declined; an accept moves on to
    /// planning.
    pub fn decide(&mut self, decision: OfferDecision, manager: &mut TransferManager) -> (res: Option<
        (Control, Option<TransferProgress>),
    >)
        requires
            old(self).wf(),
            old(self).stage() == InboundStage::AwaitingConsent,
            old(manager).wf(),
        ensures
            final(self).wf(),
            final(manager).wf(),
            final(self).presented() == old(self).presented(),
            final(self).peer_hello() == old(self).peer_hello(),
            final(self).the_offer() == old(self).the_offer(),
            final(self).authenticated() == old(self).authenticated(),
            decision is Accept ==> res is None && final(self).stage() == InboundStage::Planning
                && final(self).consented() && final(manager)@ == old(manager)@,
            decision matches OfferDecision::Decline(reason) ==> {
                &&& res matches Some((Control::Reject(r), _))
                &&& r.transfer_id@ == old(self).the_offer().transfer_id@
                &&& r.reason == reason
                &&& final(self).stage() == InboundStage::Closed
            },
            final(manager).prompts() == old(manager).prompts(),
            decision is Decline ==> {
                let tid = old(self).the_offer().transfer_id@;
                &&& old(manager)@.contains_key(tid) ==> (res matches Some((_, Some(p))) && p@
                    == (ProgressView { status: Status::Declined, ..old(manager)@[tid].progress })
                    && final(manager)@ == old(manager)@.insert(
                    tid,
                    state_view(p@, old(manager)@[tid].cancelled),
                ))
                &&& !old(manager)@.contains_key(tid) ==> (res matches Some((_, None))
                    && final(manager)@ == old(manager)@)
            },
    {
        match decision {
            OfferDecision::Accept => {
                self.consented = Ghost(true);
                self.stage = InboundStage::Planning;
                None
            },
            OfferDecision::Decline(reason) => {
                let transfer_id = match &self.offer {
                    Some(o) => o.transfer_id.clone(),
                    None => String::new(),
                };
                let progress = manager.set_status(transfer_id.as_str(), Status::Declined);
                self.stage = InboundStage::Closed;
                Some((Control::Reject(Reject { transfer_id, reason }), progress))
            },
        }
    }

    /// The offer, for looking up what the filesystem says of its paths.
    pub fn offer(&self) -> (res: &Offer)
        requires
            self.wf(),
            self.stage() == InboundStage::Planning,
        ensures
            *res == self.the_offer(),
    {
        match &self.offer {
            Some(o) => o,
            None => {
                assert(false);
                self.offer.as_ref().unwrap()
            },
        }
    }

    /// Validates every path of the accepted offer under the receive folder
    /// `root` and, when all pass, returns the `Accept` to send. A path that
    /// fails closes the connection with nothing written, and the transfer is
    /// recorded as failed in `manager`; the progress to report comes back
    /// with the error.
    pub fn plan(
        &mut self,
        root: &Vec<String>,
        canonical_root: &Vec<String>,
        facts: &Vec<PathFacts>,
        manager: &mut TransferManager,
    ) -> (res: (Result<Control>, Option<TransferProgress>))
        requires
            old(self).wf(),
            old(self).stage() == InboundStage::Planning,
            facts@.len() == old(self).the_offer().files@.len(),
            old(manager).wf(),
        ensures
            final(self).wf(),
            final(self).presented() == old(self).presented(),
            final(self).authenticated() == old(self).authenticated(),
            final(self).consented() == old(self).consented(),
            final(self).the_offer() == old(self).the_offer(),
            final(manager).wf(),
            final(manager).prompts() == old(manager).prompts(),
            plan_clean(old(self).the_offer().files@, facts@, canonical_root.deep_view()) ==> {
                &&& res.0 matches Ok(Control::Accept(a))
                &&& final(self).stage() == InboundStage::Receiving
                &&& plan_of(
                    final(self).the_session().plan(),
                    old(self).the_offer().files@,
                    facts@,
                    root.deep_view(),
                )
                &&& accepts(
                    a,
                    old(self).the_offer().transfer_id@,
                    final(self).the_session().plan(),
                )
                &&& forall|k: int|
                    0 <= k < final(self).the_session().state().len()
                        ==> #[trigger] final(self).the_session().state()[k] is None
                &&& final(self).the_session().state().len() == final(self).the_session().plan().len()
                &&& res.1 is None
                &&& final(manager)@ == old(manager)@
            },
            !plan_clean(old(self).the_offer().files@, facts@, canonical_root.deep_view()) ==> {
                let tid = old(self).the_offer().transfer_id@;
                &&& res.0 matches Err(e)
                &&& first_fault_error(
                    old(self).the_offer().files@,
                    facts@,
                    canonical_root.deep_view(),
                    e,
                )
                &&& final(self).stage() == InboundStage::Closed
                &&& old(manager)@.contains_key(tid) ==> (res.1 matches Some(p) && receive_settles(
                    Err(e),
                    old(manager)@[tid].progress,
                    p@,
                ) && final(manager)@ == old(manager)@.insert(
                    tid,
                    state_view(p@, old(manager)@[tid].cancelled),
                ))
                &&& !old(manager)@.contains_key(tid) ==> (res.1 is None && final(manager)@
                    == old(manager)@)
            },
    {
        let offer = match &self.offer {
            Some(o) => o,
            None => {
                self.stage = InboundStage::Closed;
                return (Err(Error::Cancelled), None);
            },
        };
        match build_plan(offer, root, canonical_root, facts) {
            Ok(plan) => {
                let accept = accept_for(offer.transfer_id.as_str(), &plan);
                self.session = Some(ReceiveSession::new(plan));
                self.stage = InboundStage::Receiving;
                (Ok(Control::Accept(accept)), None)
            },
            Err(e) => {
                let outcome: Result<()> = Err(e);
                let progress = settle_receive(manager, offer.transfer_id.as_str(), &outcome);
                self.stage = InboundStage::Closed;
                match outcome {
                    Err(e) => (Err(e), progress),
                    Ok(()) => (Err(Error::Cancelled), progress),
                }
            },
        }
    }

    /// What the frame just read means; see `ReceiveSession::on_frame`.
    /// Anything to write comes only from a connection that was
    /// authenticated, consented to and planned.
    pub fn frame(&mut self, cancelled: bool, frame: Option<Frame>) -> (res: Result<ReceiveStep>)
        requires
            old(self).wf(),
            old(self).stage() == InboundStage::Receiving,
        ensures
            final(self).wf(),
            final(self).stage() == InboundStage::Receiving,
            final(self).authenticated() && final(self).consented(),
            res matches Ok(ReceiveStep::Write { .. }) ==> final(self).authenticated() && final(self).consented(),
            final(self).presented() == old(self).presented(),
            final(self).peer_hello() == old(self).peer_hello(),
            final(self).the_offer() == old(self).the_offer(),
            final(self).the_session().plan() == old(self).the_session().plan(),
            frame_outcome(
                old(self).the_session().plan(),
                old(self).the_session().state(),
                final(self).the_session().state(),
                cancelled,
                frame,
                res,
            ),
    {
        match &mut self.session {
            Some(session) => session.on_frame(cancelled, frame),
            None => Err(Error::Cancelled),
        }
    }

    /// The planned file at `position`.
    pub fn planned(&self, position: usize) -> (res: &PlannedFile)
        requires
            self.wf(),
            self.stage() == InboundStage::Receiving,
            position < self.the_session().plan().len(),
        ensures
            *res == self.the_session().plan()[position as int],
    {
        match &self.session {
            Some(session) => session.planned(position),
            None => {
                assert(false);
                self.session.as_ref().unwrap().planned(position)
            },
        }
    }

    /// Closes the connection.
    pub fn close(&mut self)
        requires
            old(self).wf(),
        ensures
            final(self).wf(),
            final(self).stage() == InboundStage::Closed,
    {
        self.stage = InboundStage::Closed;
    }
}

} // verus!
