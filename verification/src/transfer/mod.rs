//! Transfer state, progress reporting, and the decisions of the approval
//! gates.
pub mod gate;
pub mod recv;
pub mod send;

use vstd::prelude::*;

use std::time::Instant;

use crate::discovery::{clock_instant, lemma_clock_instant, now};
use crate::error::{Error, Result};
use crate::text::{chars_of, push_all, push_str, str_eq, string_from_chars, string_of};

verus! {

/// Progress updates are coalesced to at most one per this many
/// milliseconds.
pub const PROGRESS_INTERVAL_MS: u64 = 100;

/// How long a prompt may sit unanswered before the transfer gives up.
pub const APPROVAL_TIMEOUT_SECS: u64 = 180;

/// Below this much elapsed time (in microseconds) no rate is reported.
pub const MIN_RATE_WINDOW_MICROS: u64 = 50000;

#[derive(Debug, Clone, Copy, PartialEq, Eq, Structural)]
pub enum Direction {
    Send,
    Receive,
}

#[derive(Debug, Clone, Copy, PartialEq, Eq, Structural)]
pub enum Status {
    /// Connecting and handshaking.
    Connecting,
    /// Blocked on a human: a pairing confirmation or an accept prompt.
    AwaitingApproval,
    Active,
    Completed,
    Declined,
    Cancelled,
    Failed,
}

pub open spec fn terminal(s: Status) -> bool {
    s == Status::Completed || s == Status::Declined || s == Status::Cancelled || s
        == Status::Failed
}

impl Status {
    pub fn is_terminal(self) -> (res: bool)
        ensures
            res == terminal(self),
    {
        match self {
            Status::Completed | Status::Declined | Status::Cancelled | Status::Failed => true,
            _ => false,
        }
    }
}

#[derive(Debug)]
pub struct TransferProgress {
    pub transfer_id: String,
    pub direction: Direction,
    pub peer_device_id: String,
    pub peer_name: String,
    pub status: Status,
    pub total_bytes: u64,
    pub transferred_bytes: u64,
    pub file_count: usize,
    pub files_completed: usize,
    pub current_file: Option<String>,
    pub bytes_per_second: u64,
    pub error: Option<String>,
}

pub struct ProgressView {
    pub transfer_id: Seq<char>,
    pub direction: Direction,
    pub peer_device_id: Seq<char>,
    pub peer_name: Seq<char>,
    pub status: Status,
    pub total_bytes: u64,
    pub transferred_bytes: u64,
    pub file_count: usize,
    pub files_completed: usize,
    pub current_file: Option<Seq<char>>,
    pub bytes_per_second: u64,
    pub error: Option<Seq<char>>,
}

pub open spec fn opt_view(o: Option<String>) -> Option<Seq<char>> {
    match o {
        Some(s) => Some(s@),
        None => None,
    }
}

fn clone_opt(o: &Option<String>) -> (res: Option<String>)
    ensures
        opt_view(res) == opt_view(*o),
{
    match o {
        Some(s) => Some(s.clone()),
        None => None,
    }
}

impl View for TransferProgress {
    type V = ProgressView;

    open spec fn view(&self) -> ProgressView {
        ProgressView {
            transfer_id: self.transfer_id@,
            direction: self.direction,
            peer_device_id: self.peer_device_id@,
            peer_name: self.peer_name@,
            status: self.status,
            total_bytes: self.total_bytes,
            transferred_bytes: self.transferred_bytes,
            file_count: self.file_count,
            files_completed: self.files_completed,
            current_file: opt_view(self.current_file),
            bytes_per_second: self.bytes_per_second,
            error: opt_view(self.error),
        }
    }
}

impl Clone for TransferProgress {
    fn clone(&self) -> (res: TransferProgress)
        ensures
            res@ == self@,
    {
        TransferProgress {
            transfer_id: self.transfer_id.clone(),
            direction: self.direction,
            peer_device_id: self.peer_device_id.clone(),
            peer_name: self.peer_name.clone(),
            status: self.status,
            total_bytes: self.total_bytes,
            transferred_bytes: self.transferred_bytes,
            file_count: self.file_count,
            files_completed: self.files_completed,
            current_file: clone_opt(&self.current_file),
            bytes_per_second: self.bytes_per_second,
            error: clone_opt(&self.error),
        }
    }
}

/// An offer waiting on the user's decision.
#[derive(Debug, Clone)]
pub struct IncomingOffer {
    pub transfer_id: String,
    pub peer_device_id: String,
    pub peer_name: String,
    pub peer_fingerprint: String,
    pub file_count: usize,
    pub total_bytes: u64,
    /// The first few names, for the prompt.
    pub preview: Vec<String>,
}

/// A first-contact pairing waiting on the user comparing codes.
#[derive(Debug, Clone)]
pub struct PairingRequest {
    pub request_id: String,
    pub peer_device_id: String,
    pub peer_name: String,
    pub peer_fingerprint: String,
    /// The six digits that must match on both screens.
    pub pairing_code: String,
    pub direction: Direction,
}

/// Raised when a known device presents an unexpected key.
#[derive(Debug, Clone)]
pub struct IdentityWarning {
    pub peer_device_id: String,
    pub peer_name: String,
    pub expected_fingerprint: String,
    pub presented_fingerprint: String,
}

#[derive(Debug, Clone)]
pub enum TransferEvent {
    Progress(TransferProgress),
    Offer(IncomingOffer),
    Pairing(PairingRequest),
    Identity(IdentityWarning),
}

impl TransferEvent {
    /// The UI event name this maps to.
    pub fn channel(&self) -> (res: &'static str)
        ensures
            res@ == match self {
                TransferEvent::Progress(_) => "transfer://progress"@,
                TransferEvent::Offer(_) => "transfer://offer"@,
                TransferEvent::Pairing(_) => "transfer://pairing"@,
                TransferEvent::Identity(_) => "security://identity-mismatch"@,
            },
    {
        match self {
            TransferEvent::Progress(_) => "transfer://progress",
            TransferEvent::Offer(_) => "transfer://offer",
            TransferEvent::Pairing(_) => "transfer://pairing",
            TransferEvent::Identity(_) => "security://identity-mismatch",
        }
    }
}

/// One file inside a transfer.
#[derive(Debug, Clone)]
pub struct FileEntry {
    pub index: u32,
    /// Absolute path on the sender's disk. Empty on the receiving side.
    pub source: String,
    /// Path relative to the transfer root, as it goes on the wire.
    pub relative: String,
    pub size: u64,
}

// ---------------------------------------------------------------------------
// Expanding a selection into files
// ---------------------------------------------------------------------------

/// How deep folders are walked, guarding against pathological trees and any
/// link loop that slips past the link check.
pub const MAX_WALK_DEPTH: usize = 64;

/// What the filesystem holds at a selected path, as a transfer sees it.
/// Looked up without following links.
#[derive(Debug)]
pub enum Listing {
    /// A regular file: its name (none for a path without one), where it is
    /// read from, and its size.
    File { name: Option<String>, source: String, size: u64 },
    /// A folder: its name, and its entries in the order they are sent (the
    /// caller lists them sorted by name, so transfers are reproducible).
    Dir { name: Option<String>, children: Vec<Listing> },
    /// A link or anything else that is neither a file nor a folder. Skipped
    /// rather than followed: resolving it could pull in something the user
    /// did not choose to share.
    Other,
}

/// One file of an expanded selection: its wire path, where it is read from,
/// and its size.
pub type Collected = (Seq<char>, Seq<char>, u64);

pub open spec fn name_or(name: Option<String>, fallback: Seq<char>) -> Seq<char> {
    match name {
        Some(n) => n@,
        None => fallback,
    }
}

/// The files under a folder's entries, named below `prefix`, when the folder
/// sits `depth` levels down.
pub open spec fn walked(children: Seq<Listing>, prefix: Seq<char>, depth: nat) -> Seq<Collected>
    decreases children, 0nat,
{
    if depth >= MAX_WALK_DEPTH || children.len() == 0 {
        Seq::empty()
    } else {
        walked(children.drop_last(), prefix, depth) + child_files(
            children.last(),
            prefix,
            depth,
        )
    }
}

/// The files one folder entry contributes.
pub open spec fn child_files(child: Listing, prefix: Seq<char>, depth: nat) -> Seq<Collected>
    decreases child, 1nat,
{
    match child {
        Listing::File { name, source, size } => seq![
            (prefix + seq!['/'] + name_or(name, "file"@), source@, size),
        ],
        Listing::Dir { name, children } => walked(
            children@,
            prefix + seq!['/'] + name_or(name, "folder"@),
            depth + 1,
        ),
        Listing::Other => Seq::empty(),
    }
}

/// The files one selected path contributes: a file under its own name, a
/// folder's files under the folder's name (so its structure is reproduced on
/// the other side), and nothing for anything else.
pub open spec fn selected_files(item: Listing) -> Seq<Collected> {
    match item {
        Listing::File { name, source, size } => seq![(name_or(name, "file"@), source@, size)],
        Listing::Dir { name, children } => walked(children@, name_or(name, "folder"@), 0),
        Listing::Other => Seq::empty(),
    }
}

/// The files of a whole selection, in order.
pub open spec fn collected(selection: Seq<Listing>) -> Seq<Collected>
    decreases selection.len(),
{
    if selection.len() == 0 {
        Seq::empty()
    } else {
        collected(selection.drop_last()) + selected_files(selection.last())
    }
}

/// The entries for `files`, numbered from `first` on.
pub open spec fn numbered_entries(entries: Seq<FileEntry>, files: Seq<Collected>, first: nat) -> bool {
    &&& entries.len() == files.len()
    &&& forall|i: int|
        0 <= i < entries.len() ==> {
            &&& #[trigger] entries[i].index == first + i
            &&& entries[i].relative@ == files[i].0
            &&& entries[i].source@ == files[i].1
            &&& entries[i].size == files[i].2
        }
}

fn name_chars(name: &Option<String>, fallback: &str) -> (res: Vec<char>)
    ensures
        res@ == name_or(*name, fallback@),
{
    match name {
        Some(n) => chars_of(n.as_str()),
        None => chars_of(fallback),
    }
}

fn push_entry(out: &mut Vec<FileEntry>, relative: &Vec<char>, source: &String, size: u64)
    requires
        old(out)@.len() < u32::MAX,
    ensures
        final(out)@ == old(out)@.push(
            FileEntry {
                index: old(out)@.len() as u32,
                source: final(out)@.last().source,
                relative: final(out)@.last().relative,
                size,
            },
        ),
        final(out)@.last().relative@ == relative@,
        final(out)@.last().source@ == source@,
{
    let index = out.len() as u32;
    out.push(FileEntry { index, source: source.clone(), relative: string_from_chars(relative), size });
}

/// A prefix of a folder's entries contributes a prefix of its files.
proof fn lemma_walked_prefix(children: Seq<Listing>, prefix: Seq<char>, depth: nat, j: int)
    requires
        0 <= j <= children.len(),
    ensures
        walked(children.take(j), prefix, depth).len() <= walked(children, prefix, depth).len(),
        j < children.len() && depth < MAX_WALK_DEPTH ==> walked(children.take(j + 1), prefix, depth)
            == walked(children.take(j), prefix, depth) + child_files(children[j], prefix, depth),
    decreases children.len(),
{
    if j < children.len() {
        let t = children.take(j + 1);
        assert(t.drop_last() =~= children.take(j));
        assert(t.last() == children[j]);
        if j + 1 < children.len() {
            lemma_walked_prefix(children.drop_last(), prefix, depth, j);
            assert(children.drop_last().take(j) =~= children.take(j));
            assert(children.drop_last().take(j + 1) =~= children.take(j + 1));
            lemma_walked_prefix(children.drop_last(), prefix, depth, j + 1);
        } else {
            assert(children.take(j + 1) =~= children);
        }
    } else {
        assert(children.take(j) =~= children);
    }
}

/// Numbered runs of entries join into one numbered run.
proof fn lemma_numbered_concat(
    all: Seq<FileEntry>,
    start: int,
    mid: int,
    a: Seq<Collected>,
    b: Seq<Collected>,
)
    requires
        0 <= start <= mid <= all.len(),
        numbered_entries(all.subrange(start, mid), a, start as nat),
        numbered_entries(all.skip(mid), b, mid as nat),
    ensures
        numbered_entries(all.skip(start), a + b, start as nat),
{
    assert forall|i: int| 0 <= i < all.skip(start).len() implies {
        &&& #[trigger] all.skip(start)[i].index == start + i
        &&& all.skip(start)[i].relative@ == (a + b)[i].0
        &&& all.skip(start)[i].source@ == (a + b)[i].1
        &&& all.skip(start)[i].size == (a + b)[i].2
    } by {
        if i < mid - start {
            assert(all.skip(start)[i] == all.subrange(start, mid)[i]);
            assert(all.subrange(start, mid)[i].index == start + i);
            assert((a + b)[i] == a[i]);
        } else {
            let k = i - (mid - start);
            assert(all.skip(start)[i] == all.skip(mid)[k]);
            assert(all.skip(mid)[k].index == mid + k);
            assert((a + b)[i] == b[k]);
        }
    }
}

/// Appends the files under a folder's entries to `out`, numbering them on
/// from `out`'s length. A folder `depth` levels down is only walked while
/// `depth` is under the limit; links and other entries are skipped.
fn walk_dir(children: &Vec<Listing>, prefix: &Vec<char>, depth: usize, out: &mut Vec<FileEntry>)
    requires
        depth <= MAX_WALK_DEPTH,
        old(out)@.len() + walked(children@, prefix@, depth as nat).len() <= u32::MAX,
    ensures
        final(out)@.len() == old(out)@.len() + walked(children@, prefix@, depth as nat).len(),
        final(out)@.take(old(out)@.len() as int) == old(out)@,
        numbered_entries(
            final(out)@.skip(old(out)@.len() as int),
            walked(children@, prefix@, depth as nat),
            old(out)@.len() as nat,
        ),
    decreases children@, 0nat,
{
    let ghost start = out@.len() as int;
    let ghost initial = out@;
    if depth >= MAX_WALK_DEPTH {
        assert(out@.skip(start) =~= Seq::<FileEntry>::empty());
        assert(out@.take(start) =~= initial);
        return;
    }
    let mut i: usize = 0;
    proof {
        assert(children@.take(0) =~= Seq::<Listing>::empty());
        assert(out@.skip(start) =~= Seq::<FileEntry>::empty());
    }
    while i < children.len()
        invariant
            depth < MAX_WALK_DEPTH,
            i <= children@.len(),
            start + walked(children@, prefix@, depth as nat).len() <= u32::MAX,
            out@.len() == start + walked(children@.take(i as int), prefix@, depth as nat).len(),
            out@.take(start) == initial,
            initial.len() == start,
            numbered_entries(
                out@.skip(start),
                walked(children@.take(i as int), prefix@, depth as nat),
                start as nat,
            ),
        decreases children@.len() - i,
    {
        proof {
            lemma_walked_prefix(children@, prefix@, depth as nat, i as int);
            lemma_walked_prefix(children@, prefix@, depth as nat, i + 1);
        }
        let ghost before = out@;
        let ghost mid = out@.len() as int;
        match &children[i] {
            Listing::File { name, source, size } => {
                let mut relative = prefix.clone();
                relative.push('/');
                let n = name_chars(name, "file");
                push_all(&mut relative, &n);
                assert(relative@ =~= prefix@ + seq!['/'] + name_or(*name, "file"@));
                push_entry(out, &relative, source, *size);
                proof {
                    assert(out@.skip(mid) =~= seq![out@.last()]);
                    assert(out@.skip(mid)[0] == out@.last());
                }
            },
            Listing::Dir { name, children: inner } => {
                let mut nested = prefix.clone();
                nested.push('/');
                let n = name_chars(name, "folder");
                push_all(&mut nested, &n);
                assert(nested@ =~= prefix@ + seq!['/'] + name_or(*name, "folder"@));
                walk_dir(inner, &nested, depth + 1, out);
            },
            Listing::Other => {
                proof {
                    assert(out@.skip(mid) =~= Seq::<FileEntry>::empty());
                }
            },
        }
        proof {
            assert(out@.take(mid) == before);
            assert(out@.subrange(start, mid) =~= before.skip(start));
            lemma_numbered_concat(
                out@,
                start,
                mid,
                walked(children@.take(i as int), prefix@, depth as nat),
                child_files(children@[i as int], prefix@, depth as nat),
            );
            assert(out@.take(start) =~= before.take(start));
        }
        i = i + 1;
    }
    proof {
        assert(children@.take(children@.len() as int) =~= children@);
    }
}

proof fn lemma_collected_prefix(selection: Seq<Listing>, j: int)
    requires
        0 <= j <= selection.len(),
    ensures
        collected(selection.take(j)).len() <= collected(selection).len(),
        j < selection.len() ==> collected(selection.take(j + 1)) == collected(selection.take(j))
            + selected_files(selection[j]),
    decreases selection.len(),
{
    if j < selection.len() {
        let t = selection.take(j + 1);
        assert(t.drop_last() =~= selection.take(j));
        assert(t.last() == selection[j]);
        if j + 1 < selection.len() {
            lemma_collected_prefix(selection.drop_last(), j);
            assert(selection.drop_last().take(j) =~= selection.take(j));
            assert(selection.drop_last().take(j + 1) =~= selection.take(j + 1));
            lemma_collected_prefix(selection.drop_last(), j + 1);
        } else {
            assert(selection.take(j + 1) =~= selection);
        }
    } else {
        assert(selection.take(j) =~= selection);
    }
}

/// How many files the entries of a folder `depth` levels down contribute.
pub open spec fn walked_count(children: Seq<Listing>, depth: nat) -> nat
    decreases children, 0nat,
{
    if depth >= MAX_WALK_DEPTH || children.len() == 0 {
        0
    } else {
        walked_count(children.drop_last(), depth) + child_count(children.last(), depth)
    }
}

/// How many files one folder entry contributes.
pub open spec fn child_count(child: Listing, depth: nat) -> nat
    decreases child, 1nat,
{
    match child {
        Listing::File { .. } => 1,
        Listing::Dir { children, .. } => walked_count(children@, depth + 1),
        Listing::Other => 0,
    }
}

proof fn lemma_walked_count(children: Seq<Listing>, prefix: Seq<char>, depth: nat)
    ensures
        walked(children, prefix, depth).len() == walked_count(children, depth),
    decreases children, 0nat,
{
    if depth < MAX_WALK_DEPTH && children.len() > 0 {
        lemma_walked_count(children.drop_last(), prefix, depth);
        lemma_child_count(children.last(), prefix, depth);
    }
}

proof fn lemma_child_count(child: Listing, prefix: Seq<char>, depth: nat)
    ensures
        child_files(child, prefix, depth).len() == child_count(child, depth),
    decreases child, 1nat,
{
    match child {
        Listing::Dir { name, children } => {
            lemma_walked_count(children@, prefix + seq!['/'] + name_or(name, "folder"@), depth + 1);
        },
        _ => {},
    }
}

/// A selected item holds a file at `path` (its own name, then the names of
/// the folders below it, joined by `/`), read from `source` and `size`
/// bytes long.
pub open spec fn holds_file(item: Listing, path: Seq<char>, source: Seq<char>, size: u64) -> bool
    decreases item, 1nat,
{
    match item {
        Listing::File { name, source: from, size: len } => path == name_or(name, "file"@)
            && from@ == source && len == size,
        Listing::Dir { name, children } => {
            let folder = name_or(name, "folder"@);
            &&& path.len() > folder.len()
            &&& path.take(folder.len() as int) == folder
            &&& path[folder.len() as int] == '/'
            &&& some_entry_holds(children@, path.skip(folder.len() as int + 1), source, size)
        },
        Listing::Other => false,
    }
}

/// One of a folder's `entries` holds a file at `path`.
pub open spec fn some_entry_holds(
    entries: Seq<Listing>,
    path: Seq<char>,
    source: Seq<char>,
    size: u64,
) -> bool
    decreases entries, 0nat,
{
    entries.len() > 0 && (some_entry_holds(entries.drop_last(), path, source, size) || holds_file(
        entries.last(),
        path,
        source,
        size,
    ))
}

proof fn lemma_some_entry_holds(
    entries: Seq<Listing>,
    k: int,
    path: Seq<char>,
    source: Seq<char>,
    size: u64,
)
    requires
        0 <= k < entries.len(),
        holds_file(entries[k], path, source, size),
    ensures
        some_entry_holds(entries, path, source, size),
    decreases entries.len(),
{
    if k < entries.len() - 1 {
        assert(entries.drop_last()[k] == entries[k]);
        lemma_some_entry_holds(entries.drop_last(), k, path, source, size);
    }
}

/// A folder holds what one of its entries holds, under the folder's name.
proof fn lemma_folder_holds(
    item: Listing,
    k: int,
    rest: Seq<char>,
    source: Seq<char>,
    size: u64,
)
    requires
        item is Dir,
        0 <= k < item->children@.len(),
        holds_file(item->children@[k], rest, source, size),
    ensures
        holds_file(
            item,
            name_or(item->Dir_name, "folder"@) + seq!['/'] + rest,
            source,
            size,
        ),
{
    let folder = name_or(item->Dir_name, "folder"@);
    let path = folder + seq!['/'] + rest;
    lemma_some_entry_holds(item->children@, k, rest, source, size);
    assert(path.take(folder.len() as int) =~= folder);
    assert(path.skip(folder.len() as int + 1) =~= rest);
    assert(path[folder.len() as int] == '/');
}

/// A selected item holds a file at `path`, read from `source` and `size`
/// bytes long, that a walk reaches: the folders on the way to it are nested
/// fewer than 64 levels deep. `level` counts the folders above the item's
/// own entries.
pub open spec fn reachable(
    item: Listing,
    path: Seq<char>,
    source: Seq<char>,
    size: u64,
    level: nat,
) -> bool
    decreases item, 1nat,
{
    match item {
        Listing::File { name, source: from, size: len } => path == name_or(name, "file"@)
            && from@ == source && len == size,
        Listing::Dir { name, children } => {
            let folder = name_or(name, "folder"@);
            &&& level < 64
            &&& path.len() > folder.len()
            &&& path.take(folder.len() as int) == folder
            &&& path[folder.len() as int] == '/'
            &&& some_entry_reachable(children@, path.skip(folder.len() as int + 1), source, size, level)
        },
        Listing::Other => false,
    }
}

/// One of a folder's `entries` reaches a file at `path`; the folder's own
/// entries are `level` folders down.
pub open spec fn some_entry_reachable(
    entries: Seq<Listing>,
    path: Seq<char>,
    source: Seq<char>,
    size: u64,
    level: nat,
) -> bool
    decreases entries, 0nat,
{
    entries.len() > 0 && (some_entry_reachable(entries.drop_last(), path, source, size, level)
        || reachable(entries.last(), path, source, size, level + 1))
}

/// A file one of a folder's entries reaches is among the files walked under
/// that folder.
proof fn lemma_walked_complete(
    children: Seq<Listing>,
    prefix: Seq<char>,
    depth: nat,
    path: Seq<char>,
    source: Seq<char>,
    size: u64,
)
    requires
        depth < 64,
        some_entry_reachable(children, path, source, size, depth),
    ensures
        walked(children, prefix, depth).contains((prefix + seq!['/'] + path, source, size)),
    decreases children, 0nat,
{
    let d = children.drop_last();
    let last = children.last();
    let w = walked(children, prefix, depth);
    let a = walked(d, prefix, depth);
    let b = child_files(last, prefix, depth);
    assert(w == a + b);
    let e = (prefix + seq!['/'] + path, source, size);
    if some_entry_reachable(d, path, source, size, depth) {
        lemma_walked_complete(d, prefix, depth, path, source, size);
        let i = choose|i: int| 0 <= i < a.len() && a[i] == e;
        assert(w[i] == e);
    } else {
        lemma_child_files_complete(last, prefix, depth, path, source, size);
        let i = choose|i: int| 0 <= i < b.len() && b[i] == e;
        assert(w[a.len() + i] == e);
    }
}

/// A file a folder entry reaches is among the files that entry contributes.
proof fn lemma_child_files_complete(
    child: Listing,
    prefix: Seq<char>,
    depth: nat,
    path: Seq<char>,
    source: Seq<char>,
    size: u64,
)
    requires
        reachable(child, path, source, size, depth + 1),
    ensures
        child_files(child, prefix, depth).contains((prefix + seq!['/'] + path, source, size)),
    decreases child, 1nat,
{
    let c = child_files(child, prefix, depth);
    let e = (prefix + seq!['/'] + path, source, size);
    match child {
        Listing::File { name, source: from, size: len } => {
            assert(c[0] == e);
        },
        Listing::Dir { name, children } => {
            let folder = name_or(name, "folder"@);
            let rest = path.skip(folder.len() as int + 1);
            assert(path =~= folder + seq!['/'] + rest);
            lemma_walked_complete(children@, prefix + seq!['/'] + folder, depth + 1, rest, source, size);
            assert((prefix + seq!['/'] + folder) + seq!['/'] + rest =~= prefix + seq!['/'] + path);
        },
        Listing::Other => {},
    }
}

/// Every file a selected item reaches is in the expanded selection, under
/// the path it has below the selection, read from its own source.
pub proof fn lemma_collected_complete(
    selection: Seq<Listing>,
    j: int,
    path: Seq<char>,
    source: Seq<char>,
    size: u64,
)
    requires
        0 <= j < selection.len(),
        reachable(selection[j], path, source, size, 0),
    ensures
        collected(selection).contains((path, source, size)),
    decreases selection.len(),
{
    let d = selection.drop_last();
    let item = selection.last();
    let all = collected(selection);
    let a = collected(d);
    let b = selected_files(item);
    assert(all == a + b);
    let e = (path, source, size);
    if j < selection.len() - 1 {
        assert(d[j] == selection[j]);
        lemma_collected_complete(d, j, path, source, size);
        let i = choose|i: int| 0 <= i < a.len() && a[i] == e;
        assert(all[i] == e);
    } else {
        match item {
            Listing::File { name, source: from, size: len } => {
                assert(b[0] == e);
                assert(all[a.len() as int] == e);
            },
            Listing::Dir { name, children } => {
                let folder = name_or(name, "folder"@);
                let rest = path.skip(folder.len() as int + 1);
                assert(path =~= folder + seq!['/'] + rest);
                lemma_walked_complete(children@, folder, 0, rest, source, size);
                let i = choose|i: int| 0 <= i < b.len() && b[i] == e;
                assert(all[a.len() + i] == e);
            },
            Listing::Other => {},
        }
    }
}

/// `item` holds `file` at the path that follows `prefix` and a `/`.
pub open spec fn held_under(item: Listing, prefix: Seq<char>, file: Collected) -> bool {
    exists|rest: Seq<char>|
        #[trigger] holds_file(item, rest, file.1, file.2) && file.0 == prefix + seq!['/'] + rest
}

/// One of `items` holds `file` at the path that follows `prefix` and a `/`.
pub open spec fn held_by_one(items: Seq<Listing>, prefix: Seq<char>, file: Collected) -> bool {
    exists|k: int| 0 <= k < items.len() && held_under(#[trigger] items[k], prefix, file)
}

/// Every file found under a folder's entries is held by one of them, at the
/// path that follows `prefix` and a `/`.
proof fn lemma_walked_held(children: Seq<Listing>, prefix: Seq<char>, depth: nat)
    ensures
        forall|i: int|
            0 <= i < walked(children, prefix, depth).len() ==> held_by_one(
                children,
                prefix,
                #[trigger] walked(children, prefix, depth)[i],
            ),
    decreases children, 0nat,
{
    if depth < MAX_WALK_DEPTH && children.len() > 0 {
        let d = children.drop_last();
        let last = children.last();
        lemma_walked_held(d, prefix, depth);
        lemma_child_files_held(last, prefix, depth);
        let w = walked(children, prefix, depth);
        let a = walked(d, prefix, depth);
        let b = child_files(last, prefix, depth);
        assert(w == a + b);
        assert forall|i: int| 0 <= i < w.len() implies held_by_one(children, prefix, #[trigger] w[i]) by {
            if i < a.len() {
                assert(w[i] == a[i]);
                assert(held_by_one(d, prefix, a[i]));
                let k = choose|k: int| 0 <= k < d.len() && held_under(#[trigger] d[k], prefix, a[i]);
                assert(d[k] == children[k]);
                assert(held_under(children[k], prefix, w[i]));
            } else {
                let ii = i - a.len();
                assert(w[i] == b[ii]);
                assert(held_under(last, prefix, b[ii]));
                assert(children[children.len() - 1] == last);
                assert(held_under(children[children.len() - 1], prefix, w[i]));
            }
        }
    }
}

/// Every file one folder entry contributes is held by that entry, at the
/// path that follows `prefix` and a `/`.
proof fn lemma_child_files_held(child: Listing, prefix: Seq<char>, depth: nat)
    ensures
        forall|i: int|
            0 <= i < child_files(child, prefix, depth).len() ==> held_under(
                child,
                prefix,
                #[trigger] child_files(child, prefix, depth)[i],
            ),
    decreases child, 1nat,
{
    let c = child_files(child, prefix, depth);
    match child {
        Listing::File { name, source, size } => {
            assert forall|i: int| 0 <= i < c.len() implies held_under(child, prefix, #[trigger] c[i]) by {
                assert(holds_file(child, name_or(name, "file"@), c[i].1, c[i].2));
            }
        },
        Listing::Dir { name, children } => {
            let folder = name_or(name, "folder"@);
            let inner = prefix + seq!['/'] + folder;
            lemma_walked_held(children@, inner, depth + 1);
            assert(c == walked(children@, inner, depth + 1));
            assert forall|i: int| 0 <= i < c.len() implies held_under(child, prefix, #[trigger] c[i]) by {
                assert(held_by_one(children@, inner, walked(children@, inner, depth + 1)[i]));
                let k = choose|k: int|
                    0 <= k < children@.len() && held_under(#[trigger] children@[k], inner, c[i]);
                let r = choose|r: Seq<char>|
                    #[trigger] holds_file(children@[k], r, c[i].1, c[i].2) && c[i].0 == inner
                        + seq!['/'] + r;
                let rest = folder + seq!['/'] + r;
                assert(c[i].0 =~= prefix + seq!['/'] + rest);
                lemma_folder_holds(child, k, r, c[i].1, c[i].2);
                assert(holds_file(child, rest, c[i].1, c[i].2));
            }
        },
        Listing::Other => {},
    }
}

/// One of the selected items holds `file`, at the very path it is sent
/// under.
pub open spec fn selected_holds(selection: Seq<Listing>, file: Collected) -> bool {
    exists|j: int|
        0 <= j < selection.len() && holds_file(#[trigger] selection[j], file.0, file.1, file.2)
}

/// Every file of an expanded selection is held by one of the selected items,
/// at the very path it is sent under, and is read from that file's source.
pub proof fn lemma_collected_held(selection: Seq<Listing>)
    ensures
        forall|i: int|
            0 <= i < collected(selection).len() ==> selected_holds(
                selection,
                #[trigger] collected(selection)[i],
            ),
    decreases selection.len(),
{
    if selection.len() > 0 {
        let d = selection.drop_last();
        let item = selection.last();
        lemma_collected_held(d);
        let all = collected(selection);
        let a = collected(d);
        let b = selected_files(item);
        assert(all == a + b);
        assert forall|i: int| 0 <= i < all.len() implies selected_holds(selection, #[trigger] all[i]) by {
            if i < a.len() {
                assert(all[i] == a[i]);
                assert(selected_holds(d, a[i]));
                let j = choose|j: int|
                    0 <= j < d.len() && holds_file(#[trigger] d[j], a[i].0, a[i].1, a[i].2);
                assert(d[j] == selection[j]);
            } else {
                let ii = i - a.len();
                assert(all[i] == b[ii]);
                let last = selection.len() - 1;
                assert(selection[last] == item);
                match item {
                    Listing::File { name, source, size } => {
                        assert(holds_file(selection[last], all[i].0, all[i].1, all[i].2));
                    },
                    Listing::Dir { name, children } => {
                        let folder = name_or(name, "folder"@);
                        lemma_walked_held(children@, folder, 0);
                        assert(b == walked(children@, folder, 0));
                        assert(held_by_one(children@, folder, walked(children@, folder, 0)[ii]));
                        let k = choose|k: int|
                            0 <= k < children@.len() && held_under(
                                #[trigger] children@[k],
                                folder,
                                b[ii],
                            );
                        let r = choose|r: Seq<char>|
                            #[trigger] holds_file(children@[k], r, b[ii].1, b[ii].2) && b[ii].0
                                == folder + seq!['/'] + r;
                        lemma_folder_holds(item, k, r, b[ii].1, b[ii].2);
                        assert(holds_file(selection[last], all[i].0, all[i].1, all[i].2));
                    },
                    Listing::Other => {},
                }
            }
        }
    }
}

/// `n`, or `u64::MAX` when it is larger.
pub open spec fn capped(n: nat) -> u64 {
    if n > u64::MAX {
        u64::MAX
    } else {
        n as u64
    }
}

fn count_walked(children: &Vec<Listing>, depth: usize) -> (res: u64)
    requires
        depth <= MAX_WALK_DEPTH,
    ensures
        res == capped(walked_count(children@, depth as nat)),
    decreases children@, 0nat,
{
    if depth >= MAX_WALK_DEPTH {
        return 0;
    }
    let mut total: u64 = 0;
    let mut i: usize = 0;
    while i < children.len()
        invariant
            depth < MAX_WALK_DEPTH,
            i <= children@.len(),
            total == capped(walked_count(children@.take(i as int), depth as nat)),
        decreases children@.len() - i,
    {
        let ghost t = children@.take(i as int + 1);
        proof {
            assert(t.drop_last() =~= children@.take(i as int));
            assert(t.last() == children@[i as int]);
        }
        let more: u64 = match &children[i] {
            Listing::File { .. } => 1,
            Listing::Dir { children: inner, .. } => count_walked(inner, depth + 1),
            Listing::Other => 0,
        };
        proof {
            assert(more == capped(child_count(children@[i as int], depth as nat)));
            assert(walked_count(t, depth as nat) == walked_count(t.drop_last(), depth as nat)
                + child_count(t.last(), depth as nat));
        }
        total = total.saturating_add(more);
        i = i + 1;
    }
    proof {
        assert(children@.take(children@.len() as int) =~= children@);
    }
    total
}

/// How many files the selection expands to (capped at `u64::MAX`): what
/// `collect_files` needs to know fits before it numbers them.
pub fn count_files(selection: &Vec<Listing>) -> (res: u64)
    ensures
        res == capped(collected(selection@).len()),
{
    let mut total: u64 = 0;
    let mut j: usize = 0;
    while j < selection.len()
        invariant
            j <= selection@.len(),
            total == capped(collected(selection@.take(j as int)).len()),
        decreases selection@.len() - j,
    {
        proof {
            lemma_collected_prefix(selection@, j as int);
        }
        let more: u64 = match &selection[j] {
            Listing::File { .. } => 1,
            Listing::Dir { name, children } => {
                proof {
                    lemma_walked_count(children@, name_or(*name, "folder"@), 0);
                }
                count_walked(children, 0)
            },
            Listing::Other => 0,
        };
        total = total.saturating_add(more);
        j = j + 1;
    }
    proof {
        assert(selection@.take(selection@.len() as int) =~= selection@);
    }
    total
}

/// Expands the user's selection into a flat list of files with their wire
/// paths, numbered in order from 0: a selected file keeps its own name, and
/// a selected folder keeps its name as the prefix of everything under it, so
/// the structure is reproduced on the other side.
pub fn collect_files(selection: &Vec<Listing>) -> (res: Vec<FileEntry>)
    requires
        collected(selection@).len() <= u32::MAX,
    ensures
        numbered_entries(res@, collected(selection@), 0),
        forall|i: int|
            #![trigger res@[i]]
            0 <= i < res@.len() ==> exists|j: int|
                0 <= j < selection@.len() && holds_file(
                    #[trigger] selection@[j],
                    res@[i].relative@,
                    res@[i].source@,
                    res@[i].size,
                ),
        forall|j: int, path: Seq<char>, source: Seq<char>, size: u64|
            0 <= j < selection@.len() && #[trigger] reachable(selection@[j], path, source, size, 0)
                ==> exists|i: int|
                0 <= i < res@.len() && (#[trigger] res@[i]).relative@ == path && res@[i].source@
                    == source && res@[i].size == size,
{
    let mut out: Vec<FileEntry> = Vec::new();
    let mut j: usize = 0;
    proof {
        assert(selection@.take(0) =~= Seq::<Listing>::empty());
    }
    while j < selection.len()
        invariant
            j <= selection@.len(),
            collected(selection@).len() <= u32::MAX,
            out@.len() == collected(selection@.take(j as int)).len(),
            numbered_entries(out@, collected(selection@.take(j as int)), 0),
        decreases selection@.len() - j,
    {
        proof {
            lemma_collected_prefix(selection@, j as int);
            lemma_collected_prefix(selection@, j + 1);
        }
        let ghost before = out@;
        let ghost mid = out@.len() as int;
        match &selection[j] {
            Listing::File { name, source, size } => {
                let n = name_chars(name, "file");
                push_entry(&mut out, &n, source, *size);
                proof {
                    assert(out@.skip(mid) =~= seq![out@.last()]);
                    assert(out@.skip(mid)[0] == out@.last());
                }
            },
            Listing::Dir { name, children } => {
                let n = name_chars(name, "folder");
                walk_dir(children, &n, 0, &mut out);
            },
            Listing::Other => {
                proof {
                    assert(out@.skip(mid) =~= Seq::<FileEntry>::empty());
                }
            },
        }
        proof {
            assert(out@.take(mid) == before);
            assert(out@.subrange(0, mid) =~= before);
            assert(out@.skip(0) =~= out@);
            lemma_numbered_concat(
                out@,
                0,
                mid,
                collected(selection@.take(j as int)),
                selected_files(selection@[j as int]),
            );
        }
        j = j + 1;
    }
    proof {
        assert(selection@.take(selection@.len() as int) =~= selection@);
        lemma_collected_held(selection@);
        assert forall|i: int| #![trigger out@[i]] 0 <= i < out@.len() implies exists|j: int|
            0 <= j < selection@.len() && holds_file(
                #[trigger] selection@[j],
                out@[i].relative@,
                out@[i].source@,
                out@[i].size,
            ) by {
            assert(out@[i].index == i);
            assert(selected_holds(selection@, collected(selection@)[i]));
        }
        assert forall|j: int, path: Seq<char>, source: Seq<char>, size: u64|
            0 <= j < selection@.len() && #[trigger] reachable(selection@[j], path, source, size, 0)
                implies exists|i: int|
                0 <= i < out@.len() && (#[trigger] out@[i]).relative@ == path && out@[i].source@
                    == source && out@[i].size == size by {
            lemma_collected_complete(selection@, j, path, source, size);
            let c = collected(selection@);
            let i = choose|i: int| 0 <= i < c.len() && c[i] == (path, source, size);
            assert(out@[i].index == i);
        }
    }
    out
}

#[derive(Debug, Clone)]
pub enum OfferDecision {
    Accept,
    Decline(Option<String>),
}

/// How a wait on a prompt ended.
#[derive(Debug, Clone)]
pub enum PromptOutcome<T> {
    /// The user answered.
    Answered(T),
    /// The answering side went away without an answer.
    Dropped,
    /// Nobody answered within the approval timeout.
    TimedOut,
}

// ---------------------------------------------------------------------------
// Content hashes
// ---------------------------------------------------------------------------

#[verifier::external_type_specification]
#[verifier::external_body]
pub struct ExHasher(blake3::Hasher);

/// The bytes a BLAKE3 hasher has taken in so far, in order: what it holds.
pub uninterp spec fn hasher_content(hasher: blake3::Hasher) -> Seq<u8>;

/// The BLAKE3 hash of a byte sequence as lowercase hex
/// (`blake3::hash(data).to_hex()`). A function of the bytes alone.
pub uninterp spec fn blake3_hex(data: Seq<u8>) -> Seq<char>;

/// `blake3::Hasher::new`: a hasher that has taken in nothing yet.
#[verifier::external_body]
fn new_hasher() -> (res: blake3::Hasher)
    ensures
        hasher_content(res) == Seq::<u8>::empty(),
{
    blake3::Hasher::new()
}

/// `blake3::Hasher::update`: the hasher takes in `bytes` after what it
/// holds ("you can call this any number of times").
#[verifier::external_body]
fn hasher_update(hasher: &mut blake3::Hasher, bytes: &[u8])
    ensures
        hasher_content(*final(hasher)) == hasher_content(*old(hasher)) + bytes@,
{
    hasher.update(bytes);
}

/// `blake3::Hasher::finalize`, as `Hash::to_hex`: the hash of everything the
/// hasher took in, in 64 lowercase hex digits (the `to_hex` table).
#[verifier::external_body]
fn hasher_hex(hasher: &blake3::Hasher) -> (res: String)
    ensures
        res@ == blake3_hex(hasher_content(*hasher)),
        res@.len() == 64,
        forall|i: int| 0 <= i < 64 ==> is_lower_hex(#[trigger] res@[i]),
{
    hasher.finalize().to_hex().to_string()
}

/// A lowercase hex digit.
pub open spec fn is_lower_hex(c: char) -> bool {
    ('0' <= c && c <= '9') || ('a' <= c && c <= 'f')
}

/// The BLAKE3 hash of a file's content, taken in chunk by chunk as the file
/// streams past, so that no file has to be held in memory whole.
pub struct ContentHash {
    hasher: blake3::Hasher,
}

impl ContentHash {
    /// The content taken in so far, in order.
    pub closed spec fn taken_in(&self) -> Seq<u8> {
        hasher_content(self.hasher)
    }

    /// A hash of nothing yet.
    pub fn new() -> (res: ContentHash)
        ensures
            res.taken_in() == Seq::<u8>::empty(),
    {
        ContentHash { hasher: new_hasher() }
    }

    /// Takes in the next bytes of the content.
    pub fn update(&mut self, bytes: &[u8])
        ensures
            final(self).taken_in() == old(self).taken_in() + bytes@,
    {
        hasher_update(&mut self.hasher, bytes);
    }

    /// The BLAKE3 hash of everything taken in so far, in the form it travels
    /// in (`FileComplete::hash`): 64 lowercase hex digits.
    pub fn hex(&self) -> (res: String)
        ensures
            res@ == blake3_hex(self.taken_in()),
            res@.len() == 64,
            forall|i: int| 0 <= i < 64 ==> is_lower_hex(#[trigger] res@[i]),
    {
        hasher_hex(&self.hasher)
    }
}

// ---------------------------------------------------------------------------
// Rates and throttling
// ---------------------------------------------------------------------------

/// Whole seconds and sub-second microseconds elapsed since `at`
/// (`Instant::elapsed`, then `as_secs` and `subsec_micros`). Nothing is
/// claimed of the values but the range of the second one, which the
/// documentation gives.
#[verifier::external_body]
fn elapsed_parts(at: &Instant) -> (res: (u64, u32))
    ensures
        res.1 < 1000000,
{
    let d = at.elapsed();
    (d.as_secs(), d.subsec_micros())
}

/// `(secs, micros)` is a reading the clock can give of the time elapsed
/// since `at`: a value `elapsed_parts(&at)` may return.
pub closed spec fn clock_parts(at: Instant, secs: u64, micros: u32) -> bool {
    call_ensures(elapsed_parts, (&at,), (secs, micros))
}

/// Bytes per second over an elapsed time, rounded down and capped at
/// `u64::MAX`: none reported for the first 50 ms.
pub open spec fn rate_of(transferred: u64, elapsed_micros: nat) -> u64 {
    if elapsed_micros > MIN_RATE_WINDOW_MICROS {
        let q = (transferred as int * 1000000) / (elapsed_micros as int);
        if q > u64::MAX {
            u64::MAX
        } else {
            q as u64
        }
    } else {
        0
    }
}

/// The transfer rate for `transferred` bytes in `secs` seconds and `micros`
/// microseconds.
pub fn bytes_per_second(transferred: u64, secs: u64, micros: u32) -> (res: u64)
    requires
        micros < 1000000,
    ensures
        res == rate_of(transferred, (secs * 1000000 + micros) as nat),
{
    let elapsed: u128 = (secs as u128) * 1000000 + (micros as u128);
    if elapsed > MIN_RATE_WINDOW_MICROS as u128 {
        let scaled: u128 = (transferred as u128) * 1000000;
        let r = scaled / elapsed;
        if r > u64::MAX as u128 {
            u64::MAX
        } else {
            r as u64
        }
    } else {
        0
    }
}

/// At least the progress interval has passed in `secs` seconds and `micros`
/// microseconds.
pub open spec fn due_after(secs: u64, micros: u32) -> bool {
    secs * 1000000 + micros >= PROGRESS_INTERVAL_MS * 1000
}

/// Whether enough time has passed since the last update to send another.
pub fn due_for_update(since_last_secs: u64, since_last_micros: u32) -> (res: bool)
    ensures
        res == (since_last_secs > 0 || since_last_micros >= PROGRESS_INTERVAL_MS * 1000),
        since_last_micros < 1000000 ==> res == due_after(since_last_secs, since_last_micros),
{
    since_last_secs > 0 || since_last_micros as u64 >= PROGRESS_INTERVAL_MS * 1000
}

// ---------------------------------------------------------------------------
// The transfer table
// ---------------------------------------------------------------------------

struct TransferState {
    progress: TransferProgress,
    cancelled: bool,
    started: Instant,
    last_emit: Instant,
}

/// Identifiers of prompts that wait on an answer, none twice.
pub struct PendingSet {
    ids: Vec<String>,
    set: Ghost<Set<Seq<char>>>,
}

impl View for PendingSet {
    type V = Set<Seq<char>>;

    closed spec fn view(&self) -> Set<Seq<char>> {
        self.set@
    }
}

impl PendingSet {
    pub closed spec fn wf(&self) -> bool {
        &&& forall|i: int, j: int|
            #![trigger self.ids@[i], self.ids@[j]]
            0 <= i < self.ids@.len() && 0 <= j < self.ids@.len() && i != j ==> self.ids@[i]@
                != self.ids@[j]@
        &&& forall|i: int|
            #![trigger self.ids@[i]]
            0 <= i < self.ids@.len() ==> self.set@.contains(self.ids@[i]@)
        &&& forall|k: Seq<char>|
            #[trigger] self.set@.contains(k) ==> exists|i: int|
                #![trigger self.ids@[i]]
                0 <= i < self.ids@.len() && self.ids@[i]@ == k
    }

    pub fn new() -> (res: PendingSet)
        ensures
            res.wf(),
            res@ == Set::<Seq<char>>::empty(),
    {
        PendingSet { ids: Vec::new(), set: Ghost(Set::empty()) }
    }

    fn find(&self, id: &str) -> (res: Option<usize>)
        requires
            self.wf(),
        ensures
            match res {
                Some(i) => i < self.ids@.len() && self.ids@[i as int]@ == id@,
                None => !self@.contains(id@),
            },
    {
        let mut i: usize = 0;
        while i < self.ids.len()
            invariant
                self.wf(),
                i <= self.ids@.len(),
                forall|j: int| 0 <= j < i ==> self.ids@[j]@ != id@,
            decreases self.ids@.len() - i,
        {
            if str_eq(self.ids[i].as_str(), id) {
                return Some(i);
            }
            i = i + 1;
        }
        None
    }

    pub fn contains(&self, id: &str) -> (res: bool)
        requires
            self.wf(),
        ensures
            res == self@.contains(id@),
    {
        match self.find(id) {
            Some(_) => true,
            None => false,
        }
    }

    /// Adds `id`; adding one that is already there changes nothing.
    pub fn insert(&mut self, id: &str)
        requires
            old(self).wf(),
        ensures
            final(self).wf(),
            final(self)@ == old(self)@.insert(id@),
    {
        match self.find(id) {
            Some(_) => {},
            None => {
                let ghost old_ids = self.ids@;
                self.ids.push(string_of(id));
                self.set = Ghost(self.set@.insert(id@));
                proof {
                    assert forall|k: Seq<char>| #[trigger] self.set@.contains(k) implies exists|
                        i: int,
                    |
                        #![trigger self.ids@[i]]
                        0 <= i < self.ids@.len() && self.ids@[i]@ == k by {
                        if k != id@ {
                            let i = choose|i: int|
                                #![trigger old_ids[i]]
                                0 <= i < old_ids.len() && old_ids[i]@ == k;
                            assert(self.ids@[i] == old_ids[i]);
                        } else {
                            assert(self.ids@[old_ids.len() as int]@ == k);
                        }
                    }
                    assert forall|i: int|
                        #![trigger self.ids@[i]]
                        0 <= i < self.ids@.len() implies self.set@.contains(self.ids@[i]@) by {
                        if i < old_ids.len() {
                            assert(self.ids@[i] == old_ids[i]);
                        }
                    }
                    assert forall|i: int, j: int|
                        #![trigger self.ids@[i], self.ids@[j]]
                        0 <= i < self.ids@.len() && 0 <= j < self.ids@.len() && i
                            != j implies self.ids@[i]@ != self.ids@[j]@ by {
                        if i < old_ids.len() {
                            assert(self.ids@[i] == old_ids[i]);
                            assert(old(self).set@.contains(old_ids[i]@));
                        }
                        if j < old_ids.len() {
                            assert(self.ids@[j] == old_ids[j]);
                            assert(old(self).set@.contains(old_ids[j]@));
                        }
                    }
                }
            },
        }
    }

    /// Removes `id`, saying whether it was there.
    pub fn remove(&mut self, id: &str) -> (res: bool)
        requires
            old(self).wf(),
        ensures
            final(self).wf(),
            res == old(self)@.contains(id@),
            final(self)@ == old(self)@.remove(id@),
    {
        match self.find(id) {
            None => {
                assert(self.set@ =~= self.set@.remove(id@));
                false
            },
            Some(i) => {
                let ghost old_ids = self.ids@;
                assert(self.set@.contains(old_ids[i as int]@));
                self.ids.remove(i);
                self.set = Ghost(self.set@.remove(id@));
                proof {
                    assert forall|a: int|
                        #![trigger self.ids@[a]]
                        0 <= a < self.ids@.len() implies self.ids@[a] == old_ids[if a < i {
                        a
                    } else {
                        a + 1
                    }] by {}
                    assert forall|k: Seq<char>| #[trigger] self.set@.contains(k) implies exists|
                        a: int,
                    |
                        #![trigger self.ids@[a]]
                        0 <= a < self.ids@.len() && self.ids@[a]@ == k by {
                        let j = choose|j: int|
                            #![trigger old_ids[j]]
                            0 <= j < old_ids.len() && old_ids[j]@ == k;
                        if j < i {
                            assert(self.ids@[j] == old_ids[j]);
                        } else {
                            assert(j != i);
                            assert(self.ids@[j - 1] == old_ids[j]);
                        }
                    }
                    assert forall|a: int|
                        #![trigger self.ids@[a]]
                        0 <= a < self.ids@.len() implies self.set@.contains(self.ids@[a]@) by {
                        let j = if a < i {
                            a
                        } else {
                            a + 1
                        };
                        assert(self.ids@[a] == old_ids[j]);
                        assert(old_ids[j]@ != old_ids[i as int]@);
                    }
                    assert forall|a: int, b: int|
                        #![trigger self.ids@[a], self.ids@[b]]
                        0 <= a < self.ids@.len() && 0 <= b < self.ids@.len() && a
                            != b implies self.ids@[a]@ != self.ids@[b]@ by {
                        let ja = if a < i {
                            a
                        } else {
                            a + 1
                        };
                        let jb = if b < i {
                            b
                        } else {
                            b + 1
                        };
                        assert(self.ids@[a] == old_ids[ja]);
                        assert(self.ids@[b] == old_ids[jb]);
                    }
                }
                true
            },
        }
    }
}

/// What the table holds per transfer.
pub struct TransferView {
    pub progress: ProgressView,
    pub cancelled: bool,
}

/// Every in-flight transfer, keyed by transfer ID.
pub struct TransferManager {
    transfers: Vec<TransferState>,
    table: Ghost<Map<Seq<char>, TransferView>>,
    /// Offers blocked on an accept/decline decision.
    pending_offers: PendingSet,
    /// Pairings blocked on the user confirming the code.
    pending_pairings: PendingSet,
}

impl View for TransferManager {
    type V = Map<Seq<char>, TransferView>;

    closed spec fn view(&self) -> Map<Seq<char>, TransferView> {
        self.table@
    }
}

/// Every transfer `before` tracks still has, in `after`, the instant it was
/// registered at.
pub open spec fn starts_kept(before: TransferManager, after: TransferManager) -> bool {
    forall|k: Seq<char>|
        #[trigger] before@.contains_key(k) ==> after.started_at(k) == before.started_at(k)
}

pub open spec fn state_view(p: ProgressView, cancelled: bool) -> TransferView {
    TransferView { progress: p, cancelled }
}

/// The entries and the table agree, and no transfer ID occurs twice.
spec fn entries_match(table: Map<Seq<char>, TransferView>, entries: Seq<TransferState>) -> bool {
    &&& forall|i: int, j: int|
        #![trigger entries[i], entries[j]]
        0 <= i < entries.len() && 0 <= j < entries.len() && i != j
            ==> entries[i].progress.transfer_id@ != entries[j].progress.transfer_id@
    &&& forall|i: int|
        #![trigger entries[i]]
        0 <= i < entries.len() ==> table.contains_key(entries[i].progress.transfer_id@)
            && table[entries[i].progress.transfer_id@] == state_view(
            entries[i].progress@,
            entries[i].cancelled,
        )
    &&& forall|k: Seq<char>|
        #[trigger] table.contains_key(k) ==> exists|i: int|
            #![trigger entries[i]]
            0 <= i < entries.len() && entries[i].progress.transfer_id@ == k
}

impl TransferManager {
    pub closed spec fn wf(&self) -> bool {
        &&& entries_match(self.table@, self.transfers@)
        &&& self.pending_offers.wf()
        &&& self.pending_pairings.wf()
    }

    spec fn index_of(&self, id: Seq<char>) -> int {
        choose|i: int|
            0 <= i < self.transfers@.len() && (#[trigger] self.transfers@[i]).progress.transfer_id@
                == id
    }

    /// When the transfer with this ID was registered.
    pub closed spec fn started_at(&self, id: Seq<char>) -> Instant {
        self.transfers@[self.index_of(id)].started
    }

    /// When progress of the transfer with this ID was last reported.
    pub closed spec fn last_emit_at(&self, id: Seq<char>) -> Instant {
        self.transfers@[self.index_of(id)].last_emit
    }

    proof fn lemma_index_of(&self, i: int)
        requires
            self.wf(),
            0 <= i < self.transfers@.len(),
        ensures
            self.index_of(self.transfers@[i].progress.transfer_id@) == i,
            self.started_at(self.transfers@[i].progress.transfer_id@) == self.transfers@[i].started,
            self.last_emit_at(self.transfers@[i].progress.transfer_id@)
                == self.transfers@[i].last_emit,
    {
        let id = self.transfers@[i].progress.transfer_id@;
        let j = self.index_of(id);
        assert(0 <= j < self.transfers@.len() && self.transfers@[j].progress.transfer_id@ == id);
        if j != i {
            assert(self.transfers@[i].progress.transfer_id@ != self.transfers@[j].progress.transfer_id@);
        }
    }

    /// The IDs of the offers and of the pairings that wait on an answer.
    pub closed spec fn prompts(&self) -> (Set<Seq<char>>, Set<Seq<char>>) {
        (self.pending_offers@, self.pending_pairings@)
    }

    pub fn new() -> (res: TransferManager)
        ensures
            res.wf(),
            res@ == Map::<Seq<char>, TransferView>::empty(),
            res.prompts() == (Set::<Seq<char>>::empty(), Set::<Seq<char>>::empty()),
    {
        TransferManager {
            transfers: Vec::new(),
            table: Ghost(Map::empty()),
            pending_offers: PendingSet::new(),
            pending_pairings: PendingSet::new(),
        }
    }

    fn find(&self, transfer_id: &str) -> (res: Option<usize>)
        requires
            self.wf(),
        ensures
            match res {
                Some(i) => i < self.transfers@.len() && self.transfers@[i as int].progress.transfer_id@
                    == transfer_id@ && self@.contains_key(transfer_id@) && self@[transfer_id@]
                    == state_view(
                    self.transfers@[i as int].progress@,
                    self.transfers@[i as int].cancelled,
                ),
                None => !self@.contains_key(transfer_id@),
            },
    {
        let mut i: usize = 0;
        while i < self.transfers.len()
            invariant
                self.wf(),
                i <= self.transfers@.len(),
                forall|j: int|
                    0 <= j < i ==> self.transfers@[j].progress.transfer_id@ != transfer_id@,
            decreases self.transfers@.len() - i,
        {
            if str_eq(self.transfers[i].progress.transfer_id.as_str(), transfer_id) {
                proof {
                    assert(self.table@.contains_key(self.transfers@[i as int].progress.transfer_id@));
                }
                return Some(i);
            }
            i = i + 1;
        }
        None
    }

    /// Replaces the state at `i`, which keeps its transfer ID.
    fn replace_at(&mut self, i: usize, state: TransferState)
        requires
            old(self).wf(),
            i < old(self).transfers@.len(),
            state.progress.transfer_id@ == old(self).transfers@[i as int].progress.transfer_id@,
        ensures
            final(self).wf(),
            final(self).prompts() == old(self).prompts(),
            final(self)@ == old(self)@.insert(
                state.progress.transfer_id@,
                state_view(state.progress@, state.cancelled),
            ),
            final(self).transfers@ == old(self).transfers@.update(i as int, state),
            state.started == old(self).transfers@[i as int].started ==> starts_kept(
                *old(self),
                *final(self),
            ),
            forall|k: Seq<char>|
                #[trigger] old(self)@.contains_key(k) && k != state.progress.transfer_id@
                    ==> final(self).started_at(k) == old(self).started_at(k),
            final(self).started_at(state.progress.transfer_id@) == state.started,
            final(self).last_emit_at(state.progress.transfer_id@) == state.last_emit,
    {
        let ghost key = state.progress.transfer_id@;
        let ghost sv = state_view(state.progress@, state.cancelled);
        self.transfers.set(i, state);
        self.table = Ghost(self.table@.insert(key, sv));
        proof {
            assert forall|a: int|
                0 <= a < self.transfers@.len() implies #[trigger] self.table@.contains_key(
                self.transfers@[a].progress.transfer_id@,
            ) && self.table@[self.transfers@[a].progress.transfer_id@] == state_view(
                self.transfers@[a].progress@,
                self.transfers@[a].cancelled,
            ) by {
                if a != i {
                    assert(self.transfers@[a] == old(self).transfers@[a]);
                    assert(old(self).table@.contains_key(old(self).transfers@[a].progress.transfer_id@));
                }
            }
            assert forall|a: int, b: int|
                0 <= a < self.transfers@.len() && 0 <= b < self.transfers@.len() && a
                    != b implies self.transfers@[a].progress.transfer_id@
                != self.transfers@[b].progress.transfer_id@ by {
                if a != i {
                    assert(self.transfers@[a] == old(self).transfers@[a]);
                }
                if b != i {
                    assert(self.transfers@[b] == old(self).transfers@[b]);
                }
            }
            assert forall|k: Seq<char>| #[trigger] self.table@.contains_key(k) implies exists|j: int|
                0 <= j < self.transfers@.len() && self.transfers@[j].progress.transfer_id@ == k by {
                if k != key {
                    let j = choose|j: int|
                        0 <= j < old(self).transfers@.len()
                            && old(self).transfers@[j].progress.transfer_id@ == k;
                    assert(self.transfers@[j] == old(self).transfers@[j]);
                } else {
                    assert(self.transfers@[i as int].progress.transfer_id@ == k);
                }
            }
            assert(entries_match(self.table@, self.transfers@));
            assert forall|k: Seq<char>| #[trigger] old(self)@.contains_key(k) implies (k != key
                || state.started == old(self).transfers@[i as int].started) ==> self.started_at(k)
                == old(self).started_at(k) by {
                let j = choose|j: int|
                    0 <= j < old(self).transfers@.len()
                        && old(self).transfers@[j].progress.transfer_id@ == k;
                old(self).lemma_index_of(j);
                self.lemma_index_of(j);
            }
            self.lemma_index_of(i as int);
        }
    }

    /// Starts tracking a transfer (replacing any with the same ID) in the
    /// `Connecting` state, and returns its progress to report.
    pub fn register(
        &mut self,
        transfer_id: &str,
        direction: Direction,
        peer_device_id: &str,
        peer_name: &str,
        file_count: usize,
        total_bytes: u64,
    ) -> (res: TransferProgress)
        requires
            old(self).wf(),
        ensures
            final(self).wf(),
            final(self).prompts() == old(self).prompts(),
            res@ == (ProgressView {
                transfer_id: transfer_id@,
                direction,
                peer_device_id: peer_device_id@,
                peer_name: peer_name@,
                status: Status::Connecting,
                total_bytes,
                transferred_bytes: 0,
                file_count,
                files_completed: 0,
                current_file: None,
                bytes_per_second: 0,
                error: None,
            }),
            final(self)@ == old(self)@.insert(transfer_id@, state_view(res@, false)),
            forall|k: Seq<char>|
                #[trigger] old(self)@.contains_key(k) && k != transfer_id@ ==> final(self).started_at(k)
                    == old(self).started_at(k),
            clock_instant(final(self).started_at(transfer_id@)),
            final(self).last_emit_at(transfer_id@) == final(self).started_at(transfer_id@),
    {
        let progress = TransferProgress {
            transfer_id: string_of(transfer_id),
            direction,
            peer_device_id: string_of(peer_device_id),
            peer_name: string_of(peer_name),
            status: Status::Connecting,
            total_bytes,
            transferred_bytes: 0,
            file_count,
            files_completed: 0,
            current_file: None,
            bytes_per_second: 0,
            error: None,
        };
        let snapshot = progress.clone();
        let clock = now;
        let t = clock();
        proof {
            lemma_clock_instant(t);
        }
        let state = TransferState { progress, cancelled: false, started: t, last_emit: t };
        match self.find(transfer_id) {
            Some(i) => {
                self.replace_at(i, state);
            },
            None => {
                let ghost key = transfer_id@;
                let ghost sv = state_view(state.progress@, false);
                self.transfers.push(state);
                self.table = Ghost(self.table@.insert(key, sv));
                proof {
                    let n = old(self).transfers@.len();
                    assert forall|a: int|
                        0 <= a < self.transfers@.len() implies #[trigger] self.table@.contains_key(
                        self.transfers@[a].progress.transfer_id@,
                    ) && self.table@[self.transfers@[a].progress.transfer_id@] == state_view(
                        self.transfers@[a].progress@,
                        self.transfers@[a].cancelled,
                    ) by {
                        if a < n {
                            assert(self.transfers@[a] == old(self).transfers@[a]);
                            assert(old(self).table@.contains_key(
                                old(self).transfers@[a].progress.transfer_id@,
                            ));
                        }
                    }
                    assert forall|k: Seq<char>| #[trigger] self.table@.contains_key(k) implies exists|
                        j: int,
                    | 0 <= j < self.transfers@.len() && self.transfers@[j].progress.transfer_id@
                        == k by {
                        if k != key {
                            let j = choose|j: int|
                                0 <= j < old(self).transfers@.len()
                                    && old(self).transfers@[j].progress.transfer_id@ == k;
                            assert(self.transfers@[j] == old(self).transfers@[j]);
                        } else {
                            assert(self.transfers@[n as int].progress.transfer_id@ == k);
                        }
                    }
                    assert forall|a: int, b: int|
                        0 <= a < self.transfers@.len() && 0 <= b < self.transfers@.len() && a
                            != b implies self.transfers@[a].progress.transfer_id@
                        != self.transfers@[b].progress.transfer_id@ by {
                        if a < n && b < n {
                            assert(self.transfers@[a] == old(self).transfers@[a]);
                            assert(self.transfers@[b] == old(self).transfers@[b]);
                        } else if a < n {
                            assert(self.transfers@[a] == old(self).transfers@[a]);
                            assert(old(self).table@.contains_key(
                                old(self).transfers@[a].progress.transfer_id@,
                            ));
                        } else {
                            assert(self.transfers@[b] == old(self).transfers@[b]);
                            assert(old(self).table@.contains_key(
                                old(self).transfers@[b].progress.transfer_id@,
                            ));
                        }
                    }
                    assert(self.wf());
                    assert forall|k: Seq<char>|
                        #[trigger] old(self)@.contains_key(k) && k != key implies self.started_at(k)
                            == old(self).started_at(k) by {
                        let j = choose|j: int|
                            0 <= j < old(self).transfers@.len()
                                && old(self).transfers@[j].progress.transfer_id@ == k;
                        old(self).lemma_index_of(j);
                        assert(self.transfers@[j] == old(self).transfers@[j]);
                        self.lemma_index_of(j);
                    }
                    self.lemma_index_of(n as int);
                }
            },
        }
        snapshot
    }

    /// Sets a transfer's status; `None` for an unknown transfer.
    pub fn set_status(&mut self, transfer_id: &str, status: Status) -> (res: Option<
        TransferProgress,
    >)
        requires
            old(self).wf(),
        ensures
            final(self).wf(),
            starts_kept(*old(self), *final(self)),
            final(self).prompts() == old(self).prompts(),
            !old(self)@.contains_key(transfer_id@) ==> res is None && final(self)@ == old(self)@,
            old(self)@.contains_key(transfer_id@) ==> (res matches Some(p) && p@ == (ProgressView {
                status,
                ..old(self)@[transfer_id@].progress
            }) && final(self)@ == old(self)@.insert(
                transfer_id@,
                state_view(p@, old(self)@[transfer_id@].cancelled),
            )),
    {
        match self.find(transfer_id) {
            None => None,
            Some(i) => {
                let mut progress = self.transfers[i].progress.clone();
                progress.status = status;
                let snapshot = progress.clone();
                let state = TransferState {
                    progress,
                    cancelled: self.transfers[i].cancelled,
                    started: self.transfers[i].started,
                    last_emit: self.transfers[i].last_emit,
                };
                self.replace_at(i, state);
                Some(snapshot)
            },
        }
    }

    /// Marks a transfer failed with a reason.
    pub fn fail(&mut self, transfer_id: &str, error: &str) -> (res: Option<TransferProgress>)
        requires
            old(self).wf(),
        ensures
            final(self).wf(),
            starts_kept(*old(self), *final(self)),
            final(self).prompts() == old(self).prompts(),
            !old(self)@.contains_key(transfer_id@) ==> res is None && final(self)@ == old(self)@,
            old(self)@.contains_key(transfer_id@) ==> (res matches Some(p) && p@ == (ProgressView {
                status: Status::Failed,
                error: Some(error@),
                current_file: None,
                ..old(self)@[transfer_id@].progress
            }) && final(self)@ == old(self)@.insert(
                transfer_id@,
                state_view(p@, old(self)@[transfer_id@].cancelled),
            )),
    {
        match self.find(transfer_id) {
            None => None,
            Some(i) => {
                let mut progress = self.transfers[i].progress.clone();
                progress.status = Status::Failed;
                progress.error = Some(string_of(error));
                progress.current_file = None;
                let snapshot = progress.clone();
                let state = TransferState {
                    progress,
                    cancelled: self.transfers[i].cancelled,
                    started: self.transfers[i].started,
                    last_emit: self.transfers[i].last_emit,
                };
                self.replace_at(i, state);
                Some(snapshot)
            },
        }
    }

    /// Notes the file now being transferred; the transfer becomes active.
    pub fn begin_file(&mut self, transfer_id: &str, relative: &str) -> (res: Option<
        TransferProgress,
    >)
        requires
            old(self).wf(),
        ensures
            final(self).wf(),
            starts_kept(*old(self), *final(self)),
            final(self).prompts() == old(self).prompts(),
            !old(self)@.contains_key(transfer_id@) ==> res is None && final(self)@ == old(self)@,
            old(self)@.contains_key(transfer_id@) ==> (res matches Some(p) && p@ == (ProgressView {
                status: Status::Active,
                current_file: Some(relative@),
                ..old(self)@[transfer_id@].progress
            }) && final(self)@ == old(self)@.insert(
                transfer_id@,
                state_view(p@, old(self)@[transfer_id@].cancelled),
            )),
    {
        match self.find(transfer_id) {
            None => None,
            Some(i) => {
                let mut progress = self.transfers[i].progress.clone();
                progress.status = Status::Active;
                progress.current_file = Some(string_of(relative));
                let snapshot = progress.clone();
                let state = TransferState {
                    progress,
                    cancelled: self.transfers[i].cancelled,
                    started: self.transfers[i].started,
                    last_emit: self.transfers[i].last_emit,
                };
                self.replace_at(i, state);
                Some(snapshot)
            },
        }
    }

    /// Counts one more file as done.
    pub fn finish_file(&mut self, transfer_id: &str) -> (res: Option<TransferProgress>)
        requires
            old(self).wf(),
        ensures
            final(self).wf(),
            starts_kept(*old(self), *final(self)),
            final(self).prompts() == old(self).prompts(),
            !old(self)@.contains_key(transfer_id@) ==> res is None && final(self)@ == old(self)@,
            old(self)@.contains_key(transfer_id@) ==> (res matches Some(p) && p@ == (ProgressView {
                files_completed: if old(self)@[transfer_id@].progress.files_completed < usize::MAX {
                    (old(self)@[transfer_id@].progress.files_completed + 1) as usize
                } else {
                    usize::MAX
                },
                ..old(self)@[transfer_id@].progress
            }) && final(self)@ == old(self)@.insert(
                transfer_id@,
                state_view(p@, old(self)@[transfer_id@].cancelled),
            )),
    {
        match self.find(transfer_id) {
            None => None,
            Some(i) => {
                let mut progress = self.transfers[i].progress.clone();
                if progress.files_completed < usize::MAX {
                    progress.files_completed = progress.files_completed + 1;
                }
                let snapshot = progress.clone();
                let state = TransferState {
                    progress,
                    cancelled: self.transfers[i].cancelled,
                    started: self.transfers[i].started,
                    last_emit: self.transfers[i].last_emit,
                };
                self.replace_at(i, state);
                Some(snapshot)
            },
        }
    }

    /// Adds to the byte counter and refreshes the rate. Returns the progress
    /// to report only when the last report is at least 100 ms old; the
    /// counter is updated either way.
    pub fn advance(&mut self, transfer_id: &str, bytes: u64) -> (res: Option<TransferProgress>)
        requires
            old(self).wf(),
        ensures
            final(self).wf(),
            starts_kept(*old(self), *final(self)),
            final(self).prompts() == old(self).prompts(),
            !old(self)@.contains_key(transfer_id@) ==> res is None && final(self)@ == old(self)@,
            old(self)@.contains_key(transfer_id@) ==> final(self)@.dom() == old(self)@.dom() && ({
                let before = old(self)@[transfer_id@];
                let after = final(self)@[transfer_id@];
                &&& after.cancelled == before.cancelled
                &&& after.progress == (ProgressView {
                    transferred_bytes: if before.progress.transferred_bytes + bytes <= u64::MAX {
                        (before.progress.transferred_bytes + bytes) as u64
                    } else {
                        u64::MAX
                    },
                    bytes_per_second: after.progress.bytes_per_second,
                    ..before.progress
                })
                &&& exists|elapsed_micros: nat|
                    after.progress.bytes_per_second == #[trigger] rate_of(
                        after.progress.transferred_bytes,
                        elapsed_micros,
                    )
                &&& exists|secs: u64, micros: u32|
                    #[trigger] clock_parts(old(self).started_at(transfer_id@), secs, micros)
                        && micros < 1000000 && after.progress.bytes_per_second == rate_of(
                        after.progress.transferred_bytes,
                        (secs * 1000000 + micros) as nat,
                    )
                &&& final(self).started_at(transfer_id@) == old(self).started_at(transfer_id@)
                &&& exists|secs: u64, micros: u32|
                    #[trigger] clock_parts(old(self).last_emit_at(transfer_id@), secs, micros)
                        && micros < 1000000 && (res is Some <==> due_after(secs, micros))
                &&& res is Some ==> clock_instant(final(self).last_emit_at(transfer_id@))
                &&& res is None ==> final(self).last_emit_at(transfer_id@) == old(self).last_emit_at(
                    transfer_id@,
                )
                &&& forall|k: Seq<char>|
                    k != transfer_id@ && #[trigger] old(self)@.contains_key(k) ==> final(self)@[k]
                        == old(self)@[k]
                &&& res matches Some(p) ==> p@ == after.progress
            }),
    {
        match self.find(transfer_id) {
            None => None,
            Some(i) => {
                let mut progress = self.transfers[i].progress.clone();
                let t = progress.transferred_bytes;
                progress.transferred_bytes = if bytes <= u64::MAX - t {
                    t + bytes
                } else {
                    u64::MAX
                };
                proof {
                    self.lemma_index_of(i as int);
                }
                let clock = elapsed_parts;
                let (secs, micros) = clock(&self.transfers[i].started);
                assert(clock_parts(old(self).started_at(transfer_id@), secs, micros));
                progress.bytes_per_second = bytes_per_second(progress.transferred_bytes, secs, micros);
                let ghost elapsed_micros: nat = (secs * 1000000 + micros) as nat;
                let (since_secs, since_micros) = clock(&self.transfers[i].last_emit);
                assert(clock_parts(old(self).last_emit_at(transfer_id@), since_secs, since_micros));
                let due = due_for_update(since_secs, since_micros);
                let last_emit = if due {
                    let read_now = now;
                    let t = read_now();
                    proof {
                        lemma_clock_instant(t);
                    }
                    t
                } else {
                    self.transfers[i].last_emit
                };
                let snapshot = progress.clone();
                let state = TransferState {
                    progress,
                    cancelled: self.transfers[i].cancelled,
                    started: self.transfers[i].started,
                    last_emit,
                };
                self.replace_at(i, state);
                proof {
                    self.lemma_index_of(i as int);
                }
                assert(self@[transfer_id@].progress.bytes_per_second == rate_of(
                    self@[transfer_id@].progress.transferred_bytes,
                    elapsed_micros,
                ));
                if due {
                    Some(snapshot)
                } else {
                    None
                }
            },
        }
    }

    /// Marks a transfer completed and snaps its counter to the total.
    pub fn complete(&mut self, transfer_id: &str) -> (res: Option<TransferProgress>)
        requires
            old(self).wf(),
        ensures
            final(self).wf(),
            starts_kept(*old(self), *final(self)),
            final(self).prompts() == old(self).prompts(),
            !old(self)@.contains_key(transfer_id@) ==> res is None && final(self)@ == old(self)@,
            old(self)@.contains_key(transfer_id@) ==> (res matches Some(p) && p@ == (ProgressView {
                status: Status::Completed,
                current_file: None,
                transferred_bytes: old(self)@[transfer_id@].progress.total_bytes,
                ..old(self)@[transfer_id@].progress
            }) && final(self)@ == old(self)@.insert(
                transfer_id@,
                state_view(p@, old(self)@[transfer_id@].cancelled),
            )),
    {
        match self.find(transfer_id) {
            None => None,
            Some(i) => {
                let mut progress = self.transfers[i].progress.clone();
                progress.status = Status::Completed;
                progress.current_file = None;
                progress.transferred_bytes = progress.total_bytes;
                let snapshot = progress.clone();
                let state = TransferState {
                    progress,
                    cancelled: self.transfers[i].cancelled,
                    started: self.transfers[i].started,
                    last_emit: self.transfers[i].last_emit,
                };
                self.replace_at(i, state);
                Some(snapshot)
            },
        }
    }

    /// Flags a transfer cancelled (its loops stop at their next check) and
    /// sets its status. Unknown transfers are an error. A transfer still
    /// waiting on its accept prompt has no loop to notice the flag, so the
    /// prompt is withdrawn too, and the decline to hand it is returned.
    pub fn cancel(&mut self, transfer_id: &str) -> (res: Result<
        (TransferProgress, Option<OfferDecision>),
    >)
        requires
            old(self).wf(),
        ensures
            final(self).wf(),
            starts_kept(*old(self), *final(self)),
            !old(self)@.contains_key(transfer_id@) ==> {
                &&& final(self)@ == old(self)@
                &&& final(self).prompts() == old(self).prompts()
                &&& res matches Err(Error::UnknownTransfer(id)) && id@ == transfer_id@
            },
            old(self)@.contains_key(transfer_id@) ==> {
                &&& res matches Ok((p, decline))
                &&& p@ == (ProgressView {
                    status: Status::Cancelled,
                    ..old(self)@[transfer_id@].progress
                })
                &&& final(self)@ == old(self)@.insert(transfer_id@, state_view(p@, true))
                &&& final(self).prompts() == (
                    old(self).prompts().0.remove(transfer_id@),
                    old(self).prompts().1,
                )
                &&& (decline is Some <==> old(self).prompts().0.contains(transfer_id@))
                &&& decline matches Some(d) ==> d matches OfferDecision::Decline(Some(m)) && m@
                    == "cancelled"@
            },
    {
        match self.find(transfer_id) {
            None => Err(Error::UnknownTransfer(string_of(transfer_id))),
            Some(i) => {
                let mut progress = self.transfers[i].progress.clone();
                progress.status = Status::Cancelled;
                let snapshot = progress.clone();
                let state = TransferState {
                    progress,
                    cancelled: true,
                    started: self.transfers[i].started,
                    last_emit: self.transfers[i].last_emit,
                };
                self.replace_at(i, state);
                let was_waiting = self.pending_offers.remove(transfer_id);
                let decline = if was_waiting {
                    Some(OfferDecision::Decline(Some(string_of("cancelled"))))
                } else {
                    None
                };
                Ok((snapshot, decline))
            },
        }
    }

    pub fn is_cancelled(&self, transfer_id: &str) -> (res: bool)
        requires
            self.wf(),
        ensures
            res == (self@.contains_key(transfer_id@) && self@[transfer_id@].cancelled),
    {
        match self.find(transfer_id) {
            None => false,
            Some(i) => self.transfers[i].cancelled,
        }
    }

    /// Every tracked transfer's progress, one per transfer.
    pub fn list(&self) -> (res: Vec<TransferProgress>)
        requires
            self.wf(),
        ensures
            forall|a: int|
                0 <= a < res@.len() ==> self@.contains_key(#[trigger] res@[a].transfer_id@)
                    && self@[res@[a].transfer_id@].progress == res@[a]@,
            forall|k: Seq<char>|
                #[trigger] self@.contains_key(k) ==> exists|a: int|
                    0 <= a < res@.len() && res@[a].transfer_id@ == k,
            forall|a: int, b: int|
                0 <= a < b < res@.len() ==> res@[a].transfer_id@ != res@[b].transfer_id@,
    {
        let mut res: Vec<TransferProgress> = Vec::new();
        let mut i: usize = 0;
        while i < self.transfers.len()
            invariant
                self.wf(),
                i <= self.transfers@.len(),
                res@.len() == i,
                forall|a: int| 0 <= a < i ==> #[trigger] res@[a]@ == self.transfers@[a].progress@,
            decreases self.transfers@.len() - i,
        {
            res.push(self.transfers[i].progress.clone());
            i = i + 1;
        }
        proof {
            assert forall|a: int| 0 <= a < res@.len() implies self@.contains_key(
                #[trigger] res@[a].transfer_id@,
            ) && self@[res@[a].transfer_id@].progress == res@[a]@ by {
                assert(res@[a]@ == self.transfers@[a].progress@);
                assert(self.table@.contains_key(self.transfers@[a].progress.transfer_id@));
            }
            assert forall|k: Seq<char>| #[trigger] self@.contains_key(k) implies exists|a: int|
                0 <= a < res@.len() && res@[a].transfer_id@ == k by {
                let j = choose|j: int|
                    0 <= j < self.transfers@.len() && self.transfers@[j].progress.transfer_id@ == k;
                assert(res@[j]@ == self.transfers@[j].progress@);
            }
            assert forall|a: int, b: int|
                0 <= a < b < res@.len() implies res@[a].transfer_id@ != res@[b].transfer_id@ by {
                assert(res@[a]@ == self.transfers@[a].progress@);
                assert(res@[b]@ == self.transfers@[b].progress@);
            }
        }
        res
    }

    /// Drops finished transfers (completed, declined, cancelled or failed).
    pub fn clear_finished(&mut self)
        requires
            old(self).wf(),
        ensures
            final(self).wf(),
            final(self).prompts() == old(self).prompts(),
            forall|k: Seq<char>|
                #[trigger] final(self)@.contains_key(k) <==> old(self)@.contains_key(k) && !terminal(
                    old(self)@[k].progress.status,
                ),
            forall|k: Seq<char>| #[trigger] final(self)@.contains_key(k) ==> final(self)@[k] == old(
                self,
            )@[k],
    {
        let ghost old_table = self.table@;
        let mut kept: Vec<TransferState> = Vec::new();
        let ghost mut kept_table: Map<Seq<char>, TransferView> = Map::empty();
        let n = self.transfers.len();
        let mut i: usize = 0;
        let mut rest = Vec::new();
        std::mem::swap(&mut rest, &mut self.transfers);
        let ghost all = rest@;
        assert(entries_match(old_table, all));
        while i < n
            invariant
                n == all.len(),
                rest@ == all.skip(i as int),
                i <= n,
                entries_match(old_table, all),
                entries_match(kept_table, kept@),
                forall|a: int|
                    0 <= a < kept@.len() ==> exists|j: int|
                        0 <= j < i && #[trigger] kept@[a].progress.transfer_id@
                            == all[j].progress.transfer_id@,
                forall|k: Seq<char>|
                    #[trigger] kept_table.contains_key(k) <==> (exists|j: int|
                        0 <= j < i && all[j].progress.transfer_id@ == k && !terminal(
                            all[j].progress.status,
                        )),
                forall|k: Seq<char>|
                    #[trigger] kept_table.contains_key(k) ==> old_table.contains_key(k)
                        && kept_table[k] == old_table[k],
            decreases n - i,
        {
            let state = rest.remove(0);
            proof {
                assert(state == all[i as int]);
                assert(rest@ =~= all.skip(i + 1));
                assert(old_table.contains_key(all[i as int].progress.transfer_id@));
            }
            let ghost k = state.progress.transfer_id@;
            if !state.progress.status.is_terminal() {
                let ghost old_kept = kept@;
                let ghost old_kept_table = kept_table;
                kept.push(state);
                proof {
                    kept_table = kept_table.insert(k, old_table[k]);
                    assert forall|a: int, b: int|
                        0 <= a < kept@.len() && 0 <= b < kept@.len() && a
                            != b implies kept@[a].progress.transfer_id@
                        != kept@[b].progress.transfer_id@ by {
                        if a < old_kept.len() && b == old_kept.len() {
                            let j = choose|j: int|
                                0 <= j < i && #[trigger] kept@[a].progress.transfer_id@
                                    == all[j].progress.transfer_id@;
                        } else if b < old_kept.len() && a == old_kept.len() {
                            let j = choose|j: int|
                                0 <= j < i && #[trigger] kept@[b].progress.transfer_id@
                                    == all[j].progress.transfer_id@;
                        }
                    }
                    assert forall|a: int|
                        0 <= a < kept@.len() implies #[trigger] kept_table.contains_key(
                        kept@[a].progress.transfer_id@,
                    ) && kept_table[kept@[a].progress.transfer_id@] == state_view(
                        kept@[a].progress@,
                        kept@[a].cancelled,
                    ) by {
                        if a < old_kept.len() {
                            assert(kept@[a] == old_kept[a]);
                            assert(old_kept_table.contains_key(old_kept[a].progress.transfer_id@));
                        }
                    }
                    assert forall|kk: Seq<char>| #[trigger] kept_table.contains_key(kk) implies exists|
                        a: int,
                    | 0 <= a < kept@.len() && kept@[a].progress.transfer_id@ == kk by {
                        if kk != k {
                            let a = choose|a: int|
                                0 <= a < old_kept.len() && old_kept[a].progress.transfer_id@ == kk;
                            assert(kept@[a] == old_kept[a]);
                        } else {
                            assert(kept@[old_kept.len() as int].progress.transfer_id@ == kk);
                        }
                    }
                    assert forall|a: int| 0 <= a < kept@.len() implies exists|j: int|
                        0 <= j < i + 1 && #[trigger] kept@[a].progress.transfer_id@
                            == all[j].progress.transfer_id@ by {
                        if a < old_kept.len() {
                            assert(kept@[a] == old_kept[a]);
                            let j = choose|j: int|
                                0 <= j < i && #[trigger] old_kept[a].progress.transfer_id@
                                    == all[j].progress.transfer_id@;
                        } else {
                            assert(kept@[a].progress.transfer_id@ == all[i as int].progress.transfer_id@);
                        }
                    }
                    assert forall|kk: Seq<char>| #[trigger] kept_table.contains_key(kk) <==> (exists|
                        j: int,
                    | 0 <= j < i + 1 && all[j].progress.transfer_id@ == kk && !terminal(
                        all[j].progress.status,
                    )) by {
                        if kk == k {
                            assert(all[i as int].progress.transfer_id@ == kk);
                        } else {
                            if exists|j: int|
                                0 <= j < i + 1 && all[j].progress.transfer_id@ == kk && !terminal(
                                    all[j].progress.status,
                                ) {
                                let j = choose|j: int|
                                    0 <= j < i + 1 && all[j].progress.transfer_id@ == kk
                                        && !terminal(all[j].progress.status);
                                assert(j != i);
                            }
                        }
                    }
                    assert(entries_match(kept_table, kept@));
                }
            } else {
                proof {
                    assert forall|kk: Seq<char>| #[trigger] kept_table.contains_key(kk) <==> (exists|
                        j: int,
                    | 0 <= j < i + 1 && all[j].progress.transfer_id@ == kk && !terminal(
                        all[j].progress.status,
                    )) by {
                        if exists|j: int|
                            0 <= j < i + 1 && all[j].progress.transfer_id@ == kk && !terminal(
                                all[j].progress.status,
                            ) {
                            let j = choose|j: int|
                                0 <= j < i + 1 && all[j].progress.transfer_id@ == kk && !terminal(
                                    all[j].progress.status,
                                );
                            assert(j != i);
                        }
                    }
                    assert forall|a: int| 0 <= a < kept@.len() implies exists|j: int|
                        0 <= j < i + 1 && #[trigger] kept@[a].progress.transfer_id@
                            == all[j].progress.transfer_id@ by {
                        let j = choose|j: int|
                            0 <= j < i && #[trigger] kept@[a].progress.transfer_id@
                                == all[j].progress.transfer_id@;
                    }
                }
            }
            i = i + 1;
        }
        proof {
            assert forall|kk: Seq<char>| #[trigger] kept_table.contains_key(kk) <==> old_table.contains_key(
                kk,
            ) && !terminal(old_table[kk].progress.status) by {
                if old_table.contains_key(kk) {
                    let j = choose|j: int| 0 <= j < all.len() && all[j].progress.transfer_id@ == kk;
                    assert(old_table[kk] == state_view(all[j].progress@, all[j].cancelled));
                }
                if kept_table.contains_key(kk) {
                    let j = choose|j: int|
                        0 <= j < n && all[j].progress.transfer_id@ == kk && !terminal(
                            all[j].progress.status,
                        );
                    assert(old_table[kk] == state_view(all[j].progress@, all[j].cancelled));
                }
            }
        }
        self.transfers = kept;
        self.table = Ghost(kept_table);
    }

    // ---- Approval gates -------------------------------------------------

    /// Publishes an offer: it now waits on an answer, and the event to
    /// emit is returned.
    pub fn open_offer(&mut self, offer: IncomingOffer) -> (event: TransferEvent)
        requires
            old(self).wf(),
        ensures
            final(self).wf(),
            final(self)@ == old(self)@,
            final(self).prompts() == (
                old(self).prompts().0.insert(offer.transfer_id@),
                old(self).prompts().1,
            ),
            event == TransferEvent::Offer(offer),
    {
        self.pending_offers.insert(offer.transfer_id.as_str());
        TransferEvent::Offer(offer)
    }

    /// What a waiting offer comes to. Declining is the default on every
    /// abnormal outcome: a dropped answer and a timeout both decline, and a
    /// timed-out offer stops waiting.
    pub fn close_offer(&mut self, transfer_id: &str, outcome: PromptOutcome<OfferDecision>) -> (res:
        OfferDecision)
        requires
            old(self).wf(),
        ensures
            final(self).wf(),
            final(self)@ == old(self)@,
            match outcome {
                PromptOutcome::Answered(d) => res == d && final(self).prompts() == old(self).prompts(),
                PromptOutcome::Dropped => res matches OfferDecision::Decline(Some(m)) && m@
                    == "no response"@ && final(self).prompts() == old(self).prompts(),
                PromptOutcome::TimedOut => res matches OfferDecision::Decline(Some(m)) && m@
                    == "timed out waiting for a response"@ && final(self).prompts() == (
                    old(self).prompts().0.remove(transfer_id@),
                    old(self).prompts().1,
                ),
            },
    {
        match outcome {
            PromptOutcome::Answered(d) => d,
            PromptOutcome::Dropped => OfferDecision::Decline(Some(string_of("no response"))),
            PromptOutcome::TimedOut => {
                self.pending_offers.remove(transfer_id);
                OfferDecision::Decline(Some(string_of("timed out waiting for a response")))
            },
        }
    }

    /// The user's answer to an offer: it stops waiting, and the decision to
    /// deliver is returned. An offer that is not waiting is an error.
    pub fn resolve_offer(&mut self, transfer_id: &str, decision: OfferDecision) -> (res: Result<
        OfferDecision,
    >)
        requires
            old(self).wf(),
        ensures
            final(self).wf(),
            final(self)@ == old(self)@,
            final(self).prompts() == (
                old(self).prompts().0.remove(transfer_id@),
                old(self).prompts().1,
            ),
            old(self).prompts().0.contains(transfer_id@) ==> res == Ok::<
                OfferDecision,
                Error,
            >(decision),
            !old(self).prompts().0.contains(transfer_id@) ==> (res matches Err(
                Error::UnknownTransfer(id),
            ) && id@ == transfer_id@),
    {
        if self.pending_offers.remove(transfer_id) {
            Ok(decision)
        } else {
            Err(Error::UnknownTransfer(string_of(transfer_id)))
        }
    }

    /// Publishes a pairing request: it now waits on the user, and the event
    /// to emit is returned.
    pub fn open_pairing(&mut self, request: PairingRequest) -> (event: TransferEvent)
        requires
            old(self).wf(),
        ensures
            final(self).wf(),
            final(self)@ == old(self)@,
            final(self).prompts() == (
                old(self).prompts().0,
                old(self).prompts().1.insert(request.request_id@),
            ),
            event == TransferEvent::Pairing(request),
    {
        self.pending_pairings.insert(request.request_id.as_str());
        TransferEvent::Pairing(request)
    }

    /// What a waiting pairing comes to: not paired on every abnormal
    /// outcome, and a timed-out request stops waiting.
    pub fn close_pairing(&mut self, request_id: &str, outcome: PromptOutcome<bool>) -> (res: bool)
        requires
            old(self).wf(),
        ensures
            final(self).wf(),
            final(self)@ == old(self)@,
            res == (outcome matches PromptOutcome::Answered(c) && c),
            outcome is TimedOut ==> final(self).prompts() == (
                old(self).prompts().0,
                old(self).prompts().1.remove(request_id@),
            ),
            !(outcome is TimedOut) ==> final(self).prompts() == old(self).prompts(),
    {
        match outcome {
            PromptOutcome::Answered(confirmed) => confirmed,
            PromptOutcome::Dropped => false,
            PromptOutcome::TimedOut => {
                self.pending_pairings.remove(request_id);
                false
            },
        }
    }

    /// The user's answer to a pairing request: it stops waiting, and the
    /// answer to deliver is returned. A request that is not waiting is an
    /// error.
    pub fn resolve_pairing(&mut self, request_id: &str, confirmed: bool) -> (res: Result<bool>)
        requires
            old(self).wf(),
        ensures
            final(self).wf(),
            final(self)@ == old(self)@,
            final(self).prompts() == (
                old(self).prompts().0,
                old(self).prompts().1.remove(request_id@),
            ),
            old(self).prompts().1.contains(request_id@) ==> res == Ok::<bool, Error>(confirmed),
            !old(self).prompts().1.contains(request_id@) ==> (res matches Err(Error::Other(m))
                && m@ == "no pairing in progress for "@ + request_id@),
    {
        if self.pending_pairings.remove(request_id) {
            Ok(confirmed)
        } else {
            let mut message: Vec<char> = Vec::new();
            push_str(&mut message, "no pairing in progress for ");
            push_str(&mut message, request_id);
            Err(Error::Other(string_from_chars(&message)))
        }
    }

    /// The event that raises an identity warning.
    pub fn warn_identity_mismatch(&self, warning: IdentityWarning) -> (event: TransferEvent)
        ensures
            event == TransferEvent::Identity(warning),
    {
        TransferEvent::Identity(warning)
    }
}

} // verus!
