//! The set of peers this device has paired with, and the keys pinned to them.
//!
//! Pairing records a `device_id -> fingerprint` pin. Every later connection
//! re-checks the peer's key against that pin, so a device is authenticated
//! once by a human and by cryptography thereafter. The store is modelled as a
//! map from device ID to the pinned peer.
use vstd::prelude::*;

use crate::crypto::Fingerprint;
use crate::error::{Error, Result};
use crate::text::{chars_of, compare_chars, seq_le, seq_lt, lemma_seq_lt_total,
    lemma_seq_lt_transitive, lowercase, str_eq, string_of, to_lowercase};

verus! {

/// A paired peer and its pinned key.
#[derive(Debug, PartialEq, Eq)]
pub struct TrustedPeer {
    pub device_id: String,
    pub device_name: String,
    pub fingerprint: Fingerprint,
    pub paired_at: u64,
    /// Skip the accept prompt for this peer. Opt-in, per device, and only
    /// meaningful because the peer's key is already pinned.
    pub auto_accept: bool,
}

/// The mathematical content of a `TrustedPeer`.
pub struct PeerView {
    pub device_id: Seq<char>,
    pub device_name: Seq<char>,
    pub fingerprint: Seq<u8>,
    pub paired_at: u64,
    pub auto_accept: bool,
}

impl View for TrustedPeer {
    type V = PeerView;

    open spec fn view(&self) -> PeerView {
        PeerView {
            device_id: self.device_id@,
            device_name: self.device_name@,
            fingerprint: self.fingerprint@,
            paired_at: self.paired_at,
            auto_accept: self.auto_accept,
        }
    }
}

impl Clone for TrustedPeer {
    fn clone(&self) -> (res: TrustedPeer)
        ensures
            res@ == self@,
            res.fingerprint == self.fingerprint,
    {
        TrustedPeer {
            device_id: self.device_id.clone(),
            device_name: self.device_name.clone(),
            fingerprint: self.fingerprint,
            paired_at: self.paired_at,
            auto_accept: self.auto_accept,
        }
    }
}

/// Outcome of checking a presented key against the pins.
#[derive(Debug, Clone, PartialEq, Eq)]
pub enum TrustVerdict {
    /// Key matches the pin. Proceed.
    Trusted(Box<TrustedPeer>),
    /// A device never seen before. Needs pairing confirmation.
    Unknown,
    /// A known device ID with a different key: a reinstall, or someone
    /// impersonating it. Never resolved silently.
    Mismatch { expected: Fingerprint },
}

pub enum VerdictView {
    Trusted(PeerView),
    Unknown,
    Mismatch(Seq<u8>),
}

impl View for TrustVerdict {
    type V = VerdictView;

    open spec fn view(&self) -> VerdictView {
        match self {
            TrustVerdict::Trusted(p) => VerdictView::Trusted((**p)@),
            TrustVerdict::Unknown => VerdictView::Unknown,
            TrustVerdict::Mismatch { expected } => VerdictView::Mismatch(expected@),
        }
    }
}

/// The verdict for a device ID and a presented key, given the pins.
pub open spec fn verdict_of(
    pins: Map<Seq<char>, PeerView>,
    device_id: Seq<char>,
    presented: Seq<u8>,
) -> VerdictView {
    if !pins.contains_key(device_id) {
        VerdictView::Unknown
    } else if pins[device_id].fingerprint == presented {
        VerdictView::Trusted(pins[device_id])
    } else {
        VerdictView::Mismatch(pins[device_id].fingerprint)
    }
}

/// Whether a transfer from this device with this key skips the prompt: only
/// for a pinned key whose peer is marked auto-accept.
pub open spec fn auto_accepts_of(
    pins: Map<Seq<char>, PeerView>,
    device_id: Seq<char>,
    presented: Seq<u8>,
) -> bool {
    match verdict_of(pins, device_id, presented) {
        VerdictView::Trusted(p) => p.auto_accept,
        _ => false,
    }
}

/// The pins after loading stored peers in order: a later entry for the same
/// device ID replaces an earlier one.
pub open spec fn pins_of(stored: Seq<PeerView>) -> Map<Seq<char>, PeerView>
    decreases stored.len(),
{
    if stored.len() == 0 {
        Map::empty()
    } else {
        pins_of(stored.drop_last()).insert(stored.last().device_id, stored.last())
    }
}

/// The pinned peers, one entry per device ID.
pub struct TrustStore {
    peers: Vec<TrustedPeer>,
    pins: Ghost<Map<Seq<char>, PeerView>>,
}

impl View for TrustStore {
    type V = Map<Seq<char>, PeerView>;

    closed spec fn view(&self) -> Map<Seq<char>, PeerView> {
        self.pins@
    }
}

/// Seconds since the Unix epoch from the system clock (`SystemTime::now`),
/// or 0 before the epoch. Nothing is claimed of the value.
#[verifier::external_body]
pub fn unix_now() -> u64 {
    std::time::SystemTime::now().duration_since(std::time::UNIX_EPOCH).map(|d| d.as_secs()).unwrap_or(0)
}

impl TrustStore {
    /// The peer list and the pin map agree, and no device ID occurs twice.
    pub closed spec fn wf(&self) -> bool {
        &&& forall|i: int, j: int|
            0 <= i < self.peers@.len() && 0 <= j < self.peers@.len() && i != j
                ==> self.peers@[i].device_id@ != self.peers@[j].device_id@
        &&& forall|i: int|
            0 <= i < self.peers@.len() ==> #[trigger] self.pins@.contains_key(
                self.peers@[i].device_id@,
            ) && self.pins@[self.peers@[i].device_id@] == self.peers@[i]@
        &&& forall|k: Seq<char>|
            #[trigger] self.pins@.contains_key(k) ==> exists|i: int|
                0 <= i < self.peers@.len() && self.peers@[i].device_id@ == k
    }

    /// An empty store.
    pub fn new() -> (res: TrustStore)
        ensures
            res.wf(),
            res@ == Map::<Seq<char>, PeerView>::empty(),
    {
        TrustStore { peers: Vec::new(), pins: Ghost(Map::empty()) }
    }

    fn find(&self, device_id: &str) -> (res: Option<usize>)
        requires
            self.wf(),
        ensures
            match res {
                Some(i) => i < self.peers@.len() && self.peers@[i as int].device_id@
                    == device_id@,
                None => !self@.contains_key(device_id@),
            },
    {
        let mut i: usize = 0;
        while i < self.peers.len()
            invariant
                self.wf(),
                i <= self.peers@.len(),
                forall|j: int| 0 <= j < i ==> self.peers@[j].device_id@ != device_id@,
            decreases self.peers@.len() - i,
        {
            if str_eq(self.peers[i].device_id.as_str(), device_id) {
                return Some(i);
            }
            i = i + 1;
        }
        None
    }

    /// Inserts or replaces the pin for `peer.device_id`.
    fn upsert(&mut self, peer: TrustedPeer)
        requires
            old(self).wf(),
        ensures
            final(self).wf(),
            final(self)@ == old(self)@.insert(peer.device_id@, peer@),
    {
        let ghost key = peer.device_id@;
        let ghost pv = peer@;
        match self.find(peer.device_id.as_str()) {
            Some(i) => {
                self.peers.set(i, peer);
                self.pins = Ghost(self.pins@.insert(key, pv));
                proof {
                    assert forall|k: Seq<char>| #[trigger] self.pins@.contains_key(k) implies exists|
                        j: int,
                    | 0 <= j < self.peers@.len() && self.peers@[j].device_id@ == k by {
                        if k != key {
                            let j = choose|j: int|
                                0 <= j < old(self).peers@.len() && old(self).peers@[j].device_id@
                                    == k;
                            assert(self.peers@[j] == old(self).peers@[j]);
                        } else {
                            assert(self.peers@[i as int].device_id@ == k);
                        }
                    }
                }
            },
            None => {
                self.peers.push(peer);
                self.pins = Ghost(self.pins@.insert(key, pv));
                proof {
                    let n = old(self).peers@.len();
                    assert forall|a: int|
                        0 <= a < self.peers@.len() implies #[trigger] self.pins@.contains_key(
                        self.peers@[a].device_id@,
                    ) && self.pins@[self.peers@[a].device_id@] == self.peers@[a]@ by {
                        if a < n {
                            assert(self.peers@[a] == old(self).peers@[a]);
                            assert(old(self).pins@.contains_key(old(self).peers@[a].device_id@));
                        }
                    }
                    assert forall|k: Seq<char>| #[trigger] self.pins@.contains_key(k) implies exists|
                        j: int,
                    | 0 <= j < self.peers@.len() && self.peers@[j].device_id@ == k by {
                        if k != key {
                            let j = choose|j: int|
                                0 <= j < old(self).peers@.len() && old(self).peers@[j].device_id@
                                    == k;
                            assert(self.peers@[j] == old(self).peers@[j]);
                        } else {
                            assert(self.peers@[n as int].device_id@ == k);
                        }
                    }
                    assert forall|a: int, b: int|
                        0 <= a < self.peers@.len() && 0 <= b < self.peers@.len() && a
                            != b implies self.peers@[a].device_id@ != self.peers@[b].device_id@ by {
                        if a < n && b < n {
                            assert(self.peers@[a] == old(self).peers@[a]);
                            assert(self.peers@[b] == old(self).peers@[b]);
                        } else if a < n {
                            assert(self.peers@[a] == old(self).peers@[a]);
                            assert(old(self).pins@.contains_key(old(self).peers@[a].device_id@));
                        } else {
                            assert(self.peers@[b] == old(self).peers@[b]);
                            assert(old(self).pins@.contains_key(old(self).peers@[b].device_id@));
                        }
                    }
                }
            },
        }
    }

    /// Builds the store from the stored peer list; a later entry for a
    /// device ID replaces an earlier one.
    pub fn load(stored: Vec<TrustedPeer>) -> (res: TrustStore)
        ensures
            res.wf(),
            res@ == pins_of(stored@.map_values(|p: TrustedPeer| p@)),
    {
        let mut store = TrustStore::new();
        let ghost views = stored@.map_values(|p: TrustedPeer| p@);
        let mut i: usize = 0;
        while i < stored.len()
            invariant
                i <= stored@.len(),
                views == stored@.map_values(|p: TrustedPeer| p@),
                store.wf(),
                store@ == pins_of(views.take(i as int)),
            decreases stored@.len() - i,
        {
            let peer = stored[i].clone();
            store.upsert(peer);
            i = i + 1;
            proof {
                assert(views.take(i as int).drop_last() =~= views.take(i - 1));
            }
        }
        proof {
            assert(views.take(stored@.len() as int) =~= views);
        }
        store
    }

    /// Decides whether a presented key is acceptable for a device ID. A
    /// mismatch is reported, never corrected: re-pinning on change would make
    /// the scheme trust-on-every-use.
    pub fn verify(&self, device_id: &str, presented: &Fingerprint) -> (res: TrustVerdict)
        requires
            self.wf(),
        ensures
            res@ == verdict_of(self@, device_id@, presented@),
    {
        match self.find(device_id) {
            None => TrustVerdict::Unknown,
            Some(i) => {
                let peer = &self.peers[i];
                proof {
                    assert(self.pins@.contains_key(self.peers@[i as int].device_id@));
                }
                if peer.fingerprint == *presented {
                    TrustVerdict::Trusted(Box::new(peer.clone()))
                } else {
                    TrustVerdict::Mismatch { expected: peer.fingerprint }
                }
            },
        }
    }

    /// The pinned peer for a device ID.
    pub fn get(&self, device_id: &str) -> (res: Option<TrustedPeer>)
        requires
            self.wf(),
        ensures
            match res {
                Some(p) => self@.contains_key(device_id@) && p@ == self@[device_id@],
                None => !self@.contains_key(device_id@),
            },
    {
        match self.find(device_id) {
            None => None,
            Some(i) => {
                proof {
                    assert(self.pins@.contains_key(self.peers@[i as int].device_id@));
                }
                Some(self.peers[i].clone())
            },
        }
    }

    pub fn is_trusted(&self, device_id: &str, presented: &Fingerprint) -> (res: bool)
        requires
            self.wf(),
        ensures
            res == (verdict_of(self@, device_id@, presented@) is Trusted),
    {
        match self.verify(device_id, presented) {
            TrustVerdict::Trusted(_) => true,
            _ => false,
        }
    }

    pub fn auto_accepts(&self, device_id: &str, presented: &Fingerprint) -> (res: bool)
        requires
            self.wf(),
        ensures
            res == auto_accepts_of(self@, device_id@, presented@),
    {
        match self.verify(device_id, presented) {
            TrustVerdict::Trusted(peer) => peer.auto_accept,
            _ => false,
        }
    }

    /// Pins a peer. Called only after the user has confirmed the pairing code
    /// on both devices, never automatically. Auto-accept starts off.
    pub fn pair(&mut self, device_id: &str, device_name: &str, fingerprint: Fingerprint) -> (res:
        TrustedPeer)
        requires
            old(self).wf(),
        ensures
            final(self).wf(),
            res.device_id@ == device_id@,
            res.device_name@ == device_name@,
            res.fingerprint == fingerprint,
            !res.auto_accept,
            final(self)@ == old(self)@.insert(device_id@, res@),
    {
        self.pair_at(device_id, device_name, fingerprint, unix_now())
    }

    /// Pins a peer as `pair` does, recording `paired_at` (seconds since the
    /// Unix epoch) as the time of pairing.
    pub fn pair_at(
        &mut self,
        device_id: &str,
        device_name: &str,
        fingerprint: Fingerprint,
        paired_at: u64,
    ) -> (res: TrustedPeer)
        requires
            old(self).wf(),
        ensures
            final(self).wf(),
            res.device_id@ == device_id@,
            res.device_name@ == device_name@,
            res.fingerprint == fingerprint,
            res.paired_at == paired_at,
            !res.auto_accept,
            final(self)@ == old(self)@.insert(device_id@, res@),
    {
        let peer = TrustedPeer {
            device_id: string_of(device_id),
            device_name: string_of(device_name),
            fingerprint,
            paired_at,
            auto_accept: false,
        };
        let copy = peer.clone();
        self.upsert(peer);
        copy
    }

    /// Removes a device's pin.
    pub fn forget(&mut self, device_id: &str)
        requires
            old(self).wf(),
        ensures
            final(self).wf(),
            final(self)@ == old(self)@.remove(device_id@),
    {
        match self.find(device_id) {
            None => {
                proof {
                    assert(self.pins@.remove(device_id@) =~= self.pins@);
                }
            },
            Some(i) => {
                let ghost key = device_id@;
                self.peers.remove(i);
                self.pins = Ghost(self.pins@.remove(key));
                proof {
                    let n = old(self).peers@.len();
                    assert forall|a: int|
                        0 <= a < self.peers@.len() implies #[trigger] self.pins@.contains_key(
                        self.peers@[a].device_id@,
                    ) && self.pins@[self.peers@[a].device_id@] == self.peers@[a]@ by {
                        let o = if a < i { a } else { a + 1 };
                        assert(self.peers@[a] == old(self).peers@[o]);
                        assert(old(self).pins@.contains_key(old(self).peers@[o].device_id@));
                        assert(o != i);
                    }
                    assert forall|k: Seq<char>| #[trigger] self.pins@.contains_key(k) implies exists|
                        j: int,
                    | 0 <= j < self.peers@.len() && self.peers@[j].device_id@ == k by {
                        let j = choose|j: int|
                            0 <= j < old(self).peers@.len() && old(self).peers@[j].device_id@ == k;
                        assert(j != i);
                        let a = if j < i { j } else { j - 1 };
                        assert(self.peers@[a] == old(self).peers@[j]);
                    }
                    assert forall|a: int, b: int|
                        0 <= a < self.peers@.len() && 0 <= b < self.peers@.len() && a
                            != b implies self.peers@[a].device_id@ != self.peers@[b].device_id@ by {
                        let oa = if a < i { a } else { a + 1 };
                        let ob = if b < i { b } else { b + 1 };
                        assert(self.peers@[a] == old(self).peers@[oa]);
                        assert(self.peers@[b] == old(self).peers@[ob]);
                    }
                }
            },
        }
    }

    /// Turns auto-accept on or off for a paired device; unknown devices are
    /// an error.
    pub fn set_auto_accept(&mut self, device_id: &str, auto_accept: bool) -> (res: Result<()>)
        requires
            old(self).wf(),
        ensures
            final(self).wf(),
            old(self)@.contains_key(device_id@) <==> res is Ok,
            res is Ok ==> final(self)@ == old(self)@.insert(
                device_id@,
                PeerView { auto_accept, ..old(self)@[device_id@] },
            ),
            res is Err ==> final(self)@ == old(self)@ && (res matches Err(Error::UnknownPeer(id))
                && id@ == device_id@),
    {
        match self.find(device_id) {
            None => Err(Error::UnknownPeer(string_of(device_id))),
            Some(i) => {
                proof {
                    assert(self.pins@.contains_key(self.peers@[i as int].device_id@));
                }
                let mut peer = self.peers[i].clone();
                peer.auto_accept = auto_accept;
                self.upsert(peer);
                Ok(())
            },
        }
    }

    /// Keeps the stored display name current when a peer renames itself.
    /// The name is cosmetic; the fingerprint it is stored against is never
    /// touched. Returns whether anything changed (and so needs saving).
    pub fn refresh_name(&mut self, device_id: &str, device_name: &str) -> (changed: bool)
        requires
            old(self).wf(),
        ensures
            final(self).wf(),
            changed <==> (old(self)@.contains_key(device_id@) && old(self)@[device_id@].device_name
                != device_name@),
            changed ==> final(self)@ == old(self)@.insert(
                device_id@,
                PeerView { device_name: device_name@, ..old(self)@[device_id@] },
            ),
            !changed ==> final(self)@ == old(self)@,
    {
        match self.find(device_id) {
            None => false,
            Some(i) => {
                proof {
                    assert(self.pins@.contains_key(self.peers@[i as int].device_id@));
                }
                if str_eq(self.peers[i].device_name.as_str(), device_name) {
                    false
                } else {
                    let mut peer = self.peers[i].clone();
                    peer.device_name = string_of(device_name);
                    self.upsert(peer);
                    true
                }
            },
        }
    }

    /// The peers to write to disk, one per pin.
    pub fn to_stored(&self) -> (res: Vec<TrustedPeer>)
        requires
            self.wf(),
        ensures
            pins_of(res@.map_values(|p: TrustedPeer| p@)) == self@,
    {
        let mut res: Vec<TrustedPeer> = Vec::new();
        let mut i: usize = 0;
        while i < self.peers.len()
            invariant
                self.wf(),
                i <= self.peers@.len(),
                res@.len() == i,
                forall|j: int| 0 <= j < i ==> #[trigger] res@[j]@ == self.peers@[j]@,
            decreases self.peers@.len() - i,
        {
            res.push(self.peers[i].clone());
            i = i + 1;
        }
        proof {
            self.lemma_pins_of_peers(res@.map_values(|p: TrustedPeer| p@));
        }
        res
    }

    proof fn lemma_pins_of_peers(&self, views: Seq<PeerView>)
        requires
            self.wf(),
            views.len() == self.peers@.len(),
            forall|j: int| 0 <= j < views.len() ==> #[trigger] views[j] == self.peers@[j]@,
        ensures
            pins_of(views) == self@,
    {
        lemma_pins_of_distinct(views);
        assert forall|k: Seq<char>| #[trigger] self.pins@.contains_key(k) implies pins_of(
            views,
        ).contains_key(k) && pins_of(views)[k] == self.pins@[k] by {
            let j = choose|j: int| 0 <= j < self.peers@.len() && self.peers@[j].device_id@ == k;
            assert(views[j].device_id == k);
        }
        assert forall|k: Seq<char>| #[trigger] pins_of(views).contains_key(k) implies self.pins@.contains_key(
            k,
        ) by {
            let j = choose|j: int| 0 <= j < views.len() && views[j].device_id == k;
            assert(self.pins@.contains_key(self.peers@[j].device_id@));
        }
        assert(pins_of(views) =~= self.pins@);
    }

    /// All pinned peers, ordered by lower-cased display name.
    #[verifier::rlimit(40)]
    pub fn list(&self) -> (res: Vec<TrustedPeer>)
        requires
            self.wf(),
        ensures
            forall|i: int|
                0 <= i < res@.len() ==> self@.contains_key(#[trigger] res@[i].device_id@)
                    && self@[res@[i].device_id@] == res@[i]@,
            forall|k: Seq<char>|
                #[trigger] self@.contains_key(k) ==> exists|i: int|
                    0 <= i < res@.len() && res@[i].device_id@ == k,
            forall|i: int, j: int|
                0 <= i < j < res@.len() ==> res@[i].device_id@ != res@[j].device_id@,
            forall|i: int, j: int|
                0 <= i < j < res@.len() ==> seq_le(
                    lowercase(res@[i].device_name@),
                    lowercase(res@[j].device_name@),
                ),
    {
        // Insertion sort on the lower-cased names, carrying the peers along.
        // `origin[a]` is the index in `peers` that `res[a]` came from and
        // `place[b]` is where `peers[b]` went.
        let mut res: Vec<TrustedPeer> = Vec::new();
        let mut keys: Vec<Vec<char>> = Vec::new();
        let ghost mut origin: Seq<int> = Seq::empty();
        let ghost mut place: Seq<int> = Seq::empty();
        let mut i: usize = 0;
        while i < self.peers.len()
            invariant
                self.wf(),
                i <= self.peers@.len(),
                res@.len() == i,
                keys@.len() == i,
                origin.len() == i,
                place.len() == i,
                forall|a: int|
                    #![trigger res@[a]]
                    0 <= a < i ==> 0 <= origin[a] < i && res@[a]@ == self.peers@[origin[a]]@
                        && keys@[a]@ == lowercase(res@[a].device_name@),
                forall|b: int|
                    #![trigger place[b]]
                    0 <= b < i ==> 0 <= place[b] < i && origin[place[b]] == b,
                forall|a: int, c: int|
                    #![trigger origin[a], origin[c]]
                    0 <= a < i && 0 <= c < i && a != c ==> origin[a] != origin[c],
                forall|a: int, c: int|
                    #![trigger keys@[a], keys@[c]]
                    0 <= a < c < i ==> seq_le(keys@[a]@, keys@[c]@),
            decreases self.peers@.len() - i,
        {
            proof {
                assert forall|a: int| 0 <= a < i implies 0 <= #[trigger] origin[a] < i by {
                    assert(res@[a]@ == self.peers@[origin[a]]@);
                }
            }
            let peer = self.peers[i].clone();
            let key = chars_of(to_lowercase(peer.device_name.as_str()).as_str());
            let mut pos: usize = 0;
            while pos < keys.len() && compare_chars(&keys[pos], &key) <= 0
                invariant
                    pos <= keys@.len(),
                    forall|a: int| 0 <= a < pos ==> seq_le(#[trigger] keys@[a]@, key@),
                decreases keys@.len() - pos,
            {
                pos = pos + 1;
            }
            let ghost old_keys = keys@;
            let ghost pv = peer@;
            let ghost kv = key@;
            let ghost old_res = res@;
            let ghost old_origin = origin;
            let ghost old_place = place;
            proof {
                assert forall|a: int| pos <= a < old_keys.len() implies seq_lt(
                    key@,
                    #[trigger] old_keys[a]@,
                ) by {
                    lemma_seq_lt_total(key@, old_keys[pos as int]@);
                    if a > pos {
                        assert(seq_le(old_keys[pos as int]@, old_keys[a]@));
                        if old_keys[pos as int]@ != old_keys[a]@ {
                            lemma_seq_lt_transitive(key@, old_keys[pos as int]@, old_keys[a]@);
                        }
                    }
                }
            }
            res.insert(pos, peer);
            keys.insert(pos, key);
            proof {
                origin = old_origin.insert(pos as int, i as int);
                place = Seq::new(
                    (i + 1) as nat,
                    |b: int|
                        if b == i {
                            pos as int
                        } else if old_place[b] >= pos {
                            old_place[b] + 1
                        } else {
                            old_place[b]
                        },
                );
            }
            i = i + 1;
            proof {
                assert(res@[pos as int]@ == pv);
                assert(origin[pos as int] == i - 1);
                assert(keys@[pos as int]@ == kv);
                assert(kv == lowercase(pv.device_name));
                assert(pv == self.peers@[i - 1]@);
                assert forall|a: int| 0 <= a < old_origin.len() implies #[trigger] old_origin[a] < i
                    - 1 by {
                    assert(old_res[a] == old_res[a]);
                }
                lemma_insert_keeps_distinct(old_origin, pos as int, (i - 1) as int);
                assert forall|a: int|
                    #![trigger res@[a]]
                    0 <= a < i implies 0 <= origin[a] < i && res@[a]@ == self.peers@[origin[a]]@
                        && keys@[a]@ == lowercase(res@[a].device_name@) by {
                    if a < pos {
                        assert(res@[a] == old_res[a] && keys@[a] == old_keys[a]);
                        assert(origin[a] == old_origin[a]);
                    } else if a > pos {
                        assert(res@[a] == old_res[a - 1] && keys@[a] == old_keys[a - 1]);
                        assert(origin[a] == old_origin[a - 1]);
                    } else {
                        assert(res@[a]@ == pv);
                        assert(keys@[a]@ == kv);
                        assert(origin[a] == i - 1);
                        assert(pv == self.peers@[i - 1]@);
                    }
                }
                assert forall|b: int|
                    #![trigger place[b]]
                    0 <= b < i implies 0 <= place[b] < i && origin[place[b]] == b by {
                    if b < i - 1 {
                        assert(0 <= old_place[b] < i - 1);
                        assert(old_origin[old_place[b]] == b);
                    }
                }
                assert forall|a: int, c: int|
                    #![trigger keys@[a], keys@[c]]
                    0 <= a < c < i implies seq_le(keys@[a]@, keys@[c]@) by {
                    let oa = if a < pos { a } else { a - 1 };
                    let oc = if c < pos { c } else { c - 1 };
                    if a != pos && c != pos {
                        assert(keys@[a] == old_keys[oa] && keys@[c] == old_keys[oc]);
                    } else if a == pos {
                        assert(keys@[c] == old_keys[oc]);
                    } else {
                        assert(keys@[a] == old_keys[oa]);
                    }
                }
            }
        }
        proof {
            assert forall|a: int| 0 <= a < res@.len() implies self@.contains_key(
                #[trigger] res@[a].device_id@,
            ) && self@[res@[a].device_id@] == res@[a]@ by {
                assert(res@[a]@ == self.peers@[origin[a]]@);
                assert(self.pins@.contains_key(self.peers@[origin[a]].device_id@));
            }
            assert forall|k: Seq<char>| #[trigger] self@.contains_key(k) implies exists|a: int|
                0 <= a < res@.len() && res@[a].device_id@ == k by {
                let b = choose|b: int| 0 <= b < self.peers@.len() && self.peers@[b].device_id@ == k;
                let a = place[b];
                assert(res@[a]@ == self.peers@[origin[a]]@);
            }
            assert forall|a: int, c: int|
                0 <= a < c < res@.len() implies res@[a].device_id@ != res@[c].device_id@ by {
                assert(res@[a]@ == self.peers@[origin[a]]@);
                assert(res@[c]@ == self.peers@[origin[c]]@);
                assert(origin[a] != origin[c]);
            }
            assert forall|a: int, c: int|
                0 <= a < c < res@.len() implies seq_le(
                lowercase(res@[a].device_name@),
                lowercase(res@[c].device_name@),
            ) by {
                assert(res@[a]@ == self.peers@[origin[a]]@);
                assert(res@[c]@ == self.peers@[origin[c]]@);
                assert(seq_le(keys@[a]@, keys@[c]@));
            }
        }
        res
    }
}

/// Inserting a value larger than every element keeps a sequence free of
/// repeats.
proof fn lemma_insert_keeps_distinct(s: Seq<int>, pos: int, v: int)
    requires
        0 <= pos <= s.len(),
        forall|a: int| 0 <= a < s.len() ==> #[trigger] s[a] < v,
        forall|a: int, c: int|
            #![trigger s[a], s[c]]
            0 <= a < s.len() && 0 <= c < s.len() && a != c ==> s[a] != s[c],
    ensures
        forall|a: int, c: int|
            #![trigger s.insert(pos, v)[a], s.insert(pos, v)[c]]
            0 <= a <= s.len() && 0 <= c <= s.len() && a != c ==> s.insert(pos, v)[a] != s.insert(
                pos,
                v,
            )[c],
{
    let t = s.insert(pos, v);
    assert forall|a: int, c: int|
        #![trigger t[a], t[c]]
        0 <= a <= s.len() && 0 <= c <= s.len() && a != c implies t[a] != t[c] by {
        let oa = if a < pos { a } else { a - 1 };
        let oc = if c < pos { c } else { c - 1 };
        if a != pos && c != pos {
            assert(t[a] == s[oa] && t[c] == s[oc]);
        } else if a == pos {
            assert(t[c] == s[oc]);
        } else {
            assert(t[a] == s[oa]);
        }
    }
}

/// Loading a list whose device IDs are distinct pins each of them.
proof fn lemma_pins_of_distinct(views: Seq<PeerView>)
    requires
        forall|i: int, j: int|
            0 <= i < views.len() && 0 <= j < views.len() && i != j ==> views[i].device_id
                != views[j].device_id,
    ensures
        forall|j: int|
            0 <= j < views.len() ==> #[trigger] pins_of(views).contains_key(views[j].device_id)
                && pins_of(views)[views[j].device_id] == views[j],
        forall|k: Seq<char>|
            #[trigger] pins_of(views).contains_key(k) ==> exists|j: int|
                0 <= j < views.len() && views[j].device_id == k,
    decreases views.len(),
{
    if views.len() > 0 {
        let d = views.drop_last();
        assert forall|i: int, j: int|
            0 <= i < d.len() && 0 <= j < d.len() && i != j implies d[i].device_id
                != d[j].device_id by {
            assert(d[i] == views[i] && d[j] == views[j]);
        }
        lemma_pins_of_distinct(d);
        assert forall|j: int| 0 <= j < views.len() implies #[trigger] pins_of(views).contains_key(
            views[j].device_id,
        ) && pins_of(views)[views[j].device_id] == views[j] by {
            if j < views.len() - 1 {
                assert(pins_of(d).contains_key(d[j].device_id));
                assert(d[j] == views[j]);
                assert(views[j].device_id != views[views.len() - 1].device_id);
            }
        }
        assert forall|k: Seq<char>| #[trigger] pins_of(views).contains_key(k) implies exists|j: int|
            0 <= j < views.len() && views[j].device_id == k by {
            if k != views.last().device_id {
                assert(pins_of(d).contains_key(k));
                let j = choose|j: int| 0 <= j < d.len() && d[j].device_id == k;
                assert(views[j] == d[j]);
            } else {
                assert(views[views.len() - 1].device_id == k);
            }
        }
    }
}

// ---------------------------------------------------------------------------
// Laws
// ---------------------------------------------------------------------------

/// A freshly pinned key is trusted for its device ID.
pub proof fn lemma_paired_peer_is_trusted(
    pins: Map<Seq<char>, PeerView>,
    peer: PeerView,
)
    ensures
        verdict_of(pins.insert(peer.device_id, peer), peer.device_id, peer.fingerprint)
            == VerdictView::Trusted(peer),
{
}

/// Pins written out (`to_stored`) after a pairing and loaded back at the
/// next start still trust the paired device with the key it was paired
/// with.
pub proof fn lemma_pins_survive_a_restart(
    pins: Map<Seq<char>, PeerView>,
    stored: Seq<PeerView>,
    peer: PeerView,
)
    requires
        pins_of(stored) == pins.insert(peer.device_id, peer),
    ensures
        verdict_of(pins_of(stored), peer.device_id, peer.fingerprint) == VerdictView::Trusted(peer),
{
    lemma_paired_peer_is_trusted(pins, peer);
}

/// The impersonation case: a known device ID presenting another key is
/// reported as a mismatch naming the pinned key, never as unknown.
pub proof fn lemma_substituted_key_is_a_mismatch(
    pins: Map<Seq<char>, PeerView>,
    device_id: Seq<char>,
    presented: Seq<u8>,
)
    requires
        pins.contains_key(device_id),
        pins[device_id].fingerprint != presented,
    ensures
        verdict_of(pins, device_id, presented) == VerdictView::Mismatch(pins[device_id].fingerprint),
{
}

/// Forgetting a device revokes trust in any key for it.
pub proof fn lemma_forgotten_peer_is_unknown(
    pins: Map<Seq<char>, PeerView>,
    device_id: Seq<char>,
    presented: Seq<u8>,
)
    ensures
        verdict_of(pins.remove(device_id), device_id, presented) == VerdictView::Unknown,
{
}

/// Auto-accept is gated on the pinned key, not on the device ID.
pub proof fn lemma_auto_accept_needs_the_pinned_key(
    pins: Map<Seq<char>, PeerView>,
    device_id: Seq<char>,
    presented: Seq<u8>,
)
    requires
        auto_accepts_of(pins, device_id, presented),
    ensures
        pins.contains_key(device_id),
        pins[device_id].fingerprint == presented,
        pins[device_id].auto_accept,
{
}

/// Pairing alone never grants silent acceptance.
pub proof fn lemma_pairing_does_not_auto_accept(
    pins: Map<Seq<char>, PeerView>,
    peer: PeerView,
    presented: Seq<u8>,
)
    requires
        !peer.auto_accept,
    ensures
        !auto_accepts_of(pins.insert(peer.device_id, peer), peer.device_id, presented),
{
}

/// Renaming keeps the pin: the verdict for any key is unchanged except for
/// the display name carried along.
pub proof fn lemma_rename_keeps_the_pin(
    pins: Map<Seq<char>, PeerView>,
    device_id: Seq<char>,
    name: Seq<char>,
    presented: Seq<u8>,
)
    requires
        pins.contains_key(device_id),
    ensures
        ({
            let renamed = pins.insert(device_id, PeerView { device_name: name, ..pins[device_id] });
            (verdict_of(renamed, device_id, presented) is Trusted) == (verdict_of(
                pins,
                device_id,
                presented,
            ) is Trusted) && auto_accepts_of(renamed, device_id, presented) == auto_accepts_of(
                pins,
                device_id,
                presented,
            )
        }),
{
}

} // verus!
