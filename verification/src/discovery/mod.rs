//! Finding other fluqsr devices on the local network.
//!
//! Two independent transports feed one registry, because either can be
//! unavailable on a given network: a UDP multicast heartbeat ([`beacon`]) and
//! standard DNS-SD ([`mdns`]). Neither is authoritative: discovery decides
//! what the user *sees*; nothing discovered here is trusted until a TLS
//! handshake proves the peer's key.
pub mod beacon;
pub mod mdns;

use vstd::prelude::*;

use std::time::Instant;

use crate::order::{key_view, pair_le, sort_order};
use crate::text::{chars_of, lowercase, str_eq, to_lowercase};

verus! {

/// UDP port for the multicast beacon.
pub const DISCOVERY_PORT: u16 = 47653;

/// Default TCP port transfers are accepted on.
pub const DEFAULT_TRANSFER_PORT: u16 = 47654;

/// Administratively scoped multicast group: routers do not forward it off
/// the local network.
pub const MULTICAST_GROUP: [u8; 4] = [239, 255, 77, 7];

pub const MDNS_SERVICE_TYPE: &'static str = "_fluqsr._tcp.local.";

/// How often each device announces itself, in seconds.
pub const ANNOUNCE_INTERVAL_SECS: u64 = 3;

/// A peer is dropped after this many seconds without a sighting: several
/// announce intervals, so one lost packet does not make a device flicker.
pub const PEER_TIMEOUT_SECS: u64 = 15;

/// Whether an IPv4 address is multicast (224.0.0.0/4), as
/// `Ipv4Addr::is_multicast` decides.
pub fn is_multicast_v4(octets: [u8; 4]) -> (res: bool)
    ensures
        res == (224 <= octets@[0] && octets@[0] <= 239),
{
    224 <= octets[0] && octets[0] <= 239
}

/// An IP address as plain octets or segments.
#[derive(Debug, Clone, Copy, PartialEq, Eq)]
pub enum IpAddress {
    V4([u8; 4]),
    V6([u16; 8]),
}

impl IpAddress {
    pub fn is_ipv4(&self) -> (res: bool)
        ensures
            res == (*self is V4),
    {
        match self {
            IpAddress::V4(_) => true,
            IpAddress::V6(_) => false,
        }
    }
}

/// Which transport reported a peer. Informational only.
#[derive(Debug, Clone, Copy, PartialEq, Eq, Structural)]
pub enum DiscoverySource {
    Beacon,
    Mdns,
    Manual,
}

#[derive(Debug, PartialEq, Eq)]
pub struct DiscoveredPeer {
    pub device_id: String,
    pub device_name: String,
    pub platform: String,
    pub address: IpAddress,
    pub port: u16,
    pub source: DiscoverySource,
    /// Seconds since this peer was last heard from.
    pub last_seen_secs: u64,
    /// The fingerprint the peer *claims*, for display only. Unauthenticated
    /// broadcast data; never used to decide trust.
    pub fingerprint_hint: Option<String>,
}

pub struct DiscoveredView {
    pub device_id: Seq<char>,
    pub device_name: Seq<char>,
    pub platform: Seq<char>,
    pub address: IpAddress,
    pub port: u16,
    pub source: DiscoverySource,
    pub last_seen_secs: u64,
    pub fingerprint_hint: Option<Seq<char>>,
}

impl View for DiscoveredPeer {
    type V = DiscoveredView;

    open spec fn view(&self) -> DiscoveredView {
        DiscoveredView {
            device_id: self.device_id@,
            device_name: self.device_name@,
            platform: self.platform@,
            address: self.address,
            port: self.port,
            source: self.source,
            last_seen_secs: self.last_seen_secs,
            fingerprint_hint: match self.fingerprint_hint {
                Some(h) => Some(h@),
                None => None,
            },
        }
    }
}

impl Clone for DiscoveredPeer {
    fn clone(&self) -> (res: DiscoveredPeer)
        ensures
            res@ == self@,
    {
        DiscoveredPeer {
            device_id: self.device_id.clone(),
            device_name: self.device_name.clone(),
            platform: self.platform.clone(),
            address: self.address,
            port: self.port,
            source: self.source,
            last_seen_secs: self.last_seen_secs,
            fingerprint_hint: match &self.fingerprint_hint {
                Some(h) => Some(h.clone()),
                None => None,
            },
        }
    }
}

#[verifier::external_type_specification]
#[verifier::external_body]
pub struct ExInstant(std::time::Instant);

/// `Instant::now`: the monotonic clock. Nothing is claimed of it.
#[verifier::external_body]
pub(crate) fn now() -> (res: Instant) {
    Instant::now()
}

/// Whole seconds elapsed since `at` (`Instant::elapsed().as_secs()`).
/// Nothing is claimed of the value: it depends on the clock.
#[verifier::external_body]
pub(crate) fn elapsed_secs(at: &Instant) -> (res: u64) {
    at.elapsed().as_secs()
}

/// `t` is an instant the clock can give as the current one: a value `now()`
/// may return.
pub closed spec fn clock_instant(t: Instant) -> bool {
    call_ensures(now, (), t)
}

/// What a call of `now` returned is an instant the clock can give.
pub(crate) proof fn lemma_clock_instant(t: Instant)
    requires
        call_ensures(now, (), t),
    ensures
        clock_instant(t),
{
}

/// `secs` is a reading the clock can give of the whole seconds elapsed since
/// `at`: a value `elapsed_secs(&at)` may return.
pub closed spec fn clock_reading(at: Instant, secs: u64) -> bool {
    call_ensures(elapsed_secs, (&at,), secs)
}

struct PeerEntry {
    peer: DiscoveredPeer,
    last_seen: Instant,
}

/// The merged view of everything both transports have found, one entry per
/// device ID, never including this device itself.
pub struct PeerRegistry {
    entries: Vec<PeerEntry>,
    /// Our own ID, so we filter ourselves out (multicast loopback delivers
    /// our own announcements).
    self_device_id: String,
    peers: Ghost<Map<Seq<char>, DiscoveredView>>,
}

impl View for PeerRegistry {
    type V = Map<Seq<char>, DiscoveredView>;

    closed spec fn view(&self) -> Map<Seq<char>, DiscoveredView> {
        self.peers@
    }
}

/// The device IDs whose age (in the order of `ids`) is under the timeout.
pub open spec fn fresh_ids(ids: Seq<Seq<char>>, ages: Seq<u64>) -> Set<Seq<char>> {
    Set::new(|k: Seq<char>| exists|i: int| 0 <= i < ids.len() && ids[i] == k && ages[i] < PEER_TIMEOUT_SECS)
}

/// The peers after a sighting of `peer`: a new device is added as seen; a
/// known one keeps the entry that arrived first and takes only the display
/// name it now gives.
pub open spec fn sighted(
    peers: Map<Seq<char>, DiscoveredView>,
    peer: DiscoveredView,
) -> Map<Seq<char>, DiscoveredView> {
    if peers.contains_key(peer.device_id) {
        peers.insert(
            peer.device_id,
            DiscoveredView { device_name: peer.device_name, ..peers[peer.device_id] },
        )
    } else {
        peers.insert(peer.device_id, peer)
    }
}

impl PeerRegistry {
    pub closed spec fn wf(&self) -> bool {
        &&& forall|i: int, j: int|
            0 <= i < self.entries@.len() && 0 <= j < self.entries@.len() && i != j
                ==> self.entries@[i].peer.device_id@ != self.entries@[j].peer.device_id@
        &&& forall|i: int|
            0 <= i < self.entries@.len() ==> #[trigger] self.peers@.contains_key(
                self.entries@[i].peer.device_id@,
            ) && self.peers@[self.entries@[i].peer.device_id@] == self.entries@[i].peer@
        &&& forall|k: Seq<char>|
            #[trigger] self.peers@.contains_key(k) ==> exists|i: int|
                0 <= i < self.entries@.len() && self.entries@[i].peer.device_id@ == k
        &&& !self.peers@.contains_key(self.self_device_id@)
    }

    pub closed spec fn self_id(&self) -> Seq<char> {
        self.self_device_id@
    }

    /// The device IDs in the registry's internal order.
    pub closed spec fn order(&self) -> Seq<Seq<char>> {
        self.entries@.map_values(|e: PeerEntry| e.peer.device_id@)
    }

    /// `secs` is a clock reading of how long ago device `id` was last heard
    /// from.
    pub open spec fn heard_ago(&self, id: Seq<char>, secs: u64) -> bool {
        exists|j: int|
            0 <= j < self.order().len() && self.order()[j] == id && clock_reading(
                #[trigger] self.seen()[j],
                secs,
            )
    }

    spec fn index_of(&self, id: Seq<char>) -> int {
        choose|i: int|
            0 <= i < self.entries@.len() && (#[trigger] self.entries@[i]).peer.device_id@ == id
    }

    /// When the device with this ID was last heard from.
    pub closed spec fn seen_at(&self, id: Seq<char>) -> Instant {
        self.entries@[self.index_of(id)].last_seen
    }

    proof fn lemma_index_of(&self, i: int)
        requires
            self.wf(),
            0 <= i < self.entries@.len(),
        ensures
            self.seen_at(self.entries@[i].peer.device_id@) == self.entries@[i].last_seen,
    {
        let id = self.entries@[i].peer.device_id@;
        let j = self.index_of(id);
        assert(0 <= j < self.entries@.len() && self.entries@[j].peer.device_id@ == id);
        if j != i {
            assert(self.entries@[i].peer.device_id@ != self.entries@[j].peer.device_id@);
        }
    }

    /// The sighting times `evict_stale` and `snapshot` read, position by
    /// position, are those of the devices in `order()`.
    pub proof fn lemma_seen_in_order(&self)
        requires
            self.wf(),
        ensures
            self.seen().len() == self.order().len(),
            forall|j: int|
                0 <= j < self.order().len() ==> #[trigger] self.seen()[j] == self.seen_at(
                    self.order()[j],
                ),
    {
        assert forall|j: int| 0 <= j < self.order().len() implies #[trigger] self.seen()[j]
            == self.seen_at(self.order()[j]) by {
            self.lemma_index_of(j);
        }
    }

    /// When each device was last heard from, in the order of `order()`.
    pub closed spec fn seen(&self) -> Seq<Instant> {
        self.entries@.map_values(|e: PeerEntry| e.last_seen)
    }

    pub proof fn lemma_order(&self)
        requires
            self.wf(),
        ensures
            forall|i: int| 0 <= i < self.order().len() ==> self@.contains_key(#[trigger] self.order()[i]),
            forall|k: Seq<char>| #[trigger] self@.contains_key(k) ==> self.order().contains(k),
            forall|i: int, j: int|
                0 <= i < self.order().len() && 0 <= j < self.order().len() && i != j
                    ==> self.order()[i] != self.order()[j],
    {
        assert forall|i: int| 0 <= i < self.order().len() implies self@.contains_key(
            #[trigger] self.order()[i],
        ) by {
            assert(self.peers@.contains_key(self.entries@[i].peer.device_id@));
        }
        assert forall|k: Seq<char>| #[trigger] self@.contains_key(k) implies self.order().contains(
            k,
        ) by {
            let i = choose|i: int| 0 <= i < self.entries@.len() && self.entries@[i].peer.device_id@ == k;
            assert(self.order()[i] == k);
        }
    }

    pub fn new(self_device_id: String) -> (res: PeerRegistry)
        ensures
            res.wf(),
            res@ == Map::<Seq<char>, DiscoveredView>::empty(),
            res.self_id() == self_device_id@,
    {
        PeerRegistry { entries: Vec::new(), self_device_id, peers: Ghost(Map::empty()) }
    }

    fn find(&self, device_id: &str) -> (res: Option<usize>)
        requires
            self.wf(),
        ensures
            match res {
                Some(i) => i < self.entries@.len() && self.entries@[i as int].peer.device_id@
                    == device_id@ && self@.contains_key(device_id@),
                None => !self@.contains_key(device_id@),
            },
    {
        let mut i: usize = 0;
        while i < self.entries.len()
            invariant
                self.wf(),
                i <= self.entries@.len(),
                forall|j: int| 0 <= j < i ==> self.entries@[j].peer.device_id@ != device_id@,
            decreases self.entries@.len() - i,
        {
            if str_eq(self.entries[i].peer.device_id.as_str(), device_id) {
                proof {
                    assert(self.peers@.contains_key(self.entries@[i as int].peer.device_id@));
                }
                return Some(i);
            }
            i = i + 1;
        }
        None
    }

    /// Records a sighting. Returns true when this is a device not seen
    /// before; sightings of this device itself are ignored. A device seen
    /// again (by either transport) keeps one entry: the one that arrived
    /// first, so its source does not churn between transports, with the
    /// display name the device now gives and a fresh last-seen time.
    pub fn observe(&mut self, peer: DiscoveredPeer) -> (is_new: bool)
        requires
            old(self).wf(),
        ensures
            final(self).wf(),
            final(self).self_id() == old(self).self_id(),
            peer.device_id@ == old(self).self_id() ==> !is_new && final(self)@ == old(self)@,
            peer.device_id@ != old(self).self_id() ==> is_new == !old(self)@.contains_key(
                peer.device_id@,
            ),
            peer.device_id@ != old(self).self_id() ==> final(self)@ == sighted(old(self)@, peer@),
            peer.device_id@ != old(self).self_id() ==> final(self)@.contains_key(peer.device_id@)
                && final(self)@[peer.device_id@].device_name == peer@.device_name,
            peer.device_id@ != old(self).self_id() ==> clock_instant(
                final(self).seen_at(peer.device_id@),
            ),
            forall|k: Seq<char>|
                #[trigger] old(self)@.contains_key(k) && k != peer.device_id@ ==> final(self).seen_at(
                    k,
                ) == old(self).seen_at(k),
    {
        if str_eq(peer.device_id.as_str(), self.self_device_id.as_str()) {
            return false;
        }
        let clock = now;
        let t = clock();
        proof {
            lemma_clock_instant(t);
        }
        let ghost key = peer.device_id@;
        match self.find(peer.device_id.as_str()) {
            Some(i) => {
                let kept = self.entries[i].peer.clone();
                let refreshed = DiscoveredPeer {
                    device_id: kept.device_id,
                    device_name: peer.device_name,
                    platform: kept.platform,
                    address: kept.address,
                    port: kept.port,
                    source: kept.source,
                    last_seen_secs: kept.last_seen_secs,
                    fingerprint_hint: kept.fingerprint_hint,
                };
                let ghost pv = refreshed@;
                assert(pv == (DiscoveredView { device_name: pv.device_name, ..old(self)@[key] }));
                self.entries.set(i, PeerEntry { peer: refreshed, last_seen: t });
                self.peers = Ghost(self.peers@.insert(key, pv));
                proof {
                    assert forall|k: Seq<char>| #[trigger] self.peers@.contains_key(k) implies exists|
                        j: int,
                    | 0 <= j < self.entries@.len() && self.entries@[j].peer.device_id@ == k by {
                        if k != key {
                            let j = choose|j: int|
                                0 <= j < old(self).entries@.len()
                                    && old(self).entries@[j].peer.device_id@ == k;
                            assert(self.entries@[j] == old(self).entries@[j]);
                        } else {
                            assert(self.entries@[i as int].peer.device_id@ == k);
                        }
                    }
                    assert(self.wf());
                    self.lemma_index_of(i as int);
                    assert forall|k: Seq<char>|
                        #[trigger] old(self)@.contains_key(k) && k != key implies self.seen_at(k)
                            == old(self).seen_at(k) by {
                        let j = choose|j: int|
                            0 <= j < old(self).entries@.len()
                                && old(self).entries@[j].peer.device_id@ == k;
                        old(self).lemma_index_of(j);
                        assert(self.entries@[j] == old(self).entries@[j]);
                        self.lemma_index_of(j);
                    }
                }
                false
            },
            None => {
                let ghost pv = peer@;
                self.entries.push(PeerEntry { peer, last_seen: t });
                self.peers = Ghost(self.peers@.insert(key, pv));
                proof {
                    let n = old(self).entries@.len();
                    assert forall|a: int|
                        0 <= a < self.entries@.len() implies #[trigger] self.peers@.contains_key(
                        self.entries@[a].peer.device_id@,
                    ) && self.peers@[self.entries@[a].peer.device_id@] == self.entries@[a].peer@ by {
                        if a < n {
                            assert(self.entries@[a] == old(self).entries@[a]);
                            assert(old(self).peers@.contains_key(
                                old(self).entries@[a].peer.device_id@,
                            ));
                        }
                    }
                    assert forall|k: Seq<char>| #[trigger] self.peers@.contains_key(k) implies exists|
                        j: int,
                    | 0 <= j < self.entries@.len() && self.entries@[j].peer.device_id@ == k by {
                        if k != key {
                            let j = choose|j: int|
                                0 <= j < old(self).entries@.len()
                                    && old(self).entries@[j].peer.device_id@ == k;
                            assert(self.entries@[j] == old(self).entries@[j]);
                        } else {
                            assert(self.entries@[n as int].peer.device_id@ == k);
                        }
                    }
                    assert forall|a: int, b: int|
                        0 <= a < self.entries@.len() && 0 <= b < self.entries@.len() && a
                            != b implies self.entries@[a].peer.device_id@
                        != self.entries@[b].peer.device_id@ by {
                        if a < n && b < n {
                            assert(self.entries@[a] == old(self).entries@[a]);
                            assert(self.entries@[b] == old(self).entries@[b]);
                        } else if a < n {
                            assert(self.entries@[a] == old(self).entries@[a]);
                            assert(old(self).peers@.contains_key(
                                old(self).entries@[a].peer.device_id@,
                            ));
                        } else {
                            assert(self.entries@[b] == old(self).entries@[b]);
                            assert(old(self).peers@.contains_key(
                                old(self).entries@[b].peer.device_id@,
                            ));
                        }
                    }
                    assert(self.wf());
                    self.lemma_index_of(n as int);
                    assert forall|k: Seq<char>|
                        #[trigger] old(self)@.contains_key(k) && k != key implies self.seen_at(k)
                            == old(self).seen_at(k) by {
                        let j = choose|j: int|
                            0 <= j < old(self).entries@.len()
                                && old(self).entries@[j].peer.device_id@ == k;
                        old(self).lemma_index_of(j);
                        assert(self.entries@[j] == old(self).entries@[j]);
                        self.lemma_index_of(j);
                    }
                }
                true
            },
        }
    }

    /// Drops a device from the list.
    pub fn forget(&mut self, device_id: &str)
        requires
            old(self).wf(),
        ensures
            final(self).wf(),
            final(self).self_id() == old(self).self_id(),
            final(self)@ == old(self)@.remove(device_id@),
    {
        match self.find(device_id) {
            None => {
                proof {
                    assert(self.peers@.remove(device_id@) =~= self.peers@);
                }
            },
            Some(i) => {
                let ghost key = device_id@;
                self.entries.remove(i);
                self.peers = Ghost(self.peers@.remove(key));
                proof {
                    assert forall|a: int|
                        0 <= a < self.entries@.len() implies #[trigger] self.peers@.contains_key(
                        self.entries@[a].peer.device_id@,
                    ) && self.peers@[self.entries@[a].peer.device_id@] == self.entries@[a].peer@ by {
                        let o = if a < i { a } else { a + 1 };
                        assert(self.entries@[a] == old(self).entries@[o]);
                        assert(old(self).peers@.contains_key(old(self).entries@[o].peer.device_id@));
                        assert(o != i);
                    }
                    assert forall|k: Seq<char>| #[trigger] self.peers@.contains_key(k) implies exists|
                        j: int,
                    | 0 <= j < self.entries@.len() && self.entries@[j].peer.device_id@ == k by {
                        let j = choose|j: int|
                            0 <= j < old(self).entries@.len() && old(self).entries@[j].peer.device_id@
                                == k;
                        assert(j != i);
                        let a = if j < i { j } else { j - 1 };
                        assert(self.entries@[a] == old(self).entries@[j]);
                    }
                    assert forall|a: int, b: int|
                        0 <= a < self.entries@.len() && 0 <= b < self.entries@.len() && a
                            != b implies self.entries@[a].peer.device_id@
                        != self.entries@[b].peer.device_id@ by {
                        let oa = if a < i { a } else { a + 1 };
                        let ob = if b < i { b } else { b + 1 };
                        assert(self.entries@[a] == old(self).entries@[oa]);
                        assert(self.entries@[b] == old(self).entries@[ob]);
                    }
                }
            },
        }
    }

    /// Keeps only the devices whose age (given per device, in the order of
    /// `order()`) is under the timeout. Returns whether any was dropped.
    pub fn retain_fresh(&mut self, ages: &Vec<u64>) -> (removed: bool)
        requires
            old(self).wf(),
            ages@.len() == old(self).order().len(),
        ensures
            final(self).wf(),
            final(self).self_id() == old(self).self_id(),
            final(self)@ == old(self)@.restrict(fresh_ids(old(self).order(), ages@)),
            removed == (final(self)@ != old(self)@),
    {
        let ghost old_map = self.peers@;
        let ghost ord = self.order();
        let ghost fresh = fresh_ids(ord, ages@);
        let mut kept: Vec<PeerEntry> = Vec::new();
        let ghost mut kept_map: Map<Seq<char>, DiscoveredView> = Map::empty();
        let mut dropped = false;
        let n = self.entries.len();
        let mut i: usize = 0;
        while i < n
            invariant
                self.wf(),
                self.peers@ == old_map,
                ord == self.order(),
                n == self.entries@.len(),
                ages@.len() == n,
                i <= n,
                forall|a: int, b: int|
                    0 <= a < kept@.len() && 0 <= b < kept@.len() && a != b
                        ==> kept@[a].peer.device_id@ != kept@[b].peer.device_id@,
                forall|a: int|
                    0 <= a < kept@.len() ==> #[trigger] kept_map.contains_key(
                        kept@[a].peer.device_id@,
                    ) && kept_map[kept@[a].peer.device_id@] == kept@[a].peer@,
                forall|k: Seq<char>|
                    #[trigger] kept_map.contains_key(k) ==> exists|a: int|
                        0 <= a < kept@.len() && kept@[a].peer.device_id@ == k,
                forall|a: int|
                    0 <= a < kept@.len() ==> exists|j: int|
                        0 <= j < i && #[trigger] kept@[a].peer.device_id@ == ord[j],
                forall|k: Seq<char>|
                    #[trigger] kept_map.contains_key(k) <==> (exists|j: int|
                        0 <= j < i && ord[j] == k && ages@[j] < PEER_TIMEOUT_SECS),
                forall|k: Seq<char>|
                    #[trigger] kept_map.contains_key(k) ==> old_map.contains_key(k)
                        && kept_map[k] == old_map[k],
                dropped <==> exists|j: int| 0 <= j < i && ages@[j] >= PEER_TIMEOUT_SECS,
            decreases n - i,
        {
            let ghost k = ord[i as int];
            proof {
                assert(self.peers@.contains_key(self.entries@[i as int].peer.device_id@));
                assert(k == self.entries@[i as int].peer.device_id@);
            }
            if ages[i] < PEER_TIMEOUT_SECS {
                let e = PeerEntry {
                    peer: self.entries[i].peer.clone(),
                    last_seen: self.entries[i].last_seen,
                };
                let ghost old_kept = kept@;
                let ghost old_kept_map = kept_map;
                kept.push(e);
                proof {
                    kept_map = kept_map.insert(k, old_map[k]);
                    assert forall|a: int, b: int|
                        0 <= a < kept@.len() && 0 <= b < kept@.len() && a
                            != b implies kept@[a].peer.device_id@ != kept@[b].peer.device_id@ by {
                        if a < old_kept.len() && b == old_kept.len() {
                            let j = choose|j: int| 0 <= j < i && #[trigger] kept@[a].peer.device_id@ == ord[j];
                            assert(ord[j] == self.entries@[j].peer.device_id@);
                        } else if b < old_kept.len() && a == old_kept.len() {
                            let j = choose|j: int| 0 <= j < i && #[trigger] kept@[b].peer.device_id@ == ord[j];
                            assert(ord[j] == self.entries@[j].peer.device_id@);
                        }
                    }
                    assert forall|a: int|
                        0 <= a < kept@.len() implies #[trigger] kept_map.contains_key(
                        kept@[a].peer.device_id@,
                    ) && kept_map[kept@[a].peer.device_id@] == kept@[a].peer@ by {
                        if a < old_kept.len() {
                            assert(kept@[a] == old_kept[a]);
                            assert(old_kept_map.contains_key(old_kept[a].peer.device_id@));
                        }
                    }
                    assert forall|kk: Seq<char>| #[trigger] kept_map.contains_key(kk) implies exists|
                        a: int,
                    | 0 <= a < kept@.len() && kept@[a].peer.device_id@ == kk by {
                        if kk != k {
                            let a = choose|a: int|
                                0 <= a < old_kept.len() && old_kept[a].peer.device_id@ == kk;
                            assert(kept@[a] == old_kept[a]);
                        } else {
                            assert(kept@[old_kept.len() as int].peer.device_id@ == kk);
                        }
                    }
                    assert forall|a: int| 0 <= a < kept@.len() implies exists|j: int|
                        0 <= j < i + 1 && #[trigger] kept@[a].peer.device_id@ == ord[j] by {
                        if a < old_kept.len() {
                            assert(kept@[a] == old_kept[a]);
                            let j = choose|j: int| 0 <= j < i && #[trigger] old_kept[a].peer.device_id@ == ord[j];
                        } else {
                            assert(kept@[a].peer.device_id@ == ord[i as int]);
                        }
                    }
                    assert forall|kk: Seq<char>| #[trigger] kept_map.contains_key(kk) <==> (exists|
                        j: int,
                    | 0 <= j < i + 1 && ord[j] == kk && ages@[j] < PEER_TIMEOUT_SECS) by {
                        if kk == k {
                            assert(ord[i as int] == kk);
                        } else {
                            if exists|j: int| 0 <= j < i + 1 && ord[j] == kk && ages@[j] < PEER_TIMEOUT_SECS {
                                let j = choose|j: int| 0 <= j < i + 1 && ord[j] == kk && ages@[j] < PEER_TIMEOUT_SECS;
                                assert(j != i);
                            }
                        }
                    }
                }
            } else {
                dropped = true;
                proof {
                    assert forall|kk: Seq<char>| #[trigger] kept_map.contains_key(kk) <==> (exists|
                        j: int,
                    | 0 <= j < i + 1 && ord[j] == kk && ages@[j] < PEER_TIMEOUT_SECS) by {
                        if exists|j: int| 0 <= j < i + 1 && ord[j] == kk && ages@[j] < PEER_TIMEOUT_SECS {
                            let j = choose|j: int| 0 <= j < i + 1 && ord[j] == kk && ages@[j] < PEER_TIMEOUT_SECS;
                            assert(j != i);
                        }
                    }
                    assert forall|a: int| 0 <= a < kept@.len() implies exists|j: int|
                        0 <= j < i + 1 && #[trigger] kept@[a].peer.device_id@ == ord[j] by {
                        let j = choose|j: int| 0 <= j < i && #[trigger] kept@[a].peer.device_id@ == ord[j];
                    }
                }
            }
            i = i + 1;
        }
        let ghost new_map = old_map.restrict(fresh);
        proof {
            assert forall|kk: Seq<char>| #[trigger] kept_map.contains_key(kk) == new_map.contains_key(kk) by {
            }
            assert(kept_map =~= new_map);
            if dropped {
                let j = choose|j: int| 0 <= j < n && ages@[j] >= PEER_TIMEOUT_SECS;
                assert(old_map.contains_key(ord[j]));
                if new_map.contains_key(ord[j]) {
                    let j2 = choose|j2: int| 0 <= j2 < ord.len() && ord[j2] == ord[j] && ages@[j2] < PEER_TIMEOUT_SECS;
                    self.lemma_order();
                }
                assert(!new_map.contains_key(ord[j]));
            } else {
                self.lemma_order();
                assert forall|kk: Seq<char>| #[trigger] old_map.contains_key(kk) implies new_map.contains_key(kk) by {
                    assert(self@.contains_key(kk));
                    assert(ord.contains(kk));
                    let j = choose|j: int| 0 <= j < ord.len() && ord[j] == kk;
                    assert(!(ages@[j] >= PEER_TIMEOUT_SECS));
                    assert(fresh.contains(kk));
                }
                assert(new_map =~= old_map);
            }
        }
        self.entries = kept;
        self.peers = Ghost(kept_map);
        dropped
    }

    /// Drops peers that have gone quiet for the timeout. Which ones have is
    /// the clock's to say; whatever it reads, the result is the registry
    /// restricted to the devices whose age is under the timeout.
    pub fn evict_stale(&mut self) -> (removed: bool)
        requires
            old(self).wf(),
        ensures
            final(self).wf(),
            final(self).self_id() == old(self).self_id(),
            final(self)@.submap_of(old(self)@),
            exists|ages: Seq<u64>|
                #![trigger fresh_ids(old(self).order(), ages)]
                ages.len() == old(self).order().len() && final(self)@ == old(self)@.restrict(
                    fresh_ids(old(self).order(), ages),
                ),
            exists|ages: Seq<u64>|
                #![trigger fresh_ids(old(self).order(), ages)]
                ages.len() == old(self).order().len() && (forall|i: int|
                    0 <= i < ages.len() ==> clock_reading(old(self).seen()[i], #[trigger] ages[i]))
                    && final(self)@ == old(self)@.restrict(fresh_ids(old(self).order(), ages)),
            removed == (final(self)@ != old(self)@),
    {
        let ages = self.ages();
        let ghost read = ages@;
        let removed = self.retain_fresh(&ages);
        assert(fresh_ids(old(self).order(), read) == fresh_ids(old(self).order(), read));
        removed
    }

    /// The age in seconds of every entry, in the order of `order()`: what the
    /// clock reads as elapsed since the entry was last seen.
    fn ages(&self) -> (res: Vec<u64>)
        ensures
            res@.len() == self.order().len(),
            forall|i: int|
                0 <= i < res@.len() ==> call_ensures(
                    elapsed_secs,
                    (&self.seen()[i],),
                    #[trigger] res@[i],
                ),
    {
        let clock = elapsed_secs;
        let mut res: Vec<u64> = Vec::new();
        let mut i: usize = 0;
        while i < self.entries.len()
            invariant
                i <= self.entries@.len(),
                res@.len() == i,
                forall|j: int|
                    0 <= j < i ==> call_ensures(
                        clock,
                        (&self.entries@[j].last_seen,),
                        #[trigger] res@[j],
                    ),
            decreases self.entries@.len() - i,
        {
            let age = clock(&self.entries[i].last_seen);
            res.push(age);
            i = i + 1;
        }
        res
    }

    /// The peers, each with the given age as its `last_seen_secs`, ordered by
    /// lower-cased name and then by device ID.
    pub fn snapshot_at(&self, ages: &Vec<u64>) -> (res: Vec<DiscoveredPeer>)
        requires
            self.wf(),
            ages@.len() == self.order().len(),
        ensures
            forall|a: int|
                #![trigger res@[a]]
                0 <= a < res@.len() ==> self@.contains_key(res@[a].device_id@) && res@[a]@
                    == (DiscoveredView {
                    last_seen_secs: res@[a].last_seen_secs,
                    ..self@[res@[a].device_id@]
                }) && exists|j: int|
                    0 <= j < self.order().len() && self.order()[j] == res@[a].device_id@
                        && ages@[j] == res@[a].last_seen_secs,
            forall|k: Seq<char>|
                #[trigger] self@.contains_key(k) ==> exists|a: int|
                    0 <= a < res@.len() && res@[a].device_id@ == k,
            forall|a: int, c: int|
                0 <= a < c < res@.len() ==> res@[a].device_id@ != res@[c].device_id@,
            forall|a: int, c: int|
                0 <= a < c < res@.len() ==> pair_le(
                    (lowercase(res@[a].device_name@), res@[a].device_id@),
                    (lowercase(res@[c].device_name@), res@[c].device_id@),
                ),
    {
        let n = self.entries.len();
        let mut keys: Vec<(Vec<char>, Vec<char>)> = Vec::new();
        let mut i: usize = 0;
        while i < n
            invariant
                n == self.entries@.len(),
                i <= n,
                keys@.len() == i,
                forall|j: int|
                    0 <= j < i ==> #[trigger] key_view(keys@[j]) == (
                        lowercase(self.entries@[j].peer.device_name@),
                        self.entries@[j].peer.device_id@,
                    ),
            decreases n - i,
        {
            let name = chars_of(to_lowercase(self.entries[i].peer.device_name.as_str()).as_str());
            let id = chars_of(self.entries[i].peer.device_id.as_str());
            keys.push((name, id));
            i = i + 1;
        }
        let order = sort_order(&keys);
        let mut res: Vec<DiscoveredPeer> = Vec::new();
        let mut a: usize = 0;
        while a < n
            invariant
                self.wf(),
                n == self.entries@.len(),
                ages@.len() == n,
                order@.len() == n,
                keys@.len() == n,
                forall|x: int| 0 <= x < n ==> #[trigger] order@[x] < n,
                a <= n,
                res@.len() == a,
                forall|x: int|
                    0 <= x < a ==> #[trigger] res@[x]@ == (DiscoveredView {
                        last_seen_secs: ages@[order@[x] as int],
                        ..self.entries@[order@[x] as int].peer@
                    }),
            decreases n - a,
        {
            let j = order[a];
            let mut p = self.entries[j].peer.clone();
            p.last_seen_secs = ages[j];
            res.push(p);
            a = a + 1;
        }
        proof {
            assert forall|x: int|
                #![trigger res@[x]]
                0 <= x < res@.len() implies self@.contains_key(res@[x].device_id@) && res@[x]@
                    == (DiscoveredView {
                    last_seen_secs: res@[x].last_seen_secs,
                    ..self@[res@[x].device_id@]
                }) && exists|j: int|
                    0 <= j < self.order().len() && self.order()[j] == res@[x].device_id@
                        && ages@[j] == res@[x].last_seen_secs by {
                let j = order@[x] as int;
                assert(self.peers@.contains_key(self.entries@[j].peer.device_id@));
                assert(self.order()[j] == res@[x].device_id@);
            }
            assert forall|k: Seq<char>| #[trigger] self@.contains_key(k) implies exists|x: int|
                0 <= x < res@.len() && res@[x].device_id@ == k by {
                let j = choose|j: int| 0 <= j < self.entries@.len() && self.entries@[j].peer.device_id@ == k;
                assert(order@.contains(j as usize));
                let x = choose|x: int| 0 <= x < order@.len() && order@[x] == j as usize;
                assert(res@[x]@.device_id == k);
            }
            assert forall|x: int, c: int|
                0 <= x < c < res@.len() implies res@[x].device_id@ != res@[c].device_id@ by {
                assert(order@[x] != order@[c]);
                assert(res@[x]@.device_id == self.entries@[order@[x] as int].peer.device_id@);
                assert(res@[c]@.device_id == self.entries@[order@[c] as int].peer.device_id@);
            }
            assert forall|x: int, c: int|
                0 <= x < c < res@.len() implies pair_le(
                (lowercase(res@[x].device_name@), res@[x].device_id@),
                (lowercase(res@[c].device_name@), res@[c].device_id@),
            ) by {
                assert(key_view(keys@[order@[x] as int]) == (lowercase(res@[x].device_name@), res@[x].device_id@));
                assert(key_view(keys@[order@[c] as int]) == (lowercase(res@[c].device_name@), res@[c].device_id@));
            }
        }
        res
    }

    /// The peers, each with how long ago it was last heard from, ordered by
    /// lower-cased name and then by device ID.
    pub fn snapshot(&self) -> (res: Vec<DiscoveredPeer>)
        requires
            self.wf(),
        ensures
            forall|a: int|
                #![trigger res@[a]]
                0 <= a < res@.len() ==> self@.contains_key(res@[a].device_id@) && res@[a]@
                    == (DiscoveredView {
                    last_seen_secs: res@[a].last_seen_secs,
                    ..self@[res@[a].device_id@]
                }),
            forall|k: Seq<char>|
                #[trigger] self@.contains_key(k) ==> exists|a: int|
                    0 <= a < res@.len() && res@[a].device_id@ == k,
            forall|a: int, c: int|
                0 <= a < c < res@.len() ==> res@[a].device_id@ != res@[c].device_id@,
            forall|a: int, c: int|
                0 <= a < c < res@.len() ==> pair_le(
                    (lowercase(res@[a].device_name@), res@[a].device_id@),
                    (lowercase(res@[c].device_name@), res@[c].device_id@),
                ),
            forall|a: int|
                0 <= a < res@.len() ==> self.heard_ago(
                    (#[trigger] res@[a]).device_id@,
                    res@[a].last_seen_secs,
                ),
    {
        let ages = self.ages();
        let res = self.snapshot_at(&ages);
        proof {
            assert forall|a: int| 0 <= a < res@.len() implies self.heard_ago(
                (#[trigger] res@[a]).device_id@,
                res@[a].last_seen_secs,
            ) by {
                let j = choose|j: int|
                    0 <= j < self.order().len() && self.order()[j] == res@[a].device_id@
                        && ages@[j] == res@[a].last_seen_secs;
                assert(call_ensures(elapsed_secs, (&self.seen()[j],), ages@[j]));
                assert(clock_reading(self.seen()[j], res@[a].last_seen_secs));
            }
        }
        res
    }

    /// The entry for a device ID, as it was recorded.
    pub fn get(&self, device_id: &str) -> (res: Option<DiscoveredPeer>)
        requires
            self.wf(),
        ensures
            match res {
                Some(p) => self@.contains_key(device_id@) && p@ == self@[device_id@],
                None => !self@.contains_key(device_id@),
            },
    {
        match self.find(device_id) {
            None => None,
            Some(i) => Some(self.entries[i].peer.clone()),
        }
    }
}

/// What a device broadcasts about itself.
#[derive(Debug)]
pub struct Announcement {
    pub v: u32,
    pub kind: AnnouncementKind,
    pub device_id: String,
    pub device_name: String,
    pub platform: String,
    /// TCP port this device accepts transfers on. The address is taken from
    /// the packet's source instead.
    pub port: u16,
    pub fingerprint_hint: Option<String>,
}

impl Clone for Announcement {
    fn clone(&self) -> (res: Announcement)
        ensures
            res.v == self.v,
            res.kind == self.kind,
            res.device_id@ == self.device_id@,
            res.device_name@ == self.device_name@,
            res.platform@ == self.platform@,
            res.port == self.port,
            res.fingerprint_hint == self.fingerprint_hint,
    {
        Announcement {
            v: self.v,
            kind: self.kind,
            device_id: self.device_id.clone(),
            device_name: self.device_name.clone(),
            platform: self.platform.clone(),
            port: self.port,
            fingerprint_hint: match &self.fingerprint_hint {
                Some(h) => Some(h.clone()),
                None => None,
            },
        }
    }
}

#[derive(Debug, Clone, Copy, PartialEq, Eq, Structural)]
pub enum AnnouncementKind {
    /// A periodic multicast heartbeat.
    Announce,
    /// A unicast answer to a heartbeat from a device not seen before.
    /// Replies are never replied to.
    Reply,
    /// Sent on a clean shutdown so peers drop us at once.
    Goodbye,
}

} // verus!
