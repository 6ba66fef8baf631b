//! The decisions of DNS-SD discovery, which runs beside the multicast beacon
//! because some networks filter one and not the other.
use vstd::prelude::*;

use super::{DiscoveredPeer, DiscoveredView, DiscoverySource, IpAddress, MDNS_SERVICE_TYPE};
use crate::text::{
    chars_of, first_kept, in_class, is_ascii_alphanumeric, is_control, keep_chars, leading_count, lemma_kept_all,
    lemma_leading_count_exact, push_all,
    push_str, str_eq, string_from_chars, string_of, trim, trim_str, CharClass,
};

verus! {

/// TXT keys carrying the metadata the beacon puts in its JSON payload.
pub const TXT_DEVICE_ID: &'static str = "id";
pub const TXT_DEVICE_NAME: &'static str = "name";
pub const TXT_PLATFORM: &'static str = "os";

/// The prefix of every instance name this app publishes.
pub open spec fn instance_prefix() -> Seq<char> {
    seq!['f', 'l', 'u', 'q', 's', 'r', '-']
}

/// A fresh random UUID in its 32-digit "simple" form.
/// `uuid::Uuid::new_v4().simple()`: random, so only its length (32 hex
/// digits, as the crate documents) is claimed.
#[verifier::external_body]
fn new_uuid_simple() -> (res: String)
    ensures
        res@.len() == 32,
{
    uuid::Uuid::new_v4().simple().to_string()
}

/// Reduces a device ID to a DNS-safe instance name: `fluqsr-` and the first
/// 48 letters, digits and dashes of the ID, or a random suffix when the ID has
/// none.
pub fn sanitize_instance_name(device_id: &str) -> (res: String)
    ensures
        first_kept(device_id@, CharClass::DnsLabel, 48).len() > 0 ==> res@ == instance_prefix()
            + first_kept(device_id@, CharClass::DnsLabel, 48),
        first_kept(device_id@, CharClass::DnsLabel, 48).len() == 0 ==> res@.len() == 39
            && res@.take(7) == instance_prefix(),
{
    let cleaned = keep_chars(&chars_of(device_id), CharClass::DnsLabel, 48);
    let mut v: Vec<char> = Vec::new();
    v.push('f');
    v.push('l');
    v.push('u');
    v.push('q');
    v.push('s');
    v.push('r');
    v.push('-');
    proof {
        assert(v@ =~= instance_prefix());
    }
    if cleaned.len() == 0 {
        let suffix = new_uuid_simple();
        push_str(&mut v, suffix.as_str());
        proof {
            assert(v@.take(7) =~= instance_prefix());
        }
    } else {
        push_all(&mut v, &cleaned);
    }
    string_from_chars(&v)
}

/// The device ID embedded in a service fullname `fluqsr-<id>.<type>`: the
/// first dot-separated label, without the prefix, when it has the prefix and
/// something after it.
pub open spec fn device_id_of_fullname(fullname: Seq<char>) -> Option<Seq<char>> {
    let first = fullname.take(leading_count(fullname, |c: char| c != '.') as int);
    if first.len() > 7 && first.take(7) == instance_prefix() {
        Some(first.skip(7))
    } else {
        None
    }
}

/// A device ID of 1 to 48 letters, digits and dashes survives the trip out
/// and back: the instance name published for it is `fluqsr-` and the ID
/// itself, and the ID read back from that instance's service fullname is
/// the same ID.
pub proof fn lemma_device_id_round_trip(id: Seq<char>)
    requires
        1 <= id.len() <= 48,
        forall|i: int| 0 <= i < id.len() ==> in_class(#[trigger] id[i], CharClass::DnsLabel),
    ensures
        first_kept(id, CharClass::DnsLabel, 48) == id,
        device_id_of_fullname(
            instance_prefix() + first_kept(id, CharClass::DnsLabel, 48) + seq!['.']
                + MDNS_SERVICE_TYPE@,
        ) == Some(id),
{
    lemma_kept_all(id, CharClass::DnsLabel);
    let name = instance_prefix() + id;
    let fullname = name + seq!['.'] + MDNS_SERVICE_TYPE@;
    let k = name.len() as int;
    assert forall|j: int| 0 <= j < k implies #[trigger] fullname[j] != '.' by {
        if j >= 7 {
            assert(fullname[j] == id[j - 7]);
            assert(in_class(id[j - 7], CharClass::DnsLabel));
        }
    }
    assert(fullname[k] == '.');
    lemma_leading_count_exact(fullname, |c: char| c != '.', k);
    let first = fullname.take(k);
    assert(first =~= name);
    assert(first.take(7) =~= instance_prefix());
    assert(first.skip(7) =~= id);
}

/// Recovers the device ID from a fullname `fluqsr-<id>._fluqsr._tcp.local.`.
pub fn device_id_from_fullname(fullname: &str) -> (res: Option<String>)
    ensures
        match device_id_of_fullname(fullname@) {
            Some(id) => res matches Some(s) && s@ == id,
            None => res is None,
        },
{
    let v = chars_of(fullname);
    let mut k: usize = 0;
    while k < v.len() && v[k] != '.'
        invariant
            k <= v.len(),
            forall|j: int| 0 <= j < k ==> #[trigger] v@[j] != '.',
        decreases v.len() - k,
    {
        k = k + 1;
    }
    proof {
        lemma_leading_count_exact(v@, |c: char| c != '.', k as int);
    }
    let ghost first = v@.take(k as int);
    if k <= 7 {
        return None;
    }
    let prefix_ok = v[0] == 'f' && v[1] == 'l' && v[2] == 'u' && v[3] == 'q' && v[4] == 's'
        && v[5] == 'r' && v[6] == '-';
    proof {
        if prefix_ok {
            assert(first.take(7) =~= instance_prefix());
        } else {
            assert(instance_prefix()[0] == 'f' && instance_prefix()[1] == 'l' && instance_prefix()[2]
                == 'u' && instance_prefix()[3] == 'q' && instance_prefix()[4] == 's'
                && instance_prefix()[5] == 'r' && instance_prefix()[6] == '-');
            if first.take(7) == instance_prefix() {
                assert(first.take(7)[0] == v@[0]);
                assert(first.take(7)[1] == v@[1]);
                assert(first.take(7)[2] == v@[2]);
                assert(first.take(7)[3] == v@[3]);
                assert(first.take(7)[4] == v@[4]);
                assert(first.take(7)[5] == v@[5]);
                assert(first.take(7)[6] == v@[6]);
            }
        }
    }
    if !prefix_ok {
        return None;
    }
    let mut id: Vec<char> = Vec::new();
    let mut i: usize = 7;
    while i < k
        invariant
            7 <= i <= k <= v@.len(),
            id@ == v@.subrange(7, i as int),
        decreases k - i,
    {
        id.push(v[i]);
        i = i + 1;
        proof {
            assert(v@.subrange(7, i as int) =~= v@.subrange(7, i - 1).push(v@[i - 1]));
        }
    }
    proof {
        assert(id@ =~= first.skip(7));
    }
    Some(string_from_chars(&id))
}

/// The first IPv4 address, else the first address of any kind.
pub open spec fn preferred_address(addresses: Seq<IpAddress>) -> Option<IpAddress> {
    if exists|i: int| 0 <= i < addresses.len() && addresses[i] is V4 {
        Some(addresses[choose_first_v4(addresses)])
    } else if addresses.len() > 0 {
        Some(addresses[0])
    } else {
        None
    }
}

/// Index of the first IPv4 address.
pub open spec fn choose_first_v4(addresses: Seq<IpAddress>) -> int {
    choose|i: int|
        0 <= i < addresses.len() && addresses[i] is V4 && forall|j: int|
            0 <= j < i ==> !(addresses[j] is V4)
}

/// The peer a resolved service describes, or `None` when it has no usable
/// ID (missing, or our own) or no address.
pub open spec fn resolved_peer(
    txt_id: Option<Seq<char>>,
    txt_name: Option<Seq<char>>,
    txt_platform: Option<Seq<char>>,
    fullname: Seq<char>,
    addresses: Seq<IpAddress>,
    port: u16,
    self_device_id: Seq<char>,
) -> Option<DiscoveredView> {
    let device_id = match txt_id {
        Some(id) => id,
        None => match device_id_of_fullname(fullname) {
            Some(id) => id,
            None => Seq::empty(),
        },
    };
    let name = match txt_name {
        Some(n) => if trim(n).len() > 0 {
            n
        } else {
            "Unknown device"@
        },
        None => "Unknown device"@,
    };
    let platform = match txt_platform {
        Some(p) => p,
        None => "unknown"@,
    };
    if device_id.len() == 0 || device_id == self_device_id {
        None
    } else {
        match preferred_address(addresses) {
            None => None,
            Some(address) => Some(
                DiscoveredView {
                    device_id,
                    device_name: first_kept(name, CharClass::NotControl, 64),
                    platform: first_kept(platform, CharClass::AsciiAlphanumeric, 16),
                    address,
                    port,
                    source: DiscoverySource::Mdns,
                    last_seen_secs: 0,
                    fingerprint_hint: None,
                },
            ),
        }
    }
}

/// A TXT name that is not blank, has at most 64 characters and no control
/// character is the peer's name exactly as announced: a name is only cut
/// beyond 64 characters, and only control characters are dropped from it.
pub proof fn lemma_clean_name_kept_whole(
    txt_id: Option<Seq<char>>,
    name: Seq<char>,
    txt_platform: Option<Seq<char>>,
    fullname: Seq<char>,
    addresses: Seq<IpAddress>,
    port: u16,
    self_device_id: Seq<char>,
)
    requires
        trim(name).len() > 0,
        name.len() <= 64,
        forall|i: int| 0 <= i < name.len() ==> !is_control(#[trigger] name[i]),
    ensures
        resolved_peer(txt_id, Some(name), txt_platform, fullname, addresses, port, self_device_id)
            matches Some(p) ==> p.device_name == name,
{
    assert forall|i: int| 0 <= i < name.len() implies in_class(
        #[trigger] name[i],
        CharClass::NotControl,
    ) by {
        assert(!is_control(name[i]));
    }
    lemma_kept_all(name, CharClass::NotControl);
}

/// A TXT platform of at most 16 ASCII letters and digits is the peer's
/// platform exactly as announced.
pub proof fn lemma_clean_platform_kept_whole(
    txt_id: Option<Seq<char>>,
    txt_name: Option<Seq<char>>,
    platform: Seq<char>,
    fullname: Seq<char>,
    addresses: Seq<IpAddress>,
    port: u16,
    self_device_id: Seq<char>,
)
    requires
        platform.len() <= 16,
        forall|i: int| 0 <= i < platform.len() ==> is_ascii_alphanumeric(#[trigger] platform[i]),
    ensures
        resolved_peer(txt_id, txt_name, Some(platform), fullname, addresses, port, self_device_id)
            matches Some(p) ==> p.platform == platform,
{
    assert forall|i: int| 0 <= i < platform.len() implies in_class(
        #[trigger] platform[i],
        CharClass::AsciiAlphanumeric,
    ) by {
        assert(is_ascii_alphanumeric(platform[i]));
    }
    lemma_kept_all(platform, CharClass::AsciiAlphanumeric);
}

/// A resolved peer is never this device, always has an ID, and is reached
/// at one of the announced addresses, an IPv4 one whenever there is one. An
/// announced TXT ID, when it is neither empty nor ours, is the peer's ID as
/// soon as there is an address to reach it at.
pub proof fn lemma_resolved_peer_is_reachable(
    txt_id: Option<Seq<char>>,
    txt_name: Option<Seq<char>>,
    txt_platform: Option<Seq<char>>,
    fullname: Seq<char>,
    addresses: Seq<IpAddress>,
    port: u16,
    self_device_id: Seq<char>,
)
    ensures
        resolved_peer(txt_id, txt_name, txt_platform, fullname, addresses, port, self_device_id)
            matches Some(p) ==> {
            &&& p.device_id.len() > 0
            &&& p.device_id != self_device_id
            &&& addresses.contains(p.address)
            &&& p.port == port
            &&& (exists|i: int| 0 <= i < addresses.len() && addresses[i] is V4) ==> p.address is V4
        },
        match txt_id {
            Some(id) => (id.len() > 0 && id != self_device_id && addresses.len() > 0) ==> (
            resolved_peer(
                txt_id,
                txt_name,
                txt_platform,
                fullname,
                addresses,
                port,
                self_device_id,
            ) matches Some(p) && p.device_id == id),
            None => true,
        },
{
    if exists|i: int| 0 <= i < addresses.len() && addresses[i] is V4 {
        let w = choose|i: int| 0 <= i < addresses.len() && addresses[i] is V4;
        assert(0 <= w < addresses.len() && addresses[w] is V4);
        let c = choose_first_v4(addresses);
        assert(0 <= c < addresses.len() && addresses[c] is V4) by {
            lemma_first_v4_exists(addresses, w);
        }
        assert(addresses.contains(addresses[c]));
    } else if addresses.len() > 0 {
        assert(addresses.contains(addresses[0]));
    }
}

/// Among addresses with an IPv4 one at `w`, there is a first IPv4 one.
proof fn lemma_first_v4_exists(addresses: Seq<IpAddress>, w: int)
    requires
        0 <= w < addresses.len(),
        addresses[w] is V4,
    ensures
        exists|i: int|
            0 <= i < addresses.len() && addresses[i] is V4 && forall|j: int|
                0 <= j < i ==> !(addresses[j] is V4),
    decreases w,
{
    if exists|j: int| 0 <= j < w && addresses[j] is V4 {
        let j = choose|j: int| 0 <= j < w && addresses[j] is V4;
        lemma_first_v4_exists(addresses, j);
    } else {
        assert(forall|j: int| 0 <= j < w ==> !(addresses[j] is V4));
    }
}

fn opt_view(o: Option<&str>) -> (res: Option<String>)
    ensures
        match o {
            Some(s) => res matches Some(r) && r@ == s@,
            None => res is None,
        },
{
    match o {
        Some(s) => Some(string_of(s)),
        None => None,
    }
}

/// Turns a resolved DNS-SD service (its TXT values, fullname, addresses and
/// port) into a peer.
pub fn to_peer(
    txt_id: Option<&str>,
    txt_name: Option<&str>,
    txt_platform: Option<&str>,
    fullname: &str,
    addresses: &Vec<IpAddress>,
    port: u16,
    self_device_id: &str,
) -> (res: Option<DiscoveredPeer>)
    ensures
        match resolved_peer(
            match txt_id { Some(s) => Some(s@), None => None },
            match txt_name { Some(s) => Some(s@), None => None },
            match txt_platform { Some(s) => Some(s@), None => None },
            fullname@,
            addresses@,
            port,
            self_device_id@,
        ) {
            Some(p) => res matches Some(r) && r@ == p,
            None => res is None,
        },
        match txt_name {
            Some(n) => (trim(n@).len() > 0 && n@.len() <= 64 && (forall|i: int|
                0 <= i < n@.len() ==> !is_control(#[trigger] n@[i]))) ==> (res matches Some(r)
                ==> r@.device_name == n@),
            None => true,
        },
        res matches Some(r) ==> {
            &&& r@.device_id.len() > 0
            &&& r@.device_id != self_device_id@
            &&& addresses@.contains(r@.address)
            &&& r@.port == port
            &&& (exists|i: int| 0 <= i < addresses@.len() && addresses@[i] is V4) ==> r@.address is V4
        },
        match txt_id {
            Some(id) => (id@.len() > 0 && id@ != self_device_id@ && addresses@.len() > 0) ==> (
            res matches Some(r) && r@.device_id == id@),
            None => true,
        },
        match txt_platform {
            Some(p) => (p@.len() <= 16 && (forall|i: int|
                0 <= i < p@.len() ==> is_ascii_alphanumeric(#[trigger] p@[i]))) ==> (res matches Some(
                r,
            ) ==> r@.platform == p@),
            None => true,
        },
{
    proof {
        lemma_resolved_peer_is_reachable(
            match txt_id { Some(s) => Some(s@), None => None },
            match txt_name { Some(s) => Some(s@), None => None },
            match txt_platform { Some(s) => Some(s@), None => None },
            fullname@,
            addresses@,
            port,
            self_device_id@,
        );
        if let Some(p) = txt_platform {
            if p@.len() <= 16 && (forall|i: int|
                0 <= i < p@.len() ==> is_ascii_alphanumeric(#[trigger] p@[i])) {
                lemma_clean_platform_kept_whole(
                    match txt_id { Some(s) => Some(s@), None => None },
                    match txt_name { Some(s) => Some(s@), None => None },
                    p@,
                    fullname@,
                    addresses@,
                    port,
                    self_device_id@,
                );
            }
        }
        if let Some(n) = txt_name {
            if trim(n@).len() > 0 && n@.len() <= 64 && (forall|i: int|
                0 <= i < n@.len() ==> !is_control(#[trigger] n@[i])) {
                lemma_clean_name_kept_whole(
                    match txt_id { Some(s) => Some(s@), None => None },
                    n@,
                    match txt_platform { Some(s) => Some(s@), None => None },
                    fullname@,
                    addresses@,
                    port,
                    self_device_id@,
                );
            }
        }
    }
    let device_id: String = match txt_id {
        Some(id) => string_of(id),
        None => match device_id_from_fullname(fullname) {
            Some(id) => id,
            None => String::new(),
        },
    };
    if chars_of(device_id.as_str()).len() == 0 || str_eq(device_id.as_str(), self_device_id) {
        return None;
    }
    // Prefer IPv4: the transfer listener binds v4.
    let mut found: Option<IpAddress> = None;
    let mut i: usize = 0;
    while i < addresses.len() && found.is_none()
        invariant
            i <= addresses@.len(),
            found is None ==> forall|j: int| 0 <= j < i ==> !(addresses@[j] is V4),
            found matches Some(a) ==> i >= 1 && a is V4 && a == addresses@[i - 1] && forall|j: int|
                0 <= j < i - 1 ==> !(addresses@[j] is V4),
        decreases addresses@.len() - i,
    {
        if addresses[i].is_ipv4() {
            found = Some(addresses[i]);
        }
        i = i + 1;
    }
    let address = match found {
        Some(a) => {
            proof {
                let w = (i - 1) as int;
                assert(0 <= w < addresses@.len() && addresses@[w] is V4);
                let c = choose_first_v4(addresses@);
                assert(0 <= c < addresses@.len() && addresses@[c] is V4 && forall|j: int|
                    0 <= j < c ==> !(addresses@[j] is V4));
                // No IPv4 address comes before `w`, and `w` is one.
                assert(c == w);
            }
            a
        },
        None => {
            if addresses.len() == 0 {
                return None;
            }
            addresses[0]
        },
    };
    let name_chars: Vec<char> = match txt_name {
        Some(n) => {
            let t = trim_str(n);
            if t.len() > 0 {
                chars_of(n)
            } else {
                chars_of("Unknown device")
            }
        },
        None => chars_of("Unknown device"),
    };
    let platform_chars: Vec<char> = match txt_platform {
        Some(p) => chars_of(p),
        None => chars_of("unknown"),
    };
    let name = keep_chars(&name_chars, CharClass::NotControl, 64);
    let platform = keep_chars(&platform_chars, CharClass::AsciiAlphanumeric, 16);
    Some(
        DiscoveredPeer {
            device_id,
            device_name: string_from_chars(&name),
            platform: string_from_chars(&platform),
            address,
            port,
            source: DiscoverySource::Mdns,
            last_seen_secs: 0,
            fingerprint_hint: None,
        },
    )
}

} // verus!
