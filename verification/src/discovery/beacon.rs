//! The decisions of the UDP multicast heartbeat.
//!
//! Every device announces itself on a timer. A device that hears an
//! announcement from a peer it has not seen answers directly, so the
//! newcomer learns of it at once. Replies are never replied to: without that
//! rule two devices would answer each other's answers forever.
use vstd::prelude::*;

use super::{
    sighted, Announcement, AnnouncementKind, DiscoveredPeer, DiscoveredView, DiscoverySource, IpAddress,
    PeerRegistry,
};
use crate::text::{
    chars_of, first_kept, in_class, is_control, keep_chars, lemma_kept_all, str_eq,
    string_from_chars, string_of, trim, trim_chars, CharClass,
};

verus! {

/// Announcements are small; anything larger is not ours.
pub const MAX_DATAGRAM: usize = 2048;

/// Longest label kept, in characters.
pub const MAX_LABEL_CHARS: usize = 64;

/// A network-supplied label made safe for the UI: control characters
/// removed, cut to 64 characters, trimmed, and the fallback when nothing is
/// left.
pub open spec fn cleaned_label(value: Seq<char>, fallback: Seq<char>) -> Seq<char> {
    let t = trim(first_kept(value, CharClass::NotControl, MAX_LABEL_CHARS as nat));
    if t.len() == 0 {
        fallback
    } else {
        t
    }
}

/// A label that is already clean (not blank, no surrounding whitespace, at
/// most 64 characters, no control character) comes through unchanged: only
/// control characters are dropped, only what is beyond 64 characters is cut,
/// and only surrounding whitespace is trimmed.
pub proof fn lemma_clean_label_kept_whole(value: Seq<char>, fallback: Seq<char>)
    requires
        value.len() > 0,
        trim(value) == value,
        value.len() <= 64,
        forall|i: int| 0 <= i < value.len() ==> !is_control(#[trigger] value[i]),
    ensures
        cleaned_label(value, fallback) == value,
{
    assert forall|i: int| 0 <= i < value.len() implies in_class(
        #[trigger] value[i],
        CharClass::NotControl,
    ) by {
        assert(!is_control(value[i]));
    }
    lemma_kept_all(value, CharClass::NotControl);
}

/// Bounds and sanitizes a label that arrived over the network before it
/// reaches the UI.
pub fn clean_label(value: &str, fallback: &str) -> (res: String)
    ensures
        res@ == cleaned_label(value@, fallback@),
        (value@.len() > 0 && trim(value@) == value@ && value@.len() <= 64 && (forall|
            i: int,
        | 0 <= i < value@.len() ==> !is_control(#[trigger] value@[i]))) ==> res@ == value@,
{
    proof {
        if value@.len() > 0 && trim(value@) == value@ && value@.len() <= 64 && (forall|
            i: int,
        | 0 <= i < value@.len() ==> !is_control(#[trigger] value@[i])) {
            lemma_clean_label_kept_whole(value@, fallback@);
        }
    }
    let kept = keep_chars(&chars_of(value), CharClass::NotControl, MAX_LABEL_CHARS);
    let trimmed = trim_chars(&kept);
    if trimmed.len() == 0 {
        string_of(fallback)
    } else {
        string_from_chars(&trimmed)
    }
}

/// The peer a beacon announcement describes, reached at the packet's source
/// address.
pub open spec fn announced_peer(announcement: Announcement, source: IpAddress) -> DiscoveredView {
    DiscoveredView {
        device_id: announcement.device_id@,
        device_name: cleaned_label(announcement.device_name@, "Unknown device"@),
        platform: cleaned_label(announcement.platform@, "unknown"@),
        address: source,
        port: announcement.port,
        source: DiscoverySource::Beacon,
        last_seen_secs: 0,
        fingerprint_hint: match announcement.fingerprint_hint {
            Some(h) => Some(h@),
            None => None,
        },
    }
}

/// This device's announcement with another kind.
pub fn with_kind(announcement: &Announcement, kind: AnnouncementKind) -> (res: Announcement)
    ensures
        res.kind == kind,
        res.v == announcement.v,
        res.device_id@ == announcement.device_id@,
        res.device_name@ == announcement.device_name@,
        res.platform@ == announcement.platform@,
        res.port == announcement.port,
        res.fingerprint_hint == announcement.fingerprint_hint,
{
    let mut a = announcement.clone();
    a.kind = kind;
    a
}

/// Handles one announcement heard from `source`. Our own announcements are
/// ignored; a goodbye drops the peer; anything else is recorded. Returns the
/// reply to send back to `source`: our own announcement as a `Reply`, only
/// for a first sighting that came from a periodic `Announce`.
pub fn handle_announcement(
    registry: &mut PeerRegistry,
    ours: &Announcement,
    announcement: Announcement,
    source: IpAddress,
) -> (reply: Option<Announcement>)
    requires
        old(registry).wf(),
        ours.device_id@ == old(registry).self_id(),
    ensures
        final(registry).wf(),
        final(registry).self_id() == old(registry).self_id(),
        announcement.device_id@ == ours.device_id@ ==> reply is None && final(registry)@ == old(
            registry,
        )@,
        announcement.device_id@ != ours.device_id@ && announcement.kind == AnnouncementKind::Goodbye
            ==> reply is None && final(registry)@ == old(registry)@.remove(
            announcement.device_id@,
        ),
        announcement.device_id@ != ours.device_id@ && announcement.kind != AnnouncementKind::Goodbye
            ==> final(registry)@ == sighted(old(registry)@, announced_peer(announcement, source))
            && (reply is Some <==> (!old(registry)@.contains_key(announcement.device_id@)
            && announcement.kind == AnnouncementKind::Announce)),
        reply matches Some(r) ==> r.kind == AnnouncementKind::Reply && r.v == ours.v
            && r.device_id@ == ours.device_id@ && r.device_name@ == ours.device_name@
            && r.platform@ == ours.platform@ && r.port == ours.port && r.fingerprint_hint
            == ours.fingerprint_hint,
{
    if str_eq(announcement.device_id.as_str(), ours.device_id.as_str()) {
        return None;
    }
    if announcement.kind == AnnouncementKind::Goodbye {
        registry.forget(announcement.device_id.as_str());
        return None;
    }
    let kind = announcement.kind;
    let peer = DiscoveredPeer {
        device_id: announcement.device_id.clone(),
        device_name: clean_label(announcement.device_name.as_str(), "Unknown device"),
        platform: clean_label(announcement.platform.as_str(), "unknown"),
        address: source,
        port: announcement.port,
        source: DiscoverySource::Beacon,
        last_seen_secs: 0,
        fingerprint_hint: announcement.fingerprint_hint,
    };
    let is_new = registry.observe(peer);
    if is_new && kind == AnnouncementKind::Announce {
        Some(with_kind(ours, AnnouncementKind::Reply))
    } else {
        None
    }
}

} // verus!
