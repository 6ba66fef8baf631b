//! The trust gate every connection passes through, in both directions.
//!
//! This is the one place where "a TLS handshake completed" becomes "we know
//! who this is and the user agreed to talk to them". The sending and the
//! receiving side both ask it before acting on a connection.
use vstd::prelude::*;

use super::{Direction, IdentityWarning, PairingRequest};
use crate::crypto::{hex_lower, pairing_code, pairing_code_of, short_form, Fingerprint};
use crate::device::new_uuid;
use crate::error::{Error, Result};
use crate::protocol::Hello;
use crate::text::string_of;
use crate::trust::{verdict_of, PeerView, TrustStore, TrustVerdict, TrustedPeer, VerdictView};

verus! {

/// The verdict on a peer, reached before anything acts on its connection.
#[derive(Debug)]
pub enum GateDecision {
    /// The pinned key matches: proceed silently.
    Proceed(TrustedPeer),
    /// The pinned key differs: refuse, and raise the warning. Either the peer
    /// reinstalled or someone impersonates it, and only a human can tell
    /// which; this is never downgraded to a fresh pairing prompt.
    Refuse { warning: IdentityWarning, error: Error },
    /// A device never seen before: ask the user to compare the code shown on
    /// both screens.
    AskPairing(PairingRequest),
}

/// What the trust check decides for a peer that presented `presented` and
/// introduced itself with `hello`, and the pins it leaves (`before` and
/// `after`), with `own` this device's fingerprint: `check` in full.
pub open spec fn gate_outcome(
    before: Map<Seq<char>, PeerView>,
    after: Map<Seq<char>, PeerView>,
    own: Seq<u8>,
    presented: Seq<u8>,
    hello: Hello,
    direction: Direction,
    res: GateDecision,
) -> bool {
    match verdict_of(before, hello.device_id@, presented) {
        VerdictView::Trusted(pinned) => {
            &&& res matches GateDecision::Proceed(peer) && peer@ == pinned
            &&& after == if pinned.device_name == hello.device_name@ {
                before
            } else {
                before.insert(
                    hello.device_id@,
                    PeerView { device_name: hello.device_name@, ..pinned },
                )
            }
        },
        VerdictView::Mismatch(expected) => {
            &&& res matches GateDecision::Refuse { warning, error }
            &&& warning.peer_device_id@ == hello.device_id@
            &&& warning.peer_name@ == hello.device_name@
            &&& warning.expected_fingerprint@ == hex_lower(expected)
            &&& warning.presented_fingerprint@ == hex_lower(presented)
            &&& error matches Error::IdentityMismatch { device_id, expected: e, actual }
            &&& device_id@ == hello.device_id@
            &&& e@ == short_form(expected)
            &&& actual@ == short_form(presented)
            &&& after == before
        },
        VerdictView::Unknown => {
            &&& res matches GateDecision::AskPairing(request)
            &&& request.request_id@.len() == 36
            &&& request.peer_device_id@ == hello.device_id@
            &&& request.peer_name@ == hello.device_name@
            &&& request.peer_fingerprint@ == hex_lower(presented)
            &&& request.pairing_code@ == pairing_code_of(own, presented)
            &&& request.direction == direction
            &&& after == before
        },
    }
}

/// Decides whether we may proceed with the peer that presented `presented`
/// and introduced itself with `hello`. `own` is this device's fingerprint.
///
/// A pinned peer's display name is kept current; nothing else about the
/// trust store changes here.
pub fn check(
    trust: &mut TrustStore,
    own: &Fingerprint,
    presented: &Fingerprint,
    hello: &Hello,
    direction: Direction,
) -> (res: GateDecision)
    requires
        old(trust).wf(),
    ensures
        final(trust).wf(),
        gate_outcome(old(trust)@, final(trust)@, own@, presented@, *hello, direction, res),
{
    match trust.verify(hello.device_id.as_str(), presented) {
        TrustVerdict::Trusted(peer) => {
            trust.refresh_name(hello.device_id.as_str(), hello.device_name.as_str());
            GateDecision::Proceed(*peer)
        },
        TrustVerdict::Mismatch { expected } => {
            let warning = IdentityWarning {
                peer_device_id: hello.device_id.clone(),
                peer_name: hello.device_name.clone(),
                expected_fingerprint: expected.to_hex(),
                presented_fingerprint: presented.to_hex(),
            };
            let error = Error::IdentityMismatch {
                device_id: hello.device_id.clone(),
                expected: expected.to_short(),
                actual: presented.to_short(),
            };
            GateDecision::Refuse { warning, error }
        },
        TrustVerdict::Unknown => {
            // Derived from both fingerprints, so a man in the middle, who
            // necessarily holds a different key toward each side, cannot
            // make the two screens agree.
            let code = pairing_code(own, presented);
            GateDecision::AskPairing(
                PairingRequest {
                    request_id: new_uuid(),
                    peer_device_id: hello.device_id.clone(),
                    peer_name: hello.device_name.clone(),
                    peer_fingerprint: presented.to_hex(),
                    pairing_code: code,
                    direction,
                },
            )
        },
    }
}

/// How a pairing prompt ends, given the user's answer and the pins before
/// and after: `finish_pairing` in full.
pub open spec fn pairing_finished(
    before: Map<Seq<char>, PeerView>,
    after: Map<Seq<char>, PeerView>,
    hello: Hello,
    presented: Fingerprint,
    confirmed: bool,
    res: Result<TrustedPeer>,
) -> bool {
    &&& !confirmed ==> {
        &&& res matches Err(Error::Declined(Some(m))) && m@ == "pairing was not confirmed"@
        &&& after == before
    }
    &&& confirmed ==> {
        &&& res matches Ok(peer)
        &&& peer.device_id@ == hello.device_id@
        &&& peer.device_name@ == hello.device_name@
        &&& peer.fingerprint == presented
        &&& !peer.auto_accept
        &&& after == before.insert(hello.device_id@, peer@)
    }
}

/// The end of a pairing prompt: the presented key is pinned on
/// confirmation, and nothing is pinned otherwise.
pub fn finish_pairing(
    trust: &mut TrustStore,
    hello: &Hello,
    presented: Fingerprint,
    confirmed: bool,
) -> (res: Result<TrustedPeer>)
    requires
        old(trust).wf(),
    ensures
        final(trust).wf(),
        pairing_finished(old(trust)@, final(trust)@, *hello, presented, confirmed, res),
{
    if !confirmed {
        return Err(Error::Declined(Some(string_of("pairing was not confirmed"))));
    }
    Ok(trust.pair(hello.device_id.as_str(), hello.device_name.as_str(), presented))
}

/// Once the user has confirmed the code for a device and key, a later
/// connection by that device presenting that key proceeds without a prompt.
pub proof fn lemma_confirmed_pairing_then_proceeds(
    pins: Map<Seq<char>, PeerView>,
    peer: PeerView,
)
    ensures
        verdict_of(pins.insert(peer.device_id, peer), peer.device_id, peer.fingerprint)
            is Trusted,
{
}

/// A refused connection changes no pin: after a mismatch, the same device
/// presenting the same substituted key is refused again, and its genuine key
/// is still the one trusted.
pub proof fn lemma_refusal_is_stable(
    pins: Map<Seq<char>, PeerView>,
    device_id: Seq<char>,
    presented: Seq<u8>,
)
    requires
        verdict_of(pins, device_id, presented) is Mismatch,
    ensures
        verdict_of(pins, device_id, pins[device_id].fingerprint) is Trusted,
        verdict_of(pins, device_id, presented) == VerdictView::Mismatch(
            pins[device_id].fingerprint,
        ),
{
}

} // verus!
