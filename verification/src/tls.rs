//! The identity a peer proves during the TLS handshake.
//!
//! There is no certificate authority between two devices on a local network,
//! so the handshake accepts any well-formed certificate and proves only that
//! the peer holds its private key. Which device that key belongs to is
//! decided afterwards, by the key's fingerprint against the trust store: a
//! completed handshake means nothing on its own.
use vstd::prelude::*;

use crate::crypto::{certificate_spki, fingerprint_from_cert_der, sha256, Fingerprint};
use crate::error::{Error, Result};
use crate::text::string_of;

verus! {

/// The name the client asks for. Never checked against the certificate, but
/// TLS requires one.
pub const SNI_NAME: &'static str = "fluqsr.local";

/// The peer's cryptographic identity, taken from the certificate it proved
/// possession of during the handshake.
#[derive(Debug, Clone)]
pub struct PeerIdentity {
    pub fingerprint: Fingerprint,
}

impl PeerIdentity {
    /// The fingerprint of the end-entity certificate of a completed
    /// handshake. A peer that sent no certificate is an error, not an
    /// absence, so no caller can proceed without an identity to check.
    pub fn from_certs(certs: Option<&Vec<Vec<u8>>>) -> (res: Result<PeerIdentity>)
        ensures
            match certs {
                Some(list) if list@.len() > 0 => match certificate_spki(list@[0]@) {
                    Some(spki) => res matches Ok(p) && p.fingerprint@ == sha256(spki),
                    None => res matches Err(Error::Certificate(_)),
                },
                _ => res matches Err(Error::Certificate(m)) && m@
                    == "peer presented no certificate"@,
            },
    {
        match certs {
            Some(list) if list.len() > 0 => {
                let fingerprint = fingerprint_from_cert_der(list[0].as_slice())?;
                Ok(PeerIdentity { fingerprint })
            },
            _ => Err(Error::Certificate(string_of("peer presented no certificate"))),
        }
    }
}

} // verus!
