//! The one error type every fallible path of the library returns.
use vstd::prelude::*;

use crate::text::{push_str, string_from_chars};

verus! {

/// Every fallible path funnels through this. Variants that wrap a failure of
/// the surrounding system (I/O, JSON, TLS) carry that failure's message.
#[derive(Debug, Clone)]
pub enum Error {
    Io(String),
    Serde(String),
    Tls(String),
    Certificate(String),
    Discovery(String),
    /// The peer spoke something we could not parse, or violated the protocol.
    Protocol(String),
    /// The peer's key does not match the fingerprint pinned for it. This is
    /// the signature of a man-in-the-middle, not a routine failure.
    IdentityMismatch { device_id: String, expected: String, actual: String },
    /// An incoming path failed validation. Refusing is always correct here.
    UnsafePath(String),
    UnknownPeer(String),
    UnknownTransfer(String),
    Declined(Option<String>),
    Cancelled,
    Other(String),
}

pub type Result<T> = core::result::Result<T, Error>;

/// The text an error is shown to the user as.
pub open spec fn message_of(e: Error) -> Seq<char> {
    match e {
        Error::Io(m) => "io error: "@ + m@,
        Error::Serde(m) => "malformed data: "@ + m@,
        Error::Tls(m) => "tls error: "@ + m@,
        Error::Certificate(m) => "certificate error: "@ + m@,
        Error::Discovery(m) => "discovery error: "@ + m@,
        Error::Protocol(m) => "protocol error: "@ + m@,
        Error::IdentityMismatch { device_id, expected, actual } => "identity mismatch for "@
            + device_id@ + ": expected "@ + expected@ + ", got "@ + actual@,
        Error::UnsafePath(m) => "rejected unsafe path: "@ + m@,
        Error::UnknownPeer(m) => "peer not found: "@ + m@,
        Error::UnknownTransfer(m) => "transfer not found: "@ + m@,
        Error::Declined(None) => "transfer declined by peer"@,
        Error::Declined(Some(r)) => "transfer declined by peer"@ + ": "@ + r@,
        Error::Cancelled => "transfer cancelled"@,
        Error::Other(m) => m@,
    }
}

impl Error {
    /// The text this error is shown to the user as.
    pub fn message(&self) -> (res: String)
        ensures
            res@ == message_of(*self),
    {
        let mut v: Vec<char> = Vec::new();
        match self {
            Error::Io(m) => {
                push_str(&mut v, "io error: ");
                push_str(&mut v, m.as_str());
            },
            Error::Serde(m) => {
                push_str(&mut v, "malformed data: ");
                push_str(&mut v, m.as_str());
            },
            Error::Tls(m) => {
                push_str(&mut v, "tls error: ");
                push_str(&mut v, m.as_str());
            },
            Error::Certificate(m) => {
                push_str(&mut v, "certificate error: ");
                push_str(&mut v, m.as_str());
            },
            Error::Discovery(m) => {
                push_str(&mut v, "discovery error: ");
                push_str(&mut v, m.as_str());
            },
            Error::Protocol(m) => {
                push_str(&mut v, "protocol error: ");
                push_str(&mut v, m.as_str());
            },
            Error::IdentityMismatch { device_id, expected, actual } => {
                push_str(&mut v, "identity mismatch for ");
                push_str(&mut v, device_id.as_str());
                push_str(&mut v, ": expected ");
                push_str(&mut v, expected.as_str());
                push_str(&mut v, ", got ");
                push_str(&mut v, actual.as_str());
            },
            Error::UnsafePath(m) => {
                push_str(&mut v, "rejected unsafe path: ");
                push_str(&mut v, m.as_str());
            },
            Error::UnknownPeer(m) => {
                push_str(&mut v, "peer not found: ");
                push_str(&mut v, m.as_str());
            },
            Error::UnknownTransfer(m) => {
                push_str(&mut v, "transfer not found: ");
                push_str(&mut v, m.as_str());
            },
            Error::Declined(reason) => {
                push_str(&mut v, "transfer declined by peer");
                match reason {
                    Some(r) => {
                        push_str(&mut v, ": ");
                        push_str(&mut v, r.as_str());
                    },
                    None => {},
                }
            },
            Error::Cancelled => {
                push_str(&mut v, "transfer cancelled");
            },
            Error::Other(m) => {
                push_str(&mut v, m.as_str());
            },
        }
        string_from_chars(&v)
    }
}

} // verus!
