//! The fluqsr wire protocol.
//!
//! Everything here runs *inside* an established TLS 1.3 session, so this
//! layer is responsible for being unambiguous and bounded rather than for
//! secrecy: every frame is length-prefixed, and every length is checked
//! against a cap before anything is allocated.
//!
//! Two frame kinds share one stream:
//!   * control frames: one byte `0x01`, a big-endian `u32` length, then that
//!     many bytes of JSON;
//!   * data frames: one byte `0x02`, a big-endian `u32` length, then a
//!     big-endian `u32` file index and `length - 4` bytes of file content.
use vstd::prelude::*;

use crate::error::{Error, Result};
use crate::crypto::{hex_char, hex_digit};
use crate::text::{decimal, push_decimal, push_str, string_from_chars};

verus! {

/// Bumped whenever a change would confuse an older build. Peers exchange it
/// in `Hello` and refuse to continue on a mismatch.
pub const PROTOCOL_VERSION: u32 = 1;

pub const KIND_CONTROL: u8 = 1;

pub const KIND_DATA: u8 = 2;

/// Ceiling on a control frame's payload (16 MiB).
pub const MAX_CONTROL_FRAME: u32 = 16777216;

/// Ceiling on a data frame's length field (8 MiB), index included.
pub const MAX_DATA_FRAME: u32 = 8388608;

/// File content per data frame (512 KiB).
pub const CHUNK_SIZE: usize = 524288;

// ---------------------------------------------------------------------------
// Messages
// ---------------------------------------------------------------------------

/// Opening message from both sides. Deliberately without any key or
/// fingerprint: identity comes from the TLS certificate.
#[derive(Debug, Clone)]
pub struct Hello {
    pub protocol_version: u32,
    pub device_id: String,
    pub device_name: String,
    pub platform: String,
}

#[derive(Debug, Clone)]
pub struct Offer {
    pub transfer_id: String,
    pub files: Vec<OfferedFile>,
    pub total_bytes: u64,
}

#[derive(Debug, Clone)]
pub struct OfferedFile {
    pub index: u32,
    /// Sender-chosen relative path. Hostile until validated.
    pub path: String,
    pub size: u64,
}

#[derive(Debug, Clone)]
pub struct Accept {
    pub transfer_id: String,
    pub files: Vec<AcceptedFile>,
}

#[derive(Debug, Clone, Copy)]
pub struct AcceptedFile {
    pub index: u32,
    /// Byte offset to resume from; 0 for a fresh transfer.
    pub resume_offset: u64,
}

#[derive(Debug, Clone)]
pub struct Reject {
    pub transfer_id: String,
    pub reason: Option<String>,
}

/// Sent after the last chunk of a file, with the BLAKE3 hash (hex) of the
/// whole file.
#[derive(Debug, Clone)]
pub struct FileComplete {
    pub index: u32,
    pub hash: String,
}

#[derive(Debug, Clone)]
pub struct TransferComplete {
    pub transfer_id: String,
}

#[derive(Debug, Clone)]
pub struct Cancel {
    pub transfer_id: String,
    pub reason: Option<String>,
}

#[derive(Debug, Clone)]
pub enum Control {
    Hello(Hello),
    Offer(Offer),
    Accept(Accept),
    Reject(Reject),
    FileComplete(FileComplete),
    TransferComplete(TransferComplete),
    Cancel(Cancel),
}

/// One unit off the wire.
#[derive(Debug)]
pub enum Frame {
    Control(Control),
    Data { index: u32, bytes: Vec<u8> },
}

/// The name of a control message's kind, for error messages.
pub fn control_name(message: &Control) -> (res: &'static str)
    ensures
        res@ == match message {
            Control::Hello(_) => "Hello"@,
            Control::Offer(_) => "Offer"@,
            Control::Accept(_) => "Accept"@,
            Control::Reject(_) => "Reject"@,
            Control::FileComplete(_) => "FileComplete"@,
            Control::TransferComplete(_) => "TransferComplete"@,
            Control::Cancel(_) => "Cancel"@,
        },
{
    match message {
        Control::Hello(_) => "Hello",
        Control::Offer(_) => "Offer",
        Control::Accept(_) => "Accept",
        Control::Reject(_) => "Reject",
        Control::FileComplete(_) => "FileComplete",
        Control::TransferComplete(_) => "TransferComplete",
        Control::Cancel(_) => "Cancel",
    }
}

fn protocol_error(parts: &str, name: &str) -> (res: Error)
    ensures
        res is Protocol,
{
    let mut v: Vec<char> = Vec::new();
    push_str(&mut v, parts);
    push_str(&mut v, name);
    Error::Protocol(string_from_chars(&v))
}

/// The `Hello` a reply carries, when it is one at our protocol version.
pub open spec fn accepted_hello(reply: Control) -> Option<Hello> {
    match reply {
        Control::Hello(h) => if h.protocol_version == PROTOCOL_VERSION {
            Some(h)
        } else {
            None
        },
        _ => None,
    }
}

/// The peer's `Hello`, accepted only at our protocol version.
pub fn check_hello(reply: Control) -> (res: Result<Hello>)
    ensures
        match reply {
            Control::Hello(h) => if h.protocol_version == PROTOCOL_VERSION {
                res matches Ok(r) && r == h
            } else {
                res matches Err(Error::Protocol(_))
            },
            _ => res matches Err(Error::Protocol(_)),
        },
{
    match reply {
        Control::Hello(hello) => {
            if hello.protocol_version != PROTOCOL_VERSION {
                let mut v: Vec<char> = Vec::new();
                push_str(&mut v, "incompatible protocol: this device speaks v");
                push_decimal(&mut v, PROTOCOL_VERSION as u64);
                push_str(&mut v, ", ");
                push_str(&mut v, hello.device_name.as_str());
                push_str(&mut v, " speaks v");
                push_decimal(&mut v, hello.protocol_version as u64);
                Err(Error::Protocol(string_from_chars(&v)))
            } else {
                Ok(hello)
            }
        },
        other => Err(protocol_error("expected Hello, got ", control_name(&other))),
    }
}

/// A frame that must be a control message.
pub fn expect_control(frame: Option<Frame>) -> (res: Result<Control>)
    ensures
        match frame {
            Some(Frame::Control(c)) => res matches Ok(r) && r == c,
            _ => res matches Err(Error::Protocol(_)),
        },
{
    match frame {
        Some(Frame::Control(message)) => Ok(message),
        Some(Frame::Data { .. }) => Err(
            Error::Protocol(string_from_chars(&crate::text::chars_of("expected a control message, got file data"))),
        ),
        None => Err(
            Error::Protocol(string_from_chars(&crate::text::chars_of("peer closed the connection before replying"))),
        ),
    }
}

// ---------------------------------------------------------------------------
// Framing
// ---------------------------------------------------------------------------

/// Big-endian encoding of a `u32`.
pub open spec fn be32(n: u32) -> Seq<u8> {
    seq![(n / 16777216) as u8, ((n / 65536) % 256) as u8, ((n / 256) % 256) as u8, (n % 256) as u8]
}

/// The `u32` four big-endian bytes denote.
pub open spec fn be32_value(b: Seq<u8>) -> u32 {
    (b[0] * 16777216 + b[1] * 65536 + b[2] * 256 + b[3]) as u32
}

pub proof fn lemma_be32_round_trip(n: u32)
    ensures
        be32(n).len() == 4,
        be32_value(be32(n)) == n,
{
    let b = be32(n);
    assert(b[0] * 16777216 + b[1] * 65536 + b[2] * 256 + b[3] == n) by (nonlinear_arith)
        requires
            b[0] == n / 16777216,
            b[1] == (n / 65536) % 256,
            b[2] == (n / 256) % 256,
            b[3] == n % 256,
            n < 4294967296,
    {
    }
}

/// A control frame carrying `payload`.
pub open spec fn control_frame(payload: Seq<u8>) -> Seq<u8> {
    seq![KIND_CONTROL] + be32(payload.len() as u32) + payload
}

/// A data frame carrying `bytes` of file `index`.
pub open spec fn data_frame(index: u32, bytes: Seq<u8>) -> Seq<u8> {
    seq![KIND_DATA] + be32((bytes.len() + 4) as u32) + be32(index) + bytes
}

/// A frame as read off the wire, before any JSON is parsed.
#[derive(Debug)]
pub enum RawFrame {
    Control(Vec<u8>),
    Data { index: u32, bytes: Vec<u8> },
}

/// The meaning of the bytes at the front of a stream.
pub enum Decoded {
    /// The stream ended cleanly, between frames.
    End,
    /// The stream ended in the middle of a frame.
    Truncated,
    /// The header is malformed: unknown kind, or a length out of bounds.
    Invalid,
    /// A control frame with its JSON payload, and the bytes it took.
    Control(Seq<u8>, nat),
    /// A data frame, and the bytes it took.
    Data(u32, Seq<u8>, nat),
}

/// What a stream's first frame is.
pub open spec fn decode_spec(buf: Seq<u8>) -> Decoded {
    if buf.len() == 0 {
        Decoded::End
    } else if buf.len() < 5 {
        Decoded::Truncated
    } else {
        let kind = buf[0];
        let len = be32_value(buf.subrange(1, 5));
        if kind == KIND_CONTROL {
            if len == 0 || len > MAX_CONTROL_FRAME {
                Decoded::Invalid
            } else if buf.len() < 5 + len {
                Decoded::Truncated
            } else {
                Decoded::Control(buf.subrange(5, 5 + len), (5 + len) as nat)
            }
        } else if kind == KIND_DATA {
            if len < 4 || len > MAX_DATA_FRAME {
                Decoded::Invalid
            } else if buf.len() < 5 + len {
                Decoded::Truncated
            } else {
                Decoded::Data(
                    be32_value(buf.subrange(5, 9)),
                    buf.subrange(9, 5 + len),
                    (5 + len) as nat,
                )
            }
        } else {
            Decoded::Invalid
        }
    }
}

fn push_be32(v: &mut Vec<u8>, n: u32)
    ensures
        final(v)@ == old(v)@ + be32(n),
{
    v.push((n / 16777216) as u8);
    v.push(((n / 65536) % 256) as u8);
    v.push(((n / 256) % 256) as u8);
    v.push((n % 256) as u8);
    proof {
        assert(final(v)@ =~= old(v)@ + be32(n));
    }
}

fn read_be32(buf: &[u8], at: usize) -> (res: u32)
    requires
        at + 4 <= buf@.len(),
    ensures
        res == be32_value(buf@.subrange(at as int, at + 4)),
{
    let b0 = buf[at] as u32;
    let b1 = buf[at + 1] as u32;
    let b2 = buf[at + 2] as u32;
    let b3 = buf[at + 3] as u32;
    let ghost s = buf@.subrange(at as int, at + 4);
    assert(s[0] == b0 && s[1] == b1 && s[2] == b2 && s[3] == b3);
    b0 * 16777216 + b1 * 65536 + b2 * 256 + b3
}

fn copy_range(buf: &[u8], start: usize, end: usize) -> (res: Vec<u8>)
    requires
        start <= end <= buf@.len(),
    ensures
        res@ == buf@.subrange(start as int, end as int),
{
    let mut v: Vec<u8> = Vec::new();
    let mut i: usize = start;
    while i < end
        invariant
            start <= i <= end <= buf@.len(),
            v@ == buf@.subrange(start as int, i as int),
        decreases end - i,
    {
        v.push(buf[i]);
        i = i + 1;
        proof {
            assert(buf@.subrange(start as int, i as int) =~= buf@.subrange(start as int, i - 1).push(
                buf@[i - 1],
            ));
        }
    }
    v
}

fn append(v: &mut Vec<u8>, bytes: &[u8])
    ensures
        final(v)@ == old(v)@ + bytes@,
{
    let mut i: usize = 0;
    while i < bytes.len()
        invariant
            i <= bytes@.len(),
            v@ == old(v)@ + bytes@.take(i as int),
        decreases bytes@.len() - i,
    {
        v.push(bytes[i]);
        i = i + 1;
        proof {
            assert(bytes@.take(i as int) =~= bytes@.take(i - 1).push(bytes@[i - 1]));
        }
    }
    proof {
        assert(bytes@.take(bytes@.len() as int) =~= bytes@);
    }
}

/// Frames a serialized control message. Payloads over the cap are refused.
pub fn encode_control_frame(payload: &[u8]) -> (res: Result<Vec<u8>>)
    ensures
        payload@.len() <= MAX_CONTROL_FRAME ==> (res matches Ok(v) && v@ == control_frame(payload@)),
        payload@.len() > MAX_CONTROL_FRAME ==> res matches Err(Error::Protocol(_)),
{
    if payload.len() > MAX_CONTROL_FRAME as usize {
        return Err(protocol_error("control message is too large", ""));
    }
    let mut v: Vec<u8> = Vec::new();
    v.push(KIND_CONTROL);
    push_be32(&mut v, payload.len() as u32);
    append(&mut v, payload);
    proof {
        assert(v@ =~= control_frame(payload@));
    }
    Ok(v)
}

/// Frames a chunk of file `index`. Chunks whose frame would exceed the cap
/// are refused.
pub fn encode_data_frame(index: u32, bytes: &[u8]) -> (res: Result<Vec<u8>>)
    ensures
        bytes@.len() + 4 <= MAX_DATA_FRAME ==> (res matches Ok(v) && v@ == data_frame(index, bytes@)),
        bytes@.len() + 4 > MAX_DATA_FRAME ==> res matches Err(Error::Protocol(_)),
{
    if bytes.len() > (MAX_DATA_FRAME - 4) as usize {
        return Err(protocol_error("data chunk is too large", ""));
    }
    let mut v: Vec<u8> = Vec::new();
    v.push(KIND_DATA);
    push_be32(&mut v, (bytes.len() + 4) as u32);
    push_be32(&mut v, index);
    append(&mut v, bytes);
    proof {
        assert(v@ =~= data_frame(index, bytes@));
    }
    Ok(v)
}

/// What the header says follows it.
#[derive(Debug, Clone, Copy, PartialEq, Eq, Structural)]
pub enum FrameBody {
    /// `len` bytes of JSON.
    Control { len: u32 },
    /// A file index and `len - 4` bytes of content.
    Data { len: u32 },
}

/// Checks a frame header before anything is allocated for its body.
pub fn check_header(kind: u8, len: u32) -> (res: Result<FrameBody>)
    ensures
        kind == KIND_CONTROL && 0 < len <= MAX_CONTROL_FRAME ==> res == Ok::<FrameBody, Error>(
            FrameBody::Control { len },
        ),
        kind == KIND_DATA && 4 <= len <= MAX_DATA_FRAME ==> res == Ok::<FrameBody, Error>(
            FrameBody::Data { len },
        ),
        kind == KIND_CONTROL && !(0 < len <= MAX_CONTROL_FRAME) ==> (res matches Err(
            Error::Protocol(m),
        ) && m@ == "control frame claims an invalid length: "@ + decimal(len as nat)),
        kind == KIND_DATA && !(4 <= len <= MAX_DATA_FRAME) ==> (res matches Err(Error::Protocol(m))
            && m@ == "data frame claims an invalid length: "@ + decimal(len as nat)),
        kind != KIND_CONTROL && kind != KIND_DATA ==> (res matches Err(Error::Protocol(m)) && m@
            == "unknown frame kind: 0x"@ + seq![
            hex_char((kind / 16) as nat),
            hex_char((kind % 16) as nat),
        ]),
{
    if kind == KIND_CONTROL {
        if len == 0 || len > MAX_CONTROL_FRAME {
            let mut v: Vec<char> = Vec::new();
            push_str(&mut v, "control frame claims an invalid length: ");
            push_decimal(&mut v, len as u64);
            return Err(Error::Protocol(string_from_chars(&v)));
        }
        Ok(FrameBody::Control { len })
    } else if kind == KIND_DATA {
        if len < 4 || len > MAX_DATA_FRAME {
            let mut v: Vec<char> = Vec::new();
            push_str(&mut v, "data frame claims an invalid length: ");
            push_decimal(&mut v, len as u64);
            return Err(Error::Protocol(string_from_chars(&v)));
        }
        Ok(FrameBody::Data { len })
    } else {
        let mut v: Vec<char> = Vec::new();
        push_str(&mut v, "unknown frame kind: 0x");
        v.push(hex_digit(kind / 16));
        v.push(hex_digit(kind % 16));
        Err(Error::Protocol(string_from_chars(&v)))
    }
}

fn truncated() -> (res: Error)
    ensures
        res matches Error::Io(m) && m@ == "unexpected end of file"@,
{
    Error::Io(string_from_chars(&crate::text::chars_of("unexpected end of file")))
}

/// Reads the first frame of a byte stream. `Ok(None)` is a clean end of
/// stream; a stream cut inside a frame is an I/O error; a bad header is a
/// protocol error. On success, also returns how many bytes the frame took.
pub fn decode_frame(buf: &[u8]) -> (res: Result<Option<(RawFrame, usize)>>)
    ensures
        match decode_spec(buf@) {
            Decoded::End => res matches Ok(None),
            Decoded::Truncated => res matches Err(Error::Io(m)) && m@ == "unexpected end of file"@,
            Decoded::Invalid => res matches Err(Error::Protocol(_)),
            Decoded::Control(p, n) => res matches Ok(Some((RawFrame::Control(q), m))) && q@ == p
                && m == n,
            Decoded::Data(i, b, n) => res matches Ok(Some((RawFrame::Data { index, bytes }, m)))
                && index == i && bytes@ == b && m == n,
        },
{
    if buf.len() == 0 {
        return Ok(None);
    }
    if buf.len() < 5 {
        return Err(truncated());
    }
    let kind = buf[0];
    let len = read_be32(buf, 1);
    match check_header(kind, len) {
        Err(e) => Err(e),
        Ok(FrameBody::Control { len }) => {
            if buf.len() - 5 < len as usize {
                return Err(truncated());
            }
            let payload = copy_range(buf, 5, 5 + len as usize);
            Ok(Some((RawFrame::Control(payload), 5 + len as usize)))
        },
        Ok(FrameBody::Data { len }) => {
            if buf.len() - 5 < len as usize {
                return Err(truncated());
            }
            let index = read_be32(buf, 5);
            let bytes = copy_range(buf, 9, 5 + len as usize);
            Ok(Some((RawFrame::Data { index, bytes }, 5 + len as usize)))
        },
    }
}

/// Reading back a control frame gives its payload, whatever follows it on
/// the stream.
pub proof fn lemma_control_frame_round_trip(payload: Seq<u8>, rest: Seq<u8>)
    requires
        0 < payload.len() <= MAX_CONTROL_FRAME,
    ensures
        decode_spec(control_frame(payload) + rest) == Decoded::Control(
            payload,
            (5 + payload.len()) as nat,
        ),
{
    let n = payload.len() as u32;
    lemma_be32_round_trip(n);
    let buf = control_frame(payload) + rest;
    assert(buf.subrange(1, 5) =~= be32(n));
    assert(buf.subrange(5, 5 + n) =~= payload);
}

/// Reading back a data frame gives its index and bytes, whatever follows it
/// on the stream.
pub proof fn lemma_data_frame_round_trip(index: u32, bytes: Seq<u8>, rest: Seq<u8>)
    requires
        bytes.len() + 4 <= MAX_DATA_FRAME,
    ensures
        decode_spec(data_frame(index, bytes) + rest) == Decoded::Data(
            index,
            bytes,
            (9 + bytes.len()) as nat,
        ),
{
    let n = (bytes.len() + 4) as u32;
    lemma_be32_round_trip(n);
    lemma_be32_round_trip(index);
    let buf = data_frame(index, bytes) + rest;
    assert(buf.subrange(1, 5) =~= be32(n));
    assert(buf.subrange(5, 9) =~= be32(index));
    assert(buf.subrange(9, 5 + n) =~= bytes);
}

/// Frames written one after another read back in the order they were
/// written: a control frame, a data frame and another control frame, each
/// decoded from where the one before it ended, then a clean end.
pub proof fn lemma_frames_keep_their_order(
    first: Seq<u8>,
    index: u32,
    bytes: Seq<u8>,
    second: Seq<u8>,
)
    requires
        0 < first.len() <= MAX_CONTROL_FRAME,
        bytes.len() + 4 <= MAX_DATA_FRAME,
        0 < second.len() <= MAX_CONTROL_FRAME,
    ensures
        decode_spec(control_frame(first) + data_frame(index, bytes) + control_frame(second))
            == Decoded::Control(first, (5 + first.len()) as nat),
        decode_spec(
            (control_frame(first) + data_frame(index, bytes) + control_frame(second)).skip(
                5 + first.len() as int,
            ),
        ) == Decoded::Data(index, bytes, (9 + bytes.len()) as nat),
        decode_spec(
            (control_frame(first) + data_frame(index, bytes) + control_frame(second)).skip(
                14 + first.len() + bytes.len() as int,
            ),
        ) == Decoded::Control(second, (5 + second.len()) as nat),
        decode_spec(
            (control_frame(first) + data_frame(index, bytes) + control_frame(second)).skip(
                19 + first.len() + bytes.len() + second.len() as int,
            ),
        ) == Decoded::End,
{
    let a = control_frame(first);
    let b = data_frame(index, bytes);
    let c = control_frame(second);
    let all = a + b + c;
    assert(a.len() == 5 + first.len());
    assert(b.len() == 9 + bytes.len());
    assert(c.len() == 5 + second.len());
    lemma_control_frame_round_trip(first, b + c);
    assert(all =~= a + (b + c));
    assert(all.skip(a.len() as int) =~= b + c);
    lemma_data_frame_round_trip(index, bytes, c);
    assert(all.skip(a.len() + b.len() as int) =~= c + Seq::<u8>::empty());
    lemma_control_frame_round_trip(second, Seq::empty());
    assert(all.skip(a.len() + b.len() + c.len() as int) =~= Seq::<u8>::empty());
}

/// A clean end of stream is not an error, and a lone header byte is.
pub proof fn lemma_end_of_stream()
    ensures
        decode_spec(Seq::empty()) == Decoded::End,
        forall|k: u8| decode_spec(seq![k]) == Decoded::Truncated,
{
}

} // verus!
